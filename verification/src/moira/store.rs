//! Where accounts are kept.

use std::fmt::{Debug, Display};

use vstd::prelude::*;
use vstd::string::to_string_from_display_ensures;

use super::account::Account;

verus! {

/// Why an account could not be found or kept. `E` is the error of the implementation
/// behind it.
#[derive(Debug)]
pub enum AccountStoreError<E> {
    NotFound,
    /// There is an account of this name or identifier.
    AlreadyExists,
    /// What is behind it failed.
    Backend(E),
}

impl<E: Display> AccountStoreError<E> {
    /// Whether this is what is said of the error. Of one from behind, its own words come
    /// last.
    pub open spec fn worded(&self, text: Seq<char>) -> bool {
        match self {
            AccountStoreError::NotFound => text == "account not found"@,
            AccountStoreError::AlreadyExists => text == "account already exists"@,
            AccountStoreError::Backend(e) => exists|own: String| #[trigger]
                to_string_from_display_ensures(e, own) && text == "backend error: "@ + own@,
        }
    }

    /// What is said of the error.
    pub fn message(&self) -> (s: String)
        ensures
            self.worded(s@),
    {
        match self {
            AccountStoreError::NotFound => "account not found".to_owned(),
            AccountStoreError::AlreadyExists => "account already exists".to_owned(),
            AccountStoreError::Backend(e) => {
                let own = e.to_string();
                "backend error: ".to_owned().concat(own.as_str())
            },
        }
    }
}

/// Finds accounts.
pub trait AccountStore: Send + Sync {
    type Account: Account;

    type Error: Debug + Display + Send + Sync;

    /// The account of a name, if there is one. Which names are the same, whether in
    /// capitals or not, is up to the store.
    fn find_by_username(&self, username: &str) -> (r: Result<Option<Self::Account>, Self::Error>);

    /// The account of an identifier, if there is one.
    fn find_by_id(&self, id: &<Self::Account as Account>::Id) -> (r: Result<
        Option<Self::Account>,
        Self::Error,
    >)
        ensures
            r matches Ok(Some(account)) ==> account.id_spec() == *id,
    ;
}

} // verus!
