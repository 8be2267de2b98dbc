//! Whether someone is who they say they are.

use std::fmt::{Debug, Display};

use vstd::prelude::*;
use vstd::string::to_string_from_display_ensures;

use super::account::Account;

verus! {

/// Why an authentication failed. `E` is the error of the implementation behind it.
#[derive(Debug)]
pub enum AuthError<E> {
    InvalidCredentials,
    /// There is no account of this name.
    AccountNotFound,
    /// Locked for a time.
    AccountSuspended,
    /// Locked for good.
    AccountBanned,
    /// Too many attempts.
    RateLimited,
    /// What is behind it failed.
    Backend(E),
}

impl<E: Display> AuthError<E> {
    /// Whether this is what is said of the error. Of one from behind, its own words come
    /// last.
    pub open spec fn worded(&self, text: Seq<char>) -> bool {
        match self {
            AuthError::InvalidCredentials => text == "invalid credentials"@,
            AuthError::AccountNotFound => text == "account not found"@,
            AuthError::AccountSuspended => text == "account suspended"@,
            AuthError::AccountBanned => text == "account banned"@,
            AuthError::RateLimited => text == "rate limited"@,
            AuthError::Backend(e) => exists|own: String| #[trigger]
                to_string_from_display_ensures(e, own) && text == "backend error: "@ + own@,
        }
    }

    /// What is said of the error.
    pub fn message(&self) -> (s: String)
        ensures
            self.worded(s@),
    {
        match self {
            AuthError::InvalidCredentials => "invalid credentials".to_owned(),
            AuthError::AccountNotFound => "account not found".to_owned(),
            AuthError::AccountSuspended => "account suspended".to_owned(),
            AuthError::AccountBanned => "account banned".to_owned(),
            AuthError::RateLimited => "rate limited".to_owned(),
            AuthError::Backend(e) => {
                let own = e.to_string();
                "backend error: ".to_owned().concat(own.as_str())
            },
        }
    }
}

/// Checks the credentials of users.
pub trait Authenticator: Send + Sync {
    type Account: Account;

    /// A password, a hash, a token: whatever the implementation takes.
    type Credential: Send;

    type Error: Debug + Display + Send + Sync;

    /// The account of a user whose credentials are right. A locked account is never
    /// returned, but the error that says how it is locked.
    fn authenticate(&self, username: &str, credential: &Self::Credential) -> (r: Result<
        Self::Account,
        AuthError<Self::Error>,
    >)
        ensures
            r matches Ok(account) ==> !account.status_spec().locked(),
    ;
}

} // verus!
