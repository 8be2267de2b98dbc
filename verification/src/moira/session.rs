//! Sessions, which last from one phase of a login to the next.

use std::fmt::{Debug, Display};
use std::hash::Hash;

use vstd::prelude::*;
use vstd::string::to_string_from_display_ensures;

use super::account::Account;

verus! {

/// Why a session is not valid. `E` is the error of the implementation behind it.
#[derive(Debug)]
pub enum SessionError<E> {
    /// The token is unknown or damaged.
    InvalidToken,
    /// The session has lasted too long.
    Expired,
    /// The account was locked after the session began.
    AccountSuspended,
    /// What is behind it failed.
    Backend(E),
}

impl<E: Display> SessionError<E> {
    /// Whether this is what is said of the error. Of one from behind, its own words come
    /// last.
    pub open spec fn worded(&self, text: Seq<char>) -> bool {
        match self {
            SessionError::InvalidToken => text == "invalid session token"@,
            SessionError::Expired => text == "session expired"@,
            SessionError::AccountSuspended => text == "account suspended"@,
            SessionError::Backend(e) => exists|own: String| #[trigger]
                to_string_from_display_ensures(e, own) && text == "backend error: "@ + own@,
        }
    }

    /// What is said of the error.
    pub fn message(&self) -> (s: String)
        ensures
            self.worded(s@),
    {
        match self {
            SessionError::InvalidToken => "invalid session token".to_owned(),
            SessionError::Expired => "session expired".to_owned(),
            SessionError::AccountSuspended => "account suspended".to_owned(),
            SessionError::Backend(e) => {
                let own = e.to_string();
                "backend error: ".to_owned().concat(own.as_str())
            },
        }
    }
}

/// What identifies a session. Its format is up to the implementation.
pub trait SessionToken: Clone + Eq + Hash + Send + Sync + Debug {

}

/// Begins, checks and ends sessions.
pub trait SessionManager: Send + Sync {
    type Account: Account;

    type Token: SessionToken;

    type Error: Debug + Display + Send + Sync;

    /// Begins a session for an account that was authenticated.
    fn create_session(&self, account: &Self::Account) -> Result<Self::Token, Self::Error>;

    /// The account of a session that is still valid.
    fn validate_session(&self, token: &Self::Token) -> Result<
        Self::Account,
        SessionError<Self::Error>,
    >;

    /// Ends a session.
    fn destroy_session(&self, token: &Self::Token) -> Result<(), Self::Error>;
}

} // verus!
