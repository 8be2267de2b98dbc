//! Accounts and their status.

use std::fmt::{Debug, Display};
use std::hash::Hash;

use vstd::prelude::*;

verus! {

/// The status of an account.
#[derive(Debug, Clone, Copy, PartialEq, Eq, Hash, Structural)]
pub enum AccountStatus {
    /// Logins are allowed.
    Active,
    /// Locked for a time.
    Suspended,
    /// Locked for good.
    Banned,
    /// Asleep, or not confirmed yet.
    Inactive,
}

impl AccountStatus {
    /// Whether the account can pass authentication: only an active one can.
    pub fn can_login(&self) -> (b: bool)
        ensures
            b == (*self == AccountStatus::Active),
    {
        matches!(self, AccountStatus::Active)
    }

    /// Whether the account is locked, for a time or for good.
    pub open spec fn locked(self) -> bool {
        self == AccountStatus::Suspended || self == AccountStatus::Banned
    }
}

/// An account of a user.
///
/// How it is stored and what else it holds is up to the implementation.
pub trait Account: Send + Sync + Clone + Debug {
    /// What identifies an account.
    type Id: Clone + Eq + Hash + Send + Sync + Debug + Display;

    /// The identifier of the account.
    spec fn id_spec(&self) -> Self::Id;

    /// The name that the user logs in with.
    spec fn username_spec(&self) -> Seq<char>;

    /// The status of the account.
    spec fn status_spec(&self) -> AccountStatus;

    fn id(&self) -> (id: &Self::Id)
        ensures
            *id == self.id_spec(),
    ;

    fn username(&self) -> (name: &str)
        ensures
            name@ == self.username_spec(),
    ;

    fn status(&self) -> (s: AccountStatus)
        ensures
            s == self.status_spec(),
    ;
}

} // verus!
