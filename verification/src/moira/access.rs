//! What accounts may do.

use std::fmt::Debug;
use std::hash::Hash;

use vstd::prelude::*;

use super::account::Account;

verus! {

/// Decides what an account may do.
pub trait AccessPolicy: Send + Sync {
    type Account: Account;

    /// What can be permitted.
    type Permission: Clone + Eq + Hash + Send + Sync + Debug;

    /// Whether the account has a permission.
    spec fn permits(&self, account: &Self::Account, permission: &Self::Permission) -> bool;

    fn has_permission(&self, account: &Self::Account, permission: &Self::Permission) -> (b: bool)
        ensures
            b == self.permits(account, permission),
    ;

    /// All permissions of the account.
    fn permissions(&self, account: &Self::Account) -> (all: Vec<Self::Permission>)
        ensures
            forall|p: Self::Permission| #[trigger]
                all@.contains(p) <==> self.permits(account, &p),
    ;
}

} // verus!
