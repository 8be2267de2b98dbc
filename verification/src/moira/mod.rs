//! Who someone is and what they may do.
//!
//! Accounts, their authentication, the sessions between the phases of a login, access
//! and storage. How each is done is up to those who implement the traits.

pub mod access;
pub mod account;
pub mod auth;
pub mod session;
pub mod store;

pub use access::AccessPolicy;
pub use account::{Account, AccountStatus};
pub use auth::{AuthError, Authenticator};
pub use session::{SessionError, SessionManager, SessionToken};
pub use store::{AccountStore, AccountStoreError};
