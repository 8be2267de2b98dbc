//! Accounts and what is said of errors.

use framework::moira::{
    AccessPolicy, Account, AccountStatus, AccountStore, AccountStoreError, AuthError,
    Authenticator, SessionError,
};

#[derive(Debug, Clone)]
struct User {
    id: u32,
    name: String,
    status: AccountStatus,
}

impl Account for User {
    type Id = u32;

    fn id_spec(&self) -> u32 {
        unreachable!()
    }

    fn username_spec(&self) -> vstd::seq::Seq<char> {
        unreachable!()
    }

    fn status_spec(&self) -> AccountStatus {
        unreachable!()
    }

    fn id(&self) -> &u32 {
        &self.id
    }

    fn username(&self) -> &str {
        &self.name
    }

    fn status(&self) -> AccountStatus {
        self.status
    }
}

struct Users(Vec<User>);

impl AccountStore for Users {
    type Account = User;
    type Error = String;

    fn find_by_username(&self, username: &str) -> Result<Option<User>, String> {
        Ok(self.0.iter().find(|u| u.name == username).cloned())
    }

    fn find_by_id(&self, id: &u32) -> Result<Option<User>, String> {
        Ok(self.0.iter().find(|u| u.id == *id).cloned())
    }
}

impl Authenticator for Users {
    type Account = User;
    type Credential = u32;
    type Error = String;

    fn authenticate(&self, username: &str, credential: &u32) -> Result<User, AuthError<String>> {
        let user = match self.find_by_username(username) {
            Ok(Some(user)) => user,
            Ok(None) => return Err(AuthError::AccountNotFound),
            Err(e) => return Err(AuthError::Backend(e)),
        };
        match user.status() {
            AccountStatus::Suspended => Err(AuthError::AccountSuspended),
            AccountStatus::Banned => Err(AuthError::AccountBanned),
            _ if *user.id() != *credential => Err(AuthError::InvalidCredentials),
            _ => Ok(user),
        }
    }
}

impl AccessPolicy for Users {
    type Account = User;
    type Permission = &'static str;

    fn permits(&self, _account: &User, _permission: &&'static str) -> bool {
        unreachable!()
    }

    fn has_permission(&self, account: &User, permission: &&'static str) -> bool {
        self.permissions(account).contains(permission)
    }

    fn permissions(&self, account: &User) -> Vec<&'static str> {
        if account.status().can_login() {
            vec!["login"]
        } else {
            vec![]
        }
    }
}

fn users() -> Users {
    let user = |id, name: &str, status| User { id, name: name.to_string(), status };
    Users(vec![
        user(1, "ann", AccountStatus::Active),
        user(2, "bob", AccountStatus::Banned),
        user(3, "cid", AccountStatus::Suspended),
    ])
}

#[test]
fn only_active_accounts_can_log_in() {
    assert!(AccountStatus::Active.can_login());
    assert!(!AccountStatus::Suspended.can_login());
    assert!(!AccountStatus::Banned.can_login());
    assert!(!AccountStatus::Inactive.can_login());
}

#[test]
fn accounts_are_found_and_authenticated() {
    let u = users();
    assert_eq!(u.find_by_id(&2).unwrap().unwrap().username(), "bob");
    assert!(u.authenticate("ann", &1).is_ok());
    let words = |name, id| u.authenticate(name, &id).err().unwrap().message();
    assert_eq!(words("ann", 9), "invalid credentials");
    assert_eq!(words("bob", 2), "account banned");
    assert_eq!(words("cid", 3), "account suspended");
    assert_eq!(words("dan", 4), "account not found");
    assert!(u.has_permission(&u.0[0], &"login"));
    assert!(!u.has_permission(&u.0[1], &"login"));
}

#[test]
fn errors_are_put_into_words() {
    assert_eq!(AuthError::<String>::RateLimited.message(), "rate limited");
    assert_eq!(AuthError::Backend("disk full").message(), "backend error: disk full");
    assert_eq!(SessionError::<String>::InvalidToken.message(), "invalid session token");
    assert_eq!(SessionError::<String>::Expired.message(), "session expired");
    assert_eq!(SessionError::<String>::AccountSuspended.message(), "account suspended");
    assert_eq!(SessionError::Backend(7).message(), "backend error: 7");
    assert_eq!(AccountStoreError::<String>::NotFound.message(), "account not found");
    assert_eq!(AccountStoreError::<String>::AlreadyExists.message(), "account already exists");
    assert_eq!(AccountStoreError::Backend('x').message(), "backend error: x");
}
