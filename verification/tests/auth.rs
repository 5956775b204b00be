//! Credential hashing and the user directory: registration, login, lookup.

use viman::errors::ErrorKind;
use viman::password::Password;
use viman::user::{LoginInfo, NewUser, UserHandler, UserStore};

const HASH_SECRET: &str = "unit-test-hashing-secret";
const JWT_SECRET: &str = "unit-test-signing-secret";

fn register(store: &mut UserStore, username: &str, email: &str, password: &str) -> Result<viman::user::User, ErrorKind> {
    UserHandler::create(
        store,
        NewUser {
            username: username.to_string(),
            email: email.to_string(),
            password: password.to_string(),
        },
        HASH_SECRET,
    )
}

fn login(store: &UserStore, username: &str, password: &str, now: i64) -> Result<viman::jwt::JwtToken, ErrorKind> {
    UserHandler::login(
        store,
        LoginInfo { username: username.to_string(), password: password.to_string() },
        HASH_SECRET,
        JWT_SECRET,
        now,
    )
}

#[test]
fn hash_verifies_same_password_and_rejects_others() {
    let h = Password::hash("pw123", HASH_SECRET).unwrap();
    assert!(Password::verify("pw123", &h, HASH_SECRET));
    assert!(!Password::verify("pw124", &h, HASH_SECRET));
    assert!(!Password::verify("", &h, HASH_SECRET));
    assert!(!Password::verify("pw123", &h, "another-secret"));
}

#[test]
fn hash_is_salted_per_call() {
    let h1 = Password::hash("pw123", HASH_SECRET).unwrap();
    let h2 = Password::hash("pw123", HASH_SECRET).unwrap();
    assert_ne!(h1, h2);
    assert!(Password::verify("pw123", &h1, HASH_SECRET));
    assert!(Password::verify("pw123", &h2, HASH_SECRET));
}

#[test]
fn hash_requires_a_secret() {
    let r = Password::hash("pw123", "");
    assert_eq!(r.unwrap_err(), ErrorKind::ConfigMissing);
}

#[test]
fn verify_tolerates_malformed_hashes() {
    assert!(!Password::verify("pw123", "", HASH_SECRET));
    assert!(!Password::verify("pw123", "not-a-phc-string", HASH_SECRET));
    assert!(!Password::verify("pw123", "$argon2id$v=19$broken", HASH_SECRET));
}

#[test]
fn register_unique_then_conflict() {
    let mut store = UserStore::new();
    let u = register(&mut store, "alice", "a@x.com", "pw123").unwrap();
    assert_eq!(u.id, 1);
    assert_eq!(u.username, "alice");
    assert_eq!(u.email, "a@x.com");
    assert!(u.status);

    // same username, fresh email
    let r = register(&mut store, "alice", "other@x.com", "pw123");
    assert_eq!(r.unwrap_err(), ErrorKind::Conflict);
    // fresh username, same email
    let r = register(&mut store, "bob", "a@x.com", "pw123");
    assert_eq!(r.unwrap_err(), ErrorKind::Conflict);
    // both fresh
    let v = register(&mut store, "bob", "b@x.com", "hunter2").unwrap();
    assert_eq!(v.id, 2);
}

#[test]
fn stored_password_is_a_hash_not_the_plaintext() {
    let mut store = UserStore::new();
    register(&mut store, "alice", "a@x.com", "pw123").unwrap();
    let row = store.find_by_username("alice").unwrap();
    assert_eq!(row.username, "alice");
    assert_ne!(row.password, "pw123");
    assert!(Password::verify("pw123", &row.password, HASH_SECRET));
}

#[test]
fn register_requires_a_secret() {
    let mut store = UserStore::new();
    let r = UserHandler::create(
        &mut store,
        NewUser {
            username: "alice".to_string(),
            email: "a@x.com".to_string(),
            password: "pw123".to_string(),
        },
        "",
    );
    assert_eq!(r.unwrap_err(), ErrorKind::ConfigMissing);
}

#[test]
fn login_outcomes_by_credentials_and_status() {
    let mut store = UserStore::new();
    let u = register(&mut store, "alice", "a@x.com", "pw123").unwrap();

    let t = login(&store, "alice", "pw123", 1_700_000_000).unwrap();
    assert_eq!(t.exp, 1_700_000_000 + 86400);
    assert!(!t.token.is_empty());

    let r = login(&store, "alice", "wrong", 1_700_000_000);
    assert_eq!(r.unwrap_err(), ErrorKind::WrongCredentials);

    let r = login(&store, "nobody", "pw123", 1_700_000_000);
    assert_eq!(r.unwrap_err(), ErrorKind::NotFound);

    // disable the account: right password now answers AccountBlocked
    assert!(store.set_status(u.id, false));
    let r = login(&store, "alice", "pw123", 1_700_000_000);
    assert_eq!(r.unwrap_err(), ErrorKind::AccountBlocked);

    // the password is checked before the status flag
    let r = login(&store, "alice", "wrong", 1_700_000_000);
    assert_eq!(r.unwrap_err(), ErrorKind::WrongCredentials);
}

#[test]
fn login_requires_signing_secret() {
    let mut store = UserStore::new();
    register(&mut store, "alice", "a@x.com", "pw123").unwrap();
    let r = UserHandler::login(
        &store,
        LoginInfo { username: "alice".to_string(), password: "pw123".to_string() },
        HASH_SECRET,
        "",
        0,
    );
    assert_eq!(r.unwrap_err(), ErrorKind::ConfigMissing);
}

#[test]
fn by_id_delete_and_list() {
    let mut store = UserStore::new();
    let a = register(&mut store, "alice", "a@x.com", "pw123").unwrap();
    let b = register(&mut store, "bob", "b@x.com", "pw456").unwrap();

    let got = UserHandler::by_id(&store, a.id).unwrap();
    assert_eq!(got.username, "alice");
    assert_eq!(UserHandler::by_id(&store, 99).unwrap_err(), ErrorKind::NotFound);

    let all = store.list();
    assert_eq!(all.len(), 2);
    assert_eq!(all[0].username, "alice");
    assert_eq!(all[1].username, "bob");

    assert!(UserHandler::delete(&mut store, a.id));
    assert!(!UserHandler::delete(&mut store, a.id));
    assert_eq!(UserHandler::by_id(&store, a.id).unwrap_err(), ErrorKind::NotFound);
    let got = UserHandler::by_id(&store, b.id).unwrap();
    assert_eq!(got.username, "bob");
}
