//! The request guard end to end, and the balance handlers.

use viman::balance::{BType, BalanceHandler, BalanceStore, NewBalance};
use viman::errors::ErrorKind;
use viman::guard::JwtMiddleware;
use viman::user::{LoginInfo, NewUser, UserHandler, UserStore};

const HASH_SECRET: &str = "unit-test-hashing-secret";
const JWT_SECRET: &str = "unit-test-signing-secret";
const NOW: i64 = 1_700_000_000;

fn populated_store() -> (UserStore, String) {
    let mut store = UserStore::new();
    UserHandler::create(
        &mut store,
        NewUser {
            username: "alice".to_string(),
            email: "a@x.com".to_string(),
            password: "pw123".to_string(),
        },
        HASH_SECRET,
    )
    .unwrap();
    let token = UserHandler::login(
        &store,
        LoginInfo { username: "alice".to_string(), password: "pw123".to_string() },
        HASH_SECRET,
        JWT_SECRET,
        NOW,
    )
    .unwrap()
    .token;
    (store, token)
}

#[test]
fn guard_without_header_is_missing_token() {
    let (store, _) = populated_store();
    let r = JwtMiddleware::from_request(None, &store, JWT_SECRET, NOW);
    assert_eq!(r.unwrap_err(), ErrorKind::MissingToken);
}

#[test]
fn guard_rejects_short_or_foreign_schemes_without_crashing() {
    let (store, token) = populated_store();
    for bad in ["", "B", "Bearer", "bearer ", "Basic abc", "Token xyz"] {
        let r = JwtMiddleware::from_request(Some(bad), &store, JWT_SECRET, NOW);
        assert_eq!(r.unwrap_err(), ErrorKind::MissingToken, "header {:?}", bad);
    }
    // right scheme, broken token
    let r = JwtMiddleware::from_request(Some("Bearer garbage"), &store, JWT_SECRET, NOW);
    assert_eq!(r.unwrap_err(), ErrorKind::TokenInvalid);
    // wrong scheme around a good token
    let header = format!("bearer {}", token);
    let r = JwtMiddleware::from_request(Some(&header), &store, JWT_SECRET, NOW);
    assert_eq!(r.unwrap_err(), ErrorKind::MissingToken);
}

#[test]
fn guard_resolves_a_fresh_token() {
    let (store, token) = populated_store();
    let header = format!("Bearer {}", token);
    let m = JwtMiddleware::from_request(Some(&header), &store, JWT_SECRET, NOW).unwrap();
    assert_eq!(m.user.id, 1);
    assert_eq!(m.user.username, "alice");
    assert_eq!(m.user.email, "a@x.com");
    assert!(m.user.status);
}

#[test]
fn guard_reports_expiry_foreign_secret_and_lost_users() {
    let (mut store, token) = populated_store();
    let header = format!("Bearer {}", token);

    let r = JwtMiddleware::from_request(Some(&header), &store, JWT_SECRET, NOW + 86400);
    assert_eq!(r.unwrap_err(), ErrorKind::TokenExpired);

    let r = JwtMiddleware::from_request(Some(&header), &store, "other-secret", NOW);
    assert_eq!(r.unwrap_err(), ErrorKind::TokenInvalid);

    assert!(store.set_status(1, false));
    let r = JwtMiddleware::from_request(Some(&header), &store, JWT_SECRET, NOW);
    assert_eq!(r.unwrap_err(), ErrorKind::AccountBlocked);

    assert!(store.set_status(1, true));
    assert!(UserHandler::delete(&mut store, 1));
    let r = JwtMiddleware::from_request(Some(&header), &store, JWT_SECRET, NOW);
    assert_eq!(r.unwrap_err(), ErrorKind::NotFound);
}

#[test]
fn end_to_end_register_login_guard() {
    let mut store = UserStore::new();
    let created = UserHandler::create(
        &mut store,
        NewUser {
            username: "alice".to_string(),
            email: "a@x.com".to_string(),
            password: "pw123".to_string(),
        },
        HASH_SECRET,
    )
    .unwrap();
    assert_eq!(created.username, "alice");

    let token = UserHandler::login(
        &store,
        LoginInfo { username: "alice".to_string(), password: "pw123".to_string() },
        HASH_SECRET,
        JWT_SECRET,
        NOW,
    )
    .unwrap()
    .token;

    let header = format!("Bearer {}", token);
    let m = JwtMiddleware::from_request(Some(&header), &store, JWT_SECRET, NOW).unwrap();
    assert_eq!(m.user.username, "alice");
    assert_eq!(m.user.email, "a@x.com");

    let r = UserHandler::login(
        &store,
        LoginInfo { username: "alice".to_string(), password: "wrong".to_string() },
        HASH_SECRET,
        JWT_SECRET,
        NOW,
    );
    assert_eq!(r.unwrap_err(), ErrorKind::WrongCredentials);
}

#[test]
fn balances_default_and_filter_by_owner() {
    let (store, _) = populated_store();
    let alice = UserHandler::by_id(&store, 1).unwrap();

    let mut balances = BalanceStore::new();
    let b1 = BalanceHandler::crate_balance_for_user(
        &mut balances,
        &alice,
        NewBalance {
            balance_type: BType::Cash,
            name: "wallet".to_string(),
            iban: None,
            balance: None,
        },
    )
    .unwrap();
    assert_eq!(b1.id, 1);
    assert_eq!(b1.uid, alice.id);
    assert_eq!(b1.balance, 0);

    let b2 = BalanceHandler::crate_balance_for_user(
        &mut balances,
        &alice,
        NewBalance {
            balance_type: BType::Card,
            name: "checking".to_string(),
            iban: Some("DE00123456".to_string()),
            balance: Some(250),
        },
    )
    .unwrap();
    assert_eq!(b2.balance, 250);
    assert_eq!(b2.iban.as_deref(), Some("DE00123456"));

    let other = viman::user::User {
        id: 42,
        username: "bob".to_string(),
        email: "b@x.com".to_string(),
        status: true,
    };
    BalanceHandler::crate_balance_for_user(
        &mut balances,
        &other,
        NewBalance {
            balance_type: BType::Cash,
            name: "bobs".to_string(),
            iban: None,
            balance: Some(5),
        },
    )
    .unwrap();

    let mine = BalanceHandler::get_user_balances(&balances, &alice);
    assert_eq!(mine.len(), 2);
    assert_eq!(mine[0].name, "wallet");
    assert_eq!(mine[1].name, "checking");
    let theirs = BalanceHandler::get_user_balances(&balances, &other);
    assert_eq!(theirs.len(), 1);
    assert_eq!(theirs[0].balance, 5);
}
