//! The token service and its codecs: issuing, verification, the exact wire
//! format, and the error taxonomy.

use viman::b64::{b64_decode, b64_encode};
use viman::claims::{parse_claims, serialize_claims};
use viman::errors::ErrorKind;
use viman::jwt::{JwtHandler, JwtToken};
use viman::user::UserLogin;

const SECRET: &str = "unit-test-signing-secret";

fn sample_user() -> UserLogin {
    UserLogin {
        id: 7,
        username: "alice".to_string(),
        // any stored hash is plain ASCII without quotes or backslashes
        password: "$argon2id$v=19$m=19456,t=2,p=1$c2FsdHNhbHQ$ZGlnZXN0".to_string(),
        status: true,
    }
}

fn issue(now: i64) -> JwtToken {
    JwtHandler::create_at(&sample_user(), SECRET, now).unwrap()
}

#[test]
fn issued_token_verifies_and_claims_match() {
    let now = 1_700_000_000;
    let t = issue(now);
    assert_eq!(t.exp, now + 86400);
    let c = JwtHandler::verify_at(&t.token, SECRET, now).unwrap();
    assert_eq!(c.id, 7);
    assert_eq!(c.password, sample_user().password);
    assert_eq!(c.exp, t.exp);
    // still good one second before the deadline
    assert!(JwtHandler::verify_at(&t.token, SECRET, t.exp - 1).is_ok());
}

#[test]
fn expired_token_is_refused_as_expired() {
    let now = 1_700_000_000;
    let t = issue(now);
    let r = JwtHandler::verify_at(&t.token, SECRET, t.exp);
    assert_eq!(r.unwrap_err(), ErrorKind::TokenExpired);
    let r = JwtHandler::verify_at(&t.token, SECRET, t.exp + 5000);
    assert_eq!(r.unwrap_err(), ErrorKind::TokenExpired);
}

#[test]
fn foreign_secret_is_refused_as_invalid() {
    let now = 1_700_000_000;
    let t = issue(now);
    let r = JwtHandler::verify_at(&t.token, "some-other-secret", now);
    assert_eq!(r.unwrap_err(), ErrorKind::TokenInvalid);
}

#[test]
fn tampered_token_is_refused() {
    let now = 1_700_000_000;
    let t = issue(now);
    // flip one character of the payload
    let mut chars: Vec<char> = t.token.chars().collect();
    let first_dot = chars.iter().position(|c| *c == '.').unwrap();
    let target = first_dot + 2;
    chars[target] = if chars[target] == 'A' { 'B' } else { 'A' };
    let forged: String = chars.iter().collect();
    let r = JwtHandler::verify_at(&forged, SECRET, now);
    assert_eq!(r.unwrap_err(), ErrorKind::TokenInvalid);
}

#[test]
fn malformed_tokens_are_refused() {
    let now = 0;
    for bad in ["", ".", "..", "a.b", "a.b.c", "not a token at all", "x..y."] {
        let r = JwtHandler::verify_at(bad, SECRET, now);
        assert_eq!(r.unwrap_err(), ErrorKind::TokenInvalid, "token {:?}", bad);
    }
}

#[test]
fn verification_requires_a_secret() {
    let t = issue(0);
    let r = JwtHandler::verify_at(&t.token, "", 0);
    assert_eq!(r.unwrap_err(), ErrorKind::ConfigMissing);
    let r = JwtHandler::create_at(&sample_user(), "", 0);
    assert!(r.is_err());
}

#[test]
fn token_has_the_fixed_hs256_header() {
    let t = issue(0);
    let parts: Vec<&str> = t.token.split('.').collect();
    assert_eq!(parts.len(), 3);
    // base64url of {"alg":"HS256","typ":"JWT"}
    assert_eq!(parts[0], "eyJhbGciOiJIUzI1NiIsInR5cCI6IkpXVCJ9");
    assert!(!parts[2].is_empty());
}

#[test]
fn expiry_saturates_at_the_end_of_time() {
    let t = JwtHandler::create_at(&sample_user(), SECRET, i64::MAX - 10).unwrap();
    assert_eq!(t.exp, i64::MAX);
}

#[test]
fn base64url_exact_values_and_roundtrip() {
    assert_eq!(b64_encode(b"Man"), b"TWFu".to_vec());
    assert_eq!(b64_encode(b"Ma"), b"TWE".to_vec());
    assert_eq!(b64_encode(b"M"), b"TQ".to_vec());
    assert_eq!(b64_encode(b""), Vec::<u8>::new());
    assert_eq!(b64_encode(&[0xfb, 0xff, 0xfe]), b"-__-".to_vec());

    for input in [&b""[..], b"M", b"Ma", b"Man", b"Many hands make light work."] {
        let enc = b64_encode(input);
        assert_eq!(b64_decode(&enc).unwrap(), input.to_vec());
    }
}

#[test]
fn base64url_rejects_noncanonical_input() {
    // padding characters are not part of the alphabet
    assert!(b64_decode(b"TQ==").is_none());
    // a length of one alphabet byte cannot arise
    assert!(b64_decode(b"T").is_none());
    // nonzero unused trailing bits
    assert!(b64_decode(b"TR").is_none());
    // foreign bytes
    assert!(b64_decode(b"T.Fu").is_none());
}

#[test]
fn claims_json_exact_shape_and_roundtrip() {
    let bytes = serialize_claims(1, b"h", 2);
    assert_eq!(bytes, b"{\"id\":1,\"password\":\"h\",\"exp\":2}".to_vec());

    let neg = serialize_claims(-12, b"$a$b", -3);
    assert_eq!(neg, b"{\"id\":-12,\"password\":\"$a$b\",\"exp\":-3}".to_vec());

    let (id, pw, exp) = parse_claims(&neg).unwrap();
    assert_eq!(id, -12);
    assert_eq!(pw, b"$a$b".to_vec());
    assert_eq!(exp, -3);
}

#[test]
fn claims_json_rejects_noncanonical_input() {
    assert!(parse_claims(b"{\"id\":01,\"password\":\"h\",\"exp\":2}").is_none());
    assert!(parse_claims(b"{\"id\":-0,\"password\":\"h\",\"exp\":2}").is_none());
    assert!(parse_claims(b"{\"id\":1,\"password\":\"h\",\"exp\":2} ").is_none());
    assert!(parse_claims(b"{\"id\":1,\"password\":\"h\\n\",\"exp\":2}").is_none());
    assert!(parse_claims(b"{\"exp\":2,\"password\":\"h\",\"id\":1}").is_none());
    assert!(parse_claims(b"{\"id\":99999999999999999999,\"password\":\"h\",\"exp\":2}").is_none());
    assert!(parse_claims(b"").is_none());
}

#[test]
fn error_kinds_map_to_statuses_and_messages() {
    assert_eq!(ErrorKind::Conflict.status(), 404);
    assert_eq!(ErrorKind::WrongCredentials.status(), 401);
    assert_eq!(ErrorKind::AccountBlocked.status(), 401);
    assert_eq!(ErrorKind::NotFound.status(), 401);
    assert_eq!(ErrorKind::TokenInvalid.status(), 401);
    assert_eq!(ErrorKind::TokenExpired.status(), 401);
    assert_eq!(ErrorKind::MissingToken.status(), 401);
    assert_eq!(ErrorKind::StoreUnavailable.status(), 500);
    assert_eq!(ErrorKind::ConfigMissing.status(), 500);

    let resp = ErrorKind::Conflict.response();
    assert_eq!(resp.error, "User with this name or email already exist");
    assert_eq!(resp.status, 404);
    // an unknown account and a wrong password are indistinguishable in the body
    let resp = ErrorKind::WrongCredentials.response();
    assert_eq!(resp.error, "Wrong credentials");
    assert_eq!(ErrorKind::NotFound.response().error, resp.error);
    let re = viman::errors::ErrorResponse::new("oops".to_string(), 500);
    let re = re.status(401);
    assert_eq!(re.error, "oops");
    assert_eq!(re.status, 401);
}

#[test]
fn service_root_redirects_to_api() {
    assert_eq!(viman::index(), "/api");
}

#[test]
fn clock_based_issue_and_verify_agree() {
    let user = sample_user();
    let t = JwtHandler::create(&user, SECRET).unwrap();
    let c = JwtHandler::verify(&t.token, SECRET).unwrap();
    assert_eq!(c.id, user.id);
    assert_eq!(c.exp, t.exp);
}
