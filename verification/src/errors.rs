//! The failure taxonomy of the library and the HTTP-facing error payload.

use vstd::prelude::*;

verus! {

/// Every way an operation of this library can fail.
///
/// Credential-related kinds map to 401-class statuses so that responses do
/// not help an attacker enumerate accounts; infrastructure kinds map to
/// 500-class statuses.
#[derive(Clone, Copy, PartialEq, Eq, Structural, Debug)]
pub enum ErrorKind {
    /// A user with the requested username or email already exists.
    Conflict,
    /// No user record matches the request.
    NotFound,
    /// The password does not match the stored hash.
    WrongCredentials,
    /// The account's status flag is disabled.
    AccountBlocked,
    /// A token's signature, encoding or header is not acceptable.
    TokenInvalid,
    /// A token's expiry timestamp has elapsed.
    TokenExpired,
    /// A request carried no usable bearer authorization header.
    MissingToken,
    /// The record store (or another collaborator) failed.
    StoreUnavailable,
    /// A required secret was absent or empty.
    ConfigMissing,
}

impl ErrorKind {
    /// The HTTP status code that this kind surfaces as.
    pub open spec fn spec_status(self) -> u16 {
        match self {
            ErrorKind::Conflict => 404,
            ErrorKind::NotFound => 401,
            ErrorKind::WrongCredentials => 401,
            ErrorKind::AccountBlocked => 401,
            ErrorKind::TokenInvalid => 401,
            ErrorKind::TokenExpired => 401,
            ErrorKind::MissingToken => 401,
            ErrorKind::StoreUnavailable => 500,
            ErrorKind::ConfigMissing => 500,
        }
    }

    /// The client-visible message of this kind. An unknown account and a
    /// wrong password share one generic wording, so a login response never
    /// reveals whether the username exists.
    pub open spec fn spec_message(self) -> Seq<char> {
        match self {
            ErrorKind::Conflict => "User with this name or email already exist"@,
            ErrorKind::NotFound => "Wrong credentials"@,
            ErrorKind::WrongCredentials => "Wrong credentials"@,
            ErrorKind::AccountBlocked => "User are blocked."@,
            ErrorKind::TokenInvalid => "Invalid token"@,
            ErrorKind::TokenExpired => "Token expired"@,
            ErrorKind::MissingToken => "Missing token"@,
            ErrorKind::StoreUnavailable => "Store unavailable"@,
            ErrorKind::ConfigMissing => "Missing secret configuration"@,
        }
    }

    pub fn status(self) -> (s: u16)
        ensures
            s == self.spec_status(),
    {
        match self {
            ErrorKind::Conflict => 404,
            ErrorKind::NotFound => 401,
            ErrorKind::WrongCredentials => 401,
            ErrorKind::AccountBlocked => 401,
            ErrorKind::TokenInvalid => 401,
            ErrorKind::TokenExpired => 401,
            ErrorKind::MissingToken => 401,
            ErrorKind::StoreUnavailable => 500,
            ErrorKind::ConfigMissing => 500,
        }
    }

    pub fn message(self) -> (m: String)
        ensures
            m@ == self.spec_message(),
    {
        match self {
            ErrorKind::Conflict => String::from_str(
                "User with this name or email already exist",
            ),
            ErrorKind::NotFound => String::from_str("Wrong credentials"),
            ErrorKind::WrongCredentials => String::from_str("Wrong credentials"),
            ErrorKind::AccountBlocked => String::from_str("User are blocked."),
            ErrorKind::TokenInvalid => String::from_str("Invalid token"),
            ErrorKind::TokenExpired => String::from_str("Token expired"),
            ErrorKind::MissingToken => String::from_str("Missing token"),
            ErrorKind::StoreUnavailable => String::from_str("Store unavailable"),
            ErrorKind::ConfigMissing => String::from_str("Missing secret configuration"),
        }
    }

    /// The HTTP error payload for this kind.
    pub fn response(self) -> (r: ErrorResponse)
        ensures
            r.error@ == self.spec_message(),
            r.status == self.spec_status(),
    {
        ErrorResponse { error: self.message(), status: self.status() }
    }
}

/// The serializable error payload a handler answers with.
#[derive(Debug)]
pub struct ErrorResponse {
    pub error: String,
    pub status: u16,
}

impl ErrorResponse {
    pub fn new(error: String, status: u16) -> (r: ErrorResponse)
        ensures
            r.error == error,
            r.status == status,
    {
        ErrorResponse { error, status }
    }

    /// The same message under another status code.
    pub fn status(self, status: u16) -> (r: ErrorResponse)
        ensures
            r.error == self.error,
            r.status == status,
    {
        ErrorResponse { error: self.error, status }
    }
}

} // verus!
