//! A minimal user-identity library: credential hashing, issuing and checking
//! signed bearer tokens, a request-authorization guard, and a user directory
//! that enforces uniqueness of usernames and emails.
//!
//! The contracts of the public functions describe exactly which error each
//! input produces and what a successful call returns and stores.

use vstd::prelude::*;

pub mod b64;
pub mod balance;
pub mod claims;
pub mod errors;
pub mod guard;
pub mod jwt;
pub mod password;
pub mod sign;
pub mod user;

verus! {

/// Path that the service root redirects to.
pub fn index() -> (r: String)
    ensures
        r@ == "/api"@,
{
    String::from_str("/api")
}

} // verus!
