//! The outside calls the token service rests on: the HMAC-SHA256 primitive,
//! the clock, and UTF-8 string construction. Each is a thin trusted wrapper;
//! everything around them is verified.

use hmac::Mac;
use std::time::{SystemTime, UNIX_EPOCH};
use vstd::prelude::*;

verus! {

/// The HMAC-SHA256 tag of a message under a key. The tag is a function of
/// the key and the message alone; what it is on given values is stated
/// nowhere, so nothing can be proved about concrete tags.
pub uninterp spec fn hmac_sha256(key: Seq<u8>, msg: Seq<u8>) -> Seq<u8>;

/// Relies on hmac::Hmac<sha2::Sha256>: keyed with `new_from_slice` (which
/// accepts keys of any length), fed `msg`, the finalized output is the
/// 32-byte HMAC-SHA256 tag, a pure function of key and message.
#[verifier::external_body]
pub fn hmac_tag(key: &[u8], msg: &[u8]) -> (r: Vec<u8>)
    ensures
        r@ == hmac_sha256(key@, msg@),
        r@.len() == 32,
{
    let mut mac = <hmac::Hmac<sha2::Sha256> as hmac::KeyInit>::new_from_slice(key).expect(
        "HMAC accepts keys of any length",
    );
    mac.update(msg);
    mac.finalize().into_bytes().to_vec()
}

/// Relies on hmac::Hmac<sha2::Sha256> and digest's `verify_slice`: it
/// recomputes the tag of `msg` under `key` and compares it to `tag` in
/// constant time, succeeding exactly on equality.
#[verifier::external_body]
pub fn hmac_check(key: &[u8], msg: &[u8], tag: &[u8]) -> (r: bool)
    ensures
        r == (tag@ == hmac_sha256(key@, msg@)),
{
    let mut mac = <hmac::Hmac<sha2::Sha256> as hmac::KeyInit>::new_from_slice(key).expect(
        "HMAC accepts keys of any length",
    );
    mac.update(msg);
    mac.verify_slice(tag).is_ok()
}

/// Relies on std::time::SystemTime: the current time as seconds since the
/// Unix epoch, saturated into the `i64` range (a clock reading before the
/// epoch comes back as zero, never an abort). Nothing more is promised;
/// callers state what holds for every reading.
#[verifier::external_body]
pub fn now_timestamp() -> i64 {
    match SystemTime::now().duration_since(UNIX_EPOCH) {
        Ok(d) => i64::try_from(d.as_secs()).unwrap_or(i64::MAX),
        Err(_) => 0,
    }
}

/// Relies on String::from_utf8: the returned string is the one whose UTF-8
/// encoding is exactly the given bytes; ASCII bytes are always valid UTF-8,
/// so the call cannot fail.
#[verifier::external_body]
pub fn string_from_ascii(v: Vec<u8>) -> (r: String)
    requires
        forall|i: int| 0 <= i < v@.len() ==> v@[i] < 128,
    ensures
        vstd::utf8::encode_utf8(r@) == v@,
{
    String::from_utf8(v).expect("ASCII bytes are valid UTF-8")
}

} // verus!
