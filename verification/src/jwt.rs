//! The token service: issuing and verifying signed, time-bounded bearer
//! tokens. A token is the classic three-part form `header.claims.signature`:
//! base64url of a fixed HS256 header, base64url of the claims JSON, and the
//! base64url HMAC-SHA256 tag of the first two parts. Everything but the
//! HMAC primitive itself is verified; `verify` accepts exactly the strings
//! that `token_bytes` describes, so issuing and verification agree by
//! construction.

use crate::b64::{b64_bytes, b64_decode, b64_encode, lemma_b64_ascii_no_dot, lemma_b64_inj};
use crate::claims::{
    claims_valid, lemma_ser_claims_inj, match_at, parse_claims, push_all, ser_claims,
    serialize_claims, slice_to_vec_range, token_safe_bytes,
};
use crate::errors::ErrorKind;
use crate::sign::{hmac_check, hmac_sha256, hmac_tag, now_timestamp, string_from_ascii};
use crate::user::UserLogin;
use vstd::prelude::*;
use vstd::string::StrSliceExecFns;
use vstd::utf8::encode_utf8;

verus! {

/// A signed token and its expiry timestamp (epoch seconds).
#[derive(Debug)]
pub struct JwtToken {
    pub token: String,
    pub exp: i64,
}

/// The decoded payload of a token: the user id, the stored hash at issuance
/// time, and the absolute expiry.
#[derive(Clone, Debug)]
pub struct Claims {
    pub id: i32,
    pub password: String,
    pub exp: i64,
}

/// The token service.
pub struct JwtHandler;

/// The fixed token header `{"alg":"HS256","typ":"JWT"}`: only this one
/// algorithm is ever accepted.
pub open spec fn header_json() -> Seq<u8> {
    seq![
        123u8, 34u8, 97u8, 108u8, 103u8, 34u8, 58u8, 34u8, 72u8, 83u8, 50u8, 53u8, 54u8, 34u8,
        44u8, 34u8, 116u8, 121u8, 112u8, 34u8, 58u8, 34u8, 74u8, 87u8, 84u8, 34u8, 125u8,
    ]
}

/// The first token part.
pub open spec fn header_part() -> Seq<u8> {
    b64_bytes(header_json())
}

/// The second token part: the encoded claims.
pub open spec fn payload_part(id: int, pwb: Seq<u8>, exp: int) -> Seq<u8> {
    b64_bytes(ser_claims(id, pwb, exp))
}

/// What gets signed: the first two parts joined by a dot.
pub open spec fn signing_input(id: int, pwb: Seq<u8>, exp: int) -> Seq<u8> {
    header_part() + seq![46u8] + payload_part(id, pwb, exp)
}

/// The third token part: the encoded tag.
pub open spec fn sig_part(key: Seq<u8>, id: int, pwb: Seq<u8>, exp: int) -> Seq<u8> {
    b64_bytes(hmac_sha256(key, signing_input(id, pwb, exp)))
}

/// The whole token, as bytes, for a claims triple under a key.
pub open spec fn token_bytes(key: Seq<u8>, id: int, pwb: Seq<u8>, exp: int) -> Seq<u8> {
    signing_input(id, pwb, exp) + seq![46u8] + sig_part(key, id, pwb, exp)
}

/// `tb` is the token of the valid claims triple `(id, pwb, exp)` under `key`.
pub open spec fn token_matches(key: Seq<u8>, tb: Seq<u8>, id: int, pwb: Seq<u8>, exp: int) -> bool {
    claims_valid(id, pwb, exp) && tb == token_bytes(key, id, pwb, exp)
}

/// When a token issued at `now` expires: a day later, saturated at the end
/// of the representable range.
pub open spec fn expiry_at(now: int) -> int {
    if now + 86400 <= i64::MAX {
        now + 86400
    } else {
        i64::MAX as int
    }
}

/// The decomposition of a token: where its dots are, that the first two
/// parts are dot-free, and what each region holds.
pub proof fn lemma_token_shape(key: Seq<u8>, id: int, pwb: Seq<u8>, exp: int)
    ensures
        ({
            let t = token_bytes(key, id, pwb, exp);
            let hl = header_part().len() as int;
            let pl = payload_part(id, pwb, exp).len() as int;
            &&& t.len() == hl + 2 + pl + sig_part(key, id, pwb, exp).len()
            &&& t.subrange(0, hl) == header_part()
            &&& t[hl] == 46
            &&& t.subrange(hl + 1, hl + 1 + pl) == payload_part(id, pwb, exp)
            &&& t[hl + 1 + pl] == 46
            &&& t.subrange(hl + 2 + pl, t.len() as int) == sig_part(key, id, pwb, exp)
            &&& t.subrange(0, hl + 1 + pl) == signing_input(id, pwb, exp)
            &&& forall|i: int| 0 <= i < hl ==> t[i] != 46
            &&& forall|i: int| hl + 1 <= i < hl + 1 + pl ==> t[i] != 46
        }),
{
    let t = token_bytes(key, id, pwb, exp);
    let hl = header_part().len() as int;
    let pl = payload_part(id, pwb, exp).len() as int;
    lemma_b64_ascii_no_dot(header_json());
    lemma_b64_ascii_no_dot(ser_claims(id, pwb, exp));
    assert(t.subrange(0, hl) =~= header_part());
    assert(t.subrange(hl + 1, hl + 1 + pl) =~= payload_part(id, pwb, exp));
    assert(t.subrange(hl + 2 + pl, t.len() as int) =~= sig_part(key, id, pwb, exp));
    assert(t.subrange(0, hl + 1 + pl) =~= signing_input(id, pwb, exp));
    assert forall|i: int| 0 <= i < hl implies t[i] != 46 by {
        assert(t[i] == header_part()[i]);
    }
    assert forall|i: int| hl + 1 <= i < hl + 1 + pl implies t[i] != 46 by {
        assert(t[i] == payload_part(id, pwb, exp)[i - hl - 1]);
    }
}

/// A token determines its claims: equal tokens under one key carry equal
/// claims triples.
pub proof fn lemma_token_bytes_inj(
    key: Seq<u8>,
    id1: int,
    pwb1: Seq<u8>,
    exp1: int,
    id2: int,
    pwb2: Seq<u8>,
    exp2: int,
)
    requires
        claims_valid(id1, pwb1, exp1),
        claims_valid(id2, pwb2, exp2),
        token_bytes(key, id1, pwb1, exp1) == token_bytes(key, id2, pwb2, exp2),
    ensures
        id1 == id2,
        pwb1 == pwb2,
        exp1 == exp2,
{
    let t = token_bytes(key, id1, pwb1, exp1);
    let hl = header_part().len() as int;
    let pl1 = payload_part(id1, pwb1, exp1).len() as int;
    let pl2 = payload_part(id2, pwb2, exp2).len() as int;
    lemma_token_shape(key, id1, pwb1, exp1);
    lemma_token_shape(key, id2, pwb2, exp2);
    if pl1 < pl2 {
        assert(t[hl + 1 + pl1] == 46);
        assert(hl + 1 <= hl + 1 + pl1 < hl + 1 + pl2);
        assert(false);
    } else if pl2 < pl1 {
        assert(t[hl + 1 + pl2] == 46);
        assert(hl + 1 <= hl + 1 + pl2 < hl + 1 + pl1);
        assert(false);
    }
    assert(payload_part(id1, pwb1, exp1) == payload_part(id2, pwb2, exp2));
    lemma_b64_inj(ser_claims(id1, pwb1, exp1), ser_claims(id2, pwb2, exp2));
    lemma_ser_claims_inj(id1, pwb1, exp1, id2, pwb2, exp2);
}

/// The header JSON as bytes.
fn header_json_vec() -> (v: Vec<u8>)
    ensures
        v@ == header_json(),
{
    let v = vec![
        123u8, 34u8, 97u8, 108u8, 103u8, 34u8, 58u8, 34u8, 72u8, 83u8, 50u8, 53u8, 54u8, 34u8,
        44u8, 34u8, 116u8, 121u8, 112u8, 34u8, 58u8, 34u8, 74u8, 87u8, 84u8, 34u8, 125u8,
    ];
    proof {
        assert(v@ =~= header_json());
    }
    v
}

/// The first position of `b` in `s` at or after `from`.
fn find_byte(s: &[u8], from: usize, b: u8) -> (r: Option<usize>)
    requires
        from <= s@.len(),
    ensures
        match r {
            Some(k) => {
                &&& from <= k < s@.len()
                &&& s@[k as int] == b
                &&& forall|j: int| from <= j < k ==> s@[j] != b
            },
            None => forall|j: int| from <= j < s@.len() ==> s@[j] != b,
        },
{
    let mut k = from;
    while k < s.len()
        invariant
            from <= k <= s@.len(),
            forall|j: int| from <= j < k ==> s@[j] != b,
        decreases s@.len() - k,
    {
        if s[k] == b {
            return Some(k);
        }
        k += 1;
    }
    None
}

impl JwtHandler {
    /// Issue a token for `user` at time `now`: claims carry the user's id,
    /// its stored hash and an expiry a day ahead, signed with `secret`.
    /// Fails exactly when the signing secret is empty.
    ///
    /// The stored hash contains no characters that would need JSON escaping
    /// (the hash alphabet is plain ASCII), which is what the `requires`
    /// records.
    pub fn create_at(user: &UserLogin, secret: &str, now: i64) -> (r: Result<JwtToken, ErrorKind>)
        requires
            token_safe_bytes(encode_utf8(user.password@)),
        ensures
            (secret@.len() == 0) == (r is Err),
            match r {
                Ok(t) => {
                    &&& t.exp as int == expiry_at(now as int)
                    &&& token_matches(
                        encode_utf8(secret@),
                        encode_utf8(t.token@),
                        user.id as int,
                        encode_utf8(user.password@),
                        t.exp as int,
                    )
                },
                Err(e) => e == ErrorKind::ConfigMissing,
            },
    {
        if secret.is_empty() {
            return Err(ErrorKind::ConfigMissing);
        }
        let exp: i64 = if now <= i64::MAX - 86400 {
            now + 86400
        } else {
            i64::MAX
        };
        let pwb = user.password.as_str().as_bytes_vec();
        let payload = serialize_claims(user.id, pwb.as_slice(), exp);
        let hj = header_json_vec();
        let hb = b64_encode(hj.as_slice());
        let pb = b64_encode(payload.as_slice());
        let mut tv: Vec<u8> = Vec::new();
        push_all(&mut tv, hb.as_slice());
        tv.push(46);
        push_all(&mut tv, pb.as_slice());
        proof {
            assert(tv@ =~= signing_input(user.id as int, pwb@, exp as int));
        }
        let key = secret.as_bytes_vec();
        let tag = hmac_tag(key.as_slice(), tv.as_slice());
        let sb = b64_encode(tag.as_slice());
        let ghost si = tv@;
        tv.push(46);
        push_all(&mut tv, sb.as_slice());
        proof {
            assert(tv@ =~= token_bytes(encode_utf8(secret@), user.id as int, pwb@, exp as int));
            lemma_b64_ascii_no_dot(header_json());
            lemma_b64_ascii_no_dot(ser_claims(user.id as int, pwb@, exp as int));
            lemma_b64_ascii_no_dot(tag@);
            assert forall|i: int| 0 <= i < tv@.len() implies tv@[i] < 128 by {
                let hl = hb@.len() as int;
                let pl = pb@.len() as int;
                if i < hl {
                    assert(tv@[i] == hb@[i]);
                } else if i == hl {
                } else if i < hl + 1 + pl {
                    assert(tv@[i] == pb@[i - hl - 1]);
                } else if i == hl + 1 + pl {
                } else {
                    assert(tv@[i] == sb@[i - (hl + 1 + pl) - 1]);
                }
            }
        }
        let token = string_from_ascii(tv);
        Ok(JwtToken { token, exp })
    }

    /// Issue a token for `user` at the current time.
    ///
    /// The clock reading is outside this library's control, so the contract
    /// promises the token's shape for whatever instant was read.
    pub fn create(user: &UserLogin, secret: &str) -> (r: Result<JwtToken, ErrorKind>)
        requires
            token_safe_bytes(encode_utf8(user.password@)),
        ensures
            (secret@.len() == 0) == (r is Err),
            match r {
                Ok(t) => token_matches(
                    encode_utf8(secret@),
                    encode_utf8(t.token@),
                    user.id as int,
                    encode_utf8(user.password@),
                    t.exp as int,
                ),
                Err(e) => e == ErrorKind::ConfigMissing,
            },
    {
        let now = now_timestamp();
        Self::create_at(user, secret, now)
    }

    /// Check a token's header, claims encoding, signature and expiry at time
    /// `now`. Accepts exactly the tokens of `token_bytes` under `secret`:
    /// anything else — a foreign header or algorithm, a malformed part, a
    /// signature under another key — is `TokenInvalid`; a well-signed token
    /// whose expiry has passed is `TokenExpired`; an empty secret is refused
    /// outright.
    #[verifier::rlimit(100)]
    pub fn verify_at(token: &str, secret: &str, now: i64) -> (r: Result<Claims, ErrorKind>)
        ensures
            ({
                let key = encode_utf8(secret@);
                let tb = encode_utf8(token@);
                &&& (secret@.len() == 0) == (r == Err::<Claims, ErrorKind>(
                    ErrorKind::ConfigMissing,
                ))
                &&& match r {
                    Ok(c) => {
                        &&& c.exp > now
                        &&& token_matches(key, tb, c.id as int, encode_utf8(c.password@),
                        c.exp as int)
                    },
                    Err(e) => {
                        ||| (e == ErrorKind::ConfigMissing && secret@.len() == 0)
                        ||| (e == ErrorKind::TokenExpired && exists|id: int, pwb: Seq<u8>, exp: int|
                            #[trigger] token_matches(key, tb, id, pwb, exp) && exp <= now)
                        ||| (e == ErrorKind::TokenInvalid && forall|id: int, pwb: Seq<u8>, exp: int|
                            !#[trigger] token_matches(key, tb, id, pwb, exp))
                    },
                }
                &&& forall|id: int, pwb: Seq<u8>, exp: int|
                    (secret@.len() > 0 && #[trigger] token_matches(key, tb, id, pwb, exp) && exp
                        > now) ==> (r is Ok && r->Ok_0.id as int == id && encode_utf8(
                        r->Ok_0.password@,
                    ) == pwb && r->Ok_0.exp as int == exp)
                &&& forall|id: int, pwb: Seq<u8>, exp: int|
                    (secret@.len() > 0 && #[trigger] token_matches(key, tb, id, pwb, exp) && exp
                        <= now) ==> r == Err::<Claims, ErrorKind>(ErrorKind::TokenExpired)
            }),
    {
        let ghost gkey = encode_utf8(secret@);
        let ghost gtb = encode_utf8(token@);
        if secret.is_empty() {
            return Err(ErrorKind::ConfigMissing);
        }
        let tb = token.as_bytes_vec();
        let tblen = tb.len();
        proof {
            assert(tb@.len() == tblen);
        }
        let key = secret.as_bytes_vec();
        let d1 = match find_byte(tb.as_slice(), 0, 46) {
            Some(d) => d,
            None => {
                proof {
                    assert forall|id: int, pwb: Seq<u8>, exp: int|
                        !#[trigger] token_matches(gkey, gtb, id, pwb, exp) by {
                        if token_matches(gkey, gtb, id, pwb, exp) {
                            lemma_token_shape(gkey, id, pwb, exp);
                            let hl = header_part().len() as int;
                            assert(gtb[hl] == 46);
                        }
                    }
                }
                return Err(ErrorKind::TokenInvalid);
            },
        };
        let d2 = match find_byte(tb.as_slice(), d1 + 1, 46) {
            Some(d) => d,
            None => {
                proof {
                    assert forall|id: int, pwb: Seq<u8>, exp: int|
                        !#[trigger] token_matches(gkey, gtb, id, pwb, exp) by {
                        if token_matches(gkey, gtb, id, pwb, exp) {
                            lemma_token_shape(gkey, id, pwb, exp);
                            let hl = header_part().len() as int;
                            let pl = payload_part(id, pwb, exp).len() as int;
                            assert(d1 == hl) by {
                                if d1 < hl {
                                    assert(gtb[d1 as int] != 46);
                                } else if d1 > hl {
                                    assert(gtb[hl] == 46);
                                }
                            }
                            assert(gtb[hl + 1 + pl] == 46);
                        }
                    }
                }
                return Err(ErrorKind::TokenInvalid);
            },
        };
        proof {
            // wherever a match exists, the dots sit at the part boundaries
            assert forall|id: int, pwb: Seq<u8>, exp: int|
                #[trigger] token_matches(gkey, gtb, id, pwb, exp) implies d1
                == header_part().len() && d2 == header_part().len() + 1 + payload_part(
                id,
                pwb,
                exp,
            ).len() by {
                lemma_token_shape(gkey, id, pwb, exp);
                let hl = header_part().len() as int;
                let pl = payload_part(id, pwb, exp).len() as int;
                if d1 < hl {
                    assert(gtb[d1 as int] != 46);
                } else if d1 > hl {
                    assert(gtb[hl] == 46);
                }
                assert(d1 == hl);
                if d2 < hl + 1 + pl {
                    assert(gtb[d2 as int] != 46);
                } else if d2 > hl + 1 + pl {
                    assert(gtb[hl + 1 + pl] == 46);
                }
            }
        }
        let hj = header_json_vec();
        let hb = b64_encode(hj.as_slice());
        if !(d1 == hb.len() && match_at(tb.as_slice(), 0, hb.as_slice())) {
            proof {
                assert forall|id: int, pwb: Seq<u8>, exp: int|
                    !#[trigger] token_matches(gkey, gtb, id, pwb, exp) by {
                    if token_matches(gkey, gtb, id, pwb, exp) {
                        lemma_token_shape(gkey, id, pwb, exp);
                        let hl = header_part().len() as int;
                        assert(gtb.subrange(0, hl) == header_part());
                    }
                }
            }
            return Err(ErrorKind::TokenInvalid);
        }
        let p = slice_to_vec_range(tb.as_slice(), d1 + 1, d2);
        let payload = match b64_decode(p.as_slice()) {
            Some(x) => x,
            None => {
                proof {
                    assert forall|id: int, pwb: Seq<u8>, exp: int|
                        !#[trigger] token_matches(gkey, gtb, id, pwb, exp) by {
                        if token_matches(gkey, gtb, id, pwb, exp) {
                            lemma_token_shape(gkey, id, pwb, exp);
                            let hl = header_part().len() as int;
                            let pl = payload_part(id, pwb, exp).len() as int;
                            assert(p@ =~= b64_bytes(ser_claims(id, pwb, exp)));
                        }
                    }
                }
                return Err(ErrorKind::TokenInvalid);
            },
        };
        let parsed = match parse_claims(payload.as_slice()) {
            Some(t) => t,
            None => {
                proof {
                    assert forall|id: int, pwb: Seq<u8>, exp: int|
                        !#[trigger] token_matches(gkey, gtb, id, pwb, exp) by {
                        if token_matches(gkey, gtb, id, pwb, exp) {
                            lemma_token_shape(gkey, id, pwb, exp);
                            assert(p@ =~= b64_bytes(ser_claims(id, pwb, exp)));
                            // the decoded payload is then the claims JSON
                            lemma_b64_inj(payload@, ser_claims(id, pwb, exp));
                        }
                    }
                }
                return Err(ErrorKind::TokenInvalid);
            },
        };
        let (idv, pwv, expv) = parsed;
        let sigpart = slice_to_vec_range(tb.as_slice(), d2 + 1, tb.len());
        let tag = match b64_decode(sigpart.as_slice()) {
            Some(t) => t,
            None => {
                proof {
                    assert forall|id: int, pwb: Seq<u8>, exp: int|
                        !#[trigger] token_matches(gkey, gtb, id, pwb, exp) by {
                        if token_matches(gkey, gtb, id, pwb, exp) {
                            lemma_token_shape(gkey, id, pwb, exp);
                            let hl = header_part().len() as int;
                            let pl = payload_part(id, pwb, exp).len() as int;
                            assert(sigpart@ =~= sig_part(gkey, id, pwb, exp));
                        }
                    }
                }
                return Err(ErrorKind::TokenInvalid);
            },
        };
        let msg = slice_to_vec_range(tb.as_slice(), 0, d2);
        if !hmac_check(key.as_slice(), msg.as_slice(), tag.as_slice()) {
            proof {
                assert forall|id: int, pwb: Seq<u8>, exp: int|
                    !#[trigger] token_matches(gkey, gtb, id, pwb, exp) by {
                    if token_matches(gkey, gtb, id, pwb, exp) {
                        lemma_token_shape(gkey, id, pwb, exp);
                        let hl = header_part().len() as int;
                        let pl = payload_part(id, pwb, exp).len() as int;
                        assert(msg@ =~= signing_input(id, pwb, exp));
                        assert(sigpart@ =~= sig_part(gkey, id, pwb, exp));
                        lemma_b64_inj(tag@, hmac_sha256(gkey, signing_input(id, pwb, exp)));
                    }
                }
            }
            return Err(ErrorKind::TokenInvalid);
        }
        proof {
            // every check passed: the input is exactly the token of the
            // parsed triple
            assert(gtb =~= gtb.subrange(0, d1 as int) + seq![46u8] + gtb.subrange(
                d1 as int + 1,
                d2 as int,
            ) + seq![46u8] + gtb.subrange(d2 as int + 1, gtb.len() as int));
            assert(gtb.subrange(0, d1 as int) == header_part());
            assert(gtb.subrange(d1 as int + 1, d2 as int) == payload_part(
                idv as int,
                pwv@,
                expv as int,
            ));
            assert(msg@ =~= gtb.subrange(0, d2 as int));
            assert(msg@ =~= signing_input(idv as int, pwv@, expv as int));
            assert(gtb.subrange(d2 as int + 1, gtb.len() as int) == sig_part(
                gkey,
                idv as int,
                pwv@,
                expv as int,
            ));
            assert(gtb == token_bytes(gkey, idv as int, pwv@, expv as int));
            assert(token_matches(gkey, gtb, idv as int, pwv@, expv as int));
        }
        let password = string_from_ascii(pwv);
        if expv <= now {
            proof {
                assert forall|id: int, pwb: Seq<u8>, exp: int|
                    #[trigger] token_matches(gkey, gtb, id, pwb, exp) implies exp <= now by {
                    lemma_token_bytes_inj(gkey, id, pwb, exp, idv as int, pwv@, expv as int);
                }
            }
            return Err(ErrorKind::TokenExpired);
        }
        proof {
            assert forall|id: int, pwb: Seq<u8>, exp: int|
                #[trigger] token_matches(gkey, gtb, id, pwb, exp) implies id == idv as int && pwb
                == pwv@ && exp == expv as int by {
                lemma_token_bytes_inj(gkey, id, pwb, exp, idv as int, pwv@, expv as int);
            }
        }
        Ok(Claims { id: idv, password, exp: expv })
    }

    /// Check a token at the current time.
    pub fn verify(token: &str, secret: &str) -> (r: Result<Claims, ErrorKind>)
        ensures
            ({
                let key = encode_utf8(secret@);
                let tb = encode_utf8(token@);
                &&& (secret@.len() == 0) == (r == Err::<Claims, ErrorKind>(
                    ErrorKind::ConfigMissing,
                ))
                &&& match r {
                    Ok(c) => token_matches(
                        key,
                        tb,
                        c.id as int,
                        encode_utf8(c.password@),
                        c.exp as int,
                    ),
                    Err(e) => {
                        ||| (e == ErrorKind::ConfigMissing && secret@.len() == 0)
                        ||| (e == ErrorKind::TokenExpired && exists|id: int, pwb: Seq<u8>, exp: int|
                            #[trigger] token_matches(key, tb, id, pwb, exp))
                        ||| (e == ErrorKind::TokenInvalid && forall|id: int, pwb: Seq<u8>, exp: int|
                            !#[trigger] token_matches(key, tb, id, pwb, exp))
                    },
                }
            }),
    {
        let now = now_timestamp();
        Self::verify_at(token, secret, now)
    }

    /// A token signed with one secret is rejected under another, as long as
    /// the two keys actually disagree on the signature of this signing
    /// input; with a 256-bit HMAC, distinct secrets that collide on a given
    /// message are not expected to exist.
    pub proof fn lemma_foreign_secret_rejected(
        k1: Seq<u8>,
        k2: Seq<u8>,
        id: int,
        pwb: Seq<u8>,
        exp: int,
    )
        requires
            claims_valid(id, pwb, exp),
            hmac_sha256(k1, signing_input(id, pwb, exp)) != hmac_sha256(
                k2,
                signing_input(id, pwb, exp),
            ),
        ensures
            forall|id2: int, pwb2: Seq<u8>, exp2: int|
                !token_matches(k2, token_bytes(k1, id, pwb, exp), id2, pwb2, exp2),
    {
        let t = token_bytes(k1, id, pwb, exp);
        assert forall|id2: int, pwb2: Seq<u8>, exp2: int|
            !token_matches(k2, t, id2, pwb2, exp2) by {
            if token_matches(k2, t, id2, pwb2, exp2) {
                lemma_token_shape(k1, id, pwb, exp);
                lemma_token_shape(k2, id2, pwb2, exp2);
                let hl = header_part().len() as int;
                let pl1 = payload_part(id, pwb, exp).len() as int;
                let pl2 = payload_part(id2, pwb2, exp2).len() as int;
                if pl1 < pl2 {
                    assert(t[hl + 1 + pl1] == 46);
                    assert(false);
                } else if pl2 < pl1 {
                    assert(t[hl + 1 + pl2] == 46);
                    assert(false);
                }
                assert(payload_part(id, pwb, exp) == payload_part(id2, pwb2, exp2));
                lemma_b64_inj(ser_claims(id, pwb, exp), ser_claims(id2, pwb2, exp2));
                lemma_ser_claims_inj(id, pwb, exp, id2, pwb2, exp2);
                assert(t.subrange(hl + 2 + pl1, t.len() as int) == sig_part(k1, id, pwb, exp));
                assert(t.subrange(hl + 2 + pl2, t.len() as int) == sig_part(k2, id2, pwb2, exp2));
                lemma_b64_inj(
                    hmac_sha256(k1, signing_input(id, pwb, exp)),
                    hmac_sha256(k2, signing_input(id2, pwb2, exp2)),
                );
            }
        }
    }
}

} // verus!
