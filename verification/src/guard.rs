//! The request-authorization guard: turn an `Authorization` header into a
//! resolved user, or a precise rejection. The guard never indexes past the
//! header, rejects anything but the exact `Bearer ` scheme, delegates the
//! token check to the token service, and refuses disabled accounts.

use crate::errors::ErrorKind;
use crate::jwt::{token_matches, JwtHandler};
use crate::user::{has_id, User, UserStore};
use vstd::prelude::*;
use vstd::string::StrSliceExecFns;
use vstd::utf8::encode_utf8;

verus! {

/// The scheme prefix an acceptable header starts with: `Bearer `.
pub open spec fn bearer_prefix() -> Seq<char> {
    seq!['B', 'e', 'a', 'r', 'e', 'r', ' ']
}

/// The header names a bearer token: long enough and correctly prefixed.
pub open spec fn bearer_ok(h: Seq<char>) -> bool {
    h.len() >= 7 && h.subrange(0, 7) == bearer_prefix()
}

/// The token carried after the scheme prefix.
pub open spec fn bearer_token(h: Seq<char>) -> Seq<char> {
    h.skip(7)
}

/// The guard's verdict on a well-prefixed header, given the store's rows,
/// the signing secret and the time: which error comes back for which token,
/// and which user a good token resolves to.
pub open spec fn guard_verdict(
    h: Seq<char>,
    rows: Seq<crate::user::StoredUser>,
    jwt_secret: Seq<char>,
    now: int,
    r: Result<JwtMiddleware, ErrorKind>,
) -> bool {
    let key = encode_utf8(jwt_secret);
    let tb = encode_utf8(bearer_token(h));
    &&& (jwt_secret.len() == 0) == (r == Err::<JwtMiddleware, ErrorKind>(
        ErrorKind::ConfigMissing,
    ))
    &&& (jwt_secret.len() > 0 && (forall|id: int, pwb: Seq<u8>, exp: int|
        !#[trigger] token_matches(key, tb, id, pwb, exp))) ==> r == Err::<
        JwtMiddleware,
        ErrorKind,
    >(ErrorKind::TokenInvalid)
    &&& forall|id: int, pwb: Seq<u8>, exp: int|
        (jwt_secret.len() > 0 && #[trigger] token_matches(key, tb, id, pwb, exp) && exp <= now)
            ==> r == Err::<JwtMiddleware, ErrorKind>(ErrorKind::TokenExpired)
    &&& forall|id: int, pwb: Seq<u8>, exp: int|
        (jwt_secret.len() > 0 && #[trigger] token_matches(key, tb, id, pwb, exp) && exp > now)
            ==> {
            &&& (!has_id(rows, id) ==> r == Err::<JwtMiddleware, ErrorKind>(ErrorKind::NotFound))
            &&& forall|i: int|
                (0 <= i < rows.len() && (#[trigger] rows[i].id) as int == id) ==> {
                    &&& (!rows[i].status ==> r == Err::<JwtMiddleware, ErrorKind>(
                        ErrorKind::AccountBlocked,
                    ))
                    &&& (rows[i].status ==> r is Ok && ({
                        let u = r->Ok_0.user;
                        &&& u.id as int == id
                        &&& u.username@ == rows[i].username@
                        &&& u.email@ == rows[i].email@
                        &&& u.status == true
                    }))
                }
        }
}

/// A resolved request identity: the guard's successful outcome, handed to
/// downstream handlers, which read it and never re-verify.
#[derive(Debug)]
pub struct JwtMiddleware {
    pub user: User,
}

impl JwtMiddleware {
    /// Gate a request. `authorization` is the raw `Authorization` header,
    /// if the request carried one.
    ///
    /// A missing or non-`Bearer ` header is `MissingToken`; a token that
    /// does not verify keeps the token service's verdict (`TokenInvalid`,
    /// `TokenExpired`, or `ConfigMissing` for an empty secret); a verified
    /// claim whose user is gone is `NotFound` (a 401, not a 404, so this
    /// path cannot be used to enumerate accounts); a disabled account is
    /// `AccountBlocked`; otherwise the current record is attached.
    pub fn from_request(
        authorization: Option<&str>,
        store: &UserStore,
        jwt_secret: &str,
        now: i64,
    ) -> (r: Result<JwtMiddleware, ErrorKind>)
        requires
            store.wf(),
        ensures
            authorization is None ==> r == Err::<JwtMiddleware, ErrorKind>(
                ErrorKind::MissingToken,
            ),
            authorization matches Some(h) ==> (if bearer_ok(h@) {
                guard_verdict(h@, store.rows(), jwt_secret@, now as int, r)
            } else {
                r == Err::<JwtMiddleware, ErrorKind>(ErrorKind::MissingToken)
            }),
    {
        let h = match authorization {
            Some(h) => h,
            None => {
                return Err(ErrorKind::MissingToken);
            },
        };
        let hn = h.unicode_len();
        if hn < 7 {
            return Err(ErrorKind::MissingToken);
        }
        if !(h.get_char(0) == 'B' && h.get_char(1) == 'e' && h.get_char(2) == 'a' && h.get_char(3)
            == 'r' && h.get_char(4) == 'e' && h.get_char(5) == 'r' && h.get_char(6) == ' ') {
            proof {
                assert(h@.subrange(0, 7) != bearer_prefix());
            }
            return Err(ErrorKind::MissingToken);
        }
        proof {
            assert(h@.subrange(0, 7) =~= bearer_prefix());
        }
        let token = h.substring_char(7, hn);
        proof {
            assert(token@ =~= bearer_token(h@));
        }
        let claims = match JwtHandler::verify_at(token, jwt_secret, now) {
            Ok(c) => c,
            Err(e) => {
                return Err(e);
            },
        };
        let user = match store.find_by_id(claims.id) {
            Some(u) => u,
            None => {
                proof {
                    lemma_unique_match(
                        encode_utf8(jwt_secret@),
                        encode_utf8(token@),
                        claims.id as int,
                        encode_utf8(claims.password@),
                        claims.exp as int,
                    );
                }
                return Err(ErrorKind::NotFound);
            },
        };
        proof {
            lemma_unique_match(
                encode_utf8(jwt_secret@),
                encode_utf8(token@),
                claims.id as int,
                encode_utf8(claims.password@),
                claims.exp as int,
            );
            assert forall|i: int, j: int|
                (0 <= i < store.rows().len() && 0 <= j < store.rows().len()
                    && (#[trigger] store.rows()[i].id) == (#[trigger] store.rows()[j].id))
                implies i == j by {
                if i != j {
                    assert(store.rows()[i].id != store.rows()[j].id);
                }
            }
        }
        if !user.status {
            return Err(ErrorKind::AccountBlocked);
        }
        Ok(JwtMiddleware { user })
    }
}

/// Any triple that matches a given token equals the triple the token was
/// read as.
proof fn lemma_unique_match(key: Seq<u8>, tb: Seq<u8>, id0: int, pwb0: Seq<u8>, exp0: int)
    requires
        token_matches(key, tb, id0, pwb0, exp0),
    ensures
        forall|id: int, pwb: Seq<u8>, exp: int|
            #[trigger] token_matches(key, tb, id, pwb, exp) ==> id == id0 && pwb == pwb0 && exp
                == exp0,
{
    assert forall|id: int, pwb: Seq<u8>, exp: int|
        #[trigger] token_matches(key, tb, id, pwb, exp) implies id == id0 && pwb == pwb0 && exp
        == exp0 by {
        crate::jwt::lemma_token_bytes_inj(key, id, pwb, exp, id0, pwb0, exp0);
    }
}

} // verus!
