//! Base64url (no padding) over byte sequences: the alphabet the token parts
//! are written in. Encoding and decoding are verified against each other:
//! `b64_decode` accepts exactly the images of `b64_bytes` and returns the
//! unique preimage.

use vstd::prelude::*;

verus! {

/// The base64url alphabet: the byte that stands for a six-bit value.
pub open spec fn b64_byte(n: int) -> u8
    recommends
        0 <= n < 64,
{
    if n < 26 {
        (65 + n) as u8  // 'A'..='Z'
    } else if n < 52 {
        (71 + n) as u8  // 'a'..='z'
    } else if n < 62 {
        (n - 4) as u8  // '0'..='9'
    } else if n == 62 {
        45u8  // '-'
    } else {
        95u8  // '_'
    }
}

/// The six-bit value a byte stands for, or -1 when the byte is not in the
/// alphabet.
pub open spec fn b64_val(b: u8) -> int {
    if 65 <= b <= 90 {
        b - 65
    } else if 97 <= b <= 122 {
        b - 97 + 26
    } else if 48 <= b <= 57 {
        b - 48 + 52
    } else if b == 45 {
        62
    } else if b == 95 {
        63
    } else {
        -1
    }
}

/// The four alphabet bytes that encode a group of three input bytes.
pub open spec fn b64_group(a: u8, b: u8, c: u8) -> Seq<u8> {
    seq![
        b64_byte(a as int / 4),
        b64_byte((a % 4) * 16 + b / 16),
        b64_byte((b % 16) * 4 + c / 64),
        b64_byte(c as int % 64),
    ]
}

/// Base64url encoding without padding: full groups of three bytes, then a
/// two- or three-byte tail whose unused low bits are zero.
pub open spec fn b64_bytes(s: Seq<u8>) -> Seq<u8>
    decreases s.len(),
{
    if s.len() == 0 {
        Seq::empty()
    } else if s.len() == 1 {
        seq![b64_byte(s[0] as int / 4), b64_byte((s[0] % 4) * 16)]
    } else if s.len() == 2 {
        seq![
            b64_byte(s[0] as int / 4),
            b64_byte((s[0] % 4) * 16 + s[1] / 16),
            b64_byte((s[1] % 16) * 4),
        ]
    } else {
        b64_group(s[0], s[1], s[2]) + b64_bytes(s.skip(3))
    }
}

/// The length of an encoding, determined by the input length alone.
pub open spec fn b64_len(n: int) -> int {
    4 * (n / 3) + if n % 3 == 0 {
        0int
    } else if n % 3 == 1 {
        2int
    } else {
        3int
    }
}

/// `b64_byte` and `b64_val` invert each other on the alphabet.
pub proof fn lemma_b64_byte_val(n: int)
    requires
        0 <= n < 64,
    ensures
        b64_val(b64_byte(n)) == n,
{
}

/// A byte with a six-bit value is reproduced by encoding that value.
pub proof fn lemma_b64_val_byte(b: u8)
    requires
        b64_val(b) >= 0,
    ensures
        0 <= b64_val(b) < 64,
        b64_byte(b64_val(b)) == b,
{
}

/// Everything an encoding looks like: its length, that every byte is in the
/// alphabet, and that the unused low bits of a tail are zero.
pub proof fn lemma_b64_image(s: Seq<u8>)
    ensures
        b64_bytes(s).len() == b64_len(s.len() as int),
        forall|i: int|
            0 <= i < b64_bytes(s).len() ==> b64_val(#[trigger] b64_bytes(s)[i]) >= 0,
        s.len() % 3 == 1 ==> b64_val(b64_bytes(s).last()) % 16 == 0,
        s.len() % 3 == 2 ==> b64_val(b64_bytes(s).last()) % 4 == 0,
    decreases s.len(),
{
    if s.len() == 0 {
    } else if s.len() == 1 {
        lemma_b64_byte_val(s[0] as int / 4);
        lemma_b64_byte_val((s[0] as int % 4) * 16);
    } else if s.len() == 2 {
        lemma_b64_byte_val(s[0] as int / 4);
        lemma_b64_byte_val((s[0] as int % 4) * 16 + s[1] as int / 16);
        lemma_b64_byte_val((s[1] as int % 16) * 4);
    } else {
        lemma_b64_byte_val(s[0] as int / 4);
        lemma_b64_byte_val((s[0] as int % 4) * 16 + s[1] as int / 16);
        lemma_b64_byte_val((s[1] as int % 16) * 4 + s[2] as int / 64);
        lemma_b64_byte_val(s[2] as int % 64);
        lemma_b64_image(s.skip(3));
        assert(s.skip(3).len() % 3 == s.len() % 3);
        assert forall|i: int| 0 <= i < b64_bytes(s).len() implies b64_val(
            #[trigger] b64_bytes(s)[i],
        ) >= 0 by {
            if i >= 4 {
                assert(b64_bytes(s)[i] == b64_bytes(s.skip(3))[i - 4]);
            }
        }
        if s.len() % 3 != 0 {
            assert(b64_bytes(s).last() == b64_bytes(s.skip(3)).last());
        }
    }
}

/// No encoding contains a dot, and every byte of one is ASCII: the alphabet
/// is disjoint from the separators of the token format.
pub proof fn lemma_b64_ascii_no_dot(s: Seq<u8>)
    ensures
        forall|i: int|
            0 <= i < b64_bytes(s).len() ==> #[trigger] b64_bytes(s)[i] != 46
                && b64_bytes(s)[i] < 128,
{
    lemma_b64_image(s);
    assert forall|i: int|
        0 <= i < b64_bytes(s).len() implies #[trigger] b64_bytes(s)[i] != 46 && b64_bytes(s)[i]
        < 128 by {
        assert(b64_val(b64_bytes(s)[i]) >= 0);
    }
}

/// Encoding distributes over splitting the input at a multiple of three.
pub proof fn lemma_b64_append(u: Seq<u8>, w: Seq<u8>)
    requires
        u.len() % 3 == 0,
    ensures
        b64_bytes(u + w) == b64_bytes(u) + b64_bytes(w),
    decreases u.len(),
{
    if u.len() == 0 {
        assert(u + w =~= w);
        assert(b64_bytes(u) + b64_bytes(w) =~= b64_bytes(w));
    } else {
        assert(u.len() >= 3);
        lemma_b64_append(u.skip(3), w);
        if w.len() == 0 {
            assert(u + w =~= u);
            assert(b64_bytes(u) + b64_bytes(w) =~= b64_bytes(u));
        } else {
            assert((u + w).len() >= 3);
            assert((u + w).skip(3) =~= u.skip(3) + w);
            assert(b64_bytes(u + w) == b64_group(u[0], u[1], u[2]) + b64_bytes(u.skip(3) + w));
            assert(b64_bytes(u) + b64_bytes(w) =~= b64_group(u[0], u[1], u[2]) + (b64_bytes(
                u.skip(3),
            ) + b64_bytes(w)));
        }
    }
}

/// Longer inputs have longer encodings.
pub proof fn lemma_b64_len_mono(n1: int, n2: int)
    requires
        0 <= n1 < n2,
    ensures
        b64_len(n1) < b64_len(n2),
    decreases n2 - n1,
{
    if n2 - n1 > 1 {
        lemma_b64_len_mono(n1, n2 - 1);
    }
    let n = n2 - 1;
    assert(b64_len(n) < b64_len(n + 1)) by {
        if n % 3 == 0 {
            assert((n + 1) / 3 == n / 3);
        } else if n % 3 == 1 {
            assert((n + 1) / 3 == n / 3);
        } else {
            assert((n + 1) / 3 == n / 3 + 1);
        }
    }
}

/// Encoding is injective: equal encodings come from equal inputs.
pub proof fn lemma_b64_inj(x: Seq<u8>, y: Seq<u8>)
    requires
        b64_bytes(x) == b64_bytes(y),
    ensures
        x == y,
    decreases x.len(),
{
    lemma_b64_image(x);
    lemma_b64_image(y);
    if x.len() < y.len() {
        lemma_b64_len_mono(x.len() as int, y.len() as int);
        assert(false);
    } else if y.len() < x.len() {
        lemma_b64_len_mono(y.len() as int, x.len() as int);
        assert(false);
    }
    if x.len() == 0 {
        assert(x =~= y);
    } else if x.len() == 1 {
        assert(b64_bytes(x)[0] == b64_bytes(y)[0]);
        assert(b64_bytes(x)[1] == b64_bytes(y)[1]);
        lemma_b64_byte_val(x[0] as int / 4);
        lemma_b64_byte_val(y[0] as int / 4);
        lemma_b64_byte_val((x[0] as int % 4) * 16);
        lemma_b64_byte_val((y[0] as int % 4) * 16);
        assert(x[0] as int / 4 == y[0] as int / 4);
        assert((x[0] as int % 4) * 16 == (y[0] as int % 4) * 16);
        assert(x[0] == y[0]);
        assert(x =~= y);
    } else if x.len() == 2 {
        assert(b64_bytes(x)[0] == b64_bytes(y)[0]);
        assert(b64_bytes(x)[1] == b64_bytes(y)[1]);
        assert(b64_bytes(x)[2] == b64_bytes(y)[2]);
        lemma_b64_byte_val(x[0] as int / 4);
        lemma_b64_byte_val(y[0] as int / 4);
        lemma_b64_byte_val((x[0] as int % 4) * 16 + x[1] as int / 16);
        lemma_b64_byte_val((y[0] as int % 4) * 16 + y[1] as int / 16);
        lemma_b64_byte_val((x[1] as int % 16) * 4);
        lemma_b64_byte_val((y[1] as int % 16) * 4);
        assert(x[0] as int / 4 == y[0] as int / 4);
        assert((x[0] as int % 4) * 16 + x[1] as int / 16 == (y[0] as int % 4) * 16 + y[1] as int
            / 16);
        assert(x[0] as int % 4 == y[0] as int % 4 && x[1] as int / 16 == y[1] as int / 16);
        assert((x[1] as int % 16) * 4 == (y[1] as int % 16) * 4);
        assert(x[0] == y[0] && x[1] == y[1]);
        assert(x =~= y);
    } else {
        let gx = b64_group(x[0], x[1], x[2]);
        let gy = b64_group(y[0], y[1], y[2]);
        assert(b64_bytes(x) == gx + b64_bytes(x.skip(3)));
        assert(b64_bytes(y) == gy + b64_bytes(y.skip(3)));
        assert forall|k: int| 0 <= k < 4 implies gx[k] == gy[k] by {
            assert(gx[k] == b64_bytes(x)[k]);
            assert(gy[k] == b64_bytes(y)[k]);
        }
        lemma_b64_byte_val(x[0] as int / 4);
        lemma_b64_byte_val(y[0] as int / 4);
        lemma_b64_byte_val((x[0] as int % 4) * 16 + x[1] as int / 16);
        lemma_b64_byte_val((y[0] as int % 4) * 16 + y[1] as int / 16);
        lemma_b64_byte_val((x[1] as int % 16) * 4 + x[2] as int / 64);
        lemma_b64_byte_val((y[1] as int % 16) * 4 + y[2] as int / 64);
        lemma_b64_byte_val(x[2] as int % 64);
        lemma_b64_byte_val(y[2] as int % 64);
        assert(x[0] as int / 4 == y[0] as int / 4);
        assert((x[0] as int % 4) * 16 + x[1] as int / 16 == (y[0] as int % 4) * 16 + y[1] as int
            / 16);
        assert(x[0] as int % 4 == y[0] as int % 4 && x[1] as int / 16 == y[1] as int / 16);
        assert((x[1] as int % 16) * 4 + x[2] as int / 64 == (y[1] as int % 16) * 4 + y[2] as int
            / 64);
        assert(x[1] as int % 16 == y[1] as int % 16 && x[2] as int / 64 == y[2] as int / 64);
        assert(x[2] as int % 64 == y[2] as int % 64);
        assert(x[0] == y[0] && x[1] == y[1] && x[2] == y[2]);
        assert forall|k: int| 0 <= k < b64_bytes(x.skip(3)).len() implies b64_bytes(x.skip(3))[k]
            == b64_bytes(y.skip(3))[k] by {
            assert(b64_bytes(x.skip(3))[k] == b64_bytes(x)[k + 4]);
            assert(b64_bytes(y.skip(3))[k] == b64_bytes(y)[k + 4]);
        }
        assert(b64_bytes(x.skip(3)) =~= b64_bytes(y.skip(3)));
        lemma_b64_inj(x.skip(3), y.skip(3));
        assert forall|k: int| 0 <= k < x.len() implies x[k] == y[k] by {
            if k >= 3 {
                assert(x[k] == x.skip(3)[k - 3]);
                assert(y[k] == y.skip(3)[k - 3]);
            }
        }
        assert(x =~= y);
    }
}

/// The alphabet byte of a six-bit value.
fn enc_byte(n: u8) -> (r: u8)
    requires
        n < 64,
    ensures
        r == b64_byte(n as int),
{
    if n < 26 {
        65 + n
    } else if n < 52 {
        71 + n
    } else if n < 62 {
        n - 4
    } else if n == 62 {
        45
    } else {
        95
    }
}

/// The six-bit value of an alphabet byte, or None outside the alphabet.
fn dec_val(b: u8) -> (r: Option<u8>)
    ensures
        match r {
            Some(v) => v < 64 && b64_val(b) == v as int,
            None => b64_val(b) == -1,
        },
{
    if 65 <= b && b <= 90 {
        Some(b - 65)
    } else if 97 <= b && b <= 122 {
        Some(b - 97 + 26)
    } else if 48 <= b && b <= 57 {
        Some(b - 48 + 52)
    } else if b == 45 {
        Some(62)
    } else if b == 95 {
        Some(63)
    } else {
        None
    }
}

/// Base64url-encode a byte string.
pub fn b64_encode(s: &[u8]) -> (out: Vec<u8>)
    ensures
        out@ == b64_bytes(s@),
{
    let mut out: Vec<u8> = Vec::new();
    let mut i: usize = 0;
    proof {
        assert(s@.skip(0) =~= s@);
        assert(Seq::<u8>::empty() + b64_bytes(s@) =~= b64_bytes(s@));
    }
    while s.len() - i >= 3
        invariant
            i <= s@.len(),
            out@ + b64_bytes(s@.skip(i as int)) == b64_bytes(s@),
        decreases s@.len() - i,
    {
        let a = s[i];
        let b = s[i + 1];
        let c = s[i + 2];
        out.push(enc_byte(a / 4));
        out.push(enc_byte((a % 4) * 16 + b / 16));
        out.push(enc_byte((b % 16) * 4 + c / 64));
        out.push(enc_byte(c % 64));
        proof {
            let t = s@.skip(i as int);
            assert(t.len() >= 3);
            assert(t[0] == a && t[1] == b && t[2] == c);
            assert(t.skip(3) =~= s@.skip(i as int + 3));
            assert(b64_bytes(t) == b64_group(a, b, c) + b64_bytes(s@.skip(i as int + 3)));
        }
        i += 3;
    }
    proof {
        let t = s@.skip(i as int);
        assert(t.len() < 3);
    }
    if s.len() - i == 1 {
        let a = s[i];
        out.push(enc_byte(a / 4));
        out.push(enc_byte((a % 4) * 16));
        proof {
            let t = s@.skip(i as int);
            assert(t.len() == 1 && t[0] == a);
        }
    } else if s.len() - i == 2 {
        let a = s[i];
        let b = s[i + 1];
        out.push(enc_byte(a / 4));
        out.push(enc_byte((a % 4) * 16 + b / 16));
        out.push(enc_byte((b % 16) * 4));
        proof {
            let t = s@.skip(i as int);
            assert(t.len() == 2 && t[0] == a && t[1] == b);
        }
    } else {
        proof {
            assert(s@.skip(i as int) =~= Seq::<u8>::empty());
        }
    }
    proof {
        assert(out@ =~= b64_bytes(s@));
    }
    out
}

/// Decode a base64url byte string. Succeeds exactly on the encodings that
/// `b64_bytes` produces and returns the unique preimage; anything else —
/// a foreign alphabet byte, a padded or truncated length, a tail with
/// nonzero unused bits — is refused.
pub fn b64_decode(s: &[u8]) -> (r: Option<Vec<u8>>)
    ensures
        match r {
            Some(out) => s@ == b64_bytes(out@),
            None => forall|b: Seq<u8>| s@ != #[trigger] b64_bytes(b),
        },
{
    if s.len() % 4 == 1 {
        proof {
            assert forall|b: Seq<u8>| s@ != #[trigger] b64_bytes(b) by {
                lemma_b64_image(b);
            }
        }
        return None;
    }
    let full: usize = (s.len() / 4) * 4;
    let mut out: Vec<u8> = Vec::new();
    let mut i: usize = 0;
    proof {
        assert(s@.take(0) =~= Seq::<u8>::empty());
    }
    while full - i >= 4
        invariant
            i <= full <= s@.len(),
            i % 4 == 0,
            full == (s@.len() / 4) * 4,
            out@.len() == 3 * (i / 4),
            out@.len() % 3 == 0,
            b64_bytes(out@) == s@.take(i as int),
        decreases full - i,
    {
        let v0 = match dec_val(s[i]) {
            Some(v) => v,
            None => {
                proof {
                    refute_bad_byte(s@, i as int);
                }
                return None;
            },
        };
        let v1 = match dec_val(s[i + 1]) {
            Some(v) => v,
            None => {
                proof {
                    refute_bad_byte(s@, i as int + 1);
                }
                return None;
            },
        };
        let v2 = match dec_val(s[i + 2]) {
            Some(v) => v,
            None => {
                proof {
                    refute_bad_byte(s@, i as int + 2);
                }
                return None;
            },
        };
        let v3 = match dec_val(s[i + 3]) {
            Some(v) => v,
            None => {
                proof {
                    refute_bad_byte(s@, i as int + 3);
                }
                return None;
            },
        };
        let x0 = v0 * 4 + v1 / 16;
        let x1 = (v1 % 16) * 16 + v2 / 4;
        let x2 = (v2 % 4) * 64 + v3;
        proof {
            let old_out = out@;
            lemma_b64_val_byte(s@[i as int]);
            lemma_b64_val_byte(s@[i as int + 1]);
            lemma_b64_val_byte(s@[i as int + 2]);
            lemma_b64_val_byte(s@[i as int + 3]);
            assert(b64_group(x0, x1, x2) =~= s@.subrange(i as int, i as int + 4)) by {
                assert(x0 / 4 == v0 as int && x0 % 4 == v1 as int / 16);
                assert(x1 / 16 == v1 as int % 16 && x1 % 16 == v2 as int / 4);
                assert(x2 / 64 == v2 as int % 4 && x2 % 64 == v3 as int);
                assert((v1 as int / 16) * 16 + v1 as int % 16 == v1 as int);
                assert((v2 as int / 4) * 4 + v2 as int % 4 == v2 as int);
                assert(b64_byte(x0 as int / 4) == s@[i as int]);
                assert(b64_byte((x0 as int % 4) * 16 + x1 as int / 16) == s@[i as int + 1]);
                assert(b64_byte((x1 as int % 16) * 4 + x2 as int / 64) == s@[i as int + 2]);
                assert(b64_byte(x2 as int % 64) == s@[i as int + 3]);
            }
            let trio = seq![x0, x1, x2];
            lemma_b64_append(old_out, trio);
            assert(trio.len() == 3);
            assert(trio[0] == x0 && trio[1] == x1 && trio[2] == x2);
            assert(trio.skip(3) =~= Seq::<u8>::empty());
            assert(b64_bytes(trio.skip(3)) =~= Seq::<u8>::empty());
            assert(b64_bytes(trio) == b64_group(trio[0], trio[1], trio[2]) + b64_bytes(
                trio.skip(3),
            ));
            assert(b64_bytes(trio) =~= b64_group(x0, x1, x2));
            assert(old_out.push(x0).push(x1).push(x2) =~= old_out + trio);
            assert(s@.take(i as int) + s@.subrange(i as int, i as int + 4) =~= s@.take(
                i as int + 4,
            ));
        }
        out.push(x0);
        out.push(x1);
        out.push(x2);
        i += 4;
    }
    // the tail: zero, two or three remaining alphabet bytes
    if i == s.len() {
        proof {
            assert(s@.take(i as int) =~= s@);
        }
        return Some(out);
    }
    proof {
        assert(s@.len() - i as int == s@.len() % 4);
        assert(s@.len() % 4 == 2 || s@.len() % 4 == 3);
    }
    let v0 = match dec_val(s[i]) {
        Some(v) => v,
        None => {
            proof {
                refute_bad_byte(s@, i as int);
            }
            return None;
        },
    };
    let v1 = match dec_val(s[i + 1]) {
        Some(v) => v,
        None => {
            proof {
                refute_bad_byte(s@, i as int + 1);
            }
            return None;
        },
    };
    if s.len() - i == 2 {
        if v1 % 16 != 0 {
            proof {
                assert forall|b: Seq<u8>| s@ != #[trigger] b64_bytes(b) by {
                    if s@ == b64_bytes(b) {
                        lemma_b64_image(b);
                        assert(b.len() % 3 == 1);
                        assert(b64_bytes(b).last() == s@[i as int + 1]);
                    }
                }
            }
            return None;
        }
        let x0 = v0 * 4 + v1 / 16;
        proof {
            let old_out = out@;
            lemma_b64_val_byte(s@[i as int]);
            lemma_b64_val_byte(s@[i as int + 1]);
            let tail = seq![x0];
            assert(b64_bytes(tail) =~= s@.subrange(i as int, i as int + 2)) by {
                assert(x0 / 4 == v0 as int && x0 % 4 == v1 as int / 16);
                assert((v1 as int / 16) * 16 == v1 as int);
                assert(b64_byte(x0 as int / 4) == s@[i as int]);
                assert(b64_byte((x0 as int % 4) * 16) == s@[i as int + 1]);
            }
            lemma_b64_append(old_out, tail);
            assert(old_out.push(x0) =~= old_out + tail);
            assert(s@.take(i as int) + s@.subrange(i as int, i as int + 2) =~= s@);
        }
        out.push(x0);
        return Some(out);
    }
    // three tail bytes
    let v2 = match dec_val(s[i + 2]) {
        Some(v) => v,
        None => {
            proof {
                refute_bad_byte(s@, i as int + 2);
            }
            return None;
        },
    };
    if v2 % 4 != 0 {
        proof {
            assert forall|b: Seq<u8>| s@ != #[trigger] b64_bytes(b) by {
                if s@ == b64_bytes(b) {
                    lemma_b64_image(b);
                    assert(b.len() % 3 == 2);
                    assert(b64_bytes(b).last() == s@[i as int + 2]);
                }
            }
        }
        return None;
    }
    let x0 = v0 * 4 + v1 / 16;
    let x1 = (v1 % 16) * 16 + v2 / 4;
    proof {
        let old_out = out@;
        lemma_b64_val_byte(s@[i as int]);
        lemma_b64_val_byte(s@[i as int + 1]);
        lemma_b64_val_byte(s@[i as int + 2]);
        let tail = seq![x0, x1];
        assert(b64_bytes(tail) =~= s@.subrange(i as int, i as int + 3)) by {
            assert(x0 / 4 == v0 as int && x0 % 4 == v1 as int / 16);
            assert(x1 / 16 == v1 as int % 16 && x1 % 16 == v2 as int / 4);
            assert((v1 as int / 16) * 16 + v1 as int % 16 == v1 as int);
            assert((v2 as int / 4) * 4 == v2 as int);
            assert(b64_byte(x0 as int / 4) == s@[i as int]);
            assert(b64_byte((x0 as int % 4) * 16 + x1 as int / 16) == s@[i as int + 1]);
            assert(b64_byte((x1 as int % 16) * 4) == s@[i as int + 2]);
        }
        lemma_b64_append(old_out, tail);
        assert(old_out.push(x0).push(x1) =~= old_out + tail);
        assert(s@.take(i as int) + s@.subrange(i as int, i as int + 3) =~= s@);
    }
    out.push(x0);
    out.push(x1);
    Some(out)
}

/// If some position of `s` is outside the alphabet, `s` is no encoding.
proof fn refute_bad_byte(s: Seq<u8>, k: int)
    requires
        0 <= k < s.len(),
        b64_val(s[k]) == -1,
    ensures
        forall|b: Seq<u8>| s != #[trigger] b64_bytes(b),
{
    assert forall|b: Seq<u8>| s != #[trigger] b64_bytes(b) by {
        if s == b64_bytes(b) {
            lemma_b64_image(b);
            assert(b64_val(b64_bytes(b)[k]) >= 0);
        }
    }
}

} // verus!
