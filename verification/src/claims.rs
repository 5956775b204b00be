//! The claims payload of a token: a fixed-shape JSON object
//! `{"id":<int>,"password":"<hash>","exp":<int>}` over bytes.
//!
//! Serialization is canonical (no leading zeros, no escapes), and
//! `parse_claims` accepts exactly the canonical serializations: it returns
//! the unique triple whose serialization is the input, or refuses.

use vstd::prelude::*;

verus! {

/// A decimal digit byte.
pub open spec fn is_digit(b: u8) -> bool {
    48 <= b <= 57
}

/// Bytes that may stand inside the quoted hash field without escaping:
/// printable ASCII except the quote and the backslash.
pub open spec fn token_safe_byte(b: u8) -> bool {
    32 <= b < 127 && b != 34 && b != 92
}

/// A byte string fit for the quoted hash field.
pub open spec fn token_safe_bytes(s: Seq<u8>) -> bool {
    forall|i: int| 0 <= i < s.len() ==> token_safe_byte(#[trigger] s[i])
}

/// Powers of ten.
pub open spec fn pow10(k: int) -> int
    decreases k,
{
    if k <= 0 {
        1
    } else {
        10 * pow10(k - 1)
    }
}

/// The canonical decimal digits of a natural number, most significant first.
pub open spec fn dec_digits(n: nat) -> Seq<u8>
    decreases n,
{
    if n < 10 {
        seq![(48 + n) as u8]
    } else {
        dec_digits(n / 10) + seq![(48 + n % 10) as u8]
    }
}

/// The canonical decimal form of an integer: an optional minus sign and the
/// digits of the magnitude.
pub open spec fn dec_int(v: int) -> Seq<u8> {
    if v < 0 {
        seq![45u8] + dec_digits((-v) as nat)
    } else {
        dec_digits(v as nat)
    }
}

/// The number a digit string stands for.
pub open spec fn val_digits(s: Seq<u8>) -> int
    decreases s.len(),
{
    if s.len() == 0 {
        0
    } else {
        val_digits(s.drop_last()) * 10 + (s.last() - 48)
    }
}

/// `{"id":`
pub open spec fn lit_id() -> Seq<u8> {
    seq![123u8, 34u8, 105u8, 100u8, 34u8, 58u8]
}

/// `,"password":"`
pub open spec fn lit_pw() -> Seq<u8> {
    seq![44u8, 34u8, 112u8, 97u8, 115u8, 115u8, 119u8, 111u8, 114u8, 100u8, 34u8, 58u8, 34u8]
}

/// `","exp":`
pub open spec fn lit_exp() -> Seq<u8> {
    seq![34u8, 44u8, 34u8, 101u8, 120u8, 112u8, 34u8, 58u8]
}

/// `}`
pub open spec fn lit_end() -> Seq<u8> {
    seq![125u8]
}

/// The canonical serialization of a claims triple.
pub open spec fn ser_claims(id: int, pw: Seq<u8>, exp: int) -> Seq<u8> {
    lit_id() + dec_int(id) + lit_pw() + pw + lit_exp() + dec_int(exp) + lit_end()
}

/// The triples that the wire format can carry.
pub open spec fn claims_valid(id: int, pw: Seq<u8>, exp: int) -> bool {
    i32::MIN <= id <= i32::MAX && i64::MIN <= exp <= i64::MAX && token_safe_bytes(pw)
}

/// Shape of canonical digit strings: nonempty, digits only, and a leading
/// zero only for zero itself; their value is the number they were made from.
pub proof fn lemma_dec_digits(n: nat)
    ensures
        dec_digits(n).len() >= 1,
        forall|i: int| 0 <= i < dec_digits(n).len() ==> is_digit(#[trigger] dec_digits(n)[i]),
        n >= 1 ==> dec_digits(n)[0] != 48,
        n < 10 ==> dec_digits(n).len() == 1,
        val_digits(dec_digits(n)) == n,
    decreases n,
{
    if n < 10 {
        let d = dec_digits(n);
        assert(d =~= seq![(48 + n) as u8]);
        assert(d.drop_last() =~= Seq::<u8>::empty());
        assert(d.last() == (48 + n) as u8);
        assert(val_digits(d) == val_digits(d.drop_last()) * 10 + (d.last() - 48));
        assert(val_digits(d.drop_last()) == 0);
    } else {
        lemma_dec_digits(n / 10);
        let d = dec_digits(n);
        let p = dec_digits(n / 10);
        assert(d == p + seq![(48 + n % 10) as u8]);
        assert(d.drop_last() =~= p);
        assert(d.last() == (48 + n % 10) as u8);
        assert(val_digits(d) == val_digits(p) * 10 + n % 10);
        assert(val_digits(d) == (n / 10) * 10 + n % 10);
        assert(d[0] == p[0]);
        assert forall|i: int| 0 <= i < d.len() implies is_digit(#[trigger] d[i]) by {
            if i < p.len() {
                assert(d[i] == p[i]);
            }
        }
    }
}

/// A number below `pow10(k)` has at most `k` digits.
pub proof fn lemma_dec_digits_len(n: nat, k: int)
    requires
        k >= 1,
        n < pow10(k),
    ensures
        dec_digits(n).len() <= k,
    decreases k,
{
    if n < 10 {
    } else {
        assert(pow10(k) == 10 * pow10(k - 1));
        assert(n / 10 < pow10(k - 1));
        assert(k >= 2) by {
            if k == 1 {
                assert(pow10(1) == 10);
            }
        }
        lemma_dec_digits_len(n / 10, k - 1);
    }
}

/// A canonical digit string of length `L` stands for at least `pow10(L-1)`.
pub proof fn lemma_val_lower(s: Seq<u8>)
    requires
        s.len() >= 1,
        forall|i: int| 0 <= i < s.len() ==> is_digit(#[trigger] s[i]),
        s[0] != 48,
    ensures
        val_digits(s) >= pow10(s.len() - 1),
    decreases s.len(),
{
    if s.len() == 1 {
        assert(s.drop_last() =~= Seq::<u8>::empty());
        assert(val_digits(s.drop_last()) == 0);
        assert(s.last() == s[0]);
        assert(val_digits(s) == s[0] - 48);
    } else {
        let p = s.drop_last();
        assert(p[0] == s[0]);
        assert(forall|i: int| 0 <= i < p.len() ==> is_digit(#[trigger] p[i]));
        lemma_val_lower(p);
        assert(s.last() >= 48);
        assert(val_digits(s) == val_digits(p) * 10 + (s.last() - 48));
        assert(pow10(s.len() - 1) == 10 * pow10(s.len() - 2));
    }
}

/// A nonempty digit string without a spurious leading zero is the canonical
/// form of its value.
pub proof fn lemma_canon_digits(s: Seq<u8>)
    requires
        s.len() >= 1,
        forall|i: int| 0 <= i < s.len() ==> is_digit(#[trigger] s[i]),
        s[0] != 48 || s.len() == 1,
    ensures
        val_digits(s) >= 0,
        dec_digits(val_digits(s) as nat) == s,
    decreases s.len(),
{
    if s.len() == 1 {
        assert(s.drop_last() =~= Seq::<u8>::empty());
        assert(val_digits(s.drop_last()) == 0);
        assert(s.last() == s[0]);
        let v = val_digits(s);
        assert(v == s[0] - 48);
        assert(dec_digits(v as nat) =~= s);
    } else {
        let p = s.drop_last();
        assert(p[0] == s[0]);
        assert(forall|i: int| 0 <= i < p.len() ==> is_digit(#[trigger] p[i]));
        lemma_canon_digits(p);
        lemma_val_lower(p);
        assert(pow10(p.len() - 1) >= 1) by {
            lemma_pow10_pos(p.len() - 1);
        }
        let vp = val_digits(p);
        let d = s.last() - 48;
        let v = val_digits(s);
        assert(v == vp * 10 + d);
        assert(vp >= 1);
        assert(v >= 10);
        assert(v / 10 == vp && v % 10 == d);
        assert(dec_digits(v as nat) == dec_digits((v as nat) / 10) + seq![
            (48 + (v as nat) % 10) as u8,
        ]);
        assert((v as nat) / 10 == vp as nat);
        assert(dec_digits(v as nat) =~= s);
    }
}

/// Powers of ten are positive.
pub proof fn lemma_pow10_pos(k: int)
    ensures
        pow10(k) >= 1,
    decreases (if k > 0 { k } else { 0 }),
{
    if k > 0 {
        lemma_pow10_pos(k - 1);
    }
}

/// Equal canonical forms mean equal numbers.
pub proof fn lemma_dec_digits_inj(a: nat, b: nat)
    requires
        dec_digits(a) == dec_digits(b),
    ensures
        a == b,
{
    lemma_dec_digits(a);
    lemma_dec_digits(b);
}

/// `v` is written in canonical decimal at position `pos` of `s`, and the
/// digits are maximal: the next byte, if any, is not a digit.
pub open spec fn int_at(s: Seq<u8>, pos: int, v: int) -> bool {
    &&& 0 <= pos
    &&& pos + dec_int(v).len() <= s.len()
    &&& s.subrange(pos, pos + dec_int(v).len() as int) == dec_int(v)
    &&& (pos + dec_int(v).len() == s.len() || !is_digit(s[pos + dec_int(v).len()]))
}

/// Shape of `dec_int`: sign byte exactly for negatives, digits everywhere
/// else.
pub proof fn lemma_dec_int_shape(v: int)
    ensures
        dec_int(v).len() >= 1,
        (dec_int(v)[0] == 45) == (v < 0),
        forall|i: int| 1 <= i < dec_int(v).len() ==> is_digit(#[trigger] dec_int(v)[i]),
        v >= 0 ==> forall|i: int| 0 <= i < dec_int(v).len() ==> is_digit(#[trigger] dec_int(v)[i]),
        v < 0 ==> dec_int(v).len() >= 2,
{
    if v < 0 {
        lemma_dec_digits((-v) as nat);
        let d = dec_int(v);
        let m = dec_digits((-v) as nat);
        assert(d == seq![45u8] + m);
        assert(d[0] == 45);
        assert forall|i: int| 1 <= i < d.len() implies is_digit(#[trigger] d[i]) by {
            assert(d[i] == m[i - 1]);
        }
    } else {
        lemma_dec_digits(v as nat);
        assert(!is_digit(45u8));
        assert(dec_int(v)[0] != 45);
    }
}

/// Two integers written at the same position of the same string are equal.
pub proof fn lemma_int_at_unique(s: Seq<u8>, pos: int, v1: int, v2: int)
    requires
        int_at(s, pos, v1),
        int_at(s, pos, v2),
    ensures
        v1 == v2,
{
    lemma_dec_int_shape(v1);
    lemma_dec_int_shape(v2);
    let d1 = dec_int(v1);
    let d2 = dec_int(v2);
    if d1.len() < d2.len() {
        assert(s[pos + d1.len()] == d2[d1.len() as int]);
        assert(is_digit(d2[d1.len() as int]));
        assert(pos + d1.len() < pos + d2.len() <= s.len());
        assert(false);
    } else if d2.len() < d1.len() {
        assert(s[pos + d2.len()] == d1[d2.len() as int]);
        assert(is_digit(d1[d2.len() as int]));
        assert(pos + d2.len() < pos + d1.len() <= s.len());
        assert(false);
    } else {
        assert(d1 =~= d2);
        if v1 < 0 && v2 < 0 {
            let m1 = dec_digits((-v1) as nat);
            let m2 = dec_digits((-v2) as nat);
            assert(d1 == seq![45u8] + m1);
            assert(d2 == seq![45u8] + m2);
            assert forall|j: int| 0 <= j < m1.len() implies m1[j] == m2[j] by {
                assert(m1[j] == d1[j + 1]);
                assert(m2[j] == d2[j + 1]);
            }
            assert(m1 =~= m2);
            lemma_dec_digits_inj((-v1) as nat, (-v2) as nat);
        } else if v1 >= 0 && v2 >= 0 {
            lemma_dec_digits_inj(v1 as nat, v2 as nat);
        } else {
            assert((d1[0] == 45) == (v1 < 0));
            assert((d2[0] == 45) == (v2 < 0));
            assert(false);
        }
    }
}

/// Compare two byte strings.
pub fn bytes_eq(a: &[u8], b: &[u8]) -> (r: bool)
    ensures
        r == (a@ == b@),
{
    if a.len() != b.len() {
        proof {
            assert(a@ != b@);
        }
        return false;
    }
    let mut i: usize = 0;
    while i < a.len()
        invariant
            i <= a@.len(),
            a@.len() == b@.len(),
            forall|j: int| 0 <= j < i ==> a@[j] == b@[j],
        decreases a@.len() - i,
    {
        if a[i] != b[i] {
            return false;
        }
        i += 1;
    }
    proof {
        assert(a@ =~= b@);
    }
    true
}

/// True exactly when `lit` occurs at position `pos` of `s`.
pub fn match_at(s: &[u8], pos: usize, lit: &[u8]) -> (r: bool)
    requires
        pos <= s@.len(),
    ensures
        r == (pos + lit@.len() <= s@.len() && s@.subrange(
            pos as int,
            pos as int + lit@.len() as int,
        ) == lit@),
{
    let slen = s.len();
    proof {
        assert(s@.len() == slen);
    }
    if slen - pos < lit.len() {
        return false;
    }
    let mut j: usize = 0;
    while j < lit.len()
        invariant
            j <= lit@.len(),
            pos + lit@.len() <= s@.len(),
            s@.len() <= usize::MAX,
            forall|k: int| 0 <= k < j ==> s@[pos + k] == lit@[k],
        decreases lit@.len() - j,
    {
        proof {
            assert(pos + j < s@.len());
        }
        if s[pos + j] != lit[j] {
            proof {
                assert(s@.subrange(pos as int, pos as int + lit@.len() as int)[j as int]
                    != lit@[j as int]);
            }
            return false;
        }
        j += 1;
    }
    proof {
        assert(s@.subrange(pos as int, pos as int + lit@.len() as int) =~= lit@);
    }
    true
}

/// Append the canonical digits of `n`.
fn push_dec_u64(out: &mut Vec<u8>, n: u64)
    ensures
        final(out)@ == old(out)@ + dec_digits(n as nat),
    decreases n,
{
    if n < 10 {
        out.push(48 + n as u8);
        proof {
            assert(out@ =~= old(out)@ + dec_digits(n as nat));
        }
    } else {
        push_dec_u64(out, n / 10);
        out.push(48 + (n % 10) as u8);
        proof {
            assert(out@ =~= old(out)@ + dec_digits(n as nat));
        }
    }
}

/// Append the canonical decimal form of `v`.
fn push_dec_i64(out: &mut Vec<u8>, v: i64)
    ensures
        final(out)@ == old(out)@ + dec_int(v as int),
{
    if v >= 0 {
        push_dec_u64(out, v as u64);
    } else {
        out.push(45);
        let m: u64 = ((-(v + 1)) as u64) + 1;
        proof {
            assert(m == -(v as int));
        }
        push_dec_u64(out, m);
        proof {
            assert(out@ =~= old(out)@ + dec_int(v as int));
        }
    }
}

/// Append a literal.
pub(crate) fn push_all(out: &mut Vec<u8>, lit: &[u8])
    ensures
        final(out)@ == old(out)@ + lit@,
{
    let mut j: usize = 0;
    while j < lit.len()
        invariant
            j <= lit@.len(),
            out@ == old(out)@ + lit@.take(j as int),
        decreases lit@.len() - j,
    {
        out.push(lit[j]);
        proof {
            assert(lit@.take(j as int).push(lit@[j as int]) =~= lit@.take(j as int + 1));
        }
        j += 1;
    }
    proof {
        assert(lit@.take(lit@.len() as int) =~= lit@);
    }
}

/// `{"id":` as bytes.
pub(crate) fn lit_id_vec() -> (v: Vec<u8>)
    ensures
        v@ == lit_id(),
{
    let v = vec![123u8, 34u8, 105u8, 100u8, 34u8, 58u8];
    proof {
        assert(v@ =~= lit_id());
    }
    v
}

/// `,"password":"` as bytes.
fn lit_pw_vec() -> (v: Vec<u8>)
    ensures
        v@ == lit_pw(),
{
    let v = vec![
        44u8,
        34u8,
        112u8,
        97u8,
        115u8,
        115u8,
        119u8,
        111u8,
        114u8,
        100u8,
        34u8,
        58u8,
        34u8,
    ];
    proof {
        assert(v@ =~= lit_pw());
    }
    v
}

/// `","exp":` as bytes.
fn lit_exp_vec() -> (v: Vec<u8>)
    ensures
        v@ == lit_exp(),
{
    let v = vec![34u8, 44u8, 34u8, 101u8, 120u8, 112u8, 34u8, 58u8];
    proof {
        assert(v@ =~= lit_exp());
    }
    v
}

/// Serialize a claims triple into its canonical byte form.
pub fn serialize_claims(id: i32, pw: &[u8], exp: i64) -> (out: Vec<u8>)
    ensures
        out@ == ser_claims(id as int, pw@, exp as int),
{
    let mut out: Vec<u8> = Vec::new();
    let l1 = lit_id_vec();
    push_all(&mut out, l1.as_slice());
    push_dec_i64(&mut out, id as i64);
    let l2 = lit_pw_vec();
    push_all(&mut out, l2.as_slice());
    push_all(&mut out, pw);
    let l3 = lit_exp_vec();
    push_all(&mut out, l3.as_slice());
    push_dec_i64(&mut out, exp);
    out.push(125);
    proof {
        assert(out@ =~= ser_claims(id as int, pw@, exp as int));
    }
    out
}

/// No integer can be read at `pos`: the first byte is neither sign nor digit,
/// or the string ends there.
proof fn refute_no_int(s: Seq<u8>, pos: int)
    requires
        0 <= pos,
        pos == s.len() || (s[pos] != 45 && !is_digit(s[pos])),
    ensures
        forall|v: int| !int_at(s, pos, v),
{
    assert forall|v: int| !int_at(s, pos, v) by {
        if int_at(s, pos, v) {
            lemma_dec_int_shape(v);
            assert(s[pos] == dec_int(v)[0]);
            if v < 0 {
            } else {
                assert(is_digit(dec_int(v)[0]));
            }
        }
    }
}

/// No integer: a sign byte with no digit after it.
proof fn refute_sign_no_digit(s: Seq<u8>, pos: int)
    requires
        0 <= pos < s.len(),
        s[pos] == 45,
        pos + 1 == s.len() || !is_digit(s[pos + 1]),
    ensures
        forall|v: int| !int_at(s, pos, v),
{
    assert forall|v: int| !int_at(s, pos, v) by {
        if int_at(s, pos, v) {
            lemma_dec_int_shape(v);
            assert(s[pos] == dec_int(v)[0]);
            if v < 0 {
                assert(s[pos + 1] == dec_int(v)[1]);
                assert(is_digit(dec_int(v)[1]));
                assert(pos + 1 < s.len());
            } else {
                assert(is_digit(dec_int(v)[0]));
            }
        }
    }
}

/// No integer: the magnitude starts with a zero that is followed by another
/// digit (or a signed zero).
proof fn refute_leading_zero(s: Seq<u8>, pos: int, d0: int)
    requires
        0 <= pos <= d0 < s.len(),
        d0 == pos || (d0 == pos + 1 && s[pos] == 45),
        s[d0] == 48,
        d0 == pos + 1 || (d0 + 1 < s.len() && is_digit(s[d0 + 1])),
    ensures
        forall|v: int| !int_at(s, pos, v),
{
    assert forall|v: int| !int_at(s, pos, v) by {
        if int_at(s, pos, v) {
            lemma_dec_int_shape(v);
            assert(s[pos] == dec_int(v)[0]);
            if d0 == pos + 1 && s[pos] == 45 {
                // signed: the magnitude is at least one, so its first digit
                // is not zero
                assert(v < 0);
                lemma_dec_digits((-v) as nat);
                assert(dec_int(v)[1] == dec_digits((-v) as nat)[0]);
                assert(s[d0] == dec_int(v)[1]);
                assert(dec_digits((-v) as nat)[0] != 48);
            } else {
                assert(d0 == pos);
                assert(v >= 0);
                lemma_dec_digits(v as nat);
                assert(s[d0] == dec_int(v)[0]);
                assert(dec_digits(v as nat)[0] == 48 ==> v == 0);
                assert(v == 0);
                assert(dec_int(0).len() == 1);
                assert(d0 + 1 < s.len() && is_digit(s[d0 + 1]));
            }
        }
    }
}

/// No integer in `i64` range: the digit run is twenty or more digits long.
proof fn refute_long_run(s: Seq<u8>, pos: int, d0: int)
    requires
        0 <= pos <= d0,
        d0 == pos || (d0 == pos + 1 && s[pos] == 45),
        d0 + 20 <= s.len(),
        forall|j: int| d0 <= j < d0 + 20 ==> is_digit(#[trigger] s[j]),
        d0 == pos || s[pos] == 45,
    ensures
        forall|v: int|
            i64::MIN <= v <= i64::MAX ==> !int_at(s, pos, v),
{
    assert forall|v: int| i64::MIN <= v <= i64::MAX implies !int_at(s, pos, v) by {
        if int_at(s, pos, v) {
            lemma_dec_int_shape(v);
            assert(s[pos] == dec_int(v)[0]);
            let m: nat = if v < 0 {
                (-v) as nat
            } else {
                v as nat
            };
            lemma_pow10_19();
            assert(m < pow10(19));
            lemma_dec_digits_len(m, 19);
            let dl = dec_digits(m).len();
            // where the digits of v start
            let vd0: int = if v < 0 {
                pos + 1
            } else {
                pos
            };
            assert(vd0 == d0) by {
                if v < 0 {
                    assert(dec_int(v)[0] == 45);
                } else {
                    assert(is_digit(dec_int(v)[0]));
                    assert(s[pos] != 45);
                }
            }
            assert(pos + dec_int(v).len() == vd0 + dl);
            assert(vd0 + dl < d0 + 20 <= s.len());
            assert(is_digit(s[vd0 + dl]));
        }
    }
}

/// No integer in `i64` range: the digit run reads as a magnitude beyond the
/// range of the requested sign.
proof fn refute_range(s: Seq<u8>, pos: int, d0: int, run_end: int, mag: int)
    requires
        0 <= pos <= d0 < run_end <= s.len(),
        d0 == pos || (d0 == pos + 1 && s[pos] == 45),
        forall|j: int| d0 <= j < run_end ==> is_digit(#[trigger] s[j]),
        run_end == s.len() || !is_digit(s[run_end]),
        mag == val_digits(s.subrange(d0, run_end)),
        d0 == pos ==> mag > i64::MAX,
        d0 == pos + 1 ==> mag > (i64::MAX as int) + 1,
    ensures
        forall|v: int|
            i64::MIN <= v <= i64::MAX ==> !int_at(s, pos, v),
{
    assert forall|v: int| i64::MIN <= v <= i64::MAX implies !int_at(s, pos, v) by {
        if int_at(s, pos, v) {
            lemma_dec_int_shape(v);
            assert(s[pos] == dec_int(v)[0]);
            let m: nat = if v < 0 {
                (-v) as nat
            } else {
                v as nat
            };
            let vd0: int = if v < 0 {
                pos + 1
            } else {
                pos
            };
            assert(vd0 == d0) by {
                if v < 0 {
                    assert(dec_int(v)[0] == 45);
                } else {
                    assert(is_digit(dec_int(v)[0]));
                    assert(s[pos] != 45);
                }
            }
            lemma_dec_digits(m);
            let dl = dec_digits(m).len() as int;
            // the digits of v occupy [d0, d0 + dl) and are maximal
            assert(forall|j: int|
                0 <= j < dl ==> s[d0 + j] == #[trigger] dec_digits(m)[j]) by {
                assert forall|j: int| 0 <= j < dl implies s[d0 + j] == #[trigger] dec_digits(
                    m,
                )[j] by {
                    if v < 0 {
                        assert(dec_int(v)[j + 1] == dec_digits(m)[j]);
                        assert(s.subrange(pos, pos + dec_int(v).len() as int)[j + 1]
                            == dec_int(v)[j + 1]);
                    } else {
                        assert(s.subrange(pos, pos + dec_int(v).len() as int)[j]
                            == dec_int(v)[j]);
                    }
                }
            }
            if d0 + dl < run_end {
                // v's digits stop early: the next byte is a digit of the run,
                // contradicting maximality
                assert(is_digit(s[d0 + dl]));
                assert(pos + dec_int(v).len() == d0 + dl);
            } else if d0 + dl > run_end {
                // v's digits continue past the run end with a digit
                assert(pos + dec_int(v).len() <= s.len());
                assert(run_end < s.len());
                assert(run_end - d0 < dl);
                assert(s[run_end] == dec_digits(m)[run_end - d0]);
                assert(is_digit(s[run_end]));
            } else {
                assert(s.subrange(d0, run_end) =~= dec_digits(m));
                assert(val_digits(dec_digits(m)) == m);
                assert(m == mag);
                if v < 0 {
                    assert(mag <= (i64::MAX as int) + 1);
                } else {
                    assert(mag <= i64::MAX);
                }
            }
        }
    }
}

/// Read a canonical decimal integer at `pos`. Returns the value and the
/// position after its digits; refuses anything that is not the canonical,
/// maximal form of an `i64`.
pub fn parse_int(s: &[u8], pos: usize) -> (r: Option<(i64, usize)>)
    requires
        pos <= s@.len(),
    ensures
        match r {
            Some((v, end)) => {
                &&& int_at(s@, pos as int, v as int)
                &&& pos < end <= s@.len()
                &&& end - pos == dec_int(v as int).len()
            },
            None => forall|v: int| i64::MIN <= v <= i64::MAX ==> !int_at(s@, pos as int, v),
        },
{
    let mut p = pos;
    let mut neg = false;
    if p < s.len() && s[p] == 45 {
        neg = true;
        p = p + 1;
    }
    if p == s.len() || !(48 <= s[p] && s[p] <= 57) {
        proof {
            if neg {
                refute_sign_no_digit(s@, pos as int);
            } else {
                refute_no_int(s@, pos as int);
            }
        }
        return None;
    }
    let start = p;
    if s[p] == 48 && p + 1 < s.len() && 48 <= s[p + 1] && s[p + 1] <= 57 {
        proof {
            refute_leading_zero(s@, pos as int, start as int);
        }
        return None;
    }
    if neg && s[p] == 48 {
        proof {
            refute_leading_zero(s@, pos as int, start as int);
        }
        return None;
    }
    let mut mag: u64 = 0;
    proof {
        assert(s@.subrange(start as int, start as int) =~= Seq::<u8>::empty());
        assert(pow10(0) == 1);
    }
    while p < s.len() && 48 <= s[p] && s[p] <= 57
        invariant
            pos <= start <= p <= s@.len(),
            start as int == if neg {
                pos + 1
            } else {
                pos as int
            },
            neg ==> s@[pos as int] == 45,
            p - start <= 19,
            start < s@.len(),
            is_digit(s@[start as int]),
            forall|j: int| start <= j < p ==> is_digit(#[trigger] s@[j]),
            mag == val_digits(s@.subrange(start as int, p as int)),
            mag < pow10(p - start),
        decreases s@.len() - p + 1,
    {
        if p - start == 19 {
            proof {
                refute_long_run(s@, pos as int, start as int);
            }
            return None;
        }
        let d = s[p] - 48;
        proof {
            lemma_pow10_19();
            lemma_pow10_mono(p - start, 18);
            assert(pow10(18) * 10 == pow10(19));
            assert(mag * 10 + d < pow10(p - start) * 10 <= pow10(19)) by (nonlinear_arith)
                requires
                    mag < pow10(p - start),
                    d < 10,
                    pow10(p - start) <= pow10(18),
                    pow10(18) * 10 == pow10(19),
            ;
        }
        mag = mag * 10 + d as u64;
        proof {
            let old_run = s@.subrange(start as int, p as int);
            let new_run = s@.subrange(start as int, p as int + 1);
            assert(new_run.drop_last() =~= old_run);
            assert(new_run.last() == s@[p as int]);
        }
        p = p + 1;
    }
    // the run [start, p) is canonical and maximal
    proof {
        assert(p == s@.len() || !is_digit(s@[p as int]));
        if p == start {
            assert(start < s@.len() && is_digit(s@[start as int]));
            assert(false);
        }
        if s@[start as int] == 48 && p - start >= 2 {
            assert(is_digit(s@[start as int + 1]));
            assert(false);
        }
    }
    let v: i64;
    if neg {
        if mag > 9223372036854775808 {
            proof {
                refute_range(s@, pos as int, start as int, p as int, mag as int);
            }
            return None;
        }
        if mag == 9223372036854775808 {
            v = i64::MIN;
        } else {
            v = -(mag as i64);
        }
    } else {
        if mag > 9223372036854775807 {
            proof {
                refute_range(s@, pos as int, start as int, p as int, mag as int);
            }
            return None;
        }
        v = mag as i64;
    }
    proof {
        let run = s@.subrange(start as int, p as int);
        lemma_canon_digits(run);
        assert(dec_digits(mag as nat) == run);
        if neg {
            assert(dec_int(v as int) == seq![45u8] + dec_digits(mag as nat));
            assert(s@.subrange(pos as int, p as int) =~= seq![45u8] + run);
        } else {
            assert(dec_int(v as int) == run);
            assert(s@.subrange(pos as int, p as int) =~= run);
        }
        assert(int_at(s@, pos as int, v as int));
    }
    Some((v, p))
}

/// The nineteenth power of ten, written out.
proof fn lemma_pow10_19()
    ensures
        pow10(19) == 10000000000000000000,
        pow10(18) * 10 == pow10(19),
{
    reveal_with_fuel(pow10, 21);
}

/// Powers of ten are monotone.
proof fn lemma_pow10_mono(a: int, b: int)
    requires
        a <= b,
    ensures
        pow10(a) <= pow10(b),
    decreases (if b > 0 { b } else { 0 }),
{
    if b > 0 && a < b {
        lemma_pow10_mono(a, b - 1);
        lemma_pow10_pos(b - 1);
    }
}

/// Parse a claims payload. Succeeds exactly on canonical serializations of
/// valid triples, and then returns the unique preimage.
pub fn parse_claims(s: &[u8]) -> (r: Option<(i32, Vec<u8>, i64)>)
    ensures
        match r {
            Some((id, pw, exp)) => {
                &&& claims_valid(id as int, pw@, exp as int)
                &&& s@ == ser_claims(id as int, pw@, exp as int)
            },
            None => forall|id: int, pw: Seq<u8>, exp: int|
                claims_valid(id, pw, exp) ==> s@ != #[trigger] ser_claims(id, pw, exp),
        },
{
    let outcome = scan_claims(s);
    match outcome {
        Some((id, pw, exp)) => {
            let again = serialize_claims(id, pw.as_slice(), exp);
            if bytes_eq(again.as_slice(), s) {
                let mut ok = true;
                let mut j: usize = 0;
                while j < pw.len()
                    invariant
                        j <= pw@.len(),
                        ok == (forall|k: int| 0 <= k < j ==> token_safe_byte(#[trigger] pw@[k])),
                    decreases pw@.len() - j,
                {
                    let b = pw[j];
                    if !(32 <= b && b < 127 && b != 34 && b != 92) {
                        ok = false;
                    }
                    j += 1;
                }
                if ok {
                    return Some((id, pw, exp));
                }
                proof {
                    refute_by_uniqueness(s@, id as int, pw@, exp as int);
                }
                None
            } else {
                proof {
                    refute_by_uniqueness(s@, id as int, pw@, exp as int);
                }
                None
            }
        },
        None => None,
    }
}

/// If a lenient scan produced a triple whose reserialization differs from
/// the input (or whose hash bytes are not all safe), no valid triple
/// serializes to the input either: the scan is deterministic, so any valid
/// preimage would have produced itself.
proof fn refute_by_uniqueness(s: Seq<u8>, id: int, pw: Seq<u8>, exp: int)
    requires
        forall|id2: int, pw2: Seq<u8>, exp2: int|
            claims_valid(id2, pw2, exp2) && s == #[trigger] ser_claims(id2, pw2, exp2) ==> id2
                == id && pw2 == pw && exp2 == exp,
        !(claims_valid(id, pw, exp) && s == ser_claims(id, pw, exp)),
    ensures
        forall|id2: int, pw2: Seq<u8>, exp2: int|
            claims_valid(id2, pw2, exp2) ==> s != #[trigger] ser_claims(id2, pw2, exp2),
{
}

/// Lenient scan of the claims shape. On success the returned triple is the
/// only candidate: any valid triple whose serialization equals `s` must be
/// this one. On failure no valid triple serializes to `s`.
#[verifier::rlimit(100)]
fn scan_claims(s: &[u8]) -> (r: Option<(i32, Vec<u8>, i64)>)
    ensures
        match r {
            Some((id, pw, exp)) => forall|id2: int, pw2: Seq<u8>, exp2: int|
                claims_valid(id2, pw2, exp2) && s@ == #[trigger] ser_claims(id2, pw2, exp2)
                    ==> id2 == id as int && pw2 == pw@ && exp2 == exp as int,
            None => forall|id2: int, pw2: Seq<u8>, exp2: int|
                claims_valid(id2, pw2, exp2) ==> s@ != #[trigger] ser_claims(id2, pw2, exp2),
        },
{
    broadcast use vstd::seq_lib::group_seq_properties;

    let slen = s.len();
    proof {
        assert(s@.len() == slen);
        assert(s@.len() <= usize::MAX);
    }
    let l1 = lit_id_vec();
    if !match_at(s, 0, l1.as_slice()) {
        proof {
            assert forall|id2: int, pw2: Seq<u8>, exp2: int|
                claims_valid(id2, pw2, exp2) implies s@ != #[trigger] ser_claims(
                id2,
                pw2,
                exp2,
            ) by {
                if s@ == ser_claims(id2, pw2, exp2) {
                    lemma_ser_prefix(id2, pw2, exp2);
                }
            }
        }
        return None;
    }
    let p1 = 6usize;
    let (idv, p2) = match parse_int(s, p1) {
        Some(x) => x,
        None => {
            proof {
                assert forall|id2: int, pw2: Seq<u8>, exp2: int|
                    claims_valid(id2, pw2, exp2) implies s@ != #[trigger] ser_claims(
                    id2,
                    pw2,
                    exp2,
                ) by {
                    if s@ == ser_claims(id2, pw2, exp2) {
                        lemma_ser_id_at(id2, pw2, exp2, s@);
                    }
                }
            }
            return None;
        },
    };
    if idv < -2147483648 || idv > 2147483647 {
        proof {
            assert forall|id2: int, pw2: Seq<u8>, exp2: int|
                claims_valid(id2, pw2, exp2) implies s@ != #[trigger] ser_claims(
                id2,
                pw2,
                exp2,
            ) by {
                if s@ == ser_claims(id2, pw2, exp2) {
                    lemma_ser_id_at(id2, pw2, exp2, s@);
                    lemma_int_at_unique(s@, 6, idv as int, id2);
                }
            }
        }
        return None;
    }
    let id = idv as i32;
    let l2 = lit_pw_vec();
    if !match_at(s, p2, l2.as_slice()) {
        proof {
            assert forall|id2: int, pw2: Seq<u8>, exp2: int|
                claims_valid(id2, pw2, exp2) implies s@ != #[trigger] ser_claims(
                id2,
                pw2,
                exp2,
            ) by {
                if s@ == ser_claims(id2, pw2, exp2) {
                    lemma_ser_id_at(id2, pw2, exp2, s@);
                    lemma_int_at_unique(s@, 6, idv as int, id2);
                    lemma_ser_pw_lit_at(id2, pw2, exp2, s@);
                }
            }
        }
        return None;
    }
    proof {
        assert(l2@.len() == 13);
        assert(p2 + 13 <= s@.len());
    }
    let p3 = p2 + 13;
    // scan the quoted hash: safe bytes up to the closing quote
    let mut q = p3;
    while q < s.len() && s[q] != 34 && 32 <= s[q] && s[q] < 127 && s[q] != 92
        invariant
            p3 <= q <= s@.len(),
            forall|k: int|
                p3 <= k < q ==> token_safe_byte(#[trigger] s@[k]) && s@[k] != 34,
        decreases s@.len() - q,
    {
        q = q + 1;
    }
    if q == s.len() || s[q] != 34 {
        proof {
            assert forall|id2: int, pw2: Seq<u8>, exp2: int|
                claims_valid(id2, pw2, exp2) implies s@ != #[trigger] ser_claims(
                id2,
                pw2,
                exp2,
            ) by {
                if s@ == ser_claims(id2, pw2, exp2) {
                    lemma_ser_id_at(id2, pw2, exp2, s@);
                    lemma_int_at_unique(s@, 6, idv as int, id2);
                    lemma_ser_pw_region(id2, pw2, exp2, s@);
                    let e = p3 + pw2.len();
                    assert(s@[e] == 34);
                    if q < e {
                        assert(token_safe_byte(s@[q as int]) && s@[q as int] != 34);
                    } else {
                        assert(e < q || e == q);
                        if e < q {
                            assert(s@[e] != 34);
                        }
                        assert(e == q);
                    }
                }
            }
        }
        return None;
    }
    let pw = slice_to_vec_range(s, p3, q);
    let l3 = lit_exp_vec();
    if !match_at(s, q, l3.as_slice()) {
        proof {
            assert forall|id2: int, pw2: Seq<u8>, exp2: int|
                claims_valid(id2, pw2, exp2) implies s@ != #[trigger] ser_claims(
                id2,
                pw2,
                exp2,
            ) by {
                if s@ == ser_claims(id2, pw2, exp2) {
                    lemma_ser_id_at(id2, pw2, exp2, s@);
                    lemma_int_at_unique(s@, 6, idv as int, id2);
                    lemma_ser_pw_region(id2, pw2, exp2, s@);
                    lemma_scan_stops_at(s@, p3 as int, q as int, pw2.len() as int);
                    lemma_ser_exp_lit_at(id2, pw2, exp2, s@);
                }
            }
        }
        return None;
    }
    proof {
        assert(l3@.len() == 8);
        assert(q + 8 <= s@.len());
    }
    let p5 = q + 8;
    let (expv, p6) = match parse_int(s, p5) {
        Some(x) => x,
        None => {
            proof {
                assert forall|id2: int, pw2: Seq<u8>, exp2: int|
                    claims_valid(id2, pw2, exp2) implies s@ != #[trigger] ser_claims(
                    id2,
                    pw2,
                    exp2,
                ) by {
                    if s@ == ser_claims(id2, pw2, exp2) {
                        lemma_ser_id_at(id2, pw2, exp2, s@);
                        lemma_int_at_unique(s@, 6, idv as int, id2);
                        lemma_ser_pw_region(id2, pw2, exp2, s@);
                        lemma_scan_stops_at(s@, p3 as int, q as int, pw2.len() as int);
                        lemma_ser_exp_at(id2, pw2, exp2, s@);
                    }
                }
            }
            return None;
        },
    };
    if p6 == s.len() || s.len() - p6 != 1 || s[p6] != 125 {
        proof {
            assert forall|id2: int, pw2: Seq<u8>, exp2: int|
                claims_valid(id2, pw2, exp2) implies s@ != #[trigger] ser_claims(
                id2,
                pw2,
                exp2,
            ) by {
                if s@ == ser_claims(id2, pw2, exp2) {
                    lemma_ser_id_at(id2, pw2, exp2, s@);
                    lemma_int_at_unique(s@, 6, idv as int, id2);
                    lemma_ser_pw_region(id2, pw2, exp2, s@);
                    lemma_scan_stops_at(s@, p3 as int, q as int, pw2.len() as int);
                    lemma_ser_exp_at(id2, pw2, exp2, s@);
                    lemma_int_at_unique(s@, q as int + 8, expv as int, exp2);
                    lemma_ser_end_at(id2, pw2, exp2, s@);
                }
            }
        }
        return None;
    }
    proof {
        assert forall|id2: int, pw2: Seq<u8>, exp2: int|
            claims_valid(id2, pw2, exp2) && s@ == #[trigger] ser_claims(id2, pw2, exp2)
            implies id2 == id as int && pw2 == pw@ && exp2 == expv as int by {
            lemma_ser_id_at(id2, pw2, exp2, s@);
            lemma_int_at_unique(s@, 6, idv as int, id2);
            lemma_ser_pw_region(id2, pw2, exp2, s@);
            lemma_scan_stops_at(s@, p3 as int, q as int, pw2.len() as int);
            assert(pw2 =~= s@.subrange(p3 as int, q as int));
            lemma_ser_exp_at(id2, pw2, exp2, s@);
            lemma_int_at_unique(s@, q as int + 8, expv as int, exp2);
        }
    }
    Some((id, pw, expv))
}

/// Copy `s[i..j]` into a vector.
pub(crate) fn slice_to_vec_range(s: &[u8], i: usize, j: usize) -> (out: Vec<u8>)
    requires
        i <= j <= s@.len(),
    ensures
        out@ == s@.subrange(i as int, j as int),
{
    let sub = vstd::slice::slice_subrange(s, i, j);
    let out = vstd::slice::slice_to_vec(sub);
    proof {
        assert(out@ =~= s@.subrange(i as int, j as int));
    }
    out
}

/// A serialization always begins with `{"id":`.
proof fn lemma_ser_prefix(id: int, pw: Seq<u8>, exp: int)
    ensures
        ser_claims(id, pw, exp).len() >= 6,
        ser_claims(id, pw, exp).subrange(0, 6) == lit_id(),
{
    let t = ser_claims(id, pw, exp);
    assert(t.subrange(0, 6) =~= lit_id());
}

/// In a serialization, `id` is written at position six, maximally.
proof fn lemma_ser_id_at(id: int, pw: Seq<u8>, exp: int, s: Seq<u8>)
    requires
        s == ser_claims(id, pw, exp),
    ensures
        int_at(s, 6, id),
        6 + dec_int(id).len() + lit_pw().len() <= s.len(),
{
    lemma_dec_int_shape(id);
    let d = dec_int(id);
    assert(s.subrange(6, 6 + d.len() as int) =~= d);
    assert(s[6 + d.len() as int] == lit_pw()[0]);
    assert(lit_pw()[0] == 44);
    assert(!is_digit(44u8));
}

/// After the id, the `,"password":"` literal follows.
proof fn lemma_ser_pw_lit_at(id: int, pw: Seq<u8>, exp: int, s: Seq<u8>)
    requires
        s == ser_claims(id, pw, exp),
    ensures
        ({
            let p2 = 6 + dec_int(id).len() as int;
            s.subrange(p2, p2 + 13) == lit_pw()
        }),
{
    let p2 = 6 + dec_int(id).len() as int;
    assert(s.subrange(p2, p2 + 13) =~= lit_pw());
}

/// The quoted hash occupies a known region, closed by a quote; its bytes are
/// safe and quote-free.
proof fn lemma_ser_pw_region(id: int, pw: Seq<u8>, exp: int, s: Seq<u8>)
    requires
        s == ser_claims(id, pw, exp),
        token_safe_bytes(pw),
    ensures
        ({
            let p2 = 6 + dec_int(id).len() as int;
            let p3 = p2 + 13;
            &&& s.subrange(p2, p3) == lit_pw()
            &&& p3 + pw.len() < s.len()
            &&& s.subrange(p3, p3 + pw.len() as int) == pw
            &&& s[p3 + pw.len() as int] == 34
            &&& forall|k: int|
                p3 <= k < p3 + pw.len() ==> token_safe_byte(#[trigger] s[k]) && s[k] != 34
        }),
{
    let p2 = 6 + dec_int(id).len() as int;
    let p3 = p2 + 13;
    assert(s.subrange(p2, p3) =~= lit_pw());
    assert(s.subrange(p3, p3 + pw.len() as int) =~= pw);
    assert(s[p3 + pw.len() as int] == lit_exp()[0]);
    assert forall|k: int| p3 <= k < p3 + pw.len() implies token_safe_byte(#[trigger] s[k])
        && s[k] != 34 by {
        assert(s[k] == pw[k - p3]);
    }
}

/// A scan that stops at the first quote (or disallowed byte) after `p3` stops
/// exactly at the closing quote of the hash region.
proof fn lemma_scan_stops_at(s: Seq<u8>, p3: int, q: int, pwlen: int)
    requires
        0 <= p3 <= q <= s.len(),
        pwlen >= 0,
        p3 + pwlen < s.len(),
        s[p3 + pwlen] == 34,
        forall|k: int| p3 <= k < p3 + pwlen ==> token_safe_byte(#[trigger] s[k]) && s[k] != 34,
        forall|k: int| p3 <= k < q ==> token_safe_byte(#[trigger] s[k]) && s[k] != 34,
        q == s.len() || s[q] == 34 || !token_safe_byte(s[q]),
    ensures
        q == p3 + pwlen,
{
    if q < p3 + pwlen {
        assert(token_safe_byte(s[q]) && s[q] != 34);
        assert(q < s.len());
        assert(false);
    }
    if q > p3 + pwlen {
        assert(s[p3 + pwlen] != 34);
        assert(false);
    }
}

/// After the hash, the `","exp":` literal follows.
proof fn lemma_ser_exp_lit_at(id: int, pw: Seq<u8>, exp: int, s: Seq<u8>)
    requires
        s == ser_claims(id, pw, exp),
    ensures
        ({
            let e = 6 + dec_int(id).len() as int + 13 + pw.len() as int;
            s.subrange(e, e + 8) == lit_exp()
        }),
{
    let e = 6 + dec_int(id).len() as int + 13 + pw.len() as int;
    assert(s.subrange(e, e + 8) =~= lit_exp());
}

/// In a serialization, `exp` is written right after `","exp":`, maximally.
proof fn lemma_ser_exp_at(id: int, pw: Seq<u8>, exp: int, s: Seq<u8>)
    requires
        s == ser_claims(id, pw, exp),
    ensures
        ({
            let e = 6 + dec_int(id).len() as int + 13 + pw.len() as int;
            &&& s.subrange(e, e + 8) == lit_exp()
            &&& int_at(s, e + 8, exp)
            &&& e + 8 + dec_int(exp).len() + 1 == s.len()
        }),
{
    lemma_ser_exp_lit_at(id, pw, exp, s);
    lemma_dec_int_shape(exp);
    let e = 6 + dec_int(id).len() as int + 13 + pw.len() as int;
    let d = dec_int(exp);
    assert(s.subrange(e + 8, e + 8 + d.len() as int) =~= d);
    assert(s[e + 8 + d.len() as int] == 125);
    assert(!is_digit(125u8));
}

/// Serialization is injective on valid triples.
pub proof fn lemma_ser_claims_inj(
    id1: int,
    pw1: Seq<u8>,
    exp1: int,
    id2: int,
    pw2: Seq<u8>,
    exp2: int,
)
    requires
        claims_valid(id1, pw1, exp1),
        claims_valid(id2, pw2, exp2),
        ser_claims(id1, pw1, exp1) == ser_claims(id2, pw2, exp2),
    ensures
        id1 == id2,
        pw1 == pw2,
        exp1 == exp2,
{
    let s = ser_claims(id1, pw1, exp1);
    lemma_ser_id_at(id1, pw1, exp1, s);
    lemma_ser_id_at(id2, pw2, exp2, s);
    lemma_int_at_unique(s, 6, id1, id2);
    assert(id1 == id2);
    lemma_ser_pw_region(id1, pw1, exp1, s);
    lemma_ser_pw_region(id2, pw2, exp2, s);
    let p3 = 6 + dec_int(id1).len() as int + 13;
    if pw1.len() < pw2.len() {
        assert(s[p3 + pw1.len() as int] == 34);
        assert(token_safe_byte(s[p3 + pw1.len() as int]));
        assert(false);
    } else if pw2.len() < pw1.len() {
        assert(s[p3 + pw2.len() as int] == 34);
        assert(token_safe_byte(s[p3 + pw2.len() as int]));
        assert(false);
    }
    assert(pw1 =~= pw2) by {
        assert(pw1 == s.subrange(p3, p3 + pw1.len() as int));
        assert(pw2 == s.subrange(p3, p3 + pw2.len() as int));
    }
    lemma_ser_exp_at(id1, pw1, exp1, s);
    lemma_ser_exp_at(id2, pw2, exp2, s);
    let e8 = 6 + dec_int(id1).len() as int + 13 + pw1.len() as int + 8;
    lemma_int_at_unique(s, e8, exp1, exp2);
}

/// The serialization ends with `}` right after the exp digits.
proof fn lemma_ser_end_at(id: int, pw: Seq<u8>, exp: int, s: Seq<u8>)
    requires
        s == ser_claims(id, pw, exp),
    ensures
        ({
            let e = 6 + dec_int(id).len() as int + 13 + pw.len() as int + 8 + dec_int(
                exp,
            ).len() as int;
            &&& e + 1 == s.len()
            &&& s[e] == 125
        }),
{
    let e = 6 + dec_int(id).len() as int + 13 + pw.len() as int + 8 + dec_int(exp).len() as int;
    assert(s[e] == 125);
}

} // verus!
