//! Arbitrary-precision unsigned integers, parsed from and rendered to
//! decimal, hexadecimal and binary digit strings.
//!
//! A `Number` stores its value as a little-endian vector of binary digits;
//! the mathematical value of such a vector is given by `bits_value`.  All
//! arithmetic needed for radix conversion is done on that vector with
//! machine-word steps, so no operation here can overflow.

use vstd::arithmetic::div_mod::{
    lemma_div_decreases, lemma_div_non_zero, lemma_fundamental_div_mod,
    lemma_fundamental_div_mod_converse_div, lemma_fundamental_div_mod_converse_mod,
};
use vstd::arithmetic::power2::{lemma_pow2_pos, lemma_pow2_unfold, pow2};
use vstd::prelude::*;

verus! {

/// The numeric value of one binary digit.
pub open spec fn bit_val(b: bool) -> nat {
    if b {
        1
    } else {
        0
    }
}

/// The value of a little-endian vector of binary digits:
/// bit `i` weighs `2^i`.
pub open spec fn bits_value(s: Seq<bool>) -> nat
    decreases s.len(),
{
    if s.len() == 0 {
        0
    } else {
        bits_value(s.drop_last()) + bit_val(s.last()) * pow2((s.len() - 1) as nat)
    }
}

/// Extending a bit vector below index `i + 1` leaves the low bits' weight
/// as it was and adds the weight of bit `i`.
proof fn lemma_bits_value_take(s: Seq<bool>, i: int)
    requires
        0 <= i < s.len(),
    ensures
        bits_value(s.take(i + 1)) == bits_value(s.take(i)) + bit_val(s[i]) * pow2(i as nat),
{
    assert(s.take(i + 1).drop_last() =~= s.take(i));
    assert(s.take(i + 1).last() == s[i]);
}

/// Appending a bit adds its weight at the top position.
proof fn lemma_bits_value_push(s: Seq<bool>, b: bool)
    ensures
        bits_value(s.push(b)) == bits_value(s) + bit_val(b) * pow2(s.len()),
{
    assert(s.push(b).drop_last() =~= s);
    assert(s.push(b).last() == b);
}

/// A bit vector has value zero exactly when every bit is clear.
proof fn lemma_bits_value_zero(s: Seq<bool>)
    ensures
        (bits_value(s) == 0) <==> (forall|i: int| 0 <= i < s.len() ==> !s[i]),
    decreases s.len(),
{
    if s.len() > 0 {
        let t = s.drop_last();
        lemma_bits_value_zero(t);
        lemma_pow2_pos((s.len() - 1) as nat);
        assert(forall|i: int| 0 <= i < t.len() ==> t[i] == s[i]);
        assert(bits_value(s) == bits_value(t) + bit_val(s.last()) * pow2((s.len() - 1) as nat));
        if s.last() {
            assert(bit_val(s.last()) * pow2((s.len() - 1) as nat) == pow2((s.len() - 1) as nat));
            assert(bits_value(s) > 0);
            assert(s[s.len() - 1]);
        } else {
            assert(bit_val(s.last()) * pow2((s.len() - 1) as nat) == 0);
            assert(bits_value(s) == bits_value(t));
            if bits_value(s) == 0 {
                assert forall|i: int| 0 <= i < s.len() implies !s[i] by {
                    if i < s.len() - 1 {
                        assert(t[i] == s[i]);
                    } else {
                        assert(!s.last());
                    }
                }
            } else {
                let w = choose|i: int| 0 <= i < t.len() && t[i];
                assert(s[w]);
            }
        }
    }
}

/// The low bit and the rest: a nonempty vector's value is its first bit
/// plus twice the value of the remaining bits.
proof fn lemma_bits_value_first(s: Seq<bool>)
    requires
        s.len() > 0,
    ensures
        bits_value(s) == bit_val(s[0]) + 2 * bits_value(s.drop_first()),
    decreases s.len(),
{
    if s.len() == 1 {
        assert(s.drop_first() =~= Seq::<bool>::empty());
        assert(s.drop_last() =~= Seq::<bool>::empty());
        assert(pow2(0) == 1) by {
            vstd::arithmetic::power2::lemma2_to64();
        }
        assert(bits_value(s) == bits_value(Seq::<bool>::empty()) + bit_val(s.last()) * pow2(0));
        assert(s.last() == s[0]);
        assert(bit_val(s.last()) * 1 == bit_val(s.last()));
        assert(bits_value(s.drop_first()) == 0);
    } else {
        let t = s.drop_last();
        lemma_bits_value_first(t);
        assert(s.drop_first().drop_last() =~= t.drop_first());
        assert(s.drop_first().last() == s.last());
        lemma_pow2_unfold((s.len() - 1) as nat);
        assert(bits_value(s.drop_first()) == bits_value(t.drop_first()) + bit_val(s.last())
            * pow2((s.len() - 2) as nat));
        assert(pow2((s.len() - 1) as nat) == 2 * pow2((s.len() - 2) as nat));
        if s.last() {
            assert(bit_val(s.last()) * pow2((s.len() - 1) as nat) == 2 * (bit_val(s.last()) * pow2(
                (s.len() - 2) as nat,
            )));
        } else {
            assert(bit_val(s.last()) * pow2((s.len() - 1) as nat) == 0);
            assert(bit_val(s.last()) * pow2((s.len() - 2) as nat) == 0);
        }
        assert(t[0] == s[0]);
        assert(bits_value(s) == bits_value(t) + bit_val(s.last()) * pow2((s.len() - 1) as nat));
        assert(bits_value(s) == bit_val(s[0]) + 2 * bits_value(t.drop_first()) + 2 * (bit_val(
            s.last(),
        ) * pow2((s.len() - 2) as nat)));
    }
}

/// Replaces the digits by those of `value * m + a`, working through the
/// vector with one carry word.
fn mul_small_add(bits: &mut Vec<bool>, m: u32, a: u32)
    requires
        1 <= m,
        a < m,
    ensures
        bits_value(final(bits)@) == bits_value(old(bits)@) * (m as nat) + (a as nat),
{
    let ghost orig = bits@;
    let mut carry: u64 = a as u64;
    let mut i: usize = 0;
    proof {
        assert(orig.take(0) =~= Seq::<bool>::empty());
        vstd::arithmetic::power2::lemma2_to64();
        assert(bits_value(orig.take(0)) * (m as nat) == 0) by (nonlinear_arith)
            requires
                bits_value(orig.take(0)) == 0,
        ;
        assert((a as nat) * pow2(0) == a as nat);
    }
    while i < bits.len()
        invariant
            i <= bits@.len(),
            bits@.len() == orig.len(),
            1 <= m,
            carry <= m as u64,
            forall|j: int| i <= j < orig.len() ==> bits@[j] == orig[j],
            bits_value(bits@.take(i as int)) + (carry as nat) * pow2(i as nat) == bits_value(
                orig.take(i as int),
            ) * (m as nat) + (a as nat),
        decreases bits@.len() - i,
    {
        let ghost pre = bits@;
        let ghost c0 = carry as nat;
        let b = bits[i];
        let t: u64 = (if b {
            m as u64
        } else {
            0
        }) + carry;
        bits.set(i, t % 2 == 1);
        proof {
            let p = pow2(i as nat);
            let mn = m as nat;
            let tn = t as nat;
            let vb = bits_value(pre.take(i as int));
            let vo = bits_value(orig.take(i as int));
            assert(bits@.take(i as int) =~= pre.take(i as int));
            lemma_bits_value_take(bits@, i as int);
            lemma_bits_value_take(orig, i as int);
            lemma_pow2_unfold((i + 1) as nat);
            assert(pre[i as int] == orig[i as int]);
            assert(b == pre[i as int]);
            assert(tn == bit_val(orig[i as int]) * mn + c0);
            // new low value plus shifted-out carry equals m times the old
            // low value plus a, one column further in
            assert(bit_val(t % 2 == 1) == tn % 2);
            assert(tn % 2 + 2 * (tn / 2) == tn);
            assert(vb + (tn % 2) * p + (tn / 2) * (2 * p) == vb + tn * p) by (nonlinear_arith)
                requires
                    tn % 2 + 2 * (tn / 2) == tn,
            ;
            assert(vb + tn * p == (vb + c0 * p) + (bit_val(orig[i as int]) * mn) * p)
                by (nonlinear_arith)
                requires
                    tn == bit_val(orig[i as int]) * mn + c0,
            ;
            assert((bit_val(orig[i as int]) * mn) * p == (bit_val(orig[i as int]) * p) * mn)
                by (nonlinear_arith);
            assert((vo * mn + a as nat) + (bit_val(orig[i as int]) * p) * mn == (vo + bit_val(
                orig[i as int],
            ) * p) * mn + a as nat) by (nonlinear_arith);
        }
        carry = t / 2;
        i = i + 1;
    }
    proof {
        assert(bits@.take(bits@.len() as int) =~= bits@);
        assert(orig.take(orig.len() as int) =~= orig);
    }
    while carry > 0
        invariant
            bits_value(bits@) + (carry as nat) * pow2(bits@.len()) == bits_value(orig) * (
            m as nat) + (a as nat),
        decreases carry,
    {
        let ghost pre = bits@;
        let ghost c0 = carry as nat;
        bits.push(carry % 2 == 1);
        proof {
            let p = pow2(pre.len());
            lemma_bits_value_push(pre, c0 % 2 == 1);
            lemma_pow2_unfold(pre.len() + 1);
            assert(bit_val(c0 % 2 == 1) == c0 % 2);
            assert(c0 % 2 + 2 * (c0 / 2) == c0);
            assert((c0 % 2) * p + (c0 / 2) * (2 * p) == c0 * p) by (nonlinear_arith)
                requires
                    c0 % 2 + 2 * (c0 / 2) == c0,
            ;
        }
        carry = carry / 2;
    }
}

/// True exactly when the stored value is zero.
fn bits_is_zero(bits: &Vec<bool>) -> (r: bool)
    ensures
        r == (bits_value(bits@) == 0),
{
    let mut i: usize = 0;
    while i < bits.len()
        invariant
            i <= bits@.len(),
            forall|j: int| 0 <= j < i ==> !bits@[j],
        decreases bits@.len() - i,
    {
        if bits[i] {
            proof {
                lemma_bits_value_zero(bits@);
            }
            return false;
        }
        i = i + 1;
    }
    proof {
        lemma_bits_value_zero(bits@);
    }
    true
}

/// Quotient and remainder of the stored value by a small divisor,
/// by long division from the top bit down.
fn divmod_small(bits: &Vec<bool>, m: u32) -> (r: (Vec<bool>, u32))
    requires
        2 <= m,
    ensures
        bits_value(r.0@) * (m as nat) + (r.1 as nat) == bits_value(bits@),
        (r.1 as nat) < m as nat,
        bits_value(bits@) > 0 ==> bits_value(r.0@) < bits_value(bits@),
{
    let mut q: Vec<bool> = Vec::new();
    let mut k: usize = 0;
    while k < bits.len()
        invariant
            q@.len() == k,
            k <= bits@.len(),
        decreases bits@.len() - k,
    {
        q.push(false);
        k = k + 1;
    }
    let mut rem: u32 = 0;
    let mut i: usize = bits.len();
    proof {
        assert(q@.skip(i as int) =~= Seq::<bool>::empty());
        assert(bits@.skip(i as int) =~= Seq::<bool>::empty());
        assert(bits_value(q@.skip(i as int)) * (m as nat) == 0) by (nonlinear_arith)
            requires
                bits_value(q@.skip(i as int)) == 0,
        ;
    }
    while i > 0
        invariant
            i <= bits@.len(),
            q@.len() == bits@.len(),
            2 <= m,
            rem < m,
            bits_value(q@.skip(i as int)) * (m as nat) + (rem as nat) == bits_value(
                bits@.skip(i as int),
            ),
        decreases i,
    {
        let ghost qpre = q@;
        let ghost r0 = rem as nat;
        i = i - 1;
        let b = bits[i];
        let t: u64 = 2 * (rem as u64) + (if b {
            1
        } else {
            0
        });
        let qb = t >= m as u64;
        q.set(i, qb);
        rem = if qb {
            (t - m as u64) as u32
        } else {
            t as u32
        };
        proof {
            let mn = m as nat;
            let qv = bits_value(qpre.skip(i + 1));
            assert(q@.skip(i + 1) =~= qpre.skip(i + 1));
            assert(q@.skip(i as int).drop_first() =~= q@.skip(i + 1));
            assert(bits@.skip(i as int).drop_first() =~= bits@.skip(i + 1));
            lemma_bits_value_first(q@.skip(i as int));
            lemma_bits_value_first(bits@.skip(i as int));
            assert(q@.skip(i as int)[0] == qb);
            assert(bits@.skip(i as int)[0] == bits@[i as int]);
            assert(bits_value(bits@.skip(i as int)) == bit_val(bits@[i as int]) + 2 * (qv * mn
                + r0));
            assert(bits_value(q@.skip(i as int)) == bit_val(qb) + 2 * qv);
            let bv = bit_val(bits@[i as int]);
            let tn = 2 * r0 + bv;
            assert(t as nat == tn);
            if qb {
                assert(bit_val(qb) == 1);
                assert(rem as nat == tn - mn);
                assert((1 + 2 * qv) * mn + (tn - mn) == bv + 2 * (qv * mn + r0))
                    by (nonlinear_arith)
                    requires
                        tn == 2 * r0 + bv,
                ;
            } else {
                assert(bit_val(qb) == 0);
                assert(rem as nat == tn);
                assert((0 + 2 * qv) * mn + tn == bv + 2 * (qv * mn + r0)) by (nonlinear_arith)
                    requires
                        tn == 2 * r0 + bv,
                ;
            }
        }
    }
    proof {
        assert(q@.skip(0) =~= q@);
        assert(bits@.skip(0) =~= bits@);
        let v = bits_value(bits@);
        let qv = bits_value(q@);
        if v > 0 {
            assert(qv < v) by (nonlinear_arith)
                requires
                    qv * (m as nat) + (rem as nat) == v,
                    2 <= m as nat,
                    0 <= rem,
                    v > 0,
            ;
        }
    }
    (q, rem)
}

/// The numeric value of a digit character; hexadecimal letters of either
/// case are accepted.  Characters that are digits in no supported radix
/// map to 16, which is outside every digit set.
pub open spec fn digit_val(c: char) -> nat {
    if c == '0' {
        0
    } else if c == '1' {
        1
    } else if c == '2' {
        2
    } else if c == '3' {
        3
    } else if c == '4' {
        4
    } else if c == '5' {
        5
    } else if c == '6' {
        6
    } else if c == '7' {
        7
    } else if c == '8' {
        8
    } else if c == '9' {
        9
    } else if c == 'a' || c == 'A' {
        10
    } else if c == 'b' || c == 'B' {
        11
    } else if c == 'c' || c == 'C' {
        12
    } else if c == 'd' || c == 'D' {
        13
    } else if c == 'e' || c == 'E' {
        14
    } else if c == 'f' || c == 'F' {
        15
    } else {
        16
    }
}

/// The upper-case character that renders a digit value.
pub open spec fn digit_char(d: nat) -> char {
    if d == 0 {
        '0'
    } else if d == 1 {
        '1'
    } else if d == 2 {
        '2'
    } else if d == 3 {
        '3'
    } else if d == 4 {
        '4'
    } else if d == 5 {
        '5'
    } else if d == 6 {
        '6'
    } else if d == 7 {
        '7'
    } else if d == 8 {
        '8'
    } else if d == 9 {
        '9'
    } else if d == 10 {
        'A'
    } else if d == 11 {
        'B'
    } else if d == 12 {
        'C'
    } else if d == 13 {
        'D'
    } else if d == 14 {
        'E'
    } else if d == 15 {
        'F'
    } else {
        '?'
    }
}

/// Every character of `s` is a digit of the given radix.
pub open spec fn all_digits(s: Seq<char>, radix: nat) -> bool {
    forall|i: int| 0 <= i < s.len() ==> digit_val(s[i]) < radix
}

/// The value of a digit string read most-significant first.
pub open spec fn digits_value(s: Seq<char>, radix: nat) -> nat
    decreases s.len(),
{
    if s.len() == 0 {
        0
    } else {
        digits_value(s.drop_last(), radix) * radix + digit_val(s.last())
    }
}

/// Whether a literal starts with a two-character radix prefix.
pub open spec fn has_radix_prefix(s: Seq<char>) -> bool {
    s.len() >= 2 && s[0] == '0' && (s[1] == 'x' || s[1] == 'b')
}

/// The radix selected by a literal's prefix: `0x` means 16, `0b` means 2,
/// no prefix means 10.
pub open spec fn literal_radix(s: Seq<char>) -> nat {
    if has_radix_prefix(s) {
        if s[1] == 'x' {
            16
        } else {
            2
        }
    } else {
        10
    }
}

/// The digit body of a literal: what follows the radix prefix, or the
/// whole literal when there is none.
pub open spec fn literal_body(s: Seq<char>) -> Seq<char> {
    if has_radix_prefix(s) {
        s.skip(2)
    } else {
        s
    }
}

/// What parsing a literal yields: the value of its digit body in the
/// selected radix, or nothing when the body is empty or holds a character
/// outside the radix's digit set.
pub open spec fn parse_spec(s: Seq<char>) -> Option<nat> {
    if literal_body(s).len() > 0 && all_digits(literal_body(s), literal_radix(s)) {
        Some(digits_value(literal_body(s), literal_radix(s)))
    } else {
        None
    }
}

/// Why a literal was rejected.
#[derive(Clone, Copy, Debug, PartialEq, Eq)]
pub enum ParseError {
    InvalidNumber,
}

/// An arbitrary-precision non-negative integer.
#[derive(Clone, Debug)]
pub struct Number {
    bits: Vec<bool>,
}

impl Number {
    /// The mathematical value this number stands for.
    pub closed spec fn value(&self) -> nat {
        bits_value(self.bits@)
    }

    /// The number with a given machine-word value.
    pub fn from_u64(v: u64) -> (r: Number)
        ensures
            r.value() == v as nat,
    {
        let mut bits: Vec<bool> = Vec::new();
        let mut rest: u64 = v;
        proof {
            vstd::arithmetic::power2::lemma2_to64();
            assert(bits_value(bits@) == 0);
            assert(pow2(bits@.len()) == 1);
            assert((v as nat) * 1 == v as nat);
        }
        while rest > 0
            invariant
                bits_value(bits@) + (rest as nat) * pow2(bits@.len()) == v as nat,
            decreases rest,
        {
            let ghost pre = bits@;
            let ghost c0 = rest as nat;
            bits.push(rest % 2 == 1);
            proof {
                let p = pow2(pre.len());
                lemma_bits_value_push(pre, c0 % 2 == 1);
                lemma_pow2_unfold(pre.len() + 1);
                assert(bit_val(c0 % 2 == 1) == c0 % 2);
                assert(c0 % 2 + 2 * (c0 / 2) == c0);
                assert((c0 % 2) * p + (c0 / 2) * (2 * p) == c0 * p) by (nonlinear_arith)
                    requires
                        c0 % 2 + 2 * (c0 / 2) == c0,
                ;
            }
            rest = rest / 2;
        }
        Number { bits }
    }
}

/// The digit value of a character, or 16 when it is a digit of no
/// supported radix.
fn digit_val_exec(c: char) -> (r: u32)
    ensures
        r as nat == digit_val(c),
{
    if c == '0' {
        0
    } else if c == '1' {
        1
    } else if c == '2' {
        2
    } else if c == '3' {
        3
    } else if c == '4' {
        4
    } else if c == '5' {
        5
    } else if c == '6' {
        6
    } else if c == '7' {
        7
    } else if c == '8' {
        8
    } else if c == '9' {
        9
    } else if c == 'a' || c == 'A' {
        10
    } else if c == 'b' || c == 'B' {
        11
    } else if c == 'c' || c == 'C' {
        12
    } else if c == 'd' || c == 'D' {
        13
    } else if c == 'e' || c == 'E' {
        14
    } else if c == 'f' || c == 'F' {
        15
    } else {
        16
    }
}

/// Parse a numeric literal: an optional `0x` or `0b` prefix selects
/// radix 16 or 2, otherwise the whole literal is read as decimal.
/// Fails exactly when the digit body is empty or holds a character
/// outside the selected radix's digit set.
pub fn parse(s: &str) -> (r: Result<Number, ParseError>)
    ensures
        match r {
            Ok(n) => parse_spec(s@) == Some(n.value()),
            Err(e) => parse_spec(s@) is None && e == ParseError::InvalidNumber,
        },
{
    let len = s.unicode_len();
    let mut cs: Vec<char> = Vec::new();
    let mut i: usize = 0;
    while i < len
        invariant
            i <= len,
            len == s@.len(),
            cs@ == s@.take(i as int),
        decreases len - i,
    {
        let c = s.get_char(i);
        cs.push(c);
        proof {
            assert(s@.take(i + 1) =~= s@.take(i as int).push(s@[i as int]));
        }
        i = i + 1;
    }
    proof {
        assert(s@.take(len as int) =~= s@);
    }
    let has_prefix = cs.len() >= 2 && cs[0] == '0' && (cs[1] == 'x' || cs[1] == 'b');
    let radix: u32 = if !has_prefix {
        10
    } else if cs[1] == 'x' {
        16
    } else {
        2
    };
    let start: usize = if has_prefix {
        2
    } else {
        0
    };
    proof {
        assert(has_prefix == has_radix_prefix(s@));
        assert(radix as nat == literal_radix(s@));
        assert(literal_body(s@) =~= s@.skip(start as int));
    }
    let ghost body = literal_body(s@);
    if start >= cs.len() {
        assert(body.len() == 0);
        return Err(ParseError::InvalidNumber);
    }
    let mut bits: Vec<bool> = Vec::new();
    let mut j: usize = start;
    proof {
        assert(body.take(0) =~= Seq::<char>::empty());
    }
    while j < cs.len()
        invariant
            start <= j <= cs@.len(),
            cs@ == s@,
            cs@.len() == s@.len(),
            start as int + body.len() == cs@.len(),
            body == literal_body(s@),
            2 <= radix <= 16,
            radix as nat == literal_radix(s@),
            body =~= s@.skip(start as int),
            all_digits(body.take(j - start), radix as nat),
            bits_value(bits@) == digits_value(body.take(j - start), radix as nat),
        decreases cs@.len() - j,
    {
        let c = cs[j];
        let d = digit_val_exec(c);
        if d >= radix {
            proof {
                assert(body[j - start] == c);
                assert(!all_digits(body, radix as nat));
            }
            return Err(ParseError::InvalidNumber);
        }
        mul_small_add(&mut bits, radix, d);
        proof {
            assert(body.take(j - start + 1).drop_last() =~= body.take(j - start));
            assert(body.take(j - start + 1).last() == body[j - start]);
            assert(body[j - start] == c);
        }
        j = j + 1;
    }
    proof {
        assert(body.take(cs@.len() - start) =~= body);
    }
    Ok(Number { bits })
}

/// The output radix of a rendering.
#[derive(Clone, Copy, Debug, PartialEq, Eq)]
pub enum Base {
    Hex,
    Bin,
    Dec,
}

/// The radix a base stands for.
pub open spec fn radix_of(base: Base) -> nat {
    match base {
        Base::Hex => 16,
        Base::Bin => 2,
        Base::Dec => 10,
    }
}

/// The digit string of `n` in a radix, most-significant digit first:
/// minimal, so zero renders as a single digit and nothing else starts
/// with a zero digit.
pub open spec fn digits_of(n: nat, radix: nat) -> Seq<char>
    decreases n,
    via digits_of_decreases
{
    if radix < 2 || n < radix {
        seq![digit_char(n)]
    } else {
        digits_of(n / radix, radix).push(digit_char(n % radix))
    }
}

#[via_fn]
proof fn digits_of_decreases(n: nat, radix: nat) {
    if !(radix < 2 || n < radix) {
        lemma_div_decreases(n as int, radix as int);
    }
}

/// The same digits least-significant first, as a rendering loop
/// produces them.
spec fn digits_of_rev(n: nat, radix: nat) -> Seq<char>
    decreases n,
    via digits_of_rev_decreases
{
    if radix < 2 || n < radix {
        seq![digit_char(n)]
    } else {
        seq![digit_char(n % radix)] + digits_of_rev(n / radix, radix)
    }
}

#[via_fn]
proof fn digits_of_rev_decreases(n: nat, radix: nat) {
    if !(radix < 2 || n < radix) {
        lemma_div_decreases(n as int, radix as int);
    }
}

/// Reversing the least-significant-first digits gives the digit string.
proof fn lemma_digits_of_rev(n: nat, radix: nat)
    requires
        2 <= radix,
    ensures
        digits_of(n, radix) == digits_of_rev(n, radix).reverse(),
    decreases n,
{
    if n < radix {
        assert(digits_of_rev(n, radix).reverse() =~= seq![digit_char(n)]);
    } else {
        lemma_div_decreases(n as int, radix as int);
        lemma_digits_of_rev(n / radix, radix);
        let a = digits_of_rev(n / radix, radix);
        let x = digit_char(n % radix);
        assert(digits_of_rev(n, radix) == seq![x] + a);
        assert((seq![x] + a).reverse() =~= a.reverse().push(x));
        assert(digits_of(n, radix) == digits_of(n / radix, radix).push(x));
    }
}

/// The upper-case character rendering a digit value.
fn digit_char_exec(d: u32) -> (r: char)
    requires
        d < 16,
    ensures
        r == digit_char(d as nat),
{
    if d == 0 {
        '0'
    } else if d == 1 {
        '1'
    } else if d == 2 {
        '2'
    } else if d == 3 {
        '3'
    } else if d == 4 {
        '4'
    } else if d == 5 {
        '5'
    } else if d == 6 {
        '6'
    } else if d == 7 {
        '7'
    } else if d == 8 {
        '8'
    } else if d == 9 {
        '9'
    } else if d == 10 {
        'A'
    } else if d == 11 {
        'B'
    } else if d == 12 {
        'C'
    } else if d == 13 {
        'D'
    } else if d == 14 {
        'E'
    } else {
        'F'
    }
}

/// Relies on `String`'s `FromIterator<char>` implementation: collecting
/// characters yields the string of exactly those characters in order.
#[verifier::external_body]
fn chars_to_string(cs: &Vec<char>) -> (r: String)
    ensures
        r@ == cs@,
{
    cs.iter().collect()
}

/// Render a number in the given base: upper-case hexadecimal digits, no
/// prefix, no padding, and no leading zeros beyond the single digit of
/// the value zero.
pub fn format(n: &Number, base: Base) -> (r: String)
    ensures
        r@ == digits_of(n.value(), radix_of(base)),
{
    let radix: u32 = match base {
        Base::Hex => 16,
        Base::Bin => 2,
        Base::Dec => 10,
    };
    let ghost v0 = n.value();
    let ghost rn = radix as nat;
    let mut cur: Vec<bool> = Vec::new();
    let mut ci: usize = 0;
    while ci < n.bits.len()
        invariant
            ci <= n.bits@.len(),
            cur@ == n.bits@.take(ci as int),
        decreases n.bits@.len() - ci,
    {
        let b = n.bits[ci];
        cur.push(b);
        proof {
            assert(n.bits@.take(ci + 1) =~= n.bits@.take(ci as int).push(n.bits@[ci as int]));
        }
        ci = ci + 1;
    }
    proof {
        assert(n.bits@.take(n.bits@.len() as int) =~= n.bits@);
    }
    let mut rev: Vec<char> = Vec::new();
    if bits_is_zero(&cur) {
        rev.push(digit_char_exec(0));
        proof {
            assert(v0 == 0);
            assert(digits_of_rev(v0, rn) =~= seq![digit_char(0)]);
            assert(rev@ =~= digits_of_rev(v0, rn));
        }
    } else {
        let mut done = false;
        while !done
            invariant
                2 <= radix <= 16,
                rn == radix as nat,
                v0 > 0,
                done ==> bits_value(cur@) == 0,
                bits_value(cur@) > 0 ==> rev@ + digits_of_rev(bits_value(cur@), rn)
                    == digits_of_rev(v0, rn),
                bits_value(cur@) == 0 ==> rev@ == digits_of_rev(v0, rn),
            decreases bits_value(cur@), (if done {
                0int
            } else {
                1int
            }),
        {
            if bits_is_zero(&cur) {
                done = true;
            } else {
                let ghost v = bits_value(cur@);
                let qr = divmod_small(&cur, radix);
                let rm = qr.1;
                let ghost vq = bits_value(qr.0@);
                let c = digit_char_exec(rm);
                let ghost revpre = rev@;
                rev.push(c);
                proof {
                    assert(rev@ =~= revpre + seq![c]);
                    if v < rn {
                        assert(vq == 0) by (nonlinear_arith)
                            requires
                                vq * rn + (rm as nat) == v,
                                0 <= vq,
                                v < rn,
                                2 <= rn,
                        ;
                        assert(vq * rn == 0) by (nonlinear_arith)
                            requires
                                vq == 0,
                        ;
                        assert(rm as nat == v);
                        assert(digits_of_rev(v, rn) == seq![digit_char(v)]);
                        assert(revpre + seq![c] =~= revpre + digits_of_rev(v, rn));
                    } else {
                        lemma_fundamental_div_mod_converse_mod(
                            v as int,
                            rn as int,
                            vq as int,
                            rm as int,
                        );
                        lemma_fundamental_div_mod_converse_div(
                            v as int,
                            rn as int,
                            vq as int,
                            rm as int,
                        );
                        assert(rm as nat == v % rn);
                        assert(vq == v / rn);
                        lemma_div_non_zero(v as int, rn as int);
                        assert(vq > 0);
                        assert(digits_of_rev(v, rn) == seq![c] + digits_of_rev(vq, rn));
                        assert((revpre + seq![c]) + digits_of_rev(vq, rn) =~= revpre + (seq![c]
                            + digits_of_rev(vq, rn)));
                    }
                }
                cur = qr.0;
            }
        }
    }
    let mut out: Vec<char> = Vec::new();
    let mut k: usize = rev.len();
    while k > 0
        invariant
            k <= rev@.len(),
            out@.len() == rev@.len() - k,
            forall|j: int| 0 <= j < out@.len() ==> out@[j] == rev@[rev@.len() - 1 - j],
        decreases k,
    {
        k = k - 1;
        let c = rev[k];
        out.push(c);
    }
    proof {
        lemma_digits_of_rev(v0, rn);
        assert(out@ =~= digits_of_rev(v0, rn).reverse());
    }
    chars_to_string(&out)
}

/// Rendering a digit and reading it back is the identity on digit values.
proof fn lemma_digit_char_val(d: nat)
    requires
        d < 16,
    ensures
        digit_val(digit_char(d)) == d,
{
}

/// Every character that `digits_of` produces is a digit of its radix,
/// and at least one is produced.
proof fn lemma_digits_of_valid(n: nat, radix: nat)
    requires
        2 <= radix <= 16,
    ensures
        all_digits(digits_of(n, radix), radix),
        digits_of(n, radix).len() >= 1,
    decreases n,
{
    if n < radix {
        lemma_digit_char_val(n);
        assert(digits_of(n, radix) =~= seq![digit_char(n)]);
    } else {
        lemma_div_decreases(n as int, radix as int);
        lemma_digits_of_valid(n / radix, radix);
        let a = digits_of(n / radix, radix);
        let x = digit_char(n % radix);
        lemma_digit_char_val(n % radix);
        assert(digits_of(n, radix) == a.push(x));
        assert forall|i: int| 0 <= i < a.push(x).len() implies digit_val(a.push(x)[i])
            < radix by {
            if i < a.len() {
                assert(a.push(x)[i] == a[i]);
            } else {
                assert(a.push(x)[i] == x);
            }
        }
    }
}

/// Reading back the digit string of `n` yields `n`.
proof fn lemma_digits_value_of(n: nat, radix: nat)
    requires
        2 <= radix <= 16,
    ensures
        digits_value(digits_of(n, radix), radix) == n,
    decreases n,
{
    if n < radix {
        lemma_digit_char_val(n);
        let s = seq![digit_char(n)];
        assert(digits_of(n, radix) == s);
        assert(s.drop_last() =~= Seq::<char>::empty());
        assert(digits_value(Seq::<char>::empty(), radix) * radix == 0) by (nonlinear_arith)
            requires
                digits_value(Seq::<char>::empty(), radix) == 0,
        ;
    } else {
        lemma_div_decreases(n as int, radix as int);
        lemma_digits_value_of(n / radix, radix);
        let a = digits_of(n / radix, radix);
        let x = digit_char(n % radix);
        lemma_digit_char_val(n % radix);
        assert(digits_of(n, radix) == a.push(x));
        assert(a.push(x).drop_last() =~= a);
        assert(a.push(x).last() == x);
        lemma_fundamental_div_mod(n as int, radix as int);
        assert((n / radix) * radix == radix * (n / radix)) by (nonlinear_arith);
    }
}

/// A positive number's digit string does not start with a zero digit.
proof fn lemma_digits_of_leading(n: nat, radix: nat)
    requires
        2 <= radix <= 16,
        1 <= n,
    ensures
        digits_of(n, radix)[0] != '0',
    decreases n,
{
    if n < radix {
        lemma_digit_char_val(n);
        assert(digit_val(digits_of(n, radix)[0]) == n);
    } else {
        lemma_div_decreases(n as int, radix as int);
        lemma_div_non_zero(n as int, radix as int);
        lemma_digits_of_leading(n / radix, radix);
        lemma_digits_of_valid(n / radix, radix);
        let a = digits_of(n / radix, radix);
        assert(digits_of(n, radix)[0] == a[0]);
    }
}

/// Round trip: the decimal rendering of any value, which carries no radix
/// prefix, parses back to exactly that value.
pub proof fn lemma_dec_round_trip(n: nat)
    ensures
        parse_spec(digits_of(n, 10)) == Some(n),
{
    let s = digits_of(n, 10);
    lemma_digits_of_valid(n, 10);
    lemma_digits_value_of(n, 10);
    if s.len() >= 2 {
        assert(n >= 10);
        lemma_digits_of_leading(n, 10);
        assert(!has_radix_prefix(s));
    } else {
        assert(!has_radix_prefix(s));
    }
    assert(literal_body(s) == s);
    assert(literal_radix(s) == 10);
}

/// Prefix dispatch: a literal `0x` followed by hexadecimal digits parses
/// to the value of those digits read base 16.
pub proof fn lemma_hex_prefix_dispatch(body: Seq<char>)
    requires
        body.len() > 0,
        all_digits(body, 16),
    ensures
        parse_spec(seq!['0', 'x'] + body) == Some(digits_value(body, 16)),
{
    let s = seq!['0', 'x'] + body;
    assert(s[0] == '0');
    assert(s[1] == 'x');
    assert(has_radix_prefix(s));
    assert(literal_radix(s) == 16);
    assert(s.skip(2) =~= body);
}

/// Prefix dispatch: a literal `0b` followed by binary digits parses to
/// the value of those digits read base 2.
pub proof fn lemma_bin_prefix_dispatch(body: Seq<char>)
    requires
        body.len() > 0,
        all_digits(body, 2),
    ensures
        parse_spec(seq!['0', 'b'] + body) == Some(digits_value(body, 2)),
{
    let s = seq!['0', 'b'] + body;
    assert(s[0] == '0');
    assert(s[1] == 'b');
    assert(has_radix_prefix(s));
    assert(s[1] != 'x');
    assert(literal_radix(s) == 2);
    assert(s.skip(2) =~= body);
}

} // verus!
