//! Decimal digit runs as ASCII bytes: rendering integers, reading digit runs
//! back, and the round trips between the two.

use vstd::prelude::*;

verus! {

/// `b` is an ASCII decimal digit.
pub open spec fn is_digit(b: u8) -> bool {
    48 <= b <= 57
}

/// Every byte of `s` is an ASCII decimal digit.
pub open spec fn all_digits(s: Seq<u8>) -> bool {
    forall|i: int| 0 <= i < s.len() ==> is_digit(#[trigger] s[i])
}

/// The canonical decimal rendering of a natural number, as ASCII bytes:
/// no sign, no leading zero (except for zero itself).
pub open spec fn dec_digits(n: nat) -> Seq<u8>
    decreases n,
{
    if n < 10 {
        seq![(48 + n) as u8]
    } else {
        dec_digits(n / 10).push((48 + n % 10) as u8)
    }
}

/// The canonical decimal rendering of an integer, with a leading minus
/// sign for negative values.
pub open spec fn dec_int(v: int) -> Seq<u8> {
    if v < 0 {
        seq![45u8] + dec_digits((-v) as nat)
    } else {
        dec_digits(v as nat)
    }
}

/// The numeric value of a run of ASCII decimal digits.
pub open spec fn digits_value(s: Seq<u8>) -> nat
    decreases s.len(),
{
    if s.len() == 0 {
        0
    } else {
        digits_value(s.drop_last()) * 10 + (s.last() - 48) as nat
    }
}

/// Ten to the `n`.
pub open spec fn pow10(n: nat) -> nat
    decreases n,
{
    if n == 0 {
        1
    } else {
        10 * pow10((n - 1) as nat)
    }
}

/// A digit run that does not start with a zero names a positive number.
pub proof fn lemma_digits_value_pos(s: Seq<u8>)
    requires
        s.len() >= 1,
        all_digits(s),
        s[0] != 48,
    ensures
        digits_value(s) >= 1,
    decreases s.len(),
{
    if s.len() > 1 {
        assert(s.drop_last()[0] == s[0]);
        lemma_digits_value_pos(s.drop_last());
    }
}

/// Rendering the value of a digit run reproduces the run, provided the run
/// carries no leading zero.
pub proof fn lemma_dec_of_digits_value(s: Seq<u8>)
    requires
        s.len() >= 1,
        all_digits(s),
        s[0] != 48 || s.len() == 1,
    ensures
        dec_digits(digits_value(s)) == s,
    decreases s.len(),
{
    if s.len() == 1 {
        assert(s.drop_last() =~= Seq::<u8>::empty());
        assert(digits_value(s.drop_last()) == 0);
        let v = digits_value(s);
        assert(s.last() == s[0]);
        assert(v == (s[0] - 48) as nat);
        assert((48 + v) as u8 == s[0]);
        assert(dec_digits(v) =~= s);
    } else {
        let s0 = s.drop_last();
        let d = (s.last() - 48) as nat;
        assert(s0[0] == s[0]);
        lemma_dec_of_digits_value(s0);
        lemma_digits_value_pos(s0);
        let v0 = digits_value(s0);
        let v = digits_value(s);
        assert(v == v0 * 10 + d);
        assert(v >= 10) by {
            assert(v0 >= 1);
            assert(v0 * 10 >= 10) by (nonlinear_arith)
                requires v0 >= 1;
        }
        assert(v / 10 == v0 && v % 10 == d) by (nonlinear_arith)
            requires v == v0 * 10 + d, 0 <= d < 10;
        assert(dec_digits(v) == dec_digits(v0).push((48 + d) as u8));
        assert(s0.push((48 + d) as u8) =~= s);
    }
}

/// A digit run of `k` digits names a number below ten to the `k`.
pub proof fn lemma_digits_value_bound(s: Seq<u8>)
    requires
        all_digits(s),
    ensures
        digits_value(s) < pow10(s.len()),
    decreases s.len(),
{
    if s.len() > 0 {
        lemma_digits_value_bound(s.drop_last());
        let v0 = digits_value(s.drop_last());
        let p = pow10((s.len() - 1) as nat);
        assert(v0 * 10 + 9 < p * 10) by (nonlinear_arith)
            requires v0 < p, p >= 1;
    }
}

/// Ten to the eighteen, spelled out.
pub proof fn lemma_pow10_18()
    ensures
        pow10(18) == 1_000_000_000_000_000_000,
{
    reveal_with_fuel(pow10, 19);
}

/// Append the decimal rendering of `n` to `out`.
pub fn push_decimal_u64(out: &mut Vec<u8>, n: u64)
    ensures
        final(out)@ == old(out)@ + dec_digits(n as nat),
    decreases n,
{
    if n < 10 {
        out.push(48 + n as u8);
        assert(out@ =~= old(out)@ + dec_digits(n as nat));
    } else {
        push_decimal_u64(out, n / 10);
        out.push(48 + (n % 10) as u8);
        assert(out@ =~= old(out)@ + dec_digits(n as nat));
    }
}

/// Append the decimal rendering of `v` to `out`, minus sign included.
pub fn push_decimal_i64(out: &mut Vec<u8>, v: i64)
    requires
        v > i64::MIN,
    ensures
        final(out)@ == old(out)@ + dec_int(v as int),
{
    if v < 0 {
        out.push(45);
        let m: u64 = (-v) as u64;
        assert(m as nat == (-(v as int)) as nat);
        push_decimal_u64(out, m);
        assert(out@ =~= old(out)@ + dec_int(v as int));
    } else {
        push_decimal_u64(out, v as u64);
    }
}

/// Read the value of the digit run `text[from..to]`.
pub fn parse_digits_value(text: &Vec<u8>, from: usize, to: usize) -> (r: u64)
    requires
        from <= to <= text@.len(),
        to - from <= 18,
        all_digits(text@.subrange(from as int, to as int)),
    ensures
        r as nat == digits_value(text@.subrange(from as int, to as int)),
        r < 1_000_000_000_000_000_000,
{
    proof {
        lemma_pow10_18();
    }
    let mut acc: u64 = 0;
    let mut i: usize = from;
    while i < to
        invariant
            from <= i <= to <= text@.len(),
            to - from <= 18,
            all_digits(text@.subrange(from as int, to as int)),
            acc as nat == digits_value(text@.subrange(from as int, i as int)),
            acc < pow10((i - from) as nat),
            pow10(18) == 1_000_000_000_000_000_000,
        decreases to - i,
    {
        let b = text[i];
        assert(text@.subrange(from as int, to as int)[i - from] == b);
        assert(is_digit(b));
        proof {
            let cur = text@.subrange(from as int, i as int);
            let next = text@.subrange(from as int, i + 1 as int);
            assert(next.drop_last() =~= cur);
            assert(next.last() == b);
            lemma_pow10_monotone((i + 1 - from) as nat, 18);
            assert(acc * 10 + 9 < pow10((i - from) as nat) * 10) by (nonlinear_arith)
                requires acc < pow10((i - from) as nat), pow10((i - from) as nat) >= 1;
        }
        acc = acc * 10 + (b - 48) as u64;
        i = i + 1;
    }
    assert(pow10((to - from) as nat) <= pow10(18)) by {
        lemma_pow10_monotone((to - from) as nat, 18);
    }
    acc
}

/// Ten to the power is monotone in the exponent.
pub proof fn lemma_pow10_monotone(a: nat, b: nat)
    requires
        a <= b,
    ensures
        pow10(a) <= pow10(b),
        pow10(a) >= 1,
    decreases b,
{
    if b > 0 {
        if a == b {
            lemma_pow10_monotone((b - 1) as nat, (b - 1) as nat);
        } else {
            lemma_pow10_monotone(a, (b - 1) as nat);
        }
    }
}

} // verus!
