//! Decimal text of numbers, and sizes in binary units.

use vstd::prelude::*;
use vstd::string::*;
use crate::stdx::push_char;

verus! {

/// The decimal digits of a number.
pub open spec fn decimal(n: nat) -> Seq<char>
    decreases n,
{
    if n < 10 {
        seq![digit_char(n)]
    } else {
        decimal(n / 10).push(digit_char(n % 10))
    }
}

/// The character of a digit below ten.
pub open spec fn digit_char(d: nat) -> char {
    if d == 0 { '0' } else if d == 1 { '1' } else if d == 2 { '2' } else if d == 3 { '3' } else if d == 4 {
        '4'
    } else if d == 5 { '5' } else if d == 6 { '6' } else if d == 7 { '7' } else if d == 8 { '8' } else { '9' }
}

/// The character of a digit below ten.
pub fn digit_to_char(d: u32) -> (r: char)
    requires
        d < 10,
    ensures
        r == digit_char(d as nat),
{
    if d == 0 { '0' } else if d == 1 { '1' } else if d == 2 { '2' } else if d == 3 { '3' } else if d == 4 {
        '4'
    } else if d == 5 { '5' } else if d == 6 { '6' } else if d == 7 { '7' } else if d == 8 { '8' } else { '9' }
}

/// Appends the decimal digits of `n`.
pub fn push_decimal(s: &mut String, n: u128)
    ensures
        final(s)@ == old(s)@ + decimal(n as nat),
    decreases n,
{
    if n < 10 {
        crate::stdx::push_char(s, digit_to_char(n as u32));
    } else {
        push_decimal(s, n / 10);
        crate::stdx::push_char(s, digit_to_char((n % 10) as u32));
        assert(final(s)@ =~= old(s)@ + decimal(n as nat));
    }
}

/// Two to the power `e`.
pub open spec fn pow2n(e: nat) -> nat
    decreases e,
{
    if e == 0 {
        1
    } else {
        2 * pow2n((e - 1) as nat)
    }
}

/// The number of low bits dropped when `b` is held in 53 significant bits.
pub open spec fn sig_shift(b: nat) -> nat
    decreases b,
{
    if b < 0x20_0000_0000_0000 {
        0
    } else {
        1 + sig_shift(b / 2)
    }
}

/// `x / d` rounded to the nearest integer, ties to even.
pub open spec fn div_round_even(x: nat, d: nat) -> nat {
    let q = x / d;
    let r = x % d;
    if 2 * r > d || (2 * r == d && q % 2 == 1) {
        q + 1
    } else {
        q
    }
}

/// The value of `b as f64`: `b` rounded to 53 significant bits, ties to
/// even.
pub open spec fn f64_value(b: nat) -> nat {
    let m = pow2n(sig_shift(b));
    div_round_even(b, m) * m
}

/// `n` hundredths with two decimals, such as `12.05`.
pub open spec fn fixed2(n: nat) -> Seq<char> {
    decimal(n / 100) + seq!['.', digit_char((n / 10) % 10), digit_char(n % 10)]
}

/// How `format_size` writes a byte count: below 1 KiB the count and `B`;
/// else the count over the largest binary unit it reaches (KB, MB, GB, TB),
/// computed in `f64` and written with two decimals (the exact binary value
/// rounded half to even), and the unit.
pub open spec fn size_text(b: u64) -> Seq<char> {
    if b >= 0x100_0000_0000 {
        fixed2(div_round_even(f64_value(b as nat) * 100, 0x100_0000_0000)) + " TB"@
    } else if b >= 0x4000_0000 {
        fixed2(div_round_even(f64_value(b as nat) * 100, 0x4000_0000)) + " GB"@
    } else if b >= 0x10_0000 {
        fixed2(div_round_even(f64_value(b as nat) * 100, 0x10_0000)) + " MB"@
    } else if b >= 0x400 {
        fixed2(div_round_even(f64_value(b as nat) * 100, 0x400)) + " KB"@
    } else {
        decimal(b as nat) + " B"@
    }
}

/// `x / d` rounded half to even.
fn div_round_even_exec(x: u128, d: u128) -> (r: u128)
    requires
        0 < d <= 0x100_0000_0000,
        x < 0x1_0000_0000_0000_0000_0000_0000,
    ensures
        r == div_round_even(x as nat, d as nat),
{
    let q = x / d;
    let r = x % d;
    if 2 * r > d || (2 * r == d && q % 2 == 1) {
        q + 1
    } else {
        q
    }
}

proof fn lemma_sig_shift_bound(b: nat)
    requires
        b < 0x1_0000_0000_0000_0000,
    ensures
        sig_shift(b) <= 11,
{
    reveal_with_fuel(sig_shift, 12);
}

proof fn lemma_pow2n_small(e: nat)
    requires
        e <= 11,
    ensures
        0 < pow2n(e) <= 0x800,
{
    reveal_with_fuel(pow2n, 12);
}

/// The value of `b as f64`, as an integer (see `f64_value`).
fn f64_value_exec(b: u64) -> (r: u128)
    ensures
        r == f64_value(b as nat),
        r <= 0x1_0000_0000_0000_0000,
{
    let mut t: u128 = b as u128;
    let mut m: u128 = 1;
    let mut e: u32 = 0;
    while t >= 0x20_0000_0000_0000
        invariant
            m == pow2n(e as nat),
            t == (b as nat) / (m as nat),
            sig_shift(b as nat) == e + sig_shift(t as nat),
            e <= 11,
            m <= 0x800,
            m > 0,
        decreases t,
    {
        proof {
            vstd::arithmetic::div_mod::lemma_div_denominator(b as int, m as int, 2);
            assert(e + 1 <= 11) by {
                lemma_sig_shift_bound(b as nat);
            }
            lemma_pow2n_small((e + 1) as nat);
        }
        t = t / 2;
        m = m * 2;
        e = e + 1;
    }
    proof {
        vstd::arithmetic::div_mod::lemma_fundamental_div_mod(b as int, m as int);
        assert(t * m <= b) by (nonlinear_arith)
            requires
                b == m * t + (b as int) % (m as int),
                (b as int) % (m as int) >= 0,
        ;
    }
    let rem = (b as u128) - t * m;
    assert(rem == (b as nat) % (m as nat));
    let q2 = if 2 * rem > m || (2 * rem == m && t % 2 == 1) { t + 1 } else { t };
    assert(q2 * m <= 0x1_0000_0000_0000_0000) by (nonlinear_arith)
        requires
            q2 <= 0x20_0000_0000_0000,
            m <= 0x800,
    ;
    q2 * m
}

/// Writes `n` hundredths with two decimals.
fn push_fixed2(s: &mut String, n: u128)
    ensures
        final(s)@ == old(s)@ + fixed2(n as nat),
{
    push_decimal(s, n / 100);
    push_char(s, '.');
    push_char(s, digit_to_char(((n / 10) % 10) as u32));
    push_char(s, digit_to_char((n % 10) as u32));
    assert(final(s)@ =~= old(s)@ + fixed2(n as nat));
}

/// A byte count in binary units with two decimals (see `size_text`).
pub fn format_size(bytes: u64) -> (r: String)
    ensures
        r@ == size_text(bytes),
{
    let mut s = String::new();
    if bytes < 0x400 {
        push_decimal(&mut s, bytes as u128);
        s.append(" B");
        return s;
    }
    let (unit, label): (u128, &str) = if bytes >= 0x100_0000_0000 {
        (0x100_0000_0000, " TB")
    } else if bytes >= 0x4000_0000 {
        (0x4000_0000, " GB")
    } else if bytes >= 0x10_0000 {
        (0x10_0000, " MB")
    } else {
        (0x400, " KB")
    };
    let v = f64_value_exec(bytes);
    let n = div_round_even_exec(v * 100, unit);
    push_fixed2(&mut s, n);
    s.append(label);
    s
}

} // verus!
