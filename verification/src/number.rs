//! Numbers as they are shown: double precision and two decimals.
use crate::text::{push_decimal, push_padded, push_text};
use vstd::arithmetic::div_mod::lemma_fundamental_div_mod;
use vstd::prelude::*;

verus! {

/// `n`, as far as 64 bits can count it.
pub open spec fn counted64(n: nat) -> u64 {
    if n <= u64::MAX {
        n as u64
    } else {
        u64::MAX
    }
}

/// `num / den` to the nearest whole number, ties going to the even one.
pub open spec fn round_half_even(num: nat, den: nat) -> nat {
    let whole = num / den;
    let rest = num % den;
    if 2 * rest > den || (2 * rest == den && whole % 2 == 1) {
        whole + 1
    } else {
        whole
    }
}

/// The distance between neighbouring double precision numbers around `n`.
pub open spec fn double_step(n: nat) -> nat
    decreases n,
{
    if n < 0x20_0000_0000_0000 {
        1
    } else {
        2 * double_step(n / 2)
    }
}

/// The double precision number nearest to `n`.
pub open spec fn nearest_double(n: nat) -> nat {
    round_half_even(n, double_step(n)) * double_step(n)
}

/// `num / den` with two decimals.
pub open spec fn two_decimals(num: nat, den: nat) -> Seq<char> {
    let hundredths = round_half_even(num * 100, den);
    crate::text::decimal(hundredths / 100) + "."@ + crate::text::padded(hundredths % 100, 2)
}

/// `num / den` to the nearest whole number, ties going to the even one.
pub fn divide_rounded(num: u128, den: u128) -> (out: u128)
    requires
        0 < den <= u128::MAX / 2,
    ensures
        out as nat == round_half_even(num as nat, den as nat),
{
    let whole: u128 = num / den;
    let rest: u128 = num % den;
    if rest * 2 > den || (rest * 2 == den && whole % 2 == 1) {
        proof {
            assert(den >= 2);
            assert(num / den <= num / 2) by (nonlinear_arith)
                requires
                    den >= 2,
                    num >= 0,
            ;
        }
        whole + 1
    } else {
        whole
    }
}

/// The halvings that bring `n` below the whole numbers that doubles hold exactly.
proof fn lemma_double_step(n: nat, halved: nat, step: nat)
    requires
        double_step(n) == step * double_step(halved),
        halved >= 0x20_0000_0000_0000,
    ensures
        double_step(n) == (step * 2) * double_step(halved / 2),
{
    assert(step * (2 * double_step(halved / 2)) == (step * 2) * double_step(halved / 2))
        by (nonlinear_arith);
}

/// The double precision number nearest to `n`.
pub fn to_double(n: u64) -> (out: u128)
    ensures
        out as nat == nearest_double(n as nat),
        out <= 0x1_0000_0000_0000_0800,
{
    let mut halved: u64 = n;
    let mut step: u128 = 1;
    while halved >= 0x20_0000_0000_0000
        invariant
            double_step(n as nat) == step as nat * double_step(halved as nat),
            halved as nat * step as nat <= n,
            step == 1 || step == 2 || step == 4 || step == 8 || step == 0x10 || step == 0x20 || step
                == 0x40 || step == 0x80 || step == 0x100 || step == 0x200 || step == 0x400 || step
                == 0x800,
            halved >= 0x20_0000_0000_0000 ==> step <= 0x400,
        decreases halved,
    {
        proof {
            lemma_double_step(n as nat, halved as nat, step as nat);
            assert((halved / 2) as nat * (step * 2) as nat <= halved as nat * step as nat)
                by (nonlinear_arith)
                requires
                    halved >= 0,
                    step >= 0,
            ;
        }
        halved = halved / 2;
        step = step * 2;
        proof {
            if halved >= 0x20_0000_0000_0000 && step > 0x400 {
                assert(halved as nat * step as nat >= 0x20_0000_0000_0000 * 0x800)
                    by (nonlinear_arith)
                    requires
                        halved >= 0x20_0000_0000_0000u64,
                        step >= 0x800,
                ;
            }
        }
    }
    let rounded: u128 = divide_rounded(n as u128, step);
    proof {
        assert(step as nat * 1 == step as nat) by (nonlinear_arith);
        let whole: nat = n as nat / step as nat;
        assert(whole * step <= n) by (nonlinear_arith)
            requires
                whole == n as nat / step as nat,
                step >= 1,
        ;
        assert(rounded * step <= whole * step + step) by (nonlinear_arith)
            requires
                rounded <= whole + 1,
                step >= 1,
        ;
    }
    rounded * step
}

/// Appends `num / den` with two decimals to `out`.
pub fn push_two_decimals(out: &mut String, num: u128, den: u128)
    requires
        0 < den <= u128::MAX / 2,
        num <= 0xffff_ffff_ffff_ffff_ffff,
        num < den * 0x1_0000_0000_0000,
    ensures
        final(out)@ == old(out)@ + two_decimals(num as nat, den as nat),
{
    let hundredths: u128 = divide_rounded(num * 100, den);
    proof {
        let whole: nat = num as nat * 100 / den as nat;
        assert(whole < 100 * 0x1_0000_0000_0000) by (nonlinear_arith)
            requires
                whole == num as nat * 100 / den as nat,
                num < den * 0x1_0000_0000_0000,
                den > 0,
        ;
        assert(hundredths <= whole + 1);
    }
    push_decimal(out, (hundredths / 100) as u64);
    push_text(out, ".");
    push_padded(out, (hundredths % 100) as u64, 2);
    assert(out@ =~= old(out)@ + two_decimals(num as nat, den as nat));
}

/// Whole numbers below two to the power of 53 are shown exactly.
pub proof fn law_small_numbers_are_exact(n: nat)
    requires
        n < 0x20_0000_0000_0000,
    ensures
        nearest_double(n) == n,
{
    let step = double_step(n);
    let rounded = round_half_even(n, step);
    assert(step == 1);
    assert(n / 1 == n && n % 1 == 0);
    assert(rounded * step == rounded) by (nonlinear_arith)
        requires
            step == 1,
    ;
}

/// Counting stops at what 64 bits hold, and not before.
pub proof fn law_counting(n: nat)
    ensures
        n <= 0xffff_ffff_ffff_ffff ==> counted64(n) == n,
        n > 0xffff_ffff_ffff_ffff ==> counted64(n) == 0xffff_ffff_ffff_ffff,
{
}

/// A quotient is rounded to a whole number that is at most a half away from it, and to
/// the even one of two that are.
pub proof fn law_rounding(num: nat, den: nat)
    requires
        den > 0,
    ensures
        ({
            let twice = 2 * (round_half_even(num, den) * den) - 2 * num;
            &&& -den <= twice <= den
            &&& twice == den || twice == -den ==> round_half_even(num, den) % 2 == 0
        }),
{
    let (whole, rest) = (num / den, num % den);
    lemma_fundamental_div_mod(num as int, den as int);
    assert(den * whole == whole * den && (whole + 1) * den == whole * den + den)
        by (nonlinear_arith);
}

/// The double nearest to a whole number is at most half a step away from it, a step
/// being the power of two that leaves 53 binary digits.
pub proof fn law_nearest_double(n: nat)
    ensures
        ({
            let step = double_step(n);
            &&& step >= 1
            &&& n < 0x20_0000_0000_0000 * step
            &&& step > 1 ==> n >= 0x10_0000_0000_0000 * step
            &&& nearest_double(n) % step == 0
            &&& -step <= 2 * nearest_double(n) - 2 * n <= step
        }),
{
    lemma_step_range(n);
    let step = double_step(n);
    law_rounding(n, step);
    vstd::arithmetic::div_mod::lemma_mod_multiples_basic(
        round_half_even(n, step) as int,
        step as int,
    );
}

/// A step leaves 53 binary digits.
proof fn lemma_step_range(n: nat)
    ensures
        double_step(n) >= 1,
        n < 0x20_0000_0000_0000 * double_step(n),
        double_step(n) > 1 ==> n >= 0x10_0000_0000_0000 * double_step(n),
    decreases n,
{
    if n >= 0x20_0000_0000_0000 {
        lemma_step_range(n / 2);
    }
}

/// A number with two decimals is that of hundredths nearest to it.
pub proof fn law_two_decimals(num: nat, den: nat)
    requires
        den > 0,
    ensures
        exists|hundredths: nat|
            #![trigger crate::text::decimal(hundredths / 100)]
            two_decimals(num, den) == crate::text::decimal(hundredths / 100) + "."@
                + crate::text::padded(hundredths % 100, 2) && -den <= 2 * (hundredths * den) - 200
                * num <= den,
{
    law_rounding(num * 100, den);
    let hundredths = round_half_even(num * 100, den);
    assert(two_decimals(num, den) == crate::text::decimal(hundredths / 100) + "."@
        + crate::text::padded(hundredths % 100, 2));
}

} // verus!
