//! Fixed-point log returns.
//!
//! Series values are held in units of one hundred-millionth, so a log return
//! of `0.05` is stored as `5_000_000`.  The natural logarithm of a price
//! ratio is computed in integer arithmetic: the ratio is normalized into
//! `[1, 2)` by halving (each halving contributes `ln 2`), and the remainder
//! is resolved by repeated squaring, each squaring step contributing a halved
//! share of `ln 2` when it crosses `2`.

use vstd::arithmetic::div_mod::{
    lemma_div_is_ordered, lemma_div_multiples_vanish, lemma_multiply_divide_le,
};
use vstd::arithmetic::mul::lemma_mul_inequality;
use vstd::arithmetic::power2::{lemma_pow2_pos, lemma_pow2_strictly_increases, lemma_pow2_unfold, pow2};
use vstd::prelude::*;

verus! {

/// One unit of value: the fixed-point scale.
pub const SCALE: u64 = 100_000_000;

/// `ln 2` at the fixed-point scale.
pub const LN2_FX: u64 = 69_314_718;

/// No log return leaves `[-65 ln 2, 65 ln 2]` at the scale used here.
pub const LOG_RETURN_BOUND: i64 = 4_505_456_670;

/// How many times a ratio at the scale is halved until it lies below twice
/// the scale.
pub open spec fn norm_shifts(r: nat) -> nat
    decreases r,
{
    if r < 200_000_000 {
        0
    } else {
        1 + norm_shifts(r / 2)
    }
}

/// The ratio after that normalization.
pub open spec fn norm_val(r: nat) -> nat
    decreases r,
{
    if r < 200_000_000 {
        r
    } else {
        norm_val(r / 2)
    }
}

/// The fractional contribution gathered by `fuel` squaring steps starting
/// from ratio `r` with a current step weight of `step / 2`.
pub open spec fn frac_acc(r: nat, step: nat, fuel: nat) -> nat
    decreases fuel,
{
    if fuel == 0 {
        0
    } else {
        let st = step / 2;
        let r2 = r * r / 100_000_000;
        if r2 >= 200_000_000 {
            st + frac_acc(r2 / 2, st, (fuel - 1) as nat)
        } else {
            frac_acc(r2, st, (fuel - 1) as nat)
        }
    }
}

/// The scaled natural logarithm of `x / y`, for `x >= y >= 1`.
pub open spec fn ln_ratio_spec(x: nat, y: nat) -> nat {
    let r0 = x * 100_000_000 / y;
    norm_shifts(r0) * 69_314_718 + frac_acc(norm_val(r0), 138_629_436, 26)
}

/// The scaled log return from first observation `b` to observation `a`:
/// `ln(a / b)` with the sign carried explicitly.
pub open spec fn spec_log_return(a: int, b: int) -> int {
    if a >= b {
        ln_ratio_spec(a as nat, b as nat) as int
    } else {
        -(ln_ratio_spec(b as nat, a as nat) as int)
    }
}

/// A ratio of one gathers no fractional contribution.
proof fn lemma_frac_acc_at_scale(step: nat, fuel: nat)
    ensures
        frac_acc(100_000_000, step, fuel) == 0,
    decreases fuel,
{
    if fuel > 0 {
        assert(100_000_000nat * 100_000_000 / 100_000_000 == 100_000_000) by {
            lemma_div_multiples_vanish(100_000_000, 100_000_000);
        }
        lemma_frac_acc_at_scale(step / 2, (fuel - 1) as nat);
    }
}

/// The fractional contribution never exceeds the opening step weight's double.
proof fn lemma_frac_acc_le(r: nat, step: nat, fuel: nat)
    ensures
        frac_acc(r, step, fuel) <= step,
    decreases fuel,
{
    if fuel > 0 {
        let st = step / 2;
        let r2 = r * r / 100_000_000;
        if r2 >= 200_000_000 {
            lemma_frac_acc_le(r2 / 2, st, (fuel - 1) as nat);
        } else {
            lemma_frac_acc_le(r2, st, (fuel - 1) as nat);
        }
    }
}

/// Normalization of a bounded ratio takes boundedly many halvings.
proof fn lemma_norm_shifts_le(r: nat, b: nat)
    requires
        r < 200_000_000 * pow2(b),
    ensures
        norm_shifts(r) <= b,
    decreases b,
{
    if r >= 200_000_000 {
        if b == 0 {
            assert(pow2(0) == 1) by {
                vstd::arithmetic::power2::lemma2_to64();
            }
        } else {
            assert(pow2(b) == 2 * pow2((b - 1) as nat)) by {
                lemma_pow2_unfold(b);
            }
            assert(r / 2 < 200_000_000 * pow2((b - 1) as nat));
            lemma_norm_shifts_le(r / 2, (b - 1) as nat);
        }
    }
}

/// The log of a ratio of equals is exactly zero.
pub proof fn lemma_log_return_zero(x: int)
    requires
        x >= 1,
    ensures
        spec_log_return(x, x) == 0,
{
    assert((x as nat) * 100_000_000 / (x as nat) == 100_000_000) by {
        lemma_div_multiples_vanish(100_000_000, x);
    }
    lemma_frac_acc_at_scale(138_629_436, 26);
}

/// Reversing the two observations flips the sign of the log return.
pub proof fn lemma_log_return_antisym(a: int, b: int)
    requires
        a >= 1,
        b >= 1,
    ensures
        spec_log_return(a, b) == -spec_log_return(b, a),
{
    if a == b {
        lemma_log_return_zero(a);
    }
}

/// The log of any representable ratio stays within the stated bound.
pub proof fn lemma_ln_ratio_bound(x: nat, y: nat)
    requires
        1 <= y <= x,
        x < 0x8000_0000_0000_0000,
    ensures
        ln_ratio_spec(x, y) <= 4_505_456_670,
{
    let r0 = x * 100_000_000 / y;
    assert(x * 100_000_000 <= 0x8000_0000_0000_0000 * 100_000_000) by {
        lemma_mul_inequality(x as int, 0x8000_0000_0000_0000, 100_000_000);
    }
    assert(r0 <= x * 100_000_000) by {
        vstd::arithmetic::div_mod::lemma_div_nonincreasing((x * 100_000_000) as int, y as int);
    }
    assert(200_000_000 * pow2(63) > 0x8000_0000_0000_0000 * 100_000_000) by {
        vstd::arithmetic::power2::lemma2_to64();
        vstd::arithmetic::power2::lemma2_to64_rest();
    }
    lemma_norm_shifts_le(r0, 63);
    assert(norm_shifts(r0) * 69_314_718 <= 63 * 69_314_718) by {
        lemma_mul_inequality(norm_shifts(r0) as int, 63, 69_314_718);
    }
    lemma_frac_acc_le(norm_val(r0), 138_629_436, 26);
}

/// The scaled natural logarithm of `x / y` for `x >= y >= 1`.
fn ln_ratio(x: i64, y: i64) -> (r: u64)
    requires
        1 <= y <= x,
    ensures
        r == ln_ratio_spec(x as nat, y as nat),
        r <= 4_505_456_670,
{
    let xu = x as u128;
    let yu = y as u128;
    let mut r: u128 = xu * 100_000_000 / yu;
    let ghost r0 = r as nat;
    proof {
        lemma_ln_ratio_bound(x as nat, y as nat);
        // the starting ratio is at least one unit: x >= y
        assert(xu * 100_000_000 >= yu * 100_000_000) by {
            lemma_mul_inequality(yu as int, xu as int, 100_000_000);
        }
        assert(r0 >= 100_000_000) by {
            lemma_div_multiples_vanish(100_000_000, yu as int);
            lemma_div_is_ordered(yu * 100_000_000, xu * 100_000_000, yu as int);
        }
        assert(xu * 100_000_000 < 0x8000_0000_0000_0000 * 100_000_000) by {
            lemma_mul_inequality(xu as int, 0x7FFF_FFFF_FFFF_FFFF, 100_000_000);
        }
        assert(200_000_000 * pow2(63) > 0x8000_0000_0000_0000 * 100_000_000) by {
            vstd::arithmetic::power2::lemma2_to64();
            vstd::arithmetic::power2::lemma2_to64_rest();
        }
        lemma_norm_shifts_le(r0, 63);
    }
    let mut k: u64 = 0;
    while r >= 200_000_000
        invariant
            r >= 100_000_000,
            norm_shifts(r0) == k + norm_shifts(r as nat),
            norm_val(r0) == norm_val(r as nat),
            k <= norm_shifts(r0),
            norm_shifts(r0) <= 63,
        decreases r,
    {
        r = r / 2;
        k = k + 1;
    }
    proof {
        assert(norm_shifts(r0) <= 63);
        assert(k <= 63);
    }
    let mut acc: u64 = k * 69_314_718;
    let ghost total = ln_ratio_spec(x as nat, y as nat);
    let mut step: u64 = 138_629_436;
    let mut fuel: u64 = 26;
    proof {
        assert(total == acc + frac_acc(r as nat, step as nat, fuel as nat));
        lemma_frac_acc_le(r as nat, step as nat, fuel as nat);
    }
    while fuel > 0
        invariant
            100_000_000 <= r < 200_000_000,
            acc <= 4_505_456_670,
            total <= 4_505_456_670,
            total == acc + frac_acc(r as nat, step as nat, fuel as nat),
        decreases fuel,
    {
        let ghost pre_r = r as nat;
        let ghost pre_step = step as nat;
        let ghost pre_fuel = fuel as nat;
        step = step / 2;
        proof {
            // squaring keeps the ratio at or above one unit and below four
            assert(pre_r * pre_r >= 100_000_000 * 100_000_000) by (nonlinear_arith)
                requires
                    pre_r >= 100_000_000,
            ;
            assert(pre_r * pre_r < 200_000_000 * 200_000_000) by (nonlinear_arith)
                requires
                    pre_r < 200_000_000,
            ;
        }
        r = r * r / 100_000_000;
        proof {
            assert(r as nat >= 100_000_000) by {
                lemma_div_multiples_vanish(100_000_000, 100_000_000);
                lemma_div_is_ordered((100_000_000 * 100_000_000) as int, (pre_r * pre_r) as int, 100_000_000);
            }
            assert((r as nat) < 400_000_000) by {
                lemma_multiply_divide_le((pre_r * pre_r) as int, 100_000_000, 400_000_000);
            }
            lemma_frac_acc_le(pre_r, pre_step, pre_fuel);
        }
        if r >= 200_000_000 {
            r = r / 2;
            acc = acc + step;
        }
        fuel = fuel - 1;
        proof {
            lemma_frac_acc_le(r as nat, step as nat, fuel as nat);
        }
    }
    proof {
        assert(frac_acc(r as nat, step as nat, 0) == 0);
    }
    acc
}

/// The scaled log return from first observation `b` to observation `a`.
pub fn log_return(a: i64, b: i64) -> (r: i64)
    requires
        1 <= a,
        1 <= b,
    ensures
        r == spec_log_return(a as int, b as int),
        -LOG_RETURN_BOUND <= r <= LOG_RETURN_BOUND,
{
    if a >= b {
        proof {
            lemma_ln_ratio_bound(a as nat, b as nat);
        }
        ln_ratio(a, b) as i64
    } else {
        proof {
            lemma_ln_ratio_bound(b as nat, a as nat);
        }
        -(ln_ratio(b, a) as i64)
    }
}

} // verus!
