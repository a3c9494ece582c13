//! Exact fixed-point numbers.
//!
//! Every numeric quantity of this crate (a bound, a coefficient, a constant,
//! a solved value, a tolerance) is an `i64` counting micro-units: the number
//! it stands for is the integer divided by [`SCALE`].  Arithmetic on these
//! numbers is exact integer arithmetic; multiplication and division truncate
//! toward zero at the micro-unit, as [`fx_mul_spec`] and [`fx_div_spec`]
//! state.

use vstd::prelude::*;

verus! {

/// Micro-units per whole unit: a stored value `v` stands for `v / SCALE`.
pub const SCALE: i64 = 1_000_000;

/// Largest magnitude a stored number may take: one billion whole units.
/// Keeping every stored number inside this range leaves room for the
/// intermediate products and sums of expression evaluation.
pub const NUM_LIMIT: i64 = 1_000_000_000_000_000;

/// The representable range of the fixed-point model.
pub open spec fn num_ok(x: int) -> bool {
    -(NUM_LIMIT as int) <= x <= NUM_LIMIT as int
}

/// Absolute value over mathematical integers.
pub open spec fn iabs(a: int) -> int {
    if a < 0 {
        -a
    } else {
        a
    }
}

/// Division truncating toward zero, as machine signed division does.
pub open spec fn tdiv(a: int, b: int) -> int {
    if (a < 0) != (b < 0) {
        -(iabs(a) / iabs(b))
    } else {
        iabs(a) / iabs(b)
    }
}

/// The product of two fixed-point numbers, truncated to a micro-unit.
pub open spec fn fx_mul_spec(a: int, b: int) -> int {
    tdiv(a * b, SCALE as int)
}

/// The quotient of two fixed-point numbers, truncated to a micro-unit.
pub open spec fn fx_div_spec(a: int, b: int) -> int {
    tdiv(a * (SCALE as int), b)
}

/// Fixed-point multiplication.  The product is computed exactly in 128 bits
/// and truncated at the micro-unit.
pub fn fx_mul(a: i64, b: i64) -> (r: i64)
    requires
        i64::MIN <= fx_mul_spec(a as int, b as int) <= i64::MAX,
    ensures
        r as int == fx_mul_spec(a as int, b as int),
{
    proof {
        assert((a as int) * (b as int) < i128::MAX as int && (a as int) * (b as int)
            > i128::MIN as int) by (nonlinear_arith)
            requires
                i64::MIN as int <= a as int <= i64::MAX as int,
                i64::MIN as int <= b as int <= i64::MAX as int,
        ;
    }
    let p: i128 = (a as i128) * (b as i128);
    tdiv_exec_i128(p, SCALE as i128) as i64
}

/// Fixed-point division.  The scaled dividend is computed exactly in 128
/// bits and truncated at the micro-unit.
pub fn fx_div(a: i64, b: i64) -> (r: i64)
    requires
        b != 0,
        i64::MIN <= fx_div_spec(a as int, b as int) <= i64::MAX,
    ensures
        r as int == fx_div_spec(a as int, b as int),
{
    proof {
        assert((a as int) * (SCALE as int) < i128::MAX as int && (a as int) * (SCALE as int)
            > i128::MIN as int) by (nonlinear_arith)
            requires
                i64::MIN as int <= a as int <= i64::MAX as int,
        ;
    }
    let p: i128 = (a as i128) * (SCALE as i128);
    tdiv_exec_i128(p, b as i128) as i64
}

/// The multiple of [`SCALE`] nearest to `v`: rounding to a whole unit, with
/// a tie going away from zero.
pub open spec fn round_unit_spec(v: int) -> int {
    let q = (iabs(v) + SCALE as int / 2) / (SCALE as int);
    if v < 0 {
        -(q * SCALE as int)
    } else {
        q * SCALE as int
    }
}

/// Rounds a fixed-point number to the nearest whole unit, a tie going away
/// from zero.
pub fn round_unit(v: i64) -> (r: i64)
    requires
        i64::MIN < v,
        iabs(v as int) + SCALE as int / 2 <= i64::MAX,
    ensures
        r as int == round_unit_spec(v as int),
        num_ok(v as int) ==> num_ok(r as int),
{
    let neg = v < 0;
    let m: u64 = if neg {
        (-v) as u64
    } else {
        v as u64
    };
    assert(m as int == iabs(v as int));
    let half: u64 = (SCALE as u64) / 2;
    let q: u64 = (m + half) / (SCALE as u64);
    proof {
        vstd::arithmetic::div_mod::lemma_fundamental_div_mod(m as int + half as int, SCALE as int);
        assert((q as int) * (SCALE as int) <= m as int + half as int);
        if num_ok(v as int) {
            assert((q as int) * (SCALE as int) < (NUM_LIMIT as int) + (SCALE as int));
            assert(q as int <= 1_000_000_000) by (nonlinear_arith)
                requires
                    q as int * 1_000_000 < 1_000_000_000_000_000 + 1_000_000,
                    q as int >= 0,
            ;
        }
    }
    let rm: u64 = q * (SCALE as u64);
    if neg {
        -(rm as i64)
    } else {
        rm as i64
    }
}

/// The largest magnitude one product of two in-range numbers can reach
/// after truncation to a micro-unit (see [`lemma_fx_mul_bound`]).
pub open spec fn product_limit() -> int {
    1_000_000_000_000_000_000_000_000
}

/// Truncating division shrinks magnitudes: `|a / b| <= |a| / |b|` exactly.
pub proof fn lemma_tdiv_bound(a: int, b: int)
    requires
        b != 0,
    ensures
        iabs(tdiv(a, b)) == iabs(a) / iabs(b),
        tdiv(a, b) == 0 <==> iabs(a) < iabs(b),
{
    vstd::arithmetic::div_mod::lemma_div_pos_is_pos(iabs(a), iabs(b));
    if iabs(a) < iabs(b) {
        vstd::arithmetic::div_mod::lemma_basic_div(iabs(a), iabs(b));
    } else {
        vstd::arithmetic::div_mod::lemma_div_non_zero(iabs(a), iabs(b));
    }
}

/// The product of two in-range numbers stays within [`product_limit`].
pub proof fn lemma_fx_mul_bound(c: int, v: int)
    requires
        num_ok(c),
        num_ok(v),
    ensures
        iabs(fx_mul_spec(c, v)) <= product_limit(),
{
    assert(iabs(c * v) <= (NUM_LIMIT as int) * (NUM_LIMIT as int)) by (nonlinear_arith)
        requires
            -(NUM_LIMIT as int) <= c <= NUM_LIMIT as int,
            -(NUM_LIMIT as int) <= v <= NUM_LIMIT as int,
    ;
    lemma_tdiv_bound(c * v, SCALE as int);
    vstd::arithmetic::div_mod::lemma_div_is_ordered(
        iabs(c * v),
        (NUM_LIMIT as int) * (NUM_LIMIT as int),
        SCALE as int,
    );
    assert((NUM_LIMIT as int) * (NUM_LIMIT as int) / (SCALE as int) == product_limit()) by {
        vstd::arithmetic::div_mod::lemma_fundamental_div_mod_converse(
            (NUM_LIMIT as int) * (NUM_LIMIT as int),
            SCALE as int,
            product_limit(),
            0,
        );
    }
}

/// Multiplying by the fixed-point unit is the identity: `1.0 · v == v`.
pub proof fn lemma_fx_mul_unit(v: int)
    ensures
        fx_mul_spec(SCALE as int, v) == v,
{
    let s = SCALE as int;
    assert(iabs(s * v) == s * iabs(v));
    vstd::arithmetic::div_mod::lemma_div_multiples_vanish(iabs(v), s);
    assert((s * iabs(v)) / s == iabs(v));
}

/// Truncating signed division on 128-bit operands, via sign and magnitude.
pub(crate) fn tdiv_exec_i128(a: i128, b: i128) -> (r: i128)
    requires
        b != 0,
        a > i128::MIN,
        b > i128::MIN,
    ensures
        r as int == tdiv(a as int, b as int),
{
    let ma: u128 = if a < 0 {
        (-a) as u128
    } else {
        a as u128
    };
    let mb: u128 = if b < 0 {
        (-b) as u128
    } else {
        b as u128
    };
    assert(ma as int == iabs(a as int));
    assert(mb as int == iabs(b as int));
    let q: u128 = ma / mb;
    assert(q as int == iabs(a as int) / iabs(b as int));
    assert(q as int <= iabs(a as int)) by {
        vstd::arithmetic::div_mod::lemma_div_nonincreasing(iabs(a as int), iabs(b as int));
    }
    if (a < 0) != (b < 0) {
        assert(q as int <= i128::MAX as int + 1);
        -(q as i128)
    } else {
        q as i128
    }
}

} // verus!
