//! Ratio-of-expressions constraints, reduced to linear constraints.
//!
//! Given a numerator `N` and a denominator `D` (or a complement `C` with
//! `D = N + C`), the constraint `N / D {sense} rhs` reduces to the linear
//! form `N - rhs·D {sense} 0`.

use vstd::prelude::*;
use crate::error::LpError;
use crate::fixnum::{num_ok, fx_mul_spec, fx_div_spec, NUM_LIMIT, SCALE};
use crate::expression::{
    LpAffineExpression,
    LpTerm,
    MAX_TERMS,
    coeff_sum,
    term_key,
    is_sum_of,
    is_difference_of,
    all_solved,
};
use crate::constraint::{LpConstraint, sense_ok};

verus! {

/// `t` is `s` with every coefficient multiplied by the fixed-point number
/// `k`, variables kept in place.
pub open spec fn scaled_pointwise(t: Seq<LpTerm>, s: Seq<LpTerm>, k: int) -> bool {
    &&& t.len() == s.len()
    &&& forall|i: int|
        0 <= i < s.len() ==> (#[trigger] t[i]).0 == s[i].0 && t[i].1 as int == fx_mul_spec(
            s[i].1 as int,
            k,
        )
}

/// A ratio constraint `numerator / denominator {sense} rhs`, with the
/// complement expression satisfying `denominator == numerator + complement`
/// when one of the two was derived from the other.
#[derive(Debug)]
pub struct LpFractionConstraint {
    pub numerator: LpAffineExpression,
    pub denominator: LpAffineExpression,
    pub complement: Option<LpAffineExpression>,
    pub sense: i32,
    pub rhs: i64,
    pub name: Option<String>,
}

impl LpFractionConstraint {
    /// Everything well-formed and the sense legal.
    pub open spec fn wf(&self) -> bool {
        &&& self.numerator.wf()
        &&& self.denominator.wf()
        &&& match self.complement {
            Some(c) => c.wf(),
            None => true,
        }
        &&& sense_ok(self.sense as int)
        &&& num_ok(self.rhs as int)
    }

    /// Makes a ratio constraint, resolving the missing side: the
    /// denominator as `numerator + complement`, or the complement as
    /// `denominator - numerator`.  One of the two must be given.
    pub fn new(
        numerator: LpAffineExpression,
        denominator: Option<LpAffineExpression>,
        sense: i32,
        rhs: i64,
        name: Option<String>,
        complement: Option<LpAffineExpression>,
    ) -> (r: LpFractionConstraint)
        requires
            numerator.wf(),
            sense_ok(sense as int),
            num_ok(rhs as int),
            match denominator {
                Some(d) => d.wf(),
                None => true,
            },
            match complement {
                Some(c) => c.wf(),
                None => true,
            },
            denominator is Some || complement is Some,
            denominator is None ==> (complement matches Some(c) && num_ok(
                numerator.constant + c.constant,
            ) && numerator.terms@.len() + c.terms@.len() <= MAX_TERMS && forall|i: int|
                0 <= i < c.terms@.len() ==> num_ok(
                    coeff_sum(numerator.terms@, term_key(#[trigger] c.terms@[i]))
                        + c.terms@[i].1,
                )),
            complement is None ==> (denominator matches Some(d) && num_ok(
                d.constant - numerator.constant,
            ) && d.terms@.len() + numerator.terms@.len() <= MAX_TERMS && forall|i: int|
                0 <= i < numerator.terms@.len() ==> num_ok(
                    coeff_sum(d.terms@, term_key(#[trigger] numerator.terms@[i]))
                        - numerator.terms@[i].1,
                )),
        ensures
            r.wf(),
            r.sense == sense,
            r.rhs == rhs,
            r.name == name,
            r.numerator.constant == numerator.constant,
            r.numerator.terms@ == numerator.terms@,
            denominator matches Some(d) ==> r.denominator.constant == d.constant
                && r.denominator.terms@ == d.terms@,
            complement matches Some(c) ==> (r.complement matches Some(rc) && rc.constant
                == c.constant && rc.terms@ == c.terms@),
            denominator is None ==> (complement matches Some(c) && is_sum_of(
                r.denominator,
                numerator,
                c,
            )),
            complement is None ==> (denominator matches Some(d) && (r.complement matches Some(rc)
                && is_difference_of(rc, d, numerator))),
    {
        let (denominator, complement) = match (denominator, complement) {
            (None, Some(comp)) => {
                let d = numerator.plus(&comp);
                (d, Some(comp))
            },
            (Some(denom), None) => {
                let c = denom.minus(&numerator);
                (denom, Some(c))
            },
            (Some(denom), Some(comp)) => (denom, Some(comp)),
            (None, None) => {
                proof {
                    assert(false);
                }
                (numerator.clone(), None)
            },
        };
        LpFractionConstraint { numerator, denominator, complement, sense, rhs, name }
    }

    /// The value of the left-hand side `N / D` over the solved values:
    /// the exact quotient when the denominator is nonzero; one when both
    /// sides are zero (the `0 / 0` convention); otherwise a division by
    /// zero.  Unsolved variables and out-of-range results are reported.
    pub fn find_lhs_value(&self) -> (r: Result<i64, LpError>)
        requires
            self.wf(),
        ensures
            ({
                let nv = self.numerator.value_spec();
                let dv = self.denominator.value_spec();
                let solved = all_solved(self.numerator.terms@) && all_solved(
                    self.denominator.terms@,
                ) && num_ok(nv) && num_ok(dv);
                match r {
                    Ok(v) => solved && ((dv != 0 && num_ok(fx_div_spec(nv, dv)) && v as int
                        == fx_div_spec(nv, dv)) || (dv == 0 && nv == 0 && v == SCALE)),
                    Err(e) => (!solved && e == LpError::NoValue) || (solved && dv != 0
                        && !num_ok(fx_div_spec(nv, dv)) && e == LpError::OutOfRange) || (solved
                        && dv == 0 && nv != 0 && e == LpError::DivisionByZero),
                }
            }),
    {
        let dv = match self.denominator.value() {
            Some(v) => v,
            None => {
                return Err(LpError::NoValue);
            },
        };
        let nv = match self.numerator.value() {
            Some(v) => v,
            None => {
                return Err(LpError::NoValue);
            },
        };
        if dv != 0 {
            proof {
                assert((nv as int) * (SCALE as int) < i128::MAX as int && (nv as int) * (
                SCALE as int) > i128::MIN as int) by (nonlinear_arith)
                    requires
                        i64::MIN as int <= nv as int <= i64::MAX as int,
                ;
            }
            let p: i128 = (nv as i128) * (SCALE as i128);
            let q: i128 = crate::fixnum::tdiv_exec_i128(p, dv as i128);
            if q < -(NUM_LIMIT as i128) || q > NUM_LIMIT as i128 {
                Err(LpError::OutOfRange)
            } else {
                Ok(q as i64)
            }
        } else if nv == 0 {
            Ok(SCALE)
        } else {
            Err(LpError::DivisionByZero)
        }
    }

    /// The linear reduction `numerator - rhs·denominator {sense} 0`, named
    /// like the ratio constraint.
    pub fn to_lp_constraint(&self) -> (r: LpConstraint)
        requires
            self.wf(),
            num_ok(fx_mul_spec(self.denominator.constant as int, self.rhs as int)),
            forall|i: int|
                0 <= i < self.denominator.terms@.len() ==> num_ok(
                    fx_mul_spec((#[trigger] self.denominator.terms@[i]).1 as int, self.rhs as int),
                ),
            num_ok(
                self.numerator.constant - fx_mul_spec(
                    self.denominator.constant as int,
                    self.rhs as int,
                ),
            ),
            self.numerator.terms@.len() + self.denominator.terms@.len() <= MAX_TERMS,
            forall|i: int|
                0 <= i < self.denominator.terms@.len() ==> num_ok(
                    coeff_sum(
                        self.numerator.terms@,
                        term_key(#[trigger] self.denominator.terms@[i]),
                    ) - fx_mul_spec(self.denominator.terms@[i].1 as int, self.rhs as int),
                ),
        ensures
            r.wf(),
            r.sense == self.sense,
            r.pi is None,
            r.slack is None,
            match self.name {
                Some(n) => r.expression.name matches Some(s) && s@
                    == crate::element::sanitize_spec(n@),
                None => r.expression.name is None,
            },
            exists|sd: Seq<LpTerm>|
                #[trigger] scaled_pointwise(sd, self.denominator.terms@, self.rhs as int) && (
                r.expression.constant as int == self.numerator.constant - fx_mul_spec(
                    self.denominator.constant as int,
                    self.rhs as int,
                ) && forall|k: Option<Seq<char>>|
                    #[trigger] coeff_sum(r.expression.terms@, k) == coeff_sum(
                        self.numerator.terms@,
                        k,
                    ) - coeff_sum(sd, k)),
    {
        let sd = self.denominator.times(self.rhs);
        let lhs = self.numerator.minus(&sd);
        proof {
            assert(forall|i: int|
                0 <= i < sd.terms@.len() ==> term_key(#[trigger] sd.terms@[i]) == term_key(
                    self.denominator.terms@[i],
                ));
            assert(scaled_pointwise(sd.terms@, self.denominator.terms@, self.rhs as int));
        }
        let name = match &self.name {
            Some(n) => Some(n.clone()),
            None => None,
        };
        LpConstraint::new(Some(lhs), self.sense, name, None)
    }
}

} // verus!
