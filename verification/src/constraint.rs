//! Relational constraints: an affine expression bound to a sense and a
//! right-hand side.
//!
//! Construction folds the right-hand side into the expression's constant
//! (`constant -= rhs`), so a constraint always stands in the canonical form
//! `expression {sense} 0`.  The record form stores the right-hand side
//! (`-constant`), and rebuilding from a record inverts the fold, so the
//! round trip is exact ([`lemma_round_trip_valid`]).

use vstd::prelude::*;
use crate::element::{sanitize_spec, sanitized};
use crate::fixnum::{num_ok, iabs};
use crate::variable::{LpVariable, LpCategory, opt_num_ok};
use crate::expression::{
    LpAffineExpression,
    LpCoefficientRecord,
    LpTerm,
    MAX_TERMS,
    coeff_sum,
    term_key,
    contains_key,
    is_sum_of,
    is_difference_of,
    lemma_coeff_sum_absent,
};

verus! {

/// The sense of a "less than or equal" constraint.
pub const LP_CONSTRAINT_LE: i32 = -1;

/// The sense of an equality constraint.
pub const LP_CONSTRAINT_EQ: i32 = 0;

/// The sense of a "greater than or equal" constraint.
pub const LP_CONSTRAINT_GE: i32 = 1;

/// A legal sense value.
pub open spec fn sense_ok(s: int) -> bool {
    s == -1 || s == 0 || s == 1
}

/// How two senses combine when constraints are added: a `<=` on either
/// side wins, else a `>=` on either side, else equality.  (On the values
/// -1, 0, 1 this is their bitwise or.)
pub open spec fn sense_or(a: int, b: int) -> int {
    if a == -1 || b == -1 {
        -1
    } else if a == 1 || b == 1 {
        1
    } else {
        0
    }
}

/// A constraint in canonical form `expression {sense} 0`, with the
/// solver-reported dual value (`pi`) and slack.
#[derive(Debug)]
pub struct LpConstraint {
    pub expression: LpAffineExpression,
    pub sense: i32,
    pub pi: Option<i64>,
    pub slack: Option<i64>,
}

/// The record form of a constraint: sense, dual value, right-hand side
/// (the negated folded constant), name, and the coefficient list.
#[derive(Debug)]
pub struct LpConstraintRecord {
    pub sense: i32,
    pub pi: Option<i64>,
    pub constant: i64,
    pub name: Option<String>,
    pub coefficients: Vec<LpCoefficientRecord>,
}

impl Clone for LpConstraint {
    fn clone(&self) -> (r: Self)
        ensures
            r.expression.constant == self.expression.constant,
            r.expression.name == self.expression.name,
            r.expression.terms@ == self.expression.terms@,
            r.sense == self.sense,
            r.pi == self.pi,
            r.slack == self.slack,
    {
        LpConstraint {
            expression: self.expression.clone(),
            sense: self.sense,
            pi: self.pi,
            slack: self.slack,
        }
    }
}

impl LpConstraint {
    /// Expression well-formed, sense legal, solver fields in range.
    pub open spec fn wf(&self) -> bool {
        &&& self.expression.wf()
        &&& sense_ok(self.sense as int)
        &&& opt_num_ok(self.pi)
        &&& opt_num_ok(self.slack)
    }

    /// Makes a constraint, folding `rhs` into the expression's constant
    /// and storing the (sanitized) name on the expression.
    pub fn new(
        e: Option<LpAffineExpression>,
        sense: i32,
        name: Option<String>,
        rhs: Option<i64>,
    ) -> (r: LpConstraint)
        requires
            sense_ok(sense as int),
            match e {
                Some(x) => x.wf(),
                None => true,
            },
            num_ok(
                (match e {
                    Some(x) => x.constant as int,
                    None => 0,
                }) - (match rhs {
                    Some(v) => v as int,
                    None => 0,
                }),
            ),
        ensures
            r.wf(),
            r.sense == sense,
            r.pi is None,
            r.slack is None,
            r.expression.constant as int == (match e {
                Some(x) => x.constant as int,
                None => 0,
            }) - (match rhs {
                Some(v) => v as int,
                None => 0,
            }),
            r.expression.terms@ == match e {
                Some(x) => x.terms@,
                None => Seq::<LpTerm>::empty(),
            },
            match name {
                Some(n) => r.expression.name matches Some(s) && s@ == sanitize_spec(n@),
                None => r.expression.name is None,
            },
    {
        let mut expression = match e {
            Some(x) => x,
            None => LpAffineExpression { constant: 0, name: None, terms: Vec::new() },
        };
        if let Some(r) = rhs {
            expression.constant = expression.constant - r;
        }
        expression.set_name(name);
        LpConstraint { expression, sense, pi: None, slack: None }
    }

    /// The lower bound this constraint puts on its expression's variable
    /// part: `-constant` for `>=` and `=` senses, none for `<=`.
    pub fn get_lb(&self) -> (r: Option<i64>)
        requires
            self.wf(),
        ensures
            r == if self.sense == 1 || self.sense == 0 {
                Some((-(self.expression.constant as int)) as i64)
            } else {
                None::<i64>
            },
    {
        if self.sense == 1 || self.sense == 0 {
            Some(-self.expression.constant)
        } else {
            None
        }
    }

    /// The upper bound this constraint puts on its expression's variable
    /// part: `-constant` for `<=` and `=` senses, none for `>=`.
    pub fn get_ub(&self) -> (r: Option<i64>)
        requires
            self.wf(),
        ensures
            r == if self.sense == -1 || self.sense == 0 {
                Some((-(self.expression.constant as int)) as i64)
            } else {
                None::<i64>
            },
    {
        if self.sense == -1 || self.sense == 0 {
            Some(-self.expression.constant)
        } else {
            None
        }
    }

    /// Replaces the right-hand side: the folded constant becomes `-rhs`.
    pub fn change_rhs(&mut self, rhs: i64)
        requires
            old(self).wf(),
            num_ok(rhs as int),
        ensures
            final(self).wf(),
            final(self).expression.constant as int == -(rhs as int),
            final(self).expression.terms@ == old(self).expression.terms@,
            final(self).expression.name == old(self).expression.name,
            final(self).sense == old(self).sense,
            final(self).pi == old(self).pi,
            final(self).slack == old(self).slack,
    {
        self.expression.constant = -rhs;
    }

    /// An exact copy.
    pub fn copy(&self) -> (r: LpConstraint)
        ensures
            r.expression.constant == self.expression.constant,
            r.expression.name == self.expression.name,
            r.expression.terms@ == self.expression.terms@,
            r.sense == self.sense,
            r.pi == self.pi,
            r.slack == self.slack,
    {
        self.clone()
    }

    /// A fresh constraint with the same sense and an empty expression.
    pub fn empty_copy(&self) -> (r: LpConstraint)
        ensures
            r.wf() <== sense_ok(self.sense as int),
            r.sense == self.sense,
            r.pi is None,
            r.slack is None,
            r.expression.constant == 0i64,
            r.expression.name is None,
            r.expression.terms@ == Seq::<LpTerm>::empty(),
    {
        LpConstraint {
            expression: LpAffineExpression { constant: 0, name: None, terms: Vec::new() },
            sense: self.sense,
            pi: None,
            slack: None,
        }
    }

    /// Whether a value satisfies this constraint's relation within `eps`:
    /// `|value| <= eps` for equality, `value * sense >= -eps` for the
    /// inequalities.
    pub open spec fn valid_for(&self, value: int, eps: int) -> bool {
        if self.sense == 0 {
            iabs(value) <= eps
        } else if self.sense == 1 {
            value >= -eps
        } else {
            -value >= -eps
        }
    }

    /// Whether the solved values satisfy this constraint within `eps`.
    /// `None` when some variable is unsolved or the value leaves the
    /// representable range.
    pub fn valid(&self, eps: i64) -> (r: Option<bool>)
        requires
            self.wf(),
        ensures
            r is Some <==> crate::expression::all_solved(self.expression.terms@) && num_ok(
                self.expression.value_spec(),
            ),
            r matches Some(b) ==> b == self.valid_for(self.expression.value_spec(), eps as int),
    {
        let v = match self.expression.value() {
            Some(v) => v,
            None => {
                return None;
            },
        };
        if self.sense == 0 {
            let a = if v < 0 {
                -(v as i128)
            } else {
                v as i128
            };
            Some(a <= eps as i128)
        } else if self.sense == 1 {
            Some((v as i128) >= -(eps as i128))
        } else {
            Some((-(v as i128)) >= -(eps as i128))
        }
    }

    /// The record form: sense, dual value, right-hand side
    /// (`-constant`, inverting the fold of construction), name, and the
    /// coefficient list in term order.
    pub fn to_dict(&self) -> (r: LpConstraintRecord)
        requires
            self.wf(),
        ensures
            r.sense == self.sense,
            r.pi == self.pi,
            r.constant as int == -(self.expression.constant as int),
            r.name == self.expression.name,
            r.coefficients@.len() == self.expression.terms@.len(),
            forall|i: int|
                0 <= i < self.expression.terms@.len() ==> (#[trigger] r.coefficients@[i]).name@
                    == (match self.expression.terms@[i].0.key() {
                    Some(s) => s,
                    None => Seq::<char>::empty(),
                }) && r.coefficients@[i].value == self.expression.terms@[i].1,
    {
        LpConstraintRecord {
            sense: self.sense,
            pi: self.pi,
            constant: -self.expression.constant,
            name: match &self.expression.name {
                Some(n) => Some(n.clone()),
                None => None,
            },
            coefficients: self.expression.to_dict(),
        }
    }

    /// Rebuilds a constraint from its record form.  Every coefficient
    /// becomes a term over a fresh free continuous unsolved variable of
    /// that name; the folded constant becomes `-record.constant`.
    pub fn from_dict(dict: &LpConstraintRecord) -> (r: LpConstraint)
        requires
            sense_ok(dict.sense as int),
            opt_num_ok(dict.pi),
            num_ok(dict.constant as int),
            dict.coefficients@.len() <= MAX_TERMS,
            forall|i: int|
                0 <= i < dict.coefficients@.len() ==> num_ok(
                    (#[trigger] dict.coefficients@[i]).value as int,
                ),
            forall|i: int, j: int|
                0 <= i < j < dict.coefficients@.len() ==> sanitize_spec(
                    (#[trigger] dict.coefficients@[i]).name@,
                ) != sanitize_spec((#[trigger] dict.coefficients@[j]).name@),
        ensures
            r.wf(),
            r.sense == dict.sense,
            r.pi == dict.pi,
            r.slack is None,
            r.expression.constant as int == -(dict.constant as int),
            match dict.name {
                Some(n) => r.expression.name matches Some(s) && s@ == sanitize_spec(n@),
                None => r.expression.name is None,
            },
            r.expression.terms@.len() == dict.coefficients@.len(),
            forall|i: int|
                0 <= i < dict.coefficients@.len() ==> term_key(#[trigger] r.expression.terms@[i])
                    == Some(sanitize_spec(dict.coefficients@[i].name@))
                    && r.expression.terms@[i].1 == dict.coefficients@[i].value
                    && r.expression.terms@[i].0.var_value is None
                    && r.expression.terms@[i].0.low_bound is None
                    && r.expression.terms@[i].0.up_bound is None
                    && r.expression.terms@[i].0.category == LpCategory::Continuous,
    {
        let mut expression = LpAffineExpression { constant: 0, name: None, terms: Vec::new() };
        let n = dict.coefficients.len();
        let mut i: usize = 0;
        while i < n
            invariant
                i <= n,
                expression.constant == 0i64,
                expression.name is None,
                expression.wf(),
                expression.terms@.len() == i,
                forall|j: int|
                    0 <= j < i ==> term_key(#[trigger] expression.terms@[j]) == Some(
                        sanitize_spec(dict.coefficients@[j].name@),
                    ) && expression.terms@[j].1 == dict.coefficients@[j].value
                        && expression.terms@[j].0.var_value is None
                        && expression.terms@[j].0.low_bound is None
                        && expression.terms@[j].0.up_bound is None
                        && expression.terms@[j].0.category == LpCategory::Continuous,
            decreases n - i,
        {
            let var = LpVariable::new(
                Some(dict.coefficients[i].name.clone()),
                None,
                None,
                LpCategory::Continuous,
            );
            proof {
                assert(!contains_key(expression.terms@, var.key()));
                lemma_coeff_sum_absent(expression.terms@, var.key());
            }
            expression.add_term(&var, dict.coefficients[i].value);
            i += 1;
        }
        expression.constant = -dict.constant;
        let name = match &dict.name {
            Some(n) => Some(n.clone()),
            None => None,
        };
        expression.set_name(name);
        LpConstraint { expression, sense: dict.sense, pi: dict.pi, slack: None }
    }
    /// Combines two constraints by addition.  When the senses do not
    /// oppose each other, the expressions add and the senses combine by
    /// [`sense_or`]; when they oppose, the right expression is subtracted
    /// and its sense negated before combining — the tightening tie-break.
    pub fn plus(&self, other: &LpConstraint) -> (r: LpConstraint)
        requires
            self.wf(),
            other.wf(),
            self.expression.terms@.len() + other.expression.terms@.len() <= MAX_TERMS,
            (self.sense as int) * (other.sense as int) >= 0 ==> num_ok(
                self.expression.constant + other.expression.constant,
            ) && forall|i: int|
                0 <= i < other.expression.terms@.len() ==> num_ok(
                    coeff_sum(
                        self.expression.terms@,
                        term_key(#[trigger] other.expression.terms@[i]),
                    ) + other.expression.terms@[i].1,
                ),
            (self.sense as int) * (other.sense as int) < 0 ==> num_ok(
                self.expression.constant - other.expression.constant,
            ) && forall|i: int|
                0 <= i < other.expression.terms@.len() ==> num_ok(
                    coeff_sum(
                        self.expression.terms@,
                        term_key(#[trigger] other.expression.terms@[i]),
                    ) - other.expression.terms@[i].1,
                ),
        ensures
            r.wf(),
            r.pi == self.pi,
            r.slack == self.slack,
            r.expression.name == self.expression.name,
            (self.sense as int) * (other.sense as int) >= 0 ==> is_sum_of(
                r.expression,
                self.expression,
                other.expression,
            ) && r.sense as int == sense_or(self.sense as int, other.sense as int),
            (self.sense as int) * (other.sense as int) < 0 ==> is_difference_of(
                r.expression,
                self.expression,
                other.expression,
            ) && r.sense as int == sense_or(self.sense as int, -(other.sense as int)),
            r.expression.terms@.len() >= self.expression.terms@.len(),
            forall|j: int|
                0 <= j < self.expression.terms@.len() ==> (#[trigger] r.expression.terms@[j]).0
                    == self.expression.terms@[j].0,
            forall|j: int|
                self.expression.terms@.len() <= j < r.expression.terms@.len()
                    ==> crate::expression::is_term_var(
                    (#[trigger] r.expression.terms@[j]).0,
                    other.expression.terms@,
                ),
    {
        let mut result = self.copy();
        proof {
            assert(-1 <= (self.sense as int) * (other.sense as int) <= 1) by (nonlinear_arith)
                requires
                    -1 <= self.sense as int <= 1,
                    -1 <= other.sense as int <= 1,
            ;
        }
        if self.sense * other.sense >= 0 {
            result.expression.add_in_place(&other.expression, 1);
            result.sense = sense_or_exec(self.sense, other.sense);
        } else {
            result.expression.sub_in_place(&other.expression);
            result.sense = sense_or_exec(self.sense, -other.sense);
        }
        result
    }

    /// Subtracts `other`'s expression and negates this constraint's own
    /// sense.
    pub fn minus(&self, other: &LpConstraint) -> (r: LpConstraint)
        requires
            self.wf(),
            other.wf(),
            self.expression.terms@.len() + other.expression.terms@.len() <= MAX_TERMS,
            num_ok(self.expression.constant - other.expression.constant),
            forall|i: int|
                0 <= i < other.expression.terms@.len() ==> num_ok(
                    coeff_sum(
                        self.expression.terms@,
                        term_key(#[trigger] other.expression.terms@[i]),
                    ) - other.expression.terms@[i].1,
                ),
        ensures
            r.wf(),
            r.pi == self.pi,
            r.slack == self.slack,
            r.expression.name == self.expression.name,
            is_difference_of(r.expression, self.expression, other.expression),
            r.sense as int == -(self.sense as int),
            r.expression.terms@.len() >= self.expression.terms@.len(),
            forall|j: int|
                0 <= j < self.expression.terms@.len() ==> (#[trigger] r.expression.terms@[j]).0
                    == self.expression.terms@[j].0,
            forall|j: int|
                self.expression.terms@.len() <= j < r.expression.terms@.len()
                    ==> crate::expression::is_term_var(
                    (#[trigger] r.expression.terms@[j]).0,
                    other.expression.terms@,
                ),
    {
        let mut result = self.copy();
        result.expression.sub_in_place(&other.expression);
        result.sense = -self.sense;
        result
    }

    /// Negates the expression and the sense.
    pub fn negated(&self) -> (r: LpConstraint)
        requires
            self.wf(),
        ensures
            r.wf(),
            r.pi == self.pi,
            r.slack == self.slack,
            r.sense as int == -(self.sense as int),
            r.expression.constant as int == -(self.expression.constant as int),
            r.expression.terms@.len() == self.expression.terms@.len(),
            forall|i: int|
                0 <= i < self.expression.terms@.len() ==> (#[trigger] r.expression.terms@[i]).0
                    == self.expression.terms@[i].0 && r.expression.terms@[i].1 as int == -(
                self.expression.terms@[i].1 as int),
            forall|k: Option<Seq<char>>|
                #[trigger] coeff_sum(r.expression.terms@, k) == -coeff_sum(
                    self.expression.terms@,
                    k,
                ),
    {
        let mut result = self.copy();
        result.expression = self.expression.negated();
        result.sense = -self.sense;
        result
    }

    /// Scales the expression by the fixed-point number `k`; the sense is
    /// kept.
    pub fn times(&self, k: i64) -> (r: LpConstraint)
        requires
            self.wf(),
            num_ok(crate::fixnum::fx_mul_spec(self.expression.constant as int, k as int)),
            forall|i: int|
                0 <= i < self.expression.terms@.len() ==> num_ok(
                    crate::fixnum::fx_mul_spec(
                        (#[trigger] self.expression.terms@[i]).1 as int,
                        k as int,
                    ),
                ),
        ensures
            r.wf(),
            r.pi == self.pi,
            r.slack == self.slack,
            r.sense == self.sense,
            r.expression.constant as int == crate::fixnum::fx_mul_spec(
                self.expression.constant as int,
                k as int,
            ),
            r.expression.terms@.len() == self.expression.terms@.len(),
            forall|i: int|
                0 <= i < self.expression.terms@.len() ==> (#[trigger] r.expression.terms@[i]).0
                    == self.expression.terms@[i].0 && r.expression.terms@[i].1 as int
                    == crate::fixnum::fx_mul_spec(self.expression.terms@[i].1 as int, k as int),
    {
        let mut result = self.copy();
        result.expression = self.expression.times(k);
        result
    }

    /// Divides the expression by the fixed-point number `k`; the sense is
    /// kept.
    pub fn divided_by(&self, k: i64) -> (r: LpConstraint)
        requires
            self.wf(),
            k != 0,
            num_ok(crate::fixnum::fx_div_spec(self.expression.constant as int, k as int)),
            forall|i: int|
                0 <= i < self.expression.terms@.len() ==> num_ok(
                    crate::fixnum::fx_div_spec(
                        (#[trigger] self.expression.terms@[i]).1 as int,
                        k as int,
                    ),
                ),
        ensures
            r.wf(),
            r.pi == self.pi,
            r.slack == self.slack,
            r.sense == self.sense,
            r.expression.constant as int == crate::fixnum::fx_div_spec(
                self.expression.constant as int,
                k as int,
            ),
            r.expression.terms@.len() == self.expression.terms@.len(),
            forall|i: int|
                0 <= i < self.expression.terms@.len() ==> (#[trigger] r.expression.terms@[i]).0
                    == self.expression.terms@[i].0 && r.expression.terms@[i].1 as int
                    == crate::fixnum::fx_div_spec(self.expression.terms@[i].1 as int, k as int),
    {
        let mut result = self.copy();
        result.expression = self.expression.divided_by(k);
        result
    }
}

/// Combines two legal senses as [`sense_or`] says.
pub fn sense_or_exec(a: i32, b: i32) -> (r: i32)
    requires
        sense_ok(a as int),
        sense_ok(b as int),
    ensures
        r as int == sense_or(a as int, b as int),
{
    if a == -1 || b == -1 {
        -1
    } else if a == 1 || b == 1 {
        1
    } else {
        0
    }
}

/// `d` is the record form of `c`, as [`LpConstraint::to_dict`] builds it.
pub open spec fn is_record_of(d: LpConstraintRecord, c: LpConstraint) -> bool {
    &&& d.sense == c.sense
    &&& d.pi == c.pi
    &&& d.constant as int == -(c.expression.constant as int)
    &&& d.name == c.expression.name
    &&& d.coefficients@.len() == c.expression.terms@.len()
    &&& forall|i: int|
        0 <= i < c.expression.terms@.len() ==> (#[trigger] d.coefficients@[i]).name@ == (
        match c.expression.terms@[i].0.key() {
            Some(s) => s,
            None => Seq::<char>::empty(),
        }) && d.coefficients@[i].value == c.expression.terms@[i].1
}

/// `r` was rebuilt from the record `d`, as [`LpConstraint::from_dict`]
/// does it.
pub open spec fn is_rebuilt_from(r: LpConstraint, d: LpConstraintRecord) -> bool {
    &&& r.sense == d.sense
    &&& r.pi == d.pi
    &&& r.expression.constant as int == -(d.constant as int)
    &&& r.expression.terms@.len() == d.coefficients@.len()
    &&& forall|i: int|
        0 <= i < d.coefficients@.len() ==> term_key(#[trigger] r.expression.terms@[i]) == Some(
            sanitize_spec(d.coefficients@[i].name@),
        ) && r.expression.terms@[i].1 == d.coefficients@[i].value
}

/// A constraint built up variable by variable.
#[derive(Debug)]
pub struct LpConstraintVar {
    pub constraint: LpConstraint,
}

impl LpConstraintVar {
    /// Makes an empty column constraint; a missing sense means equality.
    pub fn new(
        name: Option<String>,
        sense: Option<i32>,
        rhs: Option<i64>,
        e: Option<LpAffineExpression>,
    ) -> (r: LpConstraintVar)
        requires
            match sense {
                Some(s) => sense_ok(s as int),
                None => true,
            },
            match e {
                Some(x) => x.wf(),
                None => true,
            },
            num_ok(
                (match e {
                    Some(x) => x.constant as int,
                    None => 0,
                }) - (match rhs {
                    Some(v) => v as int,
                    None => 0,
                }),
            ),
        ensures
            r.constraint.wf(),
            r.constraint.sense == match sense {
                Some(s) => s,
                None => 0i32,
            },
            r.constraint.expression.constant as int == (match e {
                Some(x) => x.constant as int,
                None => 0,
            }) - (match rhs {
                Some(v) => v as int,
                None => 0,
            }),
            r.constraint.expression.terms@ == match e {
                Some(x) => x.terms@,
                None => Seq::<LpTerm>::empty(),
            },
    {
        let s = match sense {
            Some(s) => s,
            None => 0,
        };
        LpConstraintVar { constraint: LpConstraint::new(e, s, name, rhs) }
    }

    /// Accumulates `coeff` onto the column's coefficient for `var`.
    pub fn add_variable(&mut self, var: &LpVariable, coeff: i64)
        requires
            old(self).constraint.wf(),
            var.wf(),
            num_ok(coeff as int),
            num_ok(coeff_sum(old(self).constraint.expression.terms@, var.key()) + coeff),
            old(self).constraint.expression.terms@.len() < MAX_TERMS,
        ensures
            final(self).constraint.wf(),
            final(self).constraint.sense == old(self).constraint.sense,
            final(self).constraint.expression.constant == old(
                self,
            ).constraint.expression.constant,
            crate::expression::adds_coeff(
                final(self).constraint.expression.terms@,
                old(self).constraint.expression.terms@,
                var.key(),
                coeff as int,
            ),
    {
        self.constraint.expression.add_term(var, coeff);
    }

    /// The column expression's value over the solved variable values.
    pub fn value(&self) -> (r: Option<i64>)
        requires
            self.constraint.wf(),
        ensures
            r is Some <==> crate::expression::all_solved(self.constraint.expression.terms@)
                && num_ok(self.constraint.expression.value_spec()),
            r matches Some(v) ==> v as int == self.constraint.expression.value_spec(),
    {
        self.constraint.expression.value()
    }
}

/// The value a term list takes when each name is assigned the solved
/// value `m` gives it.
pub open spec fn eval_under(s: Seq<LpTerm>, m: Map<Option<Seq<char>>, int>) -> int
    decreases s.len(),
{
    if s.len() == 0 {
        0
    } else {
        eval_under(s.drop_last(), m) + crate::fixnum::fx_mul_spec(
            s.last().1 as int,
            m[term_key(s.last())],
        )
    }
}

/// Whether a constraint holds within `eps` when each variable name takes
/// the solved value `m` gives it.
pub open spec fn valid_under(c: LpConstraint, m: Map<Option<Seq<char>>, int>, eps: int) -> bool {
    c.valid_for(c.expression.constant + eval_under(c.expression.terms@, m), eps)
}

/// Term lists with the same keys and coefficients evaluate alike under
/// every assignment.
pub proof fn lemma_eval_under_pointwise(s: Seq<LpTerm>, t: Seq<LpTerm>, m: Map<Option<Seq<char>>, int>)
    requires
        s.len() == t.len(),
        forall|i: int|
            0 <= i < s.len() ==> term_key(#[trigger] t[i]) == term_key(s[i]) && t[i].1 == s[i].1,
    ensures
        eval_under(s, m) == eval_under(t, m),
    decreases s.len(),
{
    if s.len() > 0 {
        assert(forall|i: int|
            0 <= i < s.len() - 1 ==> #[trigger] t.drop_last()[i] == t[i] && s.drop_last()[i]
                == s[i]);
        lemma_eval_under_pointwise(s.drop_last(), t.drop_last(), m);
    }
}

/// An equality constraint holding one unit-coefficient variable with the
/// right-hand side folded in is valid within `eps` exactly when the
/// variable's solved value lies within `eps` of that right-hand side.
pub proof fn lemma_eq_constraint_window(c: LpConstraint, v: int, rhs: int, eps: int)
    requires
        c.sense == 0,
        c.expression.terms@.len() == 1,
        c.expression.terms@[0].1 == crate::fixnum::SCALE,
        c.expression.terms@[0].0.var_value matches Some(w) && w as int == v,
        c.expression.constant as int == -rhs,
    ensures
        c.valid_for(c.expression.value_spec(), eps) <==> iabs(v - rhs) <= eps,
{
    let ts = c.expression.terms@;
    assert(ts.drop_last() =~= Seq::<LpTerm>::empty());
    assert(crate::expression::eval_sum(Seq::<LpTerm>::empty()) == 0);
    assert(crate::expression::eval_sum(ts) == crate::fixnum::fx_mul_spec(
        crate::fixnum::SCALE as int,
        v,
    ));
    crate::fixnum::lemma_fx_mul_unit(v);
    assert(c.expression.value_spec() == v - rhs);
}

/// Round trip: a constraint rebuilt from its record form gives the same
/// validity verdict as the original, within any tolerance and under every
/// assignment of solved values to variable names.
pub proof fn lemma_round_trip_valid(
    c: LpConstraint,
    d: LpConstraintRecord,
    r: LpConstraint,
    m: Map<Option<Seq<char>>, int>,
    eps: int,
)
    requires
        c.wf(),
        forall|i: int|
            0 <= i < c.expression.terms@.len() ==> term_key(#[trigger] c.expression.terms@[i])
                is Some,
        is_record_of(d, c),
        is_rebuilt_from(r, d),
    ensures
        valid_under(r, m, eps) == valid_under(c, m, eps),
{
    assert(r.expression.constant == c.expression.constant);
    assert forall|i: int| 0 <= i < c.expression.terms@.len() implies term_key(
        #[trigger] r.expression.terms@[i],
    ) == term_key(c.expression.terms@[i]) && r.expression.terms@[i].1
        == c.expression.terms@[i].1 by {
        let ck = c.expression.terms@[i].0.key();
        match ck {
            Some(s) => {
                assert(sanitized(s));
                crate::element::lemma_sanitized_fixed(s);
                assert(d.coefficients@[i].name@ == s);
            },
            None => {
                assert(false);
            },
        }
    }
    lemma_eval_under_pointwise(c.expression.terms@, r.expression.terms@, m);
}

} // verus!
