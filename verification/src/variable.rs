//! Decision variables: an identifier plus bounds, a category, and the
//! solver-reported value.
//!
//! All numeric fields are fixed-point numbers (see [`crate::fixnum`]).  A
//! well-formed variable keeps its name sanitized and every numeric field
//! inside the representable range.

use vstd::prelude::*;
use crate::element::{sanitize_spec, sanitized, sanitize_name, opt_name_view};
use crate::error::LpError;
use crate::fixnum::{SCALE, num_ok, iabs, round_unit_spec, round_unit};
use crate::text::str_eq_str;

verus! {

/// The kind of a decision variable.  `Binary` is construction sugar: a
/// variable constructed as `Binary` is stored as an `Integer` variable with
/// bounds `[0, 1]`.
#[derive(Clone, Copy, Debug, Hash, PartialEq, Eq, Structural)]
pub enum LpCategory {
    Continuous,
    Integer,
    Binary,
}

impl LpCategory {
    /// Reads a category from its text name.
    pub fn from_str(s: &str) -> (r: Result<LpCategory, LpError>)
        ensures
            r == if s@ == "Continuous"@ {
                Ok::<LpCategory, LpError>(LpCategory::Continuous)
            } else if s@ == "Integer"@ {
                Ok::<LpCategory, LpError>(LpCategory::Integer)
            } else if s@ == "Binary"@ {
                Ok::<LpCategory, LpError>(LpCategory::Binary)
            } else {
                Err::<LpCategory, LpError>(LpError::InvalidCategory)
            },
    {
        if str_eq_str(s, "Continuous") {
            Ok(LpCategory::Continuous)
        } else if str_eq_str(s, "Integer") {
            Ok(LpCategory::Integer)
        } else if str_eq_str(s, "Binary") {
            Ok(LpCategory::Binary)
        } else {
            Err(LpError::InvalidCategory)
        }
    }

    /// The category's text name.
    pub fn as_text(&self) -> (r: &'static str)
        ensures
            r@ == match *self {
                LpCategory::Continuous => "Continuous"@,
                LpCategory::Integer => "Integer"@,
                LpCategory::Binary => "Binary"@,
            },
    {
        match self {
            LpCategory::Continuous => "Continuous",
            LpCategory::Integer => "Integer",
            LpCategory::Binary => "Binary",
        }
    }
}

/// An optional number inside the representable range.
pub open spec fn opt_num_ok(x: Option<i64>) -> bool {
    match x {
        Some(v) => num_ok(v as int),
        None => true,
    }
}

/// A decision variable.  `low_bound_original` and `up_bound_original`
/// remember the bounds set at construction — for a `Binary` variable the
/// normalized `[0, 1]`, not the raw arguments — so that
/// [`LpVariable::unfix_value`] can restore them exactly; they are written
/// only by the constructor.
#[derive(Debug)]
pub struct LpVariable {
    pub name: Option<String>,
    pub low_bound: Option<i64>,
    pub up_bound: Option<i64>,
    pub category: LpCategory,
    pub var_value: Option<i64>,
    pub dj: Option<i64>,
    pub low_bound_original: Option<i64>,
    pub up_bound_original: Option<i64>,
}

/// The record form of a variable: the fields that the persisted round-trip
/// form carries.
#[derive(Debug)]
pub struct LpVariableRecord {
    pub name: Option<String>,
    pub low_bound: Option<i64>,
    pub up_bound: Option<i64>,
    pub cat: LpCategory,
    pub var_value: Option<i64>,
    pub dj: Option<i64>,
}

impl Clone for LpVariable {
    fn clone(&self) -> (r: Self)
        ensures
            r == *self,
    {
        LpVariable {
            name: match &self.name {
                Some(n) => Some(n.clone()),
                None => None,
            },
            low_bound: self.low_bound,
            up_bound: self.up_bound,
            category: self.category,
            var_value: self.var_value,
            dj: self.dj,
            low_bound_original: self.low_bound_original,
            up_bound_original: self.up_bound_original,
        }
    }
}

impl LpVariable {
    /// The variable's name as a mathematical value: variables with equal
    /// keys stand for the same decision variable.
    pub open spec fn key(&self) -> Option<Seq<char>> {
        opt_name_view(self.name)
    }

    /// Name sanitized, every numeric field in range.
    pub open spec fn wf(&self) -> bool {
        &&& match self.key() {
            Some(s) => sanitized(s),
            None => true,
        }
        &&& opt_num_ok(self.low_bound)
        &&& opt_num_ok(self.up_bound)
        &&& opt_num_ok(self.var_value)
        &&& opt_num_ok(self.dj)
        &&& opt_num_ok(self.low_bound_original)
        &&& opt_num_ok(self.up_bound_original)
    }

    /// Makes a variable.  The name is sanitized; a `Binary` variable is
    /// stored as `Integer` with bounds `[0, 1]`; the bounds so set are
    /// remembered for [`LpVariable::unfix_value`].
    pub fn new(
        name: Option<String>,
        low_bound: Option<i64>,
        up_bound: Option<i64>,
        category: LpCategory,
    ) -> (r: LpVariable)
        requires
            opt_num_ok(low_bound),
            opt_num_ok(up_bound),
        ensures
            r.wf(),
            r.key() == match name {
                Some(n) => Some(sanitize_spec(n@)),
                None => None::<Seq<char>>,
            },
            r.category == if category == LpCategory::Binary {
                LpCategory::Integer
            } else {
                category
            },
            r.low_bound == if category == LpCategory::Binary {
                Some(0i64)
            } else {
                low_bound
            },
            r.up_bound == if category == LpCategory::Binary {
                Some(SCALE)
            } else {
                up_bound
            },
            r.var_value == None::<i64>,
            r.dj == None::<i64>,
            r.low_bound_original == r.low_bound,
            r.up_bound_original == r.up_bound,
    {
        let sane = match name {
            Some(n) => Some(sanitize_name(n.as_str())),
            None => None,
        };
        proof {
            match &sane {
                Some(s) => crate::element::lemma_sanitize_idempotent(s@),
                None => (),
            }
        }
        let mut var = LpVariable {
            name: sane,
            low_bound,
            up_bound,
            category,
            var_value: None,
            dj: None,
            low_bound_original: low_bound,
            up_bound_original: up_bound,
        };
        if var.category == LpCategory::Binary {
            var.low_bound = Some(0);
            var.up_bound = Some(SCALE);
            var.category = LpCategory::Integer;
        }
        var.low_bound_original = var.low_bound;
        var.up_bound_original = var.up_bound;
        var
    }

    /// The record form of this variable.
    pub fn to_dict(&self) -> (r: LpVariableRecord)
        ensures
            opt_name_view(r.name) == self.key(),
            r.low_bound == self.low_bound,
            r.up_bound == self.up_bound,
            r.cat == self.category,
            r.var_value == self.var_value,
            r.dj == self.dj,
    {
        LpVariableRecord {
            name: match &self.name {
                Some(n) => Some(n.clone()),
                None => None,
            },
            low_bound: self.low_bound,
            up_bound: self.up_bound,
            cat: self.category,
            var_value: self.var_value,
            dj: self.dj,
        }
    }

    /// Rebuilds a variable from its record form.  The bounds pass through
    /// the constructor (so `Binary` is normalized again) and the solved
    /// value and reduced cost are restored.
    pub fn from_dict(dict: LpVariableRecord) -> (r: LpVariable)
        requires
            opt_num_ok(dict.low_bound),
            opt_num_ok(dict.up_bound),
            opt_num_ok(dict.var_value),
            opt_num_ok(dict.dj),
        ensures
            r.wf(),
            r.key() == match dict.name {
                Some(n) => Some(sanitize_spec(n@)),
                None => None::<Seq<char>>,
            },
            r.category == if dict.cat == LpCategory::Binary {
                LpCategory::Integer
            } else {
                dict.cat
            },
            r.low_bound == if dict.cat == LpCategory::Binary {
                Some(0i64)
            } else {
                dict.low_bound
            },
            r.up_bound == if dict.cat == LpCategory::Binary {
                Some(SCALE)
            } else {
                dict.up_bound
            },
            r.var_value == dict.var_value,
            r.dj == dict.dj,
    {
        let mut var = Self::new(dict.name, dict.low_bound, dict.up_bound, dict.cat);
        var.dj = dict.dj;
        var.var_value = dict.var_value;
        var
    }

    /// The current lower bound.
    pub fn get_lb(&self) -> (r: Option<i64>)
        ensures
            r == self.low_bound,
    {
        self.low_bound
    }

    /// The current upper bound.
    pub fn get_ub(&self) -> (r: Option<i64>)
        ensures
            r == self.up_bound,
    {
        self.up_bound
    }

    /// Overwrites both bounds.
    pub fn bounds(&mut self, low: Option<i64>, up: Option<i64>)
        requires
            opt_num_ok(low),
            opt_num_ok(up),
        ensures
            *final(self) == (LpVariable { low_bound: low, up_bound: up, ..*old(self) }),
            old(self).wf() ==> final(self).wf(),
    {
        self.low_bound = low;
        self.up_bound = up;
    }

    /// Constrains the variable to be nonnegative and unbounded above.
    pub fn positive(&mut self)
        ensures
            *final(self) == (LpVariable {
                low_bound: Some(0i64),
                up_bound: None::<i64>,
                ..*old(self)
            }),
            old(self).wf() ==> final(self).wf(),
    {
        self.bounds(Some(0), None);
    }

    /// The solver-reported value, if any.
    pub fn value(&self) -> (r: Option<i64>)
        ensures
            r == self.var_value,
    {
        self.var_value
    }

    /// The value a total evaluation uses: the solved value if present, else
    /// the point of `[low, up]` nearest to zero, else zero.
    pub open spec fn value_or_default_spec(&self) -> int {
        match self.var_value {
            Some(v) => v as int,
            None => match (self.low_bound, self.up_bound) {
                (Some(lb), Some(ub)) => if 0 >= lb && 0 <= ub {
                    0
                } else if lb >= 0 {
                    lb as int
                } else {
                    ub as int
                },
                (Some(lb), None) => if 0 >= lb {
                    0
                } else {
                    lb as int
                },
                (None, Some(ub)) => if 0 <= ub {
                    0
                } else {
                    ub as int
                },
                (None, None) => 0,
            },
        }
    }

    /// Total variant of [`LpVariable::value`]: the solved value, else the feasible
    /// point nearest zero, else zero.
    pub fn value_or_default(&self) -> (r: i64)
        ensures
            r as int == self.value_or_default_spec(),
    {
        if let Some(v) = self.var_value {
            v
        } else if let Some(lb) = self.low_bound {
            if let Some(ub) = self.up_bound {
                if 0 >= lb && 0 <= ub {
                    0
                } else if lb >= 0 {
                    lb
                } else {
                    ub
                }
            } else if 0 >= lb {
                0
            } else {
                lb
            }
        } else if let Some(ub) = self.up_bound {
            if 0 <= ub {
                0
            } else {
                ub
            }
        } else {
            0
        }
    }
    /// What the solved value becomes under [`LpVariable::round`]: snapped onto the
    /// nearest integer when the variable is `Integer` and the deviation is
    /// within `eps_int`; else onto a violated bound within `eps`; else kept.
    pub open spec fn round_value_spec(&self, eps_int: int, eps: int) -> Option<int> {
        match self.var_value {
            None => None,
            Some(v0) => {
                let v = v0 as int;
                if self.category == LpCategory::Integer && iabs(round_unit_spec(v) - v)
                    <= eps_int {
                    Some(round_unit_spec(v))
                } else if (match self.low_bound {
                    Some(lb) => v < lb && v >= lb - eps,
                    None => false,
                }) {
                    Some(self.low_bound.unwrap() as int)
                } else if (match self.up_bound {
                    Some(ub) => v > ub && v <= ub + eps,
                    None => false,
                }) {
                    Some(self.up_bound.unwrap() as int)
                } else {
                    Some(v)
                }
            },
        }
    }

    /// Snaps the solved value onto a violated-but-near bound (within `eps`)
    /// and, for an `Integer` variable, onto the nearest integer (within
    /// `eps_int`).  Does nothing when the variable is unsolved.
    pub fn round(&mut self, eps_int: i64, eps: i64)
        requires
            old(self).wf(),
        ensures
            final(self).wf(),
            *final(self) == (LpVariable { var_value: final(self).var_value, ..*old(self) }),
            opt_i64_is(final(self).var_value, old(self).round_value_spec(eps_int as int, eps as int)),
    {
        if let Some(value) = self.var_value {
            if let Some(ub) = self.up_bound {
                if value > ub && (value as i128) <= (ub as i128) + (eps as i128) {
                    self.var_value = Some(ub);
                }
            }
            if let Some(lb) = self.low_bound {
                if value < lb && (value as i128) >= (lb as i128) - (eps as i128) {
                    self.var_value = Some(lb);
                }
            }
            if self.category == LpCategory::Integer {
                let rv = round_unit(value);
                let diff = (rv as i128) - (value as i128);
                let ad = if diff < 0 {
                    -diff
                } else {
                    diff
                };
                if ad <= (eps_int as i128) {
                    self.var_value = Some(rv);
                }
            }
        }
    }

    /// The solved value with the integer snap of [`LpVariable::round`] applied,
    /// or zero when unsolved.
    pub open spec fn rounded_value_spec(&self, eps: int) -> int {
        match self.var_value {
            None => 0,
            Some(v0) => {
                let v = v0 as int;
                if self.category == LpCategory::Integer && iabs(v - round_unit_spec(v)) <= eps {
                    round_unit_spec(v)
                } else {
                    v
                }
            },
        }
    }

    /// The solved value, snapped onto the nearest integer for an `Integer`
    /// variable when within `eps`; zero when unsolved.
    pub fn rounded_value(&self, eps: i64) -> (r: i64)
        requires
            self.wf(),
        ensures
            r as int == self.rounded_value_spec(eps as int),
    {
        match self.var_value {
            None => 0,
            Some(v) => {
                if self.category == LpCategory::Integer {
                    let rv = round_unit(v);
                    let diff = (v as i128) - (rv as i128);
                    let ad = if diff < 0 {
                        -diff
                    } else {
                        diff
                    };
                    if ad <= (eps as i128) {
                        return rv;
                    }
                }
                v
            },
        }
    }

    /// Validity of the solved value: inside both bounds beyond `eps` and,
    /// for an `Integer` variable, within `eps` of an integer.  The unsolved
    /// dummy variable `__dummy` counts as valid; any other unsolved
    /// variable does not.
    pub open spec fn is_valid_spec(&self, eps: int) -> bool {
        if self.key() == Some("__dummy"@) && self.var_value is None {
            true
        } else {
            match self.var_value {
                None => false,
                Some(v0) => {
                    let v = v0 as int;
                    &&& match self.up_bound {
                        Some(ub) => v <= ub + eps,
                        None => true,
                    }
                    &&& match self.low_bound {
                        Some(lb) => v >= lb - eps,
                        None => true,
                    }
                    &&& (self.category == LpCategory::Integer ==> iabs(
                        round_unit_spec(v) - v,
                    ) <= eps)
                },
            }
        }
    }

    /// Whether the solved value is valid within `eps` (see
    /// [`LpVariable::is_valid_spec`]).
    pub fn is_valid(&self, eps: i64) -> (r: bool)
        requires
            self.wf(),
        ensures
            r == self.is_valid_spec(eps as int),
    {
        if self.var_value.is_none() {
            let dummy = match &self.name {
                Some(n) => str_eq_str(n.as_str(), "__dummy"),
                None => false,
            };
            return dummy;
        }
        let v = self.var_value.unwrap();
        if let Some(ub) = self.up_bound {
            if (v as i128) > (ub as i128) + (eps as i128) {
                return false;
            }
        }
        if let Some(lb) = self.low_bound {
            if (v as i128) < (lb as i128) - (eps as i128) {
                return false;
            }
        }
        if self.category == LpCategory::Integer {
            let rv = round_unit(v);
            let diff = (rv as i128) - (v as i128);
            let ad = if diff < 0 {
                -diff
            } else {
                diff
            };
            if ad > (eps as i128) {
                return false;
            }
        }
        true
    }

    /// The signed infeasibility of the solved value: the distance outside a
    /// violated bound; else, when `mip` and the variable is `Integer`, the
    /// distance to the nearest integer; else zero.  `None` when unsolved.
    pub open spec fn infeasibility_gap_spec(&self, mip: bool) -> Option<int> {
        match self.var_value {
            None => None,
            Some(v0) => {
                let v = v0 as int;
                if (match self.up_bound {
                    Some(ub) => v > ub,
                    None => false,
                }) {
                    Some(v - self.up_bound.unwrap())
                } else if (match self.low_bound {
                    Some(lb) => v < lb,
                    None => false,
                }) {
                    Some(v - self.low_bound.unwrap())
                } else if mip && self.category == LpCategory::Integer && round_unit_spec(v)
                    != v {
                    Some(round_unit_spec(v) - v)
                } else {
                    Some(0)
                }
            },
        }
    }

    /// The signed distance outside the nearer violated bound, or — only for
    /// a `mip` run on an `Integer` variable — to the nearest integer.
    /// Fails with [`LpError::NoValue`] when the variable is unsolved.
    pub fn infeasibility_gap(&self, mip: bool) -> (r: Result<i64, LpError>)
        requires
            self.wf(),
        ensures
            match r {
                Ok(g) => self.infeasibility_gap_spec(mip) == Some(g as int),
                Err(e) => e == LpError::NoValue && self.infeasibility_gap_spec(mip)
                    == None::<int>,
            },
    {
        let v = match self.var_value {
            Some(v) => v,
            None => {
                return Err(LpError::NoValue);
            },
        };
        if let Some(ub) = self.up_bound {
            if v > ub {
                return Ok(v - ub);
            }
        }
        if let Some(lb) = self.low_bound {
            if v < lb {
                return Ok(v - lb);
            }
        }
        if mip && self.category == LpCategory::Integer {
            let rv = round_unit(v);
            if rv != v {
                return Ok(rv - v);
            }
        }
        Ok(0)
    }

    /// An `Integer` variable bounded by `[0, 1]`.
    pub fn is_binary(&self) -> (r: bool)
        ensures
            r == (self.category == LpCategory::Integer && self.low_bound == Some(0i64)
                && self.up_bound == Some(SCALE)),
    {
        self.category == LpCategory::Integer && self.low_bound == Some(0)
            && self.up_bound == Some(SCALE)
    }

    /// An `Integer` variable.
    pub fn is_integer(&self) -> (r: bool)
        ensures
            r == (self.category == LpCategory::Integer),
    {
        self.category == LpCategory::Integer
    }

    /// Unbounded on both sides.
    pub fn is_free(&self) -> (r: bool)
        ensures
            r == (self.low_bound is None && self.up_bound is None),
    {
        self.low_bound.is_none() && self.up_bound.is_none()
    }

    /// Pinned to one point: both bounds present and equal.
    pub fn is_constant(&self) -> (r: bool)
        ensures
            r == (self.low_bound is Some && self.up_bound == self.low_bound),
    {
        self.low_bound.is_some() && match (self.up_bound, self.low_bound) {
            (Some(u), Some(l)) => u == l,
            (None, None) => true,
            _ => false,
        }
    }

    /// Nonnegative and unbounded above.
    pub fn is_positive(&self) -> (r: bool)
        ensures
            r == (self.low_bound == Some(0i64) && self.up_bound is None),
    {
        self.low_bound == Some(0) && self.up_bound.is_none()
    }

    /// Same as [`LpVariable::is_constant`]: the bounds pin one point.
    pub fn is_fixed(&self) -> (r: bool)
        ensures
            r == (self.low_bound is Some && self.up_bound == self.low_bound),
    {
        self.is_constant()
    }

    /// Sets the solved value by hand.  A value outside the bounds is
    /// rejected: quietly (`Ok(false)`) when `check` is false, as a
    /// [`LpError::BoundViolation`] when `check` is true.
    pub fn set_initial_value(&mut self, val: i64, check: bool) -> (r: Result<bool, LpError>)
        requires
            old(self).wf(),
            num_ok(val as int),
        ensures
            final(self).wf(),
            ({
                let below = match old(self).low_bound {
                    Some(lb) => val < lb,
                    None => false,
                };
                let above = match old(self).up_bound {
                    Some(ub) => val > ub,
                    None => false,
                };
                if below || above {
                    &&& *final(self) == *old(self)
                    &&& r == if check {
                        Err::<bool, LpError>(LpError::BoundViolation)
                    } else {
                        Ok::<bool, LpError>(false)
                    }
                } else {
                    &&& *final(self) == (LpVariable { var_value: Some(val), ..*old(self) })
                    &&& r == Ok::<bool, LpError>(true)
                }
            }),
    {
        if let Some(lb) = self.low_bound {
            if val < lb {
                if !check {
                    return Ok(false);
                }
                return Err(LpError::BoundViolation);
            }
        }
        if let Some(ub) = self.up_bound {
            if val > ub {
                if !check {
                    return Ok(false);
                }
                return Err(LpError::BoundViolation);
            }
        }
        self.var_value = Some(val);
        Ok(true)
    }

    /// Pins both bounds to the solved value; does nothing when unsolved.
    pub fn fix_value(&mut self)
        ensures
            old(self).wf() ==> final(self).wf(),
            *final(self) == match old(self).var_value {
                Some(v) => LpVariable {
                    low_bound: Some(v),
                    up_bound: Some(v),
                    ..*old(self)
                },
                None => *old(self),
            },
    {
        if let Some(v) = self.var_value {
            self.low_bound = Some(v);
            self.up_bound = Some(v);
        }
    }

    /// Restores the bounds recorded at construction — not whatever bounds
    /// were active before a fix.
    pub fn unfix_value(&mut self)
        ensures
            old(self).wf() ==> final(self).wf(),
            *final(self) == (LpVariable {
                low_bound: old(self).low_bound_original,
                up_bound: old(self).up_bound_original,
                ..*old(self)
            }),
    {
        self.low_bound = self.low_bound_original;
        self.up_bound = self.up_bound_original;
    }
}

/// An optional machine number standing for an optional mathematical one.
pub open spec fn opt_i64_is(a: Option<i64>, b: Option<int>) -> bool {
    match (a, b) {
        (None, None) => true,
        (Some(x), Some(y)) => x as int == y,
        _ => false,
    }
}

} // verus!
