//! Affine expressions: a constant plus a coefficient for each variable.
//!
//! The terms are kept as a vector of `(variable, coefficient)` pairs whose
//! keys (variable names) are unique and whose order is the insertion order,
//! so serialization is deterministic.  [`LpAffineExpression::add_term`]
//! always accumulates: adding a term for a variable that is already present
//! adds into its coefficient and never duplicates the entry.

use vstd::prelude::*;
use crate::element::{sanitize_spec, sanitized, sanitize_name};
use crate::error::LpError;
use crate::fixnum::{num_ok, NUM_LIMIT, iabs};
use crate::variable::LpVariable;
use crate::text::str_eq_str;

verus! {

/// One term: a variable and its coefficient.
pub type LpTerm = (LpVariable, i64);

/// The most terms an expression may hold.
pub const MAX_TERMS: usize = 10_000_000;

/// The key of a term: its variable's name.
pub open spec fn term_key(t: LpTerm) -> Option<Seq<char>> {
    t.0.key()
}

/// The keys of a term list, in order.
pub open spec fn term_keys(s: Seq<LpTerm>) -> Seq<Option<Seq<char>>> {
    s.map(|i: int, t: LpTerm| term_key(t))
}

/// Whether some term of `s` has key `k`.
pub open spec fn contains_key(s: Seq<LpTerm>, k: Option<Seq<char>>) -> bool {
    exists|i: int| 0 <= i < s.len() && term_key(#[trigger] s[i]) == k
}

/// The total coefficient that the terms of `s` give the key `k`.
pub open spec fn coeff_sum(s: Seq<LpTerm>, k: Option<Seq<char>>) -> int
    decreases s.len(),
{
    if s.len() == 0 {
        0
    } else {
        coeff_sum(s.drop_last(), k) + if term_key(s.last()) == k {
            s.last().1 as int
        } else {
            0
        }
    }
}

/// No two terms share a key.
pub open spec fn unique_keys(s: Seq<LpTerm>) -> bool {
    forall|i: int, j: int|
        0 <= i < j < s.len() ==> term_key(#[trigger] s[i]) != term_key(#[trigger] s[j])
}

/// A well-formed term list: not too long, keys unique, every variable
/// well-formed, every coefficient in range.
pub open spec fn terms_wf(s: Seq<LpTerm>) -> bool {
    &&& s.len() <= MAX_TERMS
    &&& unique_keys(s)
    &&& forall|i: int|
        0 <= i < s.len() ==> (#[trigger] s[i]).0.wf() && num_ok(s[i].1 as int)
}

/// A key absent from a list contributes nothing.
pub proof fn lemma_coeff_sum_absent(s: Seq<LpTerm>, k: Option<Seq<char>>)
    requires
        !contains_key(s, k),
    ensures
        coeff_sum(s, k) == 0,
    decreases s.len(),
{
    if s.len() > 0 {
        assert(term_key(s[s.len() - 1]) != k);
        assert(!contains_key(s.drop_last(), k)) by {
            if contains_key(s.drop_last(), k) {
                let i = choose|i: int|
                    0 <= i < s.drop_last().len() && term_key(#[trigger] s.drop_last()[i]) == k;
                assert(term_key(s[i]) == k);
            }
        }
        lemma_coeff_sum_absent(s.drop_last(), k);
    }
}

/// With unique keys, the total coefficient of a present key is the stored
/// coefficient of its one term.
pub proof fn lemma_coeff_sum_at(s: Seq<LpTerm>, i: int)
    requires
        unique_keys(s),
        0 <= i < s.len(),
    ensures
        coeff_sum(s, term_key(s[i])) == s[i].1 as int,
    decreases s.len(),
{
    let k = term_key(s[i]);
    if i == s.len() - 1 {
        assert(!contains_key(s.drop_last(), k)) by {
            if contains_key(s.drop_last(), k) {
                let j = choose|j: int|
                    0 <= j < s.drop_last().len() && term_key(#[trigger] s.drop_last()[j]) == k;
                assert(term_key(s[j]) == k);
            }
        }
        lemma_coeff_sum_absent(s.drop_last(), k);
    } else {
        lemma_coeff_sum_at(s.drop_last(), i);
        assert(term_key(s.last()) != k);
    }
}

/// Appending a term adds its coefficient at its key.
pub proof fn lemma_coeff_sum_push(s: Seq<LpTerm>, t: LpTerm, k: Option<Seq<char>>)
    ensures
        coeff_sum(s.push(t), k) == coeff_sum(s, k) + if term_key(t) == k {
            t.1 as int
        } else {
            0
        },
{
    assert(s.push(t).drop_last() =~= s);
    assert(s.push(t).last() == t);
}

/// Replacing the term at one index moves the total at each key by the
/// difference of the contributions of the old and new term there.
pub proof fn lemma_coeff_sum_update(s: Seq<LpTerm>, i: int, t: LpTerm, k: Option<Seq<char>>)
    requires
        0 <= i < s.len(),
    ensures
        coeff_sum(s.update(i, t), k) == coeff_sum(s, k) - (if term_key(s[i]) == k {
            s[i].1 as int
        } else {
            0
        }) + (if term_key(t) == k {
            t.1 as int
        } else {
            0
        }),
    decreases s.len(),
{
    if i == s.len() - 1 {
        assert(s.update(i, t).drop_last() =~= s.drop_last());
        assert(s.update(i, t).last() == t);
    } else {
        assert(s.update(i, t).drop_last() =~= s.drop_last().update(i, t));
        assert(s.update(i, t).last() == s.last());
        lemma_coeff_sum_update(s.drop_last(), i, t, k);
    }
}

/// Whether `v` is the variable of some term of `s`.
pub open spec fn is_term_var(v: LpVariable, s: Seq<LpTerm>) -> bool {
    exists|t: int| 0 <= t < s.len() && v == (#[trigger] s[t]).0
}

/// `post` is `pre` with `v` added onto the coefficient of key `k`: every
/// key's total moves by `v` at `k` and by nothing elsewhere.
pub open spec fn adds_coeff(
    post: Seq<LpTerm>,
    pre: Seq<LpTerm>,
    k: Option<Seq<char>>,
    v: int,
) -> bool {
    forall|k2: Option<Seq<char>>|
        #[trigger] coeff_sum(post, k2) == coeff_sum(pre, k2) + if k2 == k {
            v
        } else {
            0
        }
}

/// An affine expression: a constant plus one coefficient per variable.
#[derive(Debug)]
pub struct LpAffineExpression {
    pub constant: i64,
    pub name: Option<String>,
    pub terms: Vec<LpTerm>,
}

impl Clone for LpAffineExpression {
    fn clone(&self) -> (r: Self)
        ensures
            r.constant == self.constant,
            r.name == self.name,
            r.terms@ == self.terms@,
    {
        let mut ts: Vec<LpTerm> = Vec::new();
        let n = self.terms.len();
        let mut i: usize = 0;
        while i < n
            invariant
                i <= n,
                n == self.terms@.len(),
                ts@ == self.terms@.subrange(0, i as int),
            decreases n - i,
        {
            let (v, c) = (&self.terms[i].0, self.terms[i].1);
            ts.push((v.clone(), c));
            proof {
                assert(ts@ =~= self.terms@.subrange(0, i as int + 1));
            }
            i += 1;
        }
        proof {
            assert(self.terms@.subrange(0, n as int) =~= self.terms@);
        }
        LpAffineExpression {
            constant: self.constant,
            name: match &self.name {
                Some(s) => Some(s.clone()),
                None => None,
            },
            terms: ts,
        }
    }
}

impl LpAffineExpression {
    /// Constant in range, name sanitized, term list well-formed.
    pub open spec fn wf(&self) -> bool {
        &&& num_ok(self.constant as int)
        &&& match self.name {
            Some(n) => sanitized(n@),
            None => true,
        }
        &&& terms_wf(self.terms@)
    }

    /// The total coefficient this expression gives the key `k`.
    pub open spec fn coeff_of(&self, k: Option<Seq<char>>) -> int {
        coeff_sum(self.terms@, k)
    }

    /// Makes an expression: a copy of `e` when one is given (keeping its
    /// constant and terms), else a bare constant.  The name is sanitized
    /// and stored either way.
    pub fn new(e: Option<&LpAffineExpression>, constant: i64, name: Option<String>) -> (r:
        LpAffineExpression)
        requires
            num_ok(constant as int),
            match e {
                Some(x) => x.wf(),
                None => true,
            },
        ensures
            r.wf() <== match e {
                Some(x) => x.wf(),
                None => true,
            },
            r.constant == match e {
                Some(x) => x.constant,
                None => constant,
            },
            r.terms@ == match e {
                Some(x) => x.terms@,
                None => Seq::<LpTerm>::empty(),
            },
            match name {
                Some(n) => r.name matches Some(s) && s@ == sanitize_spec(n@),
                None => r.name is None,
            },
    {
        let sane = match name {
            Some(n) => Some(sanitize_name(n.as_str())),
            None => None,
        };
        proof {
            match &sane {
                Some(s) => crate::element::lemma_sanitize_idempotent(s@),
                None => (),
            }
        }
        match e {
            Some(x) => {
                let mut r = x.clone();
                r.name = sane;
                r
            },
            None => LpAffineExpression { constant, name: sane, terms: Vec::new() },
        }
    }

    /// An expression holding the one variable with coefficient one.
    pub fn from_variable(v: &LpVariable) -> (r: LpAffineExpression)
        requires
            v.wf(),
        ensures
            r.wf(),
            r.constant == 0i64,
            r.name is None,
            r.terms@.len() == 1,
            r.terms@[0].0 == *v,
            r.terms@[0].1 == crate::fixnum::SCALE,
    {
        let mut terms: Vec<LpTerm> = Vec::new();
        terms.push((v.clone(), crate::fixnum::SCALE));
        LpAffineExpression { constant: 0, name: None, terms }
    }

    /// Replaces the name, sanitizing it.
    pub fn set_name(&mut self, name: Option<String>)
        ensures
            final(self).constant == old(self).constant,
            final(self).terms@ == old(self).terms@,
            match name {
                Some(n) => final(self).name matches Some(s) && s@ == sanitize_spec(n@),
                None => final(self).name is None,
            },
            old(self).wf() ==> final(self).wf(),
    {
        let sane = match name {
            Some(n) => Some(sanitize_name(n.as_str())),
            None => None,
        };
        proof {
            match &sane {
                Some(s) => crate::element::lemma_sanitize_idempotent(s@),
                None => (),
            }
        }
        self.name = sane;
    }

    /// The stored (sanitized) name.
    pub fn get_name(&self) -> (r: &Option<String>)
        ensures
            *r == self.name,
    {
        &self.name
    }

    /// Exactly one term, with coefficient one and no constant.
    pub fn is_atomic(&self) -> (r: bool)
        ensures
            r == (self.terms@.len() == 1 && self.constant == 0i64 && self.terms@[0].1
                == crate::fixnum::SCALE),
    {
        self.terms.len() == 1 && self.constant == 0 && self.terms[0].1 == crate::fixnum::SCALE
    }

    /// No terms at all: the expression is a bare number.
    pub fn is_numerical_constant(&self) -> (r: bool)
        ensures
            r == (self.terms@.len() == 0),
    {
        self.terms.len() == 0
    }

    /// The first variable of the expression, if any.
    pub fn atom(&self) -> (r: Option<&LpVariable>)
        ensures
            match r {
                Some(v) => self.terms@.len() > 0 && *v == self.terms@[0].0,
                None => self.terms@.len() == 0,
            },
    {
        if self.terms.len() > 0 {
            Some(&self.terms[0].0)
        } else {
            None
        }
    }

    /// An expression with no terms, no constant and no name.
    pub fn empty_copy(&self) -> (r: LpAffineExpression)
        ensures
            r.wf(),
            r.constant == 0i64,
            r.name is None,
            r.terms@.len() == 0,
    {
        LpAffineExpression { constant: 0, name: None, terms: Vec::new() }
    }

    /// Accumulates `value` onto the coefficient of `key`'s variable:
    /// the entry is updated in place when present, appended when not, and
    /// never duplicated.
    pub fn add_term(&mut self, key: &LpVariable, value: i64)
        requires
            old(self).wf(),
            key.wf(),
            num_ok(value as int),
            num_ok(coeff_sum(old(self).terms@, key.key()) + value),
            old(self).terms@.len() < MAX_TERMS,
        ensures
            final(self).wf(),
            final(self).constant == old(self).constant,
            final(self).name == old(self).name,
            adds_coeff(final(self).terms@, old(self).terms@, key.key(), value as int),
            is_add_term_of(*final(self), *old(self), key.key(), value as int),
            term_keys(final(self).terms@) == if contains_key(old(self).terms@, key.key()) {
                term_keys(old(self).terms@)
            } else {
                term_keys(old(self).terms@).push(key.key())
            },
            contains_key(old(self).terms@, key.key()) ==> exists|i: int|
                0 <= i < old(self).terms@.len() && term_key(#[trigger] old(self).terms@[i])
                    == key.key() && final(self).terms@ == old(self).terms@.update(
                    i,
                    (old(self).terms@[i].0, (old(self).terms@[i].1 + value) as i64),
                ),
            !contains_key(old(self).terms@, key.key()) ==> final(self).terms@ == old(
                self,
            ).terms@.push((*key, value)),
    {
        let ghost s0 = self.terms@;
        let ghost k = key.key();
        let n = self.terms.len();
        let mut i: usize = 0;
        while i < n
            invariant
                i <= n,
                self.terms@ == s0,
                self.constant == old(self).constant,
                self.name == old(self).name,
                forall|j: int| 0 <= j < i ==> term_key(#[trigger] s0[j]) != k,
            decreases n - i,
        {
            let same = match (&self.terms[i].0.name, &key.name) {
                (Some(a), Some(b)) => str_eq_str(a.as_str(), b.as_str()),
                (None, None) => true,
                _ => false,
            };
            if same {
                proof {
                    assert(term_key(s0[i as int]) == k);
                    lemma_coeff_sum_at(s0, i as int);
                }
                let old_pair_coeff = self.terms[i].1;
                let var = self.terms.remove(i);
                self.terms.insert(i, (var.0, old_pair_coeff + value));
                proof {
                    let t = (s0[i as int].0, (s0[i as int].1 + value) as i64);
                    assert(self.terms@ =~= s0.update(i as int, t));
                    assert forall|k2: Option<Seq<char>>| #[trigger] coeff_sum(self.terms@, k2)
                        == coeff_sum(s0, k2) + (if k2 == k {
                        value as int
                    } else {
                        0
                    }) by {
                        lemma_coeff_sum_update(s0, i as int, t, k2);
                    }
                    assert(term_keys(self.terms@) =~= term_keys(s0));
                }
                return ;
            }
            i += 1;
        }
        proof {
            assert(!contains_key(s0, k));
            lemma_coeff_sum_absent(s0, k);
        }
        self.terms.push((key.clone(), value));
        proof {
            assert forall|k2: Option<Seq<char>>| #[trigger] coeff_sum(self.terms@, k2)
                == coeff_sum(s0, k2) + (if k2 == k {
                value as int
            } else {
                0
            }) by {
                lemma_coeff_sum_push(s0, (*key, value), k2);
            }
            assert(term_keys(self.terms@) =~= term_keys(s0).push(k));
        }
    }
    /// Adds (`sign == 1`) or subtracts (`sign == -1`) `other` into this
    /// expression: constants combine, coefficients accumulate key by key,
    /// and keys new to this expression are appended in `other`'s order.
    pub fn add_in_place(&mut self, other: &LpAffineExpression, sign: i64)
        requires
            old(self).wf(),
            other.wf(),
            sign == 1 || sign == -1,
            num_ok(
                old(self).constant + (if sign == 1 {
                    other.constant as int
                } else {
                    -(other.constant as int)
                }),
            ),
            old(self).terms@.len() + other.terms@.len() <= MAX_TERMS,
            forall|i: int|
                0 <= i < other.terms@.len() ==> num_ok(
                    coeff_sum(old(self).terms@, term_key(#[trigger] other.terms@[i])) + (if sign
                        == 1 {
                        other.terms@[i].1 as int
                    } else {
                        -(other.terms@[i].1 as int)
                    }),
                ),
        ensures
            final(self).wf(),
            final(self).name == old(self).name,
            final(self).constant as int == old(self).constant + (if sign == 1 {
                other.constant as int
            } else {
                -(other.constant as int)
            }),
            forall|k: Option<Seq<char>>|
                #[trigger] coeff_sum(final(self).terms@, k) == coeff_sum(old(self).terms@, k) + (
                if sign == 1 {
                    coeff_sum(other.terms@, k)
                } else {
                    -coeff_sum(other.terms@, k)
                }),
            term_keys(final(self).terms@) == merged_keys(
                term_keys(old(self).terms@),
                term_keys(other.terms@),
            ),
            final(self).terms@.len() >= old(self).terms@.len(),
            forall|j: int|
                0 <= j < old(self).terms@.len() ==> (#[trigger] final(self).terms@[j]).0 == old(
                    self,
                ).terms@[j].0,
            forall|j: int|
                old(self).terms@.len() <= j < final(self).terms@.len() ==> is_term_var(
                    (#[trigger] final(self).terms@[j]).0,
                    other.terms@,
                ),
    {
        let ghost s0 = self.terms@;
        let ghost bt = other.terms@;
        if sign == 1 {
            self.constant = self.constant + other.constant;
        } else {
            self.constant = self.constant - other.constant;
        }
        let n = other.terms.len();
        let mut i: usize = 0;
        proof {
            assert(bt.take(0) =~= Seq::<LpTerm>::empty());
            assert(term_keys(bt.take(0)) =~= Seq::<Option<Seq<char>>>::empty());
            lemma_merged_keys_empty(term_keys(s0));
            assert(term_keys(self.terms@) == merged_keys(term_keys(s0), term_keys(bt.take(0))));
        }
        while i < n
            invariant
                i <= n,
                self.wf(),
                self.name == old(self).name,
                self.constant as int == old(self).constant + (if sign == 1 {
                    other.constant as int
                } else {
                    -(other.constant as int)
                }),
                self.terms@.len() <= s0.len() + i,
                self.terms@.len() >= s0.len(),
                forall|j: int|
                    0 <= j < s0.len() ==> (#[trigger] self.terms@[j]).0 == s0[j].0,
                forall|j: int|
                    s0.len() <= j < self.terms@.len() ==> is_term_var(
                        (#[trigger] self.terms@[j]).0,
                        bt,
                    ),
                forall|k: Option<Seq<char>>|
                    #[trigger] coeff_sum(self.terms@, k) == coeff_sum(s0, k) + (if sign == 1 {
                        coeff_sum(bt.take(i as int), k)
                    } else {
                        -coeff_sum(bt.take(i as int), k)
                    }),
                term_keys(self.terms@) == merged_keys(term_keys(s0), term_keys(bt.take(i as int))),
            decreases n - i,
        {
            let ghost ki = term_key(bt[i as int]);
            let c = other.terms[i].1;
            let addend = if sign == 1 {
                c
            } else {
                -c
            };
            proof {
                assert(!contains_key(bt.take(i as int), ki)) by {
                    if contains_key(bt.take(i as int), ki) {
                        let j = choose|j: int|
                            0 <= j < bt.take(i as int).len() && term_key(
                                #[trigger] bt.take(i as int)[j],
                            ) == ki;
                        assert(term_key(bt[j]) == ki);
                    }
                }
                lemma_coeff_sum_absent(bt.take(i as int), ki);
                assert(coeff_sum(self.terms@, ki) == coeff_sum(s0, ki));
                lemma_contains_key_iff(self.terms@, ki);
                lemma_merged_keys_contains(term_keys(s0), term_keys(bt.take(i as int)), ki);
                lemma_contains_key_iff(bt.take(i as int), ki);
                lemma_contains_key_iff(s0, ki);
                assert(contains_key(self.terms@, ki) <==> contains_key(s0, ki));
            }
            let ghost before = self.terms@;
            self.add_term(&other.terms[i].0, addend);
            i += 1;
            proof {
                assert forall|j: int| 0 <= j < before.len() implies (#[trigger] self.terms@[j]).0
                    == before[j].0 by {
                    if contains_key(before, ki) {
                        let idx = choose|idx: int|
                            0 <= idx < before.len() && term_key(#[trigger] before[idx]) == ki
                                && self.terms@ == before.update(
                                idx,
                                (before[idx].0, (before[idx].1 + addend) as i64),
                            );
                        assert(self.terms@[j] == before.update(
                            idx,
                            (before[idx].0, (before[idx].1 + addend) as i64),
                        )[j]);
                    } else {
                        assert(self.terms@ == before.push((bt[i as int - 1].0, addend)));
                    }
                }
                if !contains_key(before, ki) {
                    assert(self.terms@.last().0 == bt[i as int - 1].0);
                    assert(is_term_var(bt[i as int - 1].0, bt));
                }
                assert forall|j: int|
                    s0.len() <= j < self.terms@.len() implies is_term_var(
                    (#[trigger] self.terms@[j]).0,
                    bt,
                ) by {
                    if j < before.len() {
                        assert(self.terms@[j].0 == before[j].0);
                    } else {
                        assert(self.terms@[j].0 == bt[i as int - 1].0);
                    }
                }
                assert(bt.take(i as int) =~= bt.take(i as int - 1).push(bt[i as int - 1]));
                assert forall|k: Option<Seq<char>>| #[trigger] coeff_sum(bt.take(i as int), k)
                    == coeff_sum(bt.take(i as int - 1), k) + (if ki == k {
                    bt[i as int - 1].1 as int
                } else {
                    0
                }) by {
                    lemma_coeff_sum_push(bt.take(i as int - 1), bt[i as int - 1], k);
                }
                assert(term_keys(bt.take(i as int)) =~= term_keys(bt.take(i as int - 1)).push(ki));
                lemma_merged_keys_push(term_keys(s0), term_keys(bt.take(i as int - 1)), ki);
                lemma_contains_key_iff(s0, ki);
            }
        }
        proof {
            assert(bt.take(n as int) =~= bt);
        }
    }

    /// Subtracts `other` from this expression in place.
    pub fn sub_in_place(&mut self, other: &LpAffineExpression)
        requires
            old(self).wf(),
            other.wf(),
            num_ok(old(self).constant - other.constant),
            old(self).terms@.len() + other.terms@.len() <= MAX_TERMS,
            forall|i: int|
                0 <= i < other.terms@.len() ==> num_ok(
                    coeff_sum(old(self).terms@, term_key(#[trigger] other.terms@[i])) - other.terms@[i].1,
                ),
        ensures
            final(self).wf(),
            final(self).name == old(self).name,
            final(self).constant as int == old(self).constant - other.constant,
            is_difference_of(*final(self), *old(self), *other),
            term_keys(final(self).terms@) == merged_keys(
                term_keys(old(self).terms@),
                term_keys(other.terms@),
            ),
            final(self).terms@.len() >= old(self).terms@.len(),
            forall|j: int|
                0 <= j < old(self).terms@.len() ==> (#[trigger] final(self).terms@[j]).0 == old(
                    self,
                ).terms@[j].0,
            forall|j: int|
                old(self).terms@.len() <= j < final(self).terms@.len() ==> is_term_var(
                    (#[trigger] final(self).terms@[j]).0,
                    other.terms@,
                ),
    {
        self.add_in_place(other, -1);
    }

    /// A new nameless expression with every coefficient and the constant
    /// negated.
    pub fn negated(&self) -> (r: LpAffineExpression)
        requires
            self.wf(),
        ensures
            r.wf(),
            r.name is None,
            r.constant as int == -(self.constant as int),
            r.terms@.len() == self.terms@.len(),
            forall|i: int|
                0 <= i < self.terms@.len() ==> (#[trigger] r.terms@[i]).0 == self.terms@[i].0
                    && r.terms@[i].1 as int == -(self.terms@[i].1 as int),
            forall|k: Option<Seq<char>>|
                #[trigger] coeff_sum(r.terms@, k) == -coeff_sum(self.terms@, k),
    {
        let mut ts: Vec<LpTerm> = Vec::new();
        let n = self.terms.len();
        let mut i: usize = 0;
        while i < n
            invariant
                i <= n,
                ts@.len() == i,
                forall|j: int|
                    0 <= j < i ==> (#[trigger] ts@[j]).0 == self.terms@[j].0 && ts@[j].1 as int
                        == -(self.terms@[j].1 as int),
            decreases n - i,
        {
            let c = self.terms[i].1;
            ts.push((self.terms[i].0.clone(), -c));
            i += 1;
        }
        let r = LpAffineExpression { constant: -self.constant, name: None, terms: ts };
        proof {
            assert(forall|j: int|
                0 <= j < n ==> term_key(#[trigger] r.terms@[j]) == term_key(self.terms@[j]));
            assert forall|k: Option<Seq<char>>| #[trigger] coeff_sum(r.terms@, k)
                == -coeff_sum(self.terms@, k) by {
                lemma_coeff_sum_pointwise_negated(self.terms@, r.terms@, k);
            }
        }
        r
    }

    /// A new nameless expression with the constant and every coefficient
    /// multiplied by the fixed-point number `k`.
    pub fn times(&self, k: i64) -> (r: LpAffineExpression)
        requires
            self.wf(),
            num_ok(crate::fixnum::fx_mul_spec(self.constant as int, k as int)),
            forall|i: int|
                0 <= i < self.terms@.len() ==> num_ok(
                    crate::fixnum::fx_mul_spec((#[trigger] self.terms@[i]).1 as int, k as int),
                ),
        ensures
            r.wf(),
            r.name is None,
            r.constant as int == crate::fixnum::fx_mul_spec(self.constant as int, k as int),
            r.terms@.len() == self.terms@.len(),
            forall|i: int|
                0 <= i < self.terms@.len() ==> (#[trigger] r.terms@[i]).0 == self.terms@[i].0
                    && r.terms@[i].1 as int == crate::fixnum::fx_mul_spec(
                    self.terms@[i].1 as int,
                    k as int,
                ),
    {
        let mut ts: Vec<LpTerm> = Vec::new();
        let n = self.terms.len();
        let mut i: usize = 0;
        while i < n
            invariant
                i <= n,
                ts@.len() == i,
                forall|j: int|
                    0 <= j < i ==> (#[trigger] ts@[j]).0 == self.terms@[j].0 && ts@[j].1 as int
                        == crate::fixnum::fx_mul_spec(self.terms@[j].1 as int, k as int),
            decreases n - i,
        {
            let c = crate::fixnum::fx_mul(self.terms[i].1, k);
            ts.push((self.terms[i].0.clone(), c));
            i += 1;
        }
        let r = LpAffineExpression {
            constant: crate::fixnum::fx_mul(self.constant, k),
            name: None,
            terms: ts,
        };
        proof {
            assert(forall|j: int|
                0 <= j < n ==> term_key(#[trigger] r.terms@[j]) == term_key(self.terms@[j]));
        }
        r
    }

    /// A new nameless expression with the constant and every coefficient
    /// divided by the fixed-point number `k`.
    pub fn divided_by(&self, k: i64) -> (r: LpAffineExpression)
        requires
            self.wf(),
            k != 0,
            num_ok(crate::fixnum::fx_div_spec(self.constant as int, k as int)),
            forall|i: int|
                0 <= i < self.terms@.len() ==> num_ok(
                    crate::fixnum::fx_div_spec((#[trigger] self.terms@[i]).1 as int, k as int),
                ),
        ensures
            r.wf(),
            r.name is None,
            r.constant as int == crate::fixnum::fx_div_spec(self.constant as int, k as int),
            r.terms@.len() == self.terms@.len(),
            forall|i: int|
                0 <= i < self.terms@.len() ==> (#[trigger] r.terms@[i]).0 == self.terms@[i].0
                    && r.terms@[i].1 as int == crate::fixnum::fx_div_spec(
                    self.terms@[i].1 as int,
                    k as int,
                ),
    {
        let mut ts: Vec<LpTerm> = Vec::new();
        let n = self.terms.len();
        let mut i: usize = 0;
        while i < n
            invariant
                i <= n,
                ts@.len() == i,
                forall|j: int|
                    0 <= j < i ==> (#[trigger] ts@[j]).0 == self.terms@[j].0 && ts@[j].1 as int
                        == crate::fixnum::fx_div_spec(self.terms@[j].1 as int, k as int),
            decreases n - i,
        {
            let c = crate::fixnum::fx_div(self.terms[i].1, k);
            ts.push((self.terms[i].0.clone(), c));
            i += 1;
        }
        let r = LpAffineExpression {
            constant: crate::fixnum::fx_div(self.constant, k),
            name: None,
            terms: ts,
        };
        proof {
            assert(forall|j: int|
                0 <= j < n ==> term_key(#[trigger] r.terms@[j]) == term_key(self.terms@[j]));
        }
        r
    }

    /// Multiplies two expressions.  At least one side must be a bare
    /// number: the other side is scaled by it.  Two expressions that both
    /// carry variables cannot be multiplied.
    pub fn times_expr(&self, other: &LpAffineExpression) -> (r: Result<
        LpAffineExpression,
        LpError,
    >)
        requires
            self.wf(),
            other.wf(),
            other.terms@.len() == 0 ==> {
                &&& num_ok(
                    crate::fixnum::fx_mul_spec(self.constant as int, other.constant as int),
                )
                &&& forall|i: int|
                    0 <= i < self.terms@.len() ==> num_ok(
                        crate::fixnum::fx_mul_spec(
                            (#[trigger] self.terms@[i]).1 as int,
                            other.constant as int,
                        ),
                    )
            },
            other.terms@.len() > 0 && self.terms@.len() == 0 ==> {
                &&& num_ok(
                    crate::fixnum::fx_mul_spec(other.constant as int, self.constant as int),
                )
                &&& forall|i: int|
                    0 <= i < other.terms@.len() ==> num_ok(
                        crate::fixnum::fx_mul_spec(
                            (#[trigger] other.terms@[i]).1 as int,
                            self.constant as int,
                        ),
                    )
            },
        ensures
            self.terms@.len() > 0 && other.terms@.len() > 0 <==> r == Err::<
                LpAffineExpression,
                LpError,
            >(LpError::NonConstant),
            other.terms@.len() == 0 ==> (r matches Ok(e) && e.wf() && e.constant as int
                == crate::fixnum::fx_mul_spec(self.constant as int, other.constant as int)
                && e.terms@.len() == self.terms@.len() && forall|i: int|
                0 <= i < self.terms@.len() ==> (#[trigger] e.terms@[i]).0 == self.terms@[i].0
                    && e.terms@[i].1 as int == crate::fixnum::fx_mul_spec(
                    self.terms@[i].1 as int,
                    other.constant as int,
                )),
            other.terms@.len() > 0 && self.terms@.len() == 0 ==> (r matches Ok(e) && e.wf()
                && e.constant as int == crate::fixnum::fx_mul_spec(
                other.constant as int,
                self.constant as int,
            ) && e.terms@.len() == other.terms@.len() && forall|i: int|
                0 <= i < other.terms@.len() ==> (#[trigger] e.terms@[i]).0 == other.terms@[i].0
                    && e.terms@[i].1 as int == crate::fixnum::fx_mul_spec(
                    other.terms@[i].1 as int,
                    self.constant as int,
                )),
    {
        if other.terms.len() == 0 {
            Ok(self.times(other.constant))
        } else if self.terms.len() == 0 {
            Ok(other.times(self.constant))
        } else {
            Err(LpError::NonConstant)
        }
    }

    /// Divides this expression by another.  The divisor must be a bare
    /// nonzero number; a divisor that carries variables is refused, and a
    /// zero divisor fails with [`LpError::DivisionByZero`].
    pub fn divided_by_expr(&self, other: &LpAffineExpression) -> (r: Result<
        LpAffineExpression,
        LpError,
    >)
        requires
            self.wf(),
            other.wf(),
            other.terms@.len() == 0 && other.constant != 0 ==> {
                &&& num_ok(
                    crate::fixnum::fx_div_spec(self.constant as int, other.constant as int),
                )
                &&& forall|i: int|
                    0 <= i < self.terms@.len() ==> num_ok(
                        crate::fixnum::fx_div_spec(
                            (#[trigger] self.terms@[i]).1 as int,
                            other.constant as int,
                        ),
                    )
            },
        ensures
            other.terms@.len() > 0 <==> r == Err::<LpAffineExpression, LpError>(
                LpError::NonConstant,
            ),
            other.terms@.len() == 0 && other.constant == 0 <==> r == Err::<
                LpAffineExpression,
                LpError,
            >(LpError::DivisionByZero),
            other.terms@.len() == 0 && other.constant != 0 ==> (r matches Ok(e) && e.wf()
                && e.constant as int == crate::fixnum::fx_div_spec(
                self.constant as int,
                other.constant as int,
            ) && e.terms@.len() == self.terms@.len() && forall|i: int|
                0 <= i < self.terms@.len() ==> (#[trigger] e.terms@[i]).0 == self.terms@[i].0
                    && e.terms@[i].1 as int == crate::fixnum::fx_div_spec(
                    self.terms@[i].1 as int,
                    other.constant as int,
                )),
    {
        if other.terms.len() > 0 {
            Err(LpError::NonConstant)
        } else if other.constant == 0 {
            Err(LpError::DivisionByZero)
        } else {
            Ok(self.divided_by(other.constant))
        }
    }

    /// A new expression holding the sum of the two: constants added,
    /// coefficients accumulated key by key.
    pub fn plus(&self, other: &LpAffineExpression) -> (r: LpAffineExpression)
        requires
            self.wf(),
            other.wf(),
            num_ok(self.constant + other.constant),
            self.terms@.len() + other.terms@.len() <= MAX_TERMS,
            forall|i: int|
                0 <= i < other.terms@.len() ==> num_ok(
                    coeff_sum(self.terms@, term_key(#[trigger] other.terms@[i]))
                        + other.terms@[i].1,
                ),
        ensures
            r.wf(),
            r.name == self.name,
            is_sum_of(r, *self, *other),
            term_keys(r.terms@) == merged_keys(term_keys(self.terms@), term_keys(other.terms@)),
            r.terms@.len() >= self.terms@.len(),
            forall|j: int|
                0 <= j < self.terms@.len() ==> (#[trigger] r.terms@[j]).0 == self.terms@[j].0,
            forall|j: int|
                self.terms@.len() <= j < r.terms@.len() ==> is_term_var(
                    (#[trigger] r.terms@[j]).0,
                    other.terms@,
                ),
    {
        let mut r = self.clone();
        r.add_in_place(other, 1);
        r
    }

    /// A new expression holding the difference of the two: constants
    /// subtracted, coefficients accumulated key by key.
    pub fn minus(&self, other: &LpAffineExpression) -> (r: LpAffineExpression)
        requires
            self.wf(),
            other.wf(),
            num_ok(self.constant - other.constant),
            self.terms@.len() + other.terms@.len() <= MAX_TERMS,
            forall|i: int|
                0 <= i < other.terms@.len() ==> num_ok(
                    coeff_sum(self.terms@, term_key(#[trigger] other.terms@[i]))
                        - other.terms@[i].1,
                ),
        ensures
            r.wf(),
            r.name == self.name,
            is_difference_of(r, *self, *other),
            term_keys(r.terms@) == merged_keys(term_keys(self.terms@), term_keys(other.terms@)),
            r.terms@.len() >= self.terms@.len(),
            forall|j: int|
                0 <= j < self.terms@.len() ==> (#[trigger] r.terms@[j]).0 == self.terms@[j].0,
            forall|j: int|
                self.terms@.len() <= j < r.terms@.len() ==> is_term_var(
                    (#[trigger] r.terms@[j]).0,
                    other.terms@,
                ),
    {
        let mut r = self.clone();
        r.sub_in_place(other);
        r
    }
}

impl LpAffineExpression {
    /// The expression's exact value over the solved variable values,
    /// meaningful when every variable is solved (an unsolved one counts as
    /// zero here; [`LpAffineExpression::value`] reports it instead).
    pub open spec fn value_spec(&self) -> int {
        self.constant + eval_sum(self.terms@)
    }

    /// The expression's exact value with every variable's
    /// `value_or_default` standing in for its value.
    pub open spec fn value_or_default_spec(&self) -> int {
        self.constant + eval_default_sum(self.terms@)
    }

    /// Sums `coefficient × value` over all terms plus the constant.
    /// `None` when some variable is unsolved, or when the total leaves the
    /// representable range.
    pub fn value(&self) -> (r: Option<i64>)
        requires
            self.wf(),
        ensures
            r is Some <==> all_solved(self.terms@) && num_ok(self.value_spec()),
            r matches Some(v) ==> v as int == self.value_spec(),
    {
        let mut acc: i128 = 0;
        let n = self.terms.len();
        let mut i: usize = 0;
        while i < n
            invariant
                i <= n,
                acc as int == eval_sum(self.terms@.take(i as int)),
                iabs(acc as int) <= (i as int) * 1_000_000_000_000_000_000_000_000,
                all_solved(self.terms@.take(i as int)),
            decreases n - i,
        {
            let c = self.terms[i].1;
            let v = match self.terms[i].0.var_value {
                Some(v) => v,
                None => {
                    proof {
                        assert(self.terms@[i as int].0.var_value is None);
                    }
                    return None;
                },
            };
            proof {
                assert((c as int) * (v as int) < i128::MAX as int && (c as int) * (v as int)
                    > i128::MIN as int) by (nonlinear_arith)
                    requires
                        i64::MIN as int <= c as int <= i64::MAX as int,
                        i64::MIN as int <= v as int <= i64::MAX as int,
                ;
                crate::fixnum::lemma_fx_mul_bound(c as int, v as int);
            }
            let p: i128 = (c as i128) * (v as i128);
            let t: i128 = crate::fixnum::tdiv_exec_i128(p, crate::fixnum::SCALE as i128);
            acc = acc + t;
            i += 1;
            proof {
                let tk = self.terms@.take(i as int);
                assert(tk.drop_last() =~= self.terms@.take(i as int - 1));
                assert(tk.last() == self.terms@[i as int - 1]);
                assert(all_solved(tk)) by {
                    assert(forall|j: int| 0 <= j < i - 1 ==> tk[j] == self.terms@.take(
                        i as int - 1,
                    )[j]);
                }
            }
        }
        proof {
            assert(self.terms@.take(n as int) =~= self.terms@);
        }
        let total: i128 = acc + (self.constant as i128);
        if total < -(NUM_LIMIT as i128) || total > NUM_LIMIT as i128 {
            None
        } else {
            Some(total as i64)
        }
    }

    /// The total-tolerant value: sums `coefficient × value_or_default`
    /// over all terms plus the constant.
    pub fn value_or_default(&self) -> (r: i64)
        requires
            self.wf(),
            num_ok(self.value_or_default_spec()),
        ensures
            r as int == self.value_or_default_spec(),
    {
        let mut acc: i128 = 0;
        let n = self.terms.len();
        let mut i: usize = 0;
        while i < n
            invariant
                i <= n,
                acc as int == eval_default_sum(self.terms@.take(i as int)),
                iabs(acc as int) <= (i as int) * 1_000_000_000_000_000_000_000_000,
            decreases n - i,
        {
            let c = self.terms[i].1;
            let v = self.terms[i].0.value_or_default();
            proof {
                assert((c as int) * (v as int) < i128::MAX as int && (c as int) * (v as int)
                    > i128::MIN as int) by (nonlinear_arith)
                    requires
                        i64::MIN as int <= c as int <= i64::MAX as int,
                        i64::MIN as int <= v as int <= i64::MAX as int,
                ;
                crate::fixnum::lemma_fx_mul_bound(c as int, v as int);
            }
            let p: i128 = (c as i128) * (v as i128);
            let t: i128 = crate::fixnum::tdiv_exec_i128(p, crate::fixnum::SCALE as i128);
            acc = acc + t;
            i += 1;
            proof {
                let tk = self.terms@.take(i as int);
                assert(tk.drop_last() =~= self.terms@.take(i as int - 1));
                assert(tk.last() == self.terms@[i as int - 1]);
            }
        }
        proof {
            assert(self.terms@.take(n as int) =~= self.terms@);
        }
        let total: i128 = acc + (self.constant as i128);
        total as i64
    }

    /// The record form of the terms: one `(name, coefficient)` pair per
    /// term, in term order, an unnamed variable written as the empty name.
    pub fn to_dict(&self) -> (r: Vec<LpCoefficientRecord>)
        ensures
            r@.len() == self.terms@.len(),
            forall|i: int|
                0 <= i < self.terms@.len() ==> (#[trigger] r@[i]).name@ == (match self.terms@[i].0.key() {
                    Some(s) => s,
                    None => Seq::<char>::empty(),
                }) && r@[i].value == self.terms@[i].1,
    {
        let mut out: Vec<LpCoefficientRecord> = Vec::new();
        let n = self.terms.len();
        let mut i: usize = 0;
        while i < n
            invariant
                i <= n,
                out@.len() == i,
                forall|j: int|
                    0 <= j < i ==> (#[trigger] out@[j]).name@ == (match self.terms@[j].0.key() {
                        Some(s) => s,
                        None => Seq::<char>::empty(),
                    }) && out@[j].value == self.terms@[j].1,
            decreases n - i,
        {
            let name = match &self.terms[i].0.name {
                Some(n) => n.clone(),
                None => String::new(),
            };
            out.push(LpCoefficientRecord { name, value: self.terms[i].1 });
            i += 1;
        }
        out
    }
}

/// One coefficient of the persisted round-trip form: a variable name and
/// the coefficient it carries.
#[derive(Debug)]
pub struct LpCoefficientRecord {
    pub name: String,
    pub value: i64,
}

/// Every variable of the term list carries a solved value.
pub open spec fn all_solved(s: Seq<LpTerm>) -> bool {
    forall|i: int| 0 <= i < s.len() ==> (#[trigger] s[i]).0.var_value is Some
}

/// The exact sum of `coefficient × solved value` over the terms, an
/// unsolved variable counting as zero.
pub open spec fn eval_sum(s: Seq<LpTerm>) -> int
    decreases s.len(),
{
    if s.len() == 0 {
        0
    } else {
        eval_sum(s.drop_last()) + crate::fixnum::fx_mul_spec(
            s.last().1 as int,
            match s.last().0.var_value {
                Some(v) => v as int,
                None => 0,
            },
        )
    }
}

/// The exact sum of `coefficient × value_or_default` over the terms.
pub open spec fn eval_default_sum(s: Seq<LpTerm>) -> int
    decreases s.len(),
{
    if s.len() == 0 {
        0
    } else {
        eval_default_sum(s.drop_last()) + crate::fixnum::fx_mul_spec(
            s.last().1 as int,
            s.last().0.value_or_default_spec(),
        )
    }
}

/// Negating every coefficient pointwise negates every key's total.
pub proof fn lemma_coeff_sum_pointwise_negated(
    s: Seq<LpTerm>,
    t: Seq<LpTerm>,
    k: Option<Seq<char>>,
)
    requires
        t.len() == s.len(),
        forall|i: int|
            0 <= i < s.len() ==> term_key(#[trigger] t[i]) == term_key(s[i]) && t[i].1 as int
                == -(s[i].1 as int),
    ensures
        coeff_sum(t, k) == -coeff_sum(s, k),
    decreases s.len(),
{
    if s.len() > 0 {
        assert(forall|i: int|
            0 <= i < s.len() - 1 ==> #[trigger] t.drop_last()[i] == t[i] && s.drop_last()[i]
                == s[i]);
        lemma_coeff_sum_pointwise_negated(s.drop_last(), t.drop_last(), k);
    }
}

/// The keys of a merge: the left keys, then the right keys that the left
/// side lacks, in their right-side order.
pub open spec fn merged_keys(
    a: Seq<Option<Seq<char>>>,
    b: Seq<Option<Seq<char>>>,
) -> Seq<Option<Seq<char>>> {
    a + b.filter(|k: Option<Seq<char>>| !a.contains(k))
}

/// Merging with no right keys keeps the left keys.
pub proof fn lemma_merged_keys_empty(a: Seq<Option<Seq<char>>>)
    ensures
        merged_keys(a, Seq::<Option<Seq<char>>>::empty()) == a,
{
    reveal(Seq::filter);
    assert(merged_keys(a, Seq::<Option<Seq<char>>>::empty()) =~= a);
}

/// One more right key extends the merge exactly when the left side lacks
/// it.
pub proof fn lemma_merged_keys_push(
    a: Seq<Option<Seq<char>>>,
    b: Seq<Option<Seq<char>>>,
    x: Option<Seq<char>>,
)
    ensures
        merged_keys(a, b.push(x)) == if a.contains(x) {
            merged_keys(a, b)
        } else {
            merged_keys(a, b).push(x)
        },
{
    reveal(Seq::filter);
    assert(b.push(x).drop_last() =~= b);
    assert(b.push(x).last() == x);
    if a.contains(x) {
        assert(merged_keys(a, b.push(x)) =~= merged_keys(a, b));
    } else {
        assert(merged_keys(a, b.push(x)) =~= merged_keys(a, b).push(x));
    }
}

/// A sequence extended by one element holds exactly its old elements and
/// the new one.
pub proof fn lemma_push_contains<A>(s: Seq<A>, y: A, x: A)
    ensures
        s.push(y).contains(x) <==> s.contains(x) || x == y,
{
    if s.push(y).contains(x) {
        let j = choose|j: int| 0 <= j < s.push(y).len() && s.push(y)[j] == x;
        if j < s.len() {
            assert(s[j] == x);
        }
    }
    if s.contains(x) {
        let j = choose|j: int| 0 <= j < s.len() && s[j] == x;
        assert(s.push(y)[j] == x);
    }
    if x == y {
        assert(s.push(y)[s.len() as int] == x);
    }
}

/// A merge holds exactly the keys of its two sides.
pub proof fn lemma_merged_keys_contains(
    a: Seq<Option<Seq<char>>>,
    b: Seq<Option<Seq<char>>>,
    x: Option<Seq<char>>,
)
    ensures
        merged_keys(a, b).contains(x) <==> a.contains(x) || b.contains(x),
    decreases b.len(),
{
    if b.len() == 0 {
        lemma_merged_keys_empty(a);
        assert(b =~= Seq::<Option<Seq<char>>>::empty());
        assert(!b.contains(x));
    } else {
        let bd = b.drop_last();
        let y = b.last();
        lemma_merged_keys_contains(a, bd, x);
        assert(b =~= bd.push(y));
        lemma_merged_keys_push(a, bd, y);
        lemma_push_contains(bd, y, x);
        if !a.contains(y) {
            lemma_push_contains(merged_keys(a, bd), y, x);
        }
    }
}

/// A term list holds a key exactly when its key sequence does.
pub proof fn lemma_contains_key_iff(s: Seq<LpTerm>, k: Option<Seq<char>>)
    ensures
        contains_key(s, k) <==> term_keys(s).contains(k),
{
    if contains_key(s, k) {
        let i = choose|i: int| 0 <= i < s.len() && term_key(#[trigger] s[i]) == k;
        assert(term_keys(s)[i] == k);
    }
    if term_keys(s).contains(k) {
        let i = choose|i: int| 0 <= i < term_keys(s).len() && term_keys(s)[i] == k;
        assert(term_key(s[i]) == k);
    }
}

/// `r` combines `a` and `b` with the given sign: its constant is
/// `a.constant + sign * b.constant` and every variable's total coefficient
/// is `a`'s plus `sign` times `b`'s.
pub open spec fn is_combination_of(
    r: LpAffineExpression,
    a: LpAffineExpression,
    b: LpAffineExpression,
    sign: int,
) -> bool {
    &&& r.constant as int == a.constant + sign * b.constant
    &&& forall|k: Option<Seq<char>>|
        #[trigger] coeff_sum(r.terms@, k) == coeff_sum(a.terms@, k) + sign * coeff_sum(
            b.terms@,
            k,
        )
}

/// `r` is the sum of `a` and `b`.
pub open spec fn is_sum_of(r: LpAffineExpression, a: LpAffineExpression, b: LpAffineExpression) -> bool {
    is_combination_of(r, a, b, 1)
}

/// `r` is the difference of `a` and `b`.
pub open spec fn is_difference_of(
    r: LpAffineExpression,
    a: LpAffineExpression,
    b: LpAffineExpression,
) -> bool {
    is_combination_of(r, a, b, -1)
}

/// Additive inverse round-trips: for all expressions `a` and `b`, the
/// expression `(a + b) - b` carries exactly `a`'s total coefficient for
/// every variable, and `a`'s constant.
pub proof fn lemma_plus_minus_round_trip(
    a: LpAffineExpression,
    b: LpAffineExpression,
    ab: LpAffineExpression,
    r: LpAffineExpression,
)
    requires
        is_sum_of(ab, a, b),
        is_difference_of(r, ab, b),
    ensures
        r.constant == a.constant,
        forall|k: Option<Seq<char>>|
            #[trigger] coeff_sum(r.terms@, k) == coeff_sum(a.terms@, k),
{
    assert forall|k: Option<Seq<char>>| #[trigger] coeff_sum(r.terms@, k) == coeff_sum(
        a.terms@,
        k,
    ) by {
        assert(coeff_sum(ab.terms@, k) == coeff_sum(a.terms@, k) + coeff_sum(b.terms@, k));
        assert(coeff_sum(r.terms@, k) == coeff_sum(ab.terms@, k) - coeff_sum(b.terms@, k));
    }
}

/// `post` is `pre` with the one term `(k, v)` accumulated: the constant is
/// kept and the coefficient totals move by `v` at `k` only.
pub open spec fn is_add_term_of(
    post: LpAffineExpression,
    pre: LpAffineExpression,
    k: Option<Seq<char>>,
    v: int,
) -> bool {
    &&& post.constant == pre.constant
    &&& adds_coeff(post.terms@, pre.terms@, k, v)
}

/// Term additions commute in total effect: adding `(k1, v1)` then
/// `(k2, v2)`, or the other way round, leaves every variable with the same
/// total coefficient.
pub proof fn lemma_add_term_commutes(
    e0: LpAffineExpression,
    e1: LpAffineExpression,
    e2: LpAffineExpression,
    f1: LpAffineExpression,
    f2: LpAffineExpression,
    k1: Option<Seq<char>>,
    v1: int,
    k2: Option<Seq<char>>,
    v2: int,
)
    requires
        is_add_term_of(e1, e0, k1, v1),
        is_add_term_of(e2, e1, k2, v2),
        is_add_term_of(f1, e0, k2, v2),
        is_add_term_of(f2, f1, k1, v1),
    ensures
        e2.constant == f2.constant,
        forall|k: Option<Seq<char>>|
            #[trigger] coeff_sum(e2.terms@, k) == coeff_sum(f2.terms@, k),
{
    assert forall|k: Option<Seq<char>>| #[trigger] coeff_sum(e2.terms@, k) == coeff_sum(
        f2.terms@,
        k,
    ) by {
        assert(coeff_sum(e1.terms@, k) == coeff_sum(e0.terms@, k) + if k == k1 {
            v1
        } else {
            0
        });
        assert(coeff_sum(e2.terms@, k) == coeff_sum(e1.terms@, k) + if k == k2 {
            v2
        } else {
            0
        });
        assert(coeff_sum(f1.terms@, k) == coeff_sum(e0.terms@, k) + if k == k2 {
            v2
        } else {
            0
        });
        assert(coeff_sum(f2.terms@, k) == coeff_sum(f1.terms@, k) + if k == k1 {
            v1
        } else {
            0
        });
    }
}

/// One recorded term addition: a key and the amount added for it.
pub type LpTermDelta = (Option<Seq<char>>, int);

/// The total amount a list of term additions gives the key `k`.
pub open spec fn adds_sum(l: Seq<LpTermDelta>, k: Option<Seq<char>>) -> int
    decreases l.len(),
{
    if l.len() == 0 {
        0
    } else {
        adds_sum(l.drop_last(), k) + if l.last().0 == k {
            l.last().1
        } else {
            0
        }
    }
}

/// Taking one addition out takes out exactly its contribution.
proof fn lemma_adds_sum_remove(l: Seq<LpTermDelta>, i: int, k: Option<Seq<char>>)
    requires
        0 <= i < l.len(),
    ensures
        adds_sum(l, k) == adds_sum(l.remove(i), k) + (if l[i].0 == k {
            l[i].1
        } else {
            0
        }),
    decreases l.len(),
{
    if i == l.len() - 1 {
        assert(l.remove(i) =~= l.drop_last());
    } else {
        assert(l.remove(i).drop_last() =~= l.drop_last().remove(i));
        assert(l.remove(i).last() == l.last());
        lemma_adds_sum_remove(l.drop_last(), i, k);
    }
}

/// Order never matters to the totals: two addition lists that hold the
/// same multiset of (key, amount) pairs give every key the same sum.
pub proof fn lemma_adds_sum_permutation(
    l1: Seq<LpTermDelta>,
    l2: Seq<LpTermDelta>,
    k: Option<Seq<char>>,
)
    requires
        l1.to_multiset() == l2.to_multiset(),
    ensures
        adds_sum(l1, k) == adds_sum(l2, k),
    decreases l1.len(),
{
    broadcast use vstd::seq_lib::group_to_multiset_ensures;

    assert(l1.to_multiset().len() == l1.len());
    assert(l2.to_multiset().len() == l2.len());
    if l1.len() > 0 {
        let a = l1.last();
        assert(l1.contains(a)) by {
            assert(l1[l1.len() - 1] == a);
        }
        assert(l2.to_multiset().count(a) > 0);
        assert(l2.contains(a));
        let i = choose|i: int| 0 <= i < l2.len() && l2[i] == a;
        lemma_adds_sum_remove(l2, i, k);
        assert(l1.drop_last() =~= l1.remove(l1.len() - 1));
        assert(l1.remove(l1.len() - 1).to_multiset() =~= l1.to_multiset().remove(a));
        assert(l2.remove(i).to_multiset() =~= l2.to_multiset().remove(a));
        lemma_adds_sum_permutation(l1.drop_last(), l2.remove(i), k);
    }
}

/// `es` is a chain of term additions from `l`: each expression arises
/// from the previous one by accumulating one listed (key, amount) pair.
pub open spec fn is_add_chain(es: Seq<LpAffineExpression>, l: Seq<LpTermDelta>) -> bool {
    &&& es.len() == l.len() + 1
    &&& forall|i: int|
        0 <= i < l.len() ==> is_add_term_of(es[i + 1], es[i], (#[trigger] l[i]).0, l[i].1)
}

/// Term additions split into any number of calls: across a whole chain
/// of additions the constant is kept and every key's total coefficient
/// moves by exactly the summed amounts listed for it.
pub proof fn lemma_add_term_chain(
    es: Seq<LpAffineExpression>,
    l: Seq<LpTermDelta>,
    k: Option<Seq<char>>,
)
    requires
        is_add_chain(es, l),
    ensures
        es.last().constant == es[0].constant,
        coeff_sum(es.last().terms@, k) == coeff_sum(es[0].terms@, k) + adds_sum(l, k),
    decreases l.len(),
{
    if l.len() == 0 {
        assert(es.last() == es[0]);
    } else {
        assert(is_add_chain(es.drop_last(), l.drop_last())) by {
            assert(forall|i: int|
                0 <= i < l.drop_last().len() ==> #[trigger] es.drop_last()[i + 1] == es[i + 1]
                    && es.drop_last()[i] == es[i] && l.drop_last()[i] == l[i]);
        }
        lemma_add_term_chain(es.drop_last(), l.drop_last(), k);
        assert(es.drop_last().last() == es[es.len() - 2]);
        assert(es.drop_last()[0] == es[0]);
        assert(is_add_term_of(es.last(), es[es.len() - 2], l.last().0, l.last().1)) by {
            assert(es[l.len() as int - 1] == es[es.len() - 2]);
            assert(es[l.len() as int] == es.last());
            assert(l[l.len() as int - 1] == l.last());
        }
    }
}

/// Term additions in any order and any partition: two chains that start
/// from expressions with equal constant and coefficient totals and apply
/// the same additions as a multiset end with equal constant and equal
/// total coefficient at every key.
pub proof fn lemma_add_term_any_order(
    es1: Seq<LpAffineExpression>,
    l1: Seq<LpTermDelta>,
    es2: Seq<LpAffineExpression>,
    l2: Seq<LpTermDelta>,
)
    requires
        is_add_chain(es1, l1),
        is_add_chain(es2, l2),
        es1[0].constant == es2[0].constant,
        forall|k: Option<Seq<char>>|
            #[trigger] coeff_sum(es1[0].terms@, k) == coeff_sum(es2[0].terms@, k),
        l1.to_multiset() == l2.to_multiset(),
    ensures
        es1.last().constant == es2.last().constant,
        forall|k: Option<Seq<char>>|
            #[trigger] coeff_sum(es1.last().terms@, k) == coeff_sum(es2.last().terms@, k),
{
    lemma_add_term_chain(es1, l1, None::<Seq<char>>);
    lemma_add_term_chain(es2, l2, None::<Seq<char>>);
    assert forall|k: Option<Seq<char>>| #[trigger] coeff_sum(es1.last().terms@, k) == coeff_sum(
        es2.last().terms@,
        k,
    ) by {
        lemma_add_term_chain(es1, l1, k);
        lemma_add_term_chain(es2, l2, k);
        lemma_adds_sum_permutation(l1, l2, k);
    }
}

/// A term addition splits: adding `(k, v1)` then `(k, v2)` has the same
/// total effect as adding `(k, v1 + v2)` once.
pub proof fn lemma_add_term_splits(
    e0: LpAffineExpression,
    e1: LpAffineExpression,
    e2: LpAffineExpression,
    g: LpAffineExpression,
    k: Option<Seq<char>>,
    v1: int,
    v2: int,
)
    requires
        is_add_term_of(e1, e0, k, v1),
        is_add_term_of(e2, e1, k, v2),
        is_add_term_of(g, e0, k, v1 + v2),
    ensures
        e2.constant == g.constant,
        forall|k2: Option<Seq<char>>|
            #[trigger] coeff_sum(e2.terms@, k2) == coeff_sum(g.terms@, k2),
{
    assert forall|k2: Option<Seq<char>>| #[trigger] coeff_sum(e2.terms@, k2) == coeff_sum(
        g.terms@,
        k2,
    ) by {
        assert(coeff_sum(e1.terms@, k2) == coeff_sum(e0.terms@, k2) + if k2 == k {
            v1
        } else {
            0
        });
        assert(coeff_sum(e2.terms@, k2) == coeff_sum(e1.terms@, k2) + if k2 == k {
            v2
        } else {
            0
        });
        assert(coeff_sum(g.terms@, k2) == coeff_sum(e0.terms@, k2) + if k2 == k {
            v1 + v2
        } else {
            0
        });
    }
}

} // verus!
