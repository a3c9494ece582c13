//! The problem container: owns the variable set, the named constraint
//! list, the objective, and the special-ordered-set groupings, and hands
//! the assembled model to a solver.
//!
//! Unnamed constraints receive auto-generated names `_C1`, `_C2`, …: the
//! counter only ever grows, so a number is never reused even when a
//! lower-numbered constraint is removed.

use vstd::prelude::*;
use crate::constraint::LpConstraint;
use crate::expression::{
    LpAffineExpression,
    LpTerm,
    term_key,
    term_keys,
    merged_keys,
    is_term_var,
    lemma_merged_keys_empty,
    lemma_merged_keys_push,
    lemma_merged_keys_contains,
};
use crate::text::{dec_digits, push_char, push_u64_digits, str_eq_str, lemma_dec_digits_injective};
use crate::variable::LpVariable;

verus! {

/// The optimization sense of a minimizing problem.
pub const LP_MINIMIZE: i32 = 1;

/// The optimization sense of a maximizing problem.
pub const LP_MAXIMIZE: i32 = -1;

/// The status of a problem no solver has run on.
pub const LP_STATUS_NOT_SOLVED: i32 = 0;

/// The solution status before any solution was found.
pub const LP_SOLUTION_NO_SOLUTION_FOUND: i32 = 0;

/// A solver the problem is handed to: it reads the assembled model,
/// writes its results into the problem, and returns its status code.
pub trait LpSolver {
    fn solve(&self, problem: &mut LpProblem) -> i32;
}

/// The auto-generated constraint name for the number `n`.
pub open spec fn cname_spec(n: nat) -> Seq<char> {
    seq!['_', 'C'] + dec_digits(n)
}

/// Auto-generated names are distinct for distinct numbers.
pub proof fn lemma_cname_injective(a: nat, b: nat)
    requires
        a != b,
    ensures
        cname_spec(a) != cname_spec(b),
{
    lemma_dec_digits_injective(a, b);
    if cname_spec(a) == cname_spec(b) {
        assert(cname_spec(a).subrange(2, cname_spec(a).len() as int) =~= dec_digits(a));
        assert(cname_spec(b).subrange(2, cname_spec(b).len() as int) =~= dec_digits(b));
        assert(dec_digits(a) == dec_digits(b));
    }
}

/// The keys of a variable list, in order.
pub open spec fn var_keys(s: Seq<LpVariable>) -> Seq<Option<Seq<char>>> {
    s.map(|i: int, v: LpVariable| v.key())
}

/// Whether some variable of `s` has key `k`.
pub open spec fn contains_var_key(s: Seq<LpVariable>, k: Option<Seq<char>>) -> bool {
    exists|i: int| 0 <= i < s.len() && (#[trigger] s[i]).key() == k
}

/// Whether some constraint of `s` bears the name `n`.
pub open spec fn contains_cname(s: Seq<(String, LpConstraint)>, n: Seq<char>) -> bool {
    exists|i: int| 0 <= i < s.len() && (#[trigger] s[i]).0@ == n
}

/// A linear-programming problem being assembled.
#[derive(Debug)]
pub struct LpProblem {
    pub name: String,
    pub objective: Option<LpAffineExpression>,
    pub constraints: Vec<(String, LpConstraint)>,
    pub sense: i32,
    pub sos1: Vec<(u64, Vec<LpVariable>)>,
    pub sos2: Vec<(u64, Vec<LpVariable>)>,
    pub status: i32,
    pub sol_status: i32,
    pub variables: Vec<LpVariable>,
    pub solution_time: i64,
    pub solution_cpu_time: i64,
    pub last_unused: u64,
}

impl LpProblem {
    /// Constraint names unique and every part well-formed; variable keys
    /// unique.
    pub open spec fn wf(&self) -> bool {
        &&& forall|i: int, j: int|
            0 <= i < j < self.constraints@.len() ==> (#[trigger] self.constraints@[i]).0@ != (
            #[trigger] self.constraints@[j]).0@
        &&& forall|i: int| 0 <= i < self.constraints@.len() ==> (#[trigger] self.constraints@[i]).1.wf()
        &&& forall|i: int, j: int|
            0 <= i < j < self.variables@.len() ==> (#[trigger] self.variables@[i]).key() != (
            #[trigger] self.variables@[j]).key()
        &&& forall|i: int| 0 <= i < self.variables@.len() ==> (#[trigger] self.variables@[i]).wf()
        &&& match self.objective {
            Some(o) => o.wf(),
            None => true,
        }
    }

    /// Makes an empty problem; spaces in the name become underscores.
    pub fn new(name: &str, sense: i32) -> (r: LpProblem)
        ensures
            r.wf(),
            r.name@ == name@.map(|i: int, c: char| if c == ' ' {
                '_'
            } else {
                c
            }),
            r.sense == sense,
            r.objective is None,
            r.constraints@.len() == 0,
            r.variables@.len() == 0,
            r.sos1@.len() == 0,
            r.sos2@.len() == 0,
            r.status == LP_STATUS_NOT_SOLVED,
            r.sol_status == LP_SOLUTION_NO_SOLUTION_FOUND,
            r.solution_time == 0i64,
            r.solution_cpu_time == 0i64,
            r.last_unused == 0u64,
    {
        let mut fixed = String::new();
        let n = name.unicode_len();
        let mut i: usize = 0;
        while i < n
            invariant
                i <= n,
                fixed@ == name@.subrange(0, i as int).map(
                    |j: int, c: char|
                        if c == ' ' {
                            '_'
                        } else {
                            c
                        },
                ),
            decreases n - i,
        {
            let c = name.get_char(i);
            if c == ' ' {
                push_char(&mut fixed, '_');
            } else {
                push_char(&mut fixed, c);
            }
            i += 1;
            proof {
                assert(fixed@ =~= name@.subrange(0, i as int).map(
                    |j: int, c: char|
                        if c == ' ' {
                            '_'
                        } else {
                            c
                        },
                ));
            }
        }
        proof {
            assert(name@.subrange(0, n as int) =~= name@);
        }
        LpProblem {
            name: fixed,
            objective: None,
            constraints: Vec::new(),
            sense,
            sos1: Vec::new(),
            sos2: Vec::new(),
            status: LP_STATUS_NOT_SOLVED,
            sol_status: LP_SOLUTION_NO_SOLUTION_FOUND,
            variables: Vec::new(),
            solution_time: 0,
            solution_cpu_time: 0,
            last_unused: 0,
        }
    }

    /// Registers a variable: appended when no variable of that name is
    /// present yet, ignored otherwise — the first-seen variable stays.
    pub fn add_variable(&mut self, variable: LpVariable)
        requires
            old(self).wf(),
            variable.wf(),
        ensures
            final(self).wf(),
            *final(self) == (LpProblem { variables: final(self).variables, ..*old(self) }),
            contains_var_key(old(self).variables@, variable.key()) ==> final(self).variables@
                == old(self).variables@,
            !contains_var_key(old(self).variables@, variable.key()) ==> final(self).variables@
                == old(self).variables@.push(variable),
    {
        let ghost s0 = self.variables@;
        let n = self.variables.len();
        let mut i: usize = 0;
        while i < n
            invariant
                i <= n,
                *self == *old(self),
                forall|j: int| 0 <= j < i ==> (#[trigger] s0[j]).key() != variable.key(),
            decreases n - i,
        {
            let same = match (&self.variables[i].name, &variable.name) {
                (Some(a), Some(b)) => str_eq_str(a.as_str(), b.as_str()),
                (None, None) => true,
                _ => false,
            };
            if same {
                proof {
                    assert(s0[i as int].key() == variable.key());
                }
                return ;
            }
            i += 1;
        }
        self.variables.push(variable);
    }

    /// Stores the objective expression.
    pub fn set_objective(&mut self, objective: LpAffineExpression)
        requires
            old(self).wf(),
            objective.wf(),
        ensures
            final(self).wf(),
            *final(self) == (LpProblem { objective: Some(objective), ..*old(self) }),
    {
        self.objective = Some(objective);
    }

    /// Whether a constraint of that name is present.
    pub fn has_constraint_name(&self, name: &str) -> (r: bool)
        ensures
            r == contains_cname(self.constraints@, name@),
    {
        let n = self.constraints.len();
        let mut i: usize = 0;
        while i < n
            invariant
                i <= n,
                n == self.constraints@.len(),
                forall|j: int| 0 <= j < i ==> (#[trigger] self.constraints@[j]).0@ != name@,
            decreases n - i,
        {
            if str_eq_str(self.constraints[i].0.as_str(), name) {
                return true;
            }
            i += 1;
        }
        false
    }

    /// The next free auto-generated constraint name: the counter climbs
    /// past every taken number, and the smallest free number above it is
    /// used — a number is never reused.
    pub fn unused_constraint_name(&mut self) -> (r: String)
        requires
            old(self).wf(),
            old(self).last_unused + old(self).constraints@.len() + 1 <= u64::MAX,
        ensures
            final(self).wf(),
            *final(self) == (LpProblem { last_unused: final(self).last_unused, ..*old(self) }),
            old(self).last_unused < final(self).last_unused <= old(self).last_unused + old(self).constraints@.len() + 1,
            r@ == cname_spec(final(self).last_unused as nat),
            !contains_cname(old(self).constraints@, r@),
            forall|m: nat|
                old(self).last_unused < m < final(self).last_unused ==> contains_cname(
                    old(self).constraints@,
                    cname_spec(m),
                ),
    {
        let ghost cs = self.constraints@;
        let ghost range = vstd::set_lib::set_int_range(0, cs.len() as int);
        let ghost mut matched: Set<int> = Set::empty();
        proof {
            vstd::set_lib::lemma_int_range(0, cs.len() as int);
        }
        loop
            invariant
                self.wf(),
                *self == (LpProblem { last_unused: self.last_unused, ..*old(self) }),
                matched.finite(),
                matched.subset_of(range),
                self.last_unused as int == old(self).last_unused as int + matched.len(),
                forall|j: int|
                    matched.contains(j) ==> 0 <= j < cs.len() && (exists|m: nat|
                        old(self).last_unused < m <= self.last_unused && (#[trigger] cs[j]).0@
                            == cname_spec(m)),
                forall|m: nat|
                    old(self).last_unused < m <= self.last_unused ==> contains_cname(
                        cs,
                        cname_spec(m),
                    ),
            decreases cs.len() as int - matched.len(),
        {
            proof {
                vstd::set_lib::lemma_len_subset(matched, range);
            }
            let next = self.last_unused + 1;
            let mut name = String::new();
            push_char(&mut name, '_');
            push_char(&mut name, 'C');
            push_u64_digits(next, &mut name);
            proof {
                assert(name@ =~= cname_spec(next as nat));
            }
            if !self.has_constraint_name(name.as_str()) {
                self.last_unused = next;
                return name;
            }
            proof {
                let j = choose|j: int| 0 <= j < cs.len() && (#[trigger] cs[j]).0@ == name@;
                if matched.contains(j) {
                    let m = choose|m: nat|
                        old(self).last_unused < m <= self.last_unused && cs[j].0@ == cname_spec(
                            m,
                        );
                    lemma_cname_injective(m, next as nat);
                    assert(false);
                }
                vstd::set::axiom_set_insert_len(matched, j);
                matched = matched.insert(j);
                vstd::set_lib::lemma_len_subset(matched, range);
            }
            self.last_unused = next;
        }
    }

    /// Registers every variable the expression mentions, in term order,
    /// keeping the first-seen record for a name that is already present.
    pub fn register_variables(&mut self, e: &LpAffineExpression)
        requires
            old(self).wf(),
            e.wf(),
        ensures
            final(self).wf(),
            *final(self) == (LpProblem { variables: final(self).variables, ..*old(self) }),
            var_keys(final(self).variables@) == merged_keys(
                var_keys(old(self).variables@),
                term_keys(e.terms@),
            ),
            final(self).variables@.take(old(self).variables@.len() as int) == old(
                self,
            ).variables@,
            forall|j: int|
                old(self).variables@.len() <= j < final(self).variables@.len() ==> is_term_var(
                    #[trigger] final(self).variables@[j],
                    e.terms@,
                ),
    {
        let ghost v0 = self.variables@;
        proof {
            lemma_merged_keys_empty(var_keys(v0));
            assert(e.terms@.take(0) =~= Seq::<LpTerm>::empty());
            assert(term_keys(e.terms@.take(0)) =~= Seq::<Option<Seq<char>>>::empty());
            assert(var_keys(self.variables@) == merged_keys(var_keys(v0), term_keys(e.terms@.take(0))));
            assert(self.variables@.take(v0.len() as int) =~= v0);
        }
        let n = e.terms.len();
        let mut i: usize = 0;
        while i < n
            invariant
                i <= n,
                self.wf(),
                *self == (LpProblem { variables: self.variables, ..*old(self) }),
                var_keys(self.variables@) == merged_keys(
                    var_keys(v0),
                    term_keys(e.terms@.take(i as int)),
                ),
                self.variables@.take(v0.len() as int) == v0,
                forall|j: int|
                    v0.len() <= j < self.variables@.len() ==> is_term_var(
                        #[trigger] self.variables@[j],
                        e.terms@,
                    ),
            decreases n - i,
        {
            let ghost ki = term_key(e.terms@[i as int]);
            let ghost pre = self.variables@;
            proof {
                lemma_merged_keys_contains(var_keys(v0), term_keys(e.terms@.take(i as int)), ki);
                lemma_contains_var_key_iff(v0, ki);
                lemma_contains_var_key_iff(pre, ki);
                assert(!term_keys(e.terms@.take(i as int)).contains(ki)) by {
                    if term_keys(e.terms@.take(i as int)).contains(ki) {
                        let t = choose|t: int|
                            0 <= t < term_keys(e.terms@.take(i as int)).len() && term_keys(
                                e.terms@.take(i as int),
                            )[t] == ki;
                        assert(term_key(e.terms@[t]) == ki);
                    }
                }
                assert(var_keys(pre).contains(ki) <==> var_keys(v0).contains(ki));
            }
            self.add_variable(e.terms[i].0.clone());
            i += 1;
            proof {
                assert(term_keys(e.terms@.take(i as int)) =~= term_keys(e.terms@.take(i as int - 1)).push(ki));
                lemma_merged_keys_push(var_keys(v0), term_keys(e.terms@.take(i as int - 1)), ki);
                if contains_var_key(pre, ki) {
                    assert(var_keys(self.variables@) =~= merged_keys(
                        var_keys(v0),
                        term_keys(e.terms@.take(i as int)),
                    ));
                } else {
                    assert(var_keys(self.variables@) =~= var_keys(pre).push(ki));
                    assert(var_keys(self.variables@) =~= merged_keys(
                        var_keys(v0),
                        term_keys(e.terms@.take(i as int)),
                    ));
                    assert(self.variables@.take(v0.len() as int) =~= pre.take(v0.len() as int));
                }
                assert forall|j: int|
                    v0.len() <= j < self.variables@.len() implies is_term_var(
                        #[trigger] self.variables@[j],
                        e.terms@,
                    ) by {
                    if j < pre.len() {
                        assert(self.variables@[j] == pre[j]);
                    } else {
                        assert(self.variables@[j] == e.terms@[i as int - 1].0);
                        assert(is_term_var(e.terms@[i as int - 1].0, e.terms@));
                    }
                }
            }
        }
        proof {
            assert(e.terms@.take(n as int) =~= e.terms@);
        }
    }

    /// Stores a constraint under `name` (sanitized), or under the next
    /// auto-generated name when none is given.  Re-using a present name
    /// overwrites the constraint stored there, in place; a new name is
    /// appended.  Every variable the constraint mentions is registered.
    pub fn add_constraint(&mut self, constraint: LpConstraint, name: Option<String>)
        requires
            old(self).wf(),
            constraint.wf(),
            name is None ==> old(self).last_unused + old(self).constraints@.len() + 1
                <= u64::MAX,
        ensures
            final(self).wf(),
            final(self).name == old(self).name,
            final(self).objective == old(self).objective,
            final(self).sense == old(self).sense,
            final(self).sos1 == old(self).sos1,
            final(self).sos2 == old(self).sos2,
            final(self).status == old(self).status,
            final(self).sol_status == old(self).sol_status,
            name is Some ==> final(self).last_unused == old(self).last_unused,
            name is None ==> old(self).last_unused < final(self).last_unused && !contains_cname(
                old(self).constraints@,
                cname_spec(final(self).last_unused as nat),
            ) && (forall|m: nat|
                old(self).last_unused < m < final(self).last_unused ==> contains_cname(
                    old(self).constraints@,
                    cname_spec(m),
                )),
            ({
                let cname = match name {
                    Some(n) => crate::element::sanitize_spec(n@),
                    None => cname_spec(final(self).last_unused as nat),
                };
                &&& (contains_cname(old(self).constraints@, cname) ==> exists|i: int|
                    0 <= i < old(self).constraints@.len() && (#[trigger] old(self).constraints@[i]).0@ == cname && final(self).constraints@.len() == old(self).constraints@.len() && final(self).constraints@[i].0@ == cname && final(self).constraints@[i].1 == constraint && (forall|j: int|
                        0 <= j < old(self).constraints@.len() && j != i ==> final(self).constraints@[j] == old(self).constraints@[j]))
                &&& (!contains_cname(old(self).constraints@, cname) ==> final(self).constraints@.len() == old(self).constraints@.len() + 1 && final(self).constraints@.take(old(self).constraints@.len() as int) == old(self).constraints@ && final(self).constraints@.last().0@ == cname && final(self).constraints@.last().1 == constraint)
            }),
            var_keys(final(self).variables@) == merged_keys(
                var_keys(old(self).variables@),
                term_keys(constraint.expression.terms@),
            ),
            final(self).variables@.take(old(self).variables@.len() as int) == old(self).variables@,
            forall|j: int|
                old(self).variables@.len() <= j < final(self).variables@.len() ==> is_term_var(
                    #[trigger] final(self).variables@[j],
                    constraint.expression.terms@,
                ),
    {
        let cname = match name {
            Some(n) => crate::element::sanitize_name(n.as_str()),
            None => self.unused_constraint_name(),
        };
        let ghost v0 = self.variables@;
        self.register_variables(&constraint.expression);
        let ghost cs = self.constraints@;
        let ghost pre2 = *self;
        let m = self.constraints.len();
        let mut k: usize = 0;
        while k < m
            invariant
                k <= m,
                m == self.constraints@.len(),
                *self == pre2,
                self.constraints@ == cs,
                forall|j: int| 0 <= j < k ==> (#[trigger] cs[j]).0@ != cname@,
            decreases m - k,
        {
            if str_eq_str(self.constraints[k].0.as_str(), cname.as_str()) {
                let _ = self.constraints.remove(k);
                self.constraints.insert(k, (cname, constraint));
                proof {
                    assert(self.constraints@ =~= cs.update(k as int, self.constraints@[k as int]));
                }
                return ;
            }
            k += 1;
        }
        proof {
            assert(!contains_cname(cs, cname@));
        }
        self.constraints.push((cname, constraint));
        proof {
            assert(self.constraints@.take(cs.len() as int) =~= cs);
        }
    }

    /// Removes the constraint stored under `name`, if any, and says
    /// whether one was removed.  Its auto-name number is never reused.
    pub fn remove_constraint(&mut self, name: &str) -> (r: bool)
        requires
            old(self).wf(),
        ensures
            final(self).wf(),
            *final(self) == (LpProblem { constraints: final(self).constraints, ..*old(self) }),
            r == contains_cname(old(self).constraints@, name@),
            r ==> exists|i: int|
                0 <= i < old(self).constraints@.len() && (#[trigger] old(self).constraints@[i]).0@ == name@ && final(self).constraints@ == old(self).constraints@.remove(i),
            !r ==> final(self).constraints@ == old(self).constraints@,
    {
        let ghost cs = self.constraints@;
        let m = self.constraints.len();
        let mut k: usize = 0;
        while k < m
            invariant
                k <= m,
                m == self.constraints@.len(),
                self.constraints@ == cs,
                *self == *old(self),
                forall|j: int| 0 <= j < k ==> (#[trigger] cs[j]).0@ != name@,
            decreases m - k,
        {
            if str_eq_str(self.constraints[k].0.as_str(), name) {
                let _ = self.constraints.remove(k);
                return true;
            }
            k += 1;
        }
        false
    }

    /// Hands the assembled problem to the solver and records the status
    /// code it returns.
    pub fn solve<S: LpSolver>(&mut self, solver: &S) -> (r: i32)
        ensures
            final(self).status == r,
    {
        let status = solver.solve(self);
        self.status = status;
        status
    }
}

/// A variable tree: the nested mapping the batch builder
/// [`LpProblem::dicts`] produces, one level per index list.
#[derive(Debug)]
pub enum LpVariableTree {
    Leaf(LpVariable),
    Node(Vec<(String, LpVariableTree)>),
}

/// The views of a list of strings.
pub open spec fn str_views(v: Seq<String>) -> Seq<Seq<char>> {
    v.map(|i: int, s: String| s@)
}

/// The views of a list of lists of strings.
pub open spec fn deep_views(v: Seq<Vec<String>>) -> Seq<Seq<Seq<char>>> {
    v.map(|i: int, x: Vec<String>| str_views(x@))
}

/// The index tuples over one more value each.
pub open spec fn tuple_row(t: Seq<Seq<char>>, xs: Seq<Seq<char>>) -> Seq<Seq<Seq<char>>>
    decreases xs.len(),
{
    if xs.len() == 0 {
        Seq::<Seq<Seq<char>>>::empty()
    } else {
        tuple_row(t, xs.drop_last()).push(t.push(xs.last()))
    }
}

/// Every tuple of `pre` extended by every value of `xs`, tuples in order.
pub open spec fn cross(pre: Seq<Seq<Seq<char>>>, xs: Seq<Seq<char>>) -> Seq<Seq<Seq<char>>>
    decreases pre.len(),
{
    if pre.len() == 0 {
        Seq::<Seq<Seq<char>>>::empty()
    } else {
        cross(pre.drop_last(), xs) + tuple_row(pre.last(), xs)
    }
}

/// The Cartesian product of the index lists, as index tuples in
/// lexicographic position order.
pub open spec fn index_product(ls: Seq<Seq<Seq<char>>>) -> Seq<Seq<Seq<char>>>
    decreases ls.len(),
{
    if ls.len() == 0 {
        seq![Seq::<Seq<char>>::empty()]
    } else {
        cross(index_product(ls.drop_last()), ls.last())
    }
}

/// The index values joined with underscores.
pub open spec fn join_underscore(parts: Seq<Seq<char>>) -> Seq<char>
    decreases parts.len(),
{
    if parts.len() == 0 {
        Seq::<char>::empty()
    } else if parts.len() == 1 {
        parts[0]
    } else {
        join_underscore(parts.drop_last()) + seq!['_'] + parts.last()
    }
}

/// The least position of a `%s` placeholder.
pub open spec fn find_ps(s: Seq<char>) -> Option<int>
    decreases s.len(),
{
    if s.len() < 2 {
        None
    } else if s[0] == '%' && s[1] == 's' {
        Some(0)
    } else {
        match find_ps(s.skip(1)) {
            Some(i) => Some(i + 1),
            None => None,
        }
    }
}

/// What [`find_ps`] finds: the first placeholder, or none anywhere.
pub proof fn lemma_find_ps(s: Seq<char>)
    ensures
        match find_ps(s) {
            Some(i) => 0 <= i && i + 2 <= s.len() && s[i] == '%' && s[i + 1] == 's' && forall|
                j: int,
            |
                0 <= j < i ==> !((#[trigger] s[j]) == '%' && s[j + 1] == 's'),
            None => forall|j: int|
                0 <= j && j + 2 <= s.len() ==> !((#[trigger] s[j]) == '%' && s[j + 1] == 's'),
        },
    decreases s.len(),
{
    if s.len() >= 2 && !(s[0] == '%' && s[1] == 's') {
        lemma_find_ps(s.skip(1));
        let t = s.skip(1);
        assert(forall|j: int| 0 <= j < t.len() ==> (#[trigger] t[j]) == s[j + 1]);
        match find_ps(t) {
            Some(i) => {
                assert(s[i + 1] == t[i] && s[i + 2] == t[i + 1]);
                assert forall|j: int| 0 <= j < i + 1 implies !((#[trigger] s[j]) == '%' && s[j
                    + 1] == 's') by {
                    if j > 0 {
                        assert(t[j - 1] == s[j] && t[j] == s[j + 1]);
                    }
                }
            },
            None => {
                assert forall|j: int| 0 <= j && j + 2 <= s.len() implies !((#[trigger] s[j])
                    == '%' && s[j + 1] == 's') by {
                    if j > 0 {
                        assert(t[j - 1] == s[j] && t[j] == s[j + 1]);
                    }
                }
            },
        }
    }
}

/// The template with the joined index tuple substituted in: at the first
/// `%s` when there is one, else appended after an underscore.
pub open spec fn subst_name(template: Seq<char>, joined: Seq<char>) -> Seq<char> {
    match find_ps(template) {
        Some(i) => template.take(i) + joined + template.skip(i + 2),
        None => template + seq!['_'] + joined,
    }
}

/// A freshly built batch variable: named by the substituted template,
/// bounded and categorized as asked, unsolved.
pub open spec fn fresh_var_ok(
    v: LpVariable,
    name_text: Seq<char>,
    lb: Option<i64>,
    ub: Option<i64>,
    cat: crate::variable::LpCategory,
) -> bool {
    &&& v.wf()
    &&& v.key() == Some(crate::element::sanitize_spec(name_text))
    &&& v.category == (if cat == crate::variable::LpCategory::Binary {
        crate::variable::LpCategory::Integer
    } else {
        cat
    })
    &&& v.low_bound == (if cat == crate::variable::LpCategory::Binary {
        Some(0i64)
    } else {
        lb
    })
    &&& v.up_bound == (if cat == crate::variable::LpCategory::Binary {
        Some(crate::fixnum::SCALE)
    } else {
        ub
    })
    &&& v.var_value is None
    &&& v.dj is None
}

/// The tree shape [`LpProblem::dicts`] promises: one node level per index
/// list, keyed by the index values in order, with a fresh variable at
/// each leaf named by the accumulated index tuple.
pub open spec fn dicts_ok(
    t: LpVariableTree,
    template: Seq<char>,
    indices: Seq<Seq<Seq<char>>>,
    acc: Seq<Seq<char>>,
    lb: Option<i64>,
    ub: Option<i64>,
    cat: crate::variable::LpCategory,
) -> bool
    decreases indices.len(),
{
    if indices.len() == 0 {
        t matches LpVariableTree::Node(m) && m@.len() == 0
    } else {
        t matches LpVariableTree::Node(m) && m@.len() == indices[0].len() && forall|i: int|
            0 <= i < indices[0].len() ==> (#[trigger] m@[i]).0@ == indices[0][i] && (if indices.len()
                == 1 {
                m@[i].1 matches LpVariableTree::Leaf(v) && fresh_var_ok(
                    v,
                    subst_name(template, join_underscore(acc.push(indices[0][i]))),
                    lb,
                    ub,
                    cat,
                )
            } else {
                dicts_ok(m@[i].1, template, indices.skip(1), acc.push(indices[0][i]), lb, ub, cat)
            })
    }
}

/// Clones a list of strings.
fn clone_string_vec(v: &Vec<String>) -> (r: Vec<String>)
    ensures
        r@ == v@,
{
    let mut out: Vec<String> = Vec::new();
    let n = v.len();
    let mut i: usize = 0;
    while i < n
        invariant
            i <= n,
            out@ == v@.subrange(0, i as int),
        decreases n - i,
    {
        out.push(v[i].clone());
        proof {
            assert(out@ =~= v@.subrange(0, i as int + 1));
        }
        i += 1;
    }
    proof {
        assert(v@.subrange(0, n as int) =~= v@);
    }
    out
}

/// Joins index values with underscores.
fn join_underscore_exec(parts: &Vec<String>) -> (r: String)
    ensures
        r@ == join_underscore(str_views(parts@)),
{
    let mut out = String::new();
    let n = parts.len();
    let mut i: usize = 0;
    while i < n
        invariant
            i <= n,
            out@ == join_underscore(str_views(parts@.take(i as int))),
        decreases n - i,
    {
        if i > 0 {
            push_char(&mut out, '_');
        }
        out.append(parts[i].as_str());
        i += 1;
        proof {
            let pv = str_views(parts@.take(i as int));
            assert(pv.drop_last() =~= str_views(parts@.take(i as int - 1)));
            assert(pv.last() == parts@[i - 1]@);
            if i == 1 {
                assert(out@ =~= join_underscore(pv));
            } else {
                assert(out@ =~= join_underscore(pv));
            }
        }
    }
    proof {
        assert(parts@.take(n as int) =~= parts@);
    }
    out
}

/// Substitutes the joined index tuple into the name template.
fn subst_name_exec(template: &str, joined: &str) -> (r: String)
    ensures
        r@ == subst_name(template@, joined@),
{
    let n = template.unicode_len();
    let mut i: usize = 0;
    proof {
        lemma_find_ps(template@);
    }
    while i < n && i + 1 < n
        invariant
            i <= n,
            forall|j: int|
                0 <= j < i ==> !((#[trigger] template@[j]) == '%' && template@[j + 1] == 's'),
        decreases n - i,
    {
        if template.get_char(i) == '%' && template.get_char(i + 1) == 's' {
            let mut out = String::new();
            out.append(template.substring_char(0, i));
            out.append(joined);
            out.append(template.substring_char(i + 2, n));
            proof {
                assert(find_ps(template@) == Some(i as int)) by {
                    match find_ps(template@) {
                        Some(k) => {
                            if k < i {
                                assert(!(template@[k] == '%' && template@[k + 1] == 's'));
                            }
                            if k > i {
                                assert(!(template@[i as int] == '%' && template@[i as int + 1]
                                    == 's'));
                            }
                        },
                        None => {
                            assert(!(template@[i as int] == '%' && template@[i as int + 1]
                                == 's'));
                        },
                    }
                }
                assert(template@.subrange(0, i as int) =~= template@.take(i as int));
                assert(template@.subrange(i as int + 2, n as int) =~= template@.skip(i as int + 2));
                assert(out@ =~= subst_name(template@, joined@));
            }
            return out;
        }
        i += 1;
    }
    proof {
        assert(find_ps(template@) is None) by {
            match find_ps(template@) {
                Some(k) => {
                    assert(!(template@[k] == '%' && template@[k + 1] == 's'));
                },
                None => (),
            }
        }
    }
    let mut out = String::new();
    out.append(template);
    push_char(&mut out, '_');
    out.append(joined);
    proof {
        assert(out@ =~= subst_name(template@, joined@));
    }
    out
}

/// Materializes the Cartesian product of the index lists as index
/// tuples, in lexicographic position order.
fn index_product_exec(indices: &Vec<Vec<String>>) -> (r: Vec<Vec<String>>)
    ensures
        deep_views(r@) == index_product(deep_views(indices@)),
{
    let mut acc: Vec<Vec<String>> = Vec::new();
    acc.push(Vec::new());
    proof {
        assert(deep_views(indices@).take(0) =~~= Seq::<Seq<Seq<char>>>::empty());
        assert(deep_views(acc@) =~~= index_product(deep_views(indices@).take(0)));
    }
    let n = indices.len();
    let mut d: usize = 0;
    while d < n
        invariant
            d <= n,
            n == indices@.len(),
            deep_views(acc@) == index_product(deep_views(indices@).take(d as int)),
        decreases n - d,
    {
        let ghost pre = deep_views(acc@);
        let ghost lv = str_views(indices@[d as int]@);
        let mut next: Vec<Vec<String>> = Vec::new();
        let m = acc.len();
        let mut a: usize = 0;
        proof {
            assert(pre.take(0) =~~= Seq::<Seq<Seq<char>>>::empty());
            assert(deep_views(next@) =~~= cross(pre.take(0), lv));
        }
        while a < m
            invariant
                a <= m,
                m == acc@.len(),
                pre == deep_views(acc@),
                lv == str_views(indices@[d as int]@),
                d < n,
                n == indices@.len(),
                deep_views(next@) == cross(pre.take(a as int), lv),
            decreases m - a,
        {
            let w = indices[d].len();
            let mut b: usize = 0;
            proof {
                assert(lv.take(0) =~~= Seq::<Seq<char>>::empty());
                assert(tuple_row(pre[a as int], lv.take(0)) =~~= Seq::<Seq<Seq<char>>>::empty());
                assert(deep_views(next@) =~~= cross(pre.take(a as int), lv) + tuple_row(
                    pre[a as int],
                    lv.take(0),
                ));
            }
            while b < w
                invariant
                    b <= w,
                    w == indices@[d as int]@.len(),
                    a < m,
                    m == acc@.len(),
                    pre == deep_views(acc@),
                    lv == str_views(indices@[d as int]@),
                    d < n,
                    n == indices@.len(),
                    deep_views(next@) == cross(pre.take(a as int), lv) + tuple_row(
                        pre[a as int],
                        lv.take(b as int),
                    ),
                decreases w - b,
            {
                let mut t = clone_string_vec(&acc[a]);
                t.push(indices[d][b].clone());
                proof {
                    assert(str_views(t@) =~~= pre[a as int].push(lv[b as int]));
                }
                let ghost prev = deep_views(next@);
                next.push(t);
                b += 1;
                proof {
                    let x = pre[a as int].push(lv[b as int - 1]);
                    assert(deep_views(next@) =~~= prev.push(str_views(next@.last()@)));
                    assert(str_views(next@.last()@) =~~= x);
                    assert(deep_views(next@) =~~= prev.push(x));
                    assert(lv.take(b as int).drop_last() =~~= lv.take(b as int - 1));
                    assert(lv.take(b as int).last() == lv[b as int - 1]);
                    assert(tuple_row(pre[a as int], lv.take(b as int)) =~~= tuple_row(
                        pre[a as int],
                        lv.take(b as int - 1),
                    ).push(x));
                    assert(cross(pre.take(a as int), lv) + tuple_row(
                        pre[a as int],
                        lv.take(b as int - 1),
                    ).push(x) =~~= (cross(pre.take(a as int), lv) + tuple_row(
                        pre[a as int],
                        lv.take(b as int - 1),
                    )).push(x));
                    assert(deep_views(next@) =~~= cross(pre.take(a as int), lv) + tuple_row(
                        pre[a as int],
                        lv.take(b as int),
                    ));
                }
            }
            a += 1;
            proof {
                assert(lv.take(w as int) =~~= lv);
                assert(pre.take(a as int).drop_last() =~~= pre.take(a as int - 1));
                assert(pre.take(a as int).last() == pre[a as int - 1]);
                assert(deep_views(next@) =~~= cross(pre.take(a as int), lv));
            }
        }
        acc = next;
        d += 1;
        proof {
            assert(pre.take(m as int) =~~= pre);
            let dv = deep_views(indices@);
            assert(dv.take(d as int).drop_last() =~~= dv.take(d as int - 1));
            assert(dv.take(d as int).last() == dv[d as int - 1]);
            assert(dv[d as int - 1] == lv);
            assert(deep_views(acc@) == index_product(dv.take(d as int)));
        }
    }
    proof {
        assert(deep_views(indices@).take(n as int) =~~= deep_views(indices@));
    }
    acc
}

impl LpProblem {
    /// Builds one fresh variable per index combination: the template,
    /// with the joined index tuple substituted in, names each one.  Empty
    /// index input yields no variables.
    pub fn matrix(
        name: &str,
        indices: &Vec<Vec<String>>,
        low_bound: Option<i64>,
        up_bound: Option<i64>,
        category: crate::variable::LpCategory,
    ) -> (r: Vec<LpVariable>)
        requires
            crate::variable::opt_num_ok(low_bound),
            crate::variable::opt_num_ok(up_bound),
        ensures
            indices@.len() == 0 ==> r@.len() == 0,
            indices@.len() > 0 ==> ({
                let prod = index_product(deep_views(indices@));
                &&& r@.len() == prod.len()
                &&& forall|i: int|
                    0 <= i < prod.len() ==> fresh_var_ok(
                        #[trigger] r@[i],
                        subst_name(name@, join_underscore(prod[i])),
                        low_bound,
                        up_bound,
                        category,
                    )
            }),
    {
        let mut out: Vec<LpVariable> = Vec::new();
        if indices.len() == 0 {
            return out;
        }
        let tuples = index_product_exec(indices);
        let n = tuples.len();
        let mut i: usize = 0;
        while i < n
            invariant
                i <= n,
                n == tuples@.len(),
                deep_views(tuples@) == index_product(deep_views(indices@)),
                crate::variable::opt_num_ok(low_bound),
                crate::variable::opt_num_ok(up_bound),
                out@.len() == i,
                forall|k: int|
                    0 <= k < i ==> fresh_var_ok(
                        #[trigger] out@[k],
                        subst_name(name@, join_underscore(deep_views(tuples@)[k])),
                        low_bound,
                        up_bound,
                        category,
                    ),
            decreases n - i,
        {
            let joined = join_underscore_exec(&tuples[i]);
            let vname = subst_name_exec(name, joined.as_str());
            let v = LpVariable::new(Some(vname), low_bound, up_bound, category);
            out.push(v);
            i += 1;
        }
        out
    }

    /// Builds one fresh variable per index combination, keyed by its
    /// index tuple.  Empty index input yields an empty mapping.
    pub fn dict(
        name: &str,
        indices: &Vec<Vec<String>>,
        low_bound: Option<i64>,
        up_bound: Option<i64>,
        category: crate::variable::LpCategory,
    ) -> (r: Vec<(Vec<String>, LpVariable)>)
        requires
            crate::variable::opt_num_ok(low_bound),
            crate::variable::opt_num_ok(up_bound),
        ensures
            indices@.len() == 0 ==> r@.len() == 0,
            indices@.len() > 0 ==> ({
                let prod = index_product(deep_views(indices@));
                &&& r@.len() == prod.len()
                &&& forall|i: int|
                    0 <= i < prod.len() ==> str_views((#[trigger] r@[i]).0@) == prod[i]
                        && fresh_var_ok(
                        r@[i].1,
                        subst_name(name@, join_underscore(prod[i])),
                        low_bound,
                        up_bound,
                        category,
                    )
            }),
    {
        let mut out: Vec<(Vec<String>, LpVariable)> = Vec::new();
        if indices.len() == 0 {
            return out;
        }
        let tuples = index_product_exec(indices);
        let n = tuples.len();
        let mut i: usize = 0;
        while i < n
            invariant
                i <= n,
                n == tuples@.len(),
                deep_views(tuples@) == index_product(deep_views(indices@)),
                crate::variable::opt_num_ok(low_bound),
                crate::variable::opt_num_ok(up_bound),
                out@.len() == i,
                forall|k: int|
                    0 <= k < i ==> str_views((#[trigger] out@[k]).0@) == deep_views(tuples@)[k]
                        && fresh_var_ok(
                        out@[k].1,
                        subst_name(name@, join_underscore(deep_views(tuples@)[k])),
                        low_bound,
                        up_bound,
                        category,
                    ),
            decreases n - i,
        {
            let joined = join_underscore_exec(&tuples[i]);
            let vname = subst_name_exec(name, joined.as_str());
            let v = LpVariable::new(Some(vname), low_bound, up_bound, category);
            let key = clone_string_vec(&tuples[i]);
            out.push((key, v));
            i += 1;
        }
        out
    }

    /// Builds the nested mapping of fresh variables: one node level per
    /// index list, a leaf variable per full index combination.  Empty
    /// index input yields an empty mapping.
    pub fn dicts(
        name: &str,
        indices: &Vec<Vec<String>>,
        low_bound: Option<i64>,
        up_bound: Option<i64>,
        category: crate::variable::LpCategory,
    ) -> (r: LpVariableTree)
        requires
            crate::variable::opt_num_ok(low_bound),
            crate::variable::opt_num_ok(up_bound),
        ensures
            dicts_ok(
                r,
                name@,
                deep_views(indices@),
                Seq::<Seq<char>>::empty(),
                low_bound,
                up_bound,
                category,
            ),
    {
        let acc: Vec<String> = Vec::new();
        proof {
            assert(deep_views(indices@).skip(0) =~= deep_views(indices@));
            assert(str_views(acc@) =~= Seq::<Seq<char>>::empty());
        }
        dicts_from(name, indices, 0, &acc, low_bound, up_bound, category)
    }
}

/// Builds the subtree of [`LpProblem::dicts`] below depth `d`, the index
/// values chosen so far accumulated in `acc`.
fn dicts_from(
    name: &str,
    indices: &Vec<Vec<String>>,
    d: usize,
    acc: &Vec<String>,
    low_bound: Option<i64>,
    up_bound: Option<i64>,
    category: crate::variable::LpCategory,
) -> (r: LpVariableTree)
    requires
        d <= indices@.len(),
        crate::variable::opt_num_ok(low_bound),
        crate::variable::opt_num_ok(up_bound),
    ensures
        dicts_ok(
            r,
            name@,
            deep_views(indices@).skip(d as int),
            str_views(acc@),
            low_bound,
            up_bound,
            category,
        ),
    decreases indices@.len() - d,
{
    let ghost rest = deep_views(indices@).skip(d as int);
    if d == indices.len() {
        let m: Vec<(String, LpVariableTree)> = Vec::new();
        proof {
            assert(rest.len() == 0);
        }
        return LpVariableTree::Node(m);
    }
    let w = indices[d].len();
    let mut m: Vec<(String, LpVariableTree)> = Vec::new();
    let mut b: usize = 0;
    proof {
        assert(rest[0] == str_views(indices@[d as int]@));
        assert(rest.len() == indices@.len() - d);
    }
    while b < w
        invariant
            b <= w,
            w == indices@[d as int]@.len(),
            d < indices@.len(),
            rest == deep_views(indices@).skip(d as int),
            crate::variable::opt_num_ok(low_bound),
            crate::variable::opt_num_ok(up_bound),
            m@.len() == b,
            forall|i: int|
                0 <= i < b ==> (#[trigger] m@[i]).0@ == rest[0][i] && (if rest.len() == 1 {
                    m@[i].1 matches LpVariableTree::Leaf(v) && fresh_var_ok(
                        v,
                        subst_name(name@, join_underscore(str_views(acc@).push(rest[0][i]))),
                        low_bound,
                        up_bound,
                        category,
                    )
                } else {
                    dicts_ok(
                        m@[i].1,
                        name@,
                        rest.skip(1),
                        str_views(acc@).push(rest[0][i]),
                        low_bound,
                        up_bound,
                        category,
                    )
                }),
        decreases w - b,
    {
        let mut acc2 = clone_string_vec(acc);
        acc2.push(indices[d][b].clone());
        proof {
            assert(str_views(acc2@) =~= str_views(acc@).push(rest[0][b as int]));
        }
        if d + 1 == indices.len() {
            let joined = join_underscore_exec(&acc2);
            let vname = subst_name_exec(name, joined.as_str());
            let v = LpVariable::new(Some(vname), low_bound, up_bound, category);
            m.push((indices[d][b].clone(), LpVariableTree::Leaf(v)));
            proof {
                assert(rest.len() == 1);
            }
        } else {
            let sub = dicts_from(name, indices, d + 1, &acc2, low_bound, up_bound, category);
            proof {
                assert(deep_views(indices@).skip(d as int + 1) =~= rest.skip(1));
            }
            m.push((indices[d][b].clone(), sub));
        }
        b += 1;
    }
    LpVariableTree::Node(m)
}

/// A variable list holds a key exactly when its key sequence does.
pub proof fn lemma_contains_var_key_iff(s: Seq<LpVariable>, k: Option<Seq<char>>)
    ensures
        contains_var_key(s, k) <==> var_keys(s).contains(k),
{
    if contains_var_key(s, k) {
        let i = choose|i: int| 0 <= i < s.len() && (#[trigger] s[i]).key() == k;
        assert(var_keys(s)[i] == k);
    }
    if var_keys(s).contains(k) {
        let i = choose|i: int| 0 <= i < var_keys(s).len() && var_keys(s)[i] == k;
        assert(s[i].key() == k);
    }
}

} // verus!
