//! Deterministic LP-format text emission.
//!
//! Terms are emitted sorted by variable name; long term runs are wrapped
//! onto lines of at most [`LP_CPLEX_LP_LINE_SIZE`] characters, flushing the
//! line whenever the next chunk would push the running character count
//! past the limit ([`wrap_fold`]); the soundness of that wrapping is
//! [`lemma_wrap_fold_sound`].

use vstd::prelude::*;
use crate::expression::{LpAffineExpression, LpTerm, MAX_TERMS};
use crate::fixnum::{SCALE, iabs, num_ok};
use crate::text::{push_char, push_fixed12, push_fixed_short, fixed12, fixed_short};
use crate::variable::LpVariable;

verus! {

/// The longest line the LP text format allows.
pub const LP_CPLEX_LP_LINE_SIZE: usize = 78;

/// The sorting key of a term's variable: its name, or empty when unnamed.
pub open spec fn key_text(v: LpVariable) -> Seq<char> {
    match v.key() {
        Some(s) => s,
        None => Seq::<char>::empty(),
    }
}

/// Lexicographic order on character sequences, by code point, a prefix
/// ordering before everything it prefixes.
pub open spec fn lex_le(a: Seq<char>, b: Seq<char>) -> bool
    decreases a.len(),
{
    if a.len() == 0 {
        true
    } else if b.len() == 0 {
        false
    } else if (a[0] as u32) < (b[0] as u32) {
        true
    } else if (a[0] as u32) > (b[0] as u32) {
        false
    } else {
        lex_le(a.skip(1), b.skip(1))
    }
}

/// The order is total.
pub proof fn lemma_lex_le_total(a: Seq<char>, b: Seq<char>)
    ensures
        lex_le(a, b) || lex_le(b, a),
    decreases a.len(),
{
    if a.len() > 0 && b.len() > 0 && (a[0] as u32) == (b[0] as u32) {
        lemma_lex_le_total(a.skip(1), b.skip(1));
    }
}

/// The order is transitive.
pub proof fn lemma_lex_le_trans(a: Seq<char>, b: Seq<char>, c: Seq<char>)
    requires
        lex_le(a, b),
        lex_le(b, c),
    ensures
        lex_le(a, c),
    decreases a.len(),
{
    if a.len() > 0 && b.len() > 0 && c.len() > 0 && (a[0] as u32) == (b[0] as u32) && (
    b[0] as u32) == (c[0] as u32) {
        lemma_lex_le_trans(a.skip(1), b.skip(1), c.skip(1));
    }
}

/// Sharing a prefix of length `i`, two sequences compare as their tails
/// do.
proof fn lemma_lex_le_common_prefix(a: Seq<char>, b: Seq<char>, i: int)
    requires
        0 <= i <= a.len(),
        i <= b.len(),
        forall|j: int| 0 <= j < i ==> (a[j] as u32) == (b[j] as u32),
    ensures
        lex_le(a, b) == lex_le(a.skip(i), b.skip(i)),
    decreases i,
{
    if i > 0 {
        assert(a.len() > 0 && b.len() > 0 && (a[0] as u32) == (b[0] as u32));
        assert(lex_le(a, b) == lex_le(a.skip(1), b.skip(1)));
        assert(a.skip(1).skip(i - 1) =~= a.skip(i));
        assert(b.skip(1).skip(i - 1) =~= b.skip(i));
        lemma_lex_le_common_prefix(a.skip(1), b.skip(1), i - 1);
    } else {
        assert(a.skip(0) =~= a);
        assert(b.skip(0) =~= b);
    }
}

/// Compares two names in the lexicographic order.
pub fn lex_le_exec(a: &str, b: &str) -> (r: bool)
    ensures
        r == lex_le(a@, b@),
{
    let na = a.unicode_len();
    let nb = b.unicode_len();
    let min = if na < nb {
        na
    } else {
        nb
    };
    let mut i: usize = 0;
    while i < min && (a.get_char(i) as u32) == (b.get_char(i) as u32)
        invariant
            i <= min,
            forall|j: int| 0 <= j < i ==> (a@[j] as u32) == (b@[j] as u32),
        decreases min - i,
    {
        i += 1;
    }
    proof {
        lemma_lex_le_common_prefix(a@, b@, i as int);
    }
    if i == na {
        proof {
            assert(a@.skip(i as int).len() == 0);
        }
        true
    } else if i == nb {
        proof {
            assert(b@.skip(i as int).len() == 0);
            assert(a@.skip(i as int).len() > 0);
        }
        false
    } else {
        let ca = a.get_char(i);
        let cb = b.get_char(i);
        proof {
            assert(a@.skip(i as int)[0] == a@[i as int]);
            assert(b@.skip(i as int)[0] == b@[i as int]);
        }
        (ca as u32) < (cb as u32)
    }
}

/// Compares two variables by name, an unnamed variable reading as the
/// empty name.
pub fn var_key_le(a: &LpVariable, b: &LpVariable) -> (r: bool)
    ensures
        r == lex_le(key_text(*a), key_text(*b)),
{
    proof {
        reveal_strlit("");
        assert(""@ =~= Seq::<char>::empty());
    }
    let an = match &a.name {
        Some(n) => n.as_str(),
        None => "",
    };
    let bn = match &b.name {
        Some(n) => n.as_str(),
        None => "",
    };
    lex_le_exec(an, bn)
}

/// Sorted ascending by variable name.
pub open spec fn sorted_by_key(s: Seq<LpTerm>) -> bool {
    forall|i: int, j: int|
        0 <= i < j < s.len() ==> lex_le(
            key_text((#[trigger] s[i]).0),
            key_text((#[trigger] s[j]).0),
        )
}

/// `t` holds exactly the terms of `s`, sorted by variable name.
pub open spec fn is_sorted_of(t: Seq<LpTerm>, s: Seq<LpTerm>) -> bool {
    &&& t.to_multiset() == s.to_multiset()
    &&& sorted_by_key(t)
}

/// The views of a list of strings.
pub open spec fn str_views(v: Seq<String>) -> Seq<Seq<char>> {
    v.map(|i: int, s: String| s@)
}

/// The total character count of a chunk list.
pub open spec fn chunks_len(line: Seq<Seq<char>>) -> int
    decreases line.len(),
{
    if line.len() == 0 {
        0
    } else {
        chunks_len(line.drop_last()) + line.last().len()
    }
}

/// The chunks joined into one piece of text.
pub open spec fn flat(line: Seq<Seq<char>>) -> Seq<char>
    decreases line.len(),
{
    if line.len() == 0 {
        Seq::<char>::empty()
    } else {
        flat(line.drop_last()) + line.last()
    }
}

/// Joining yields exactly as many characters as the chunks hold.
pub proof fn lemma_flat_len(line: Seq<Seq<char>>)
    ensures
        flat(line).len() == chunks_len(line),
    decreases line.len(),
{
    if line.len() > 0 {
        lemma_flat_len(line.drop_last());
    }
}

/// Joining, decomposed at the front.
pub proof fn lemma_flat_front(line: Seq<Seq<char>>)
    requires
        line.len() > 0,
    ensures
        flat(line) == line[0] + flat(line.skip(1)),
    decreases line.len(),
{
    assert(flat(Seq::<Seq<char>>::empty()) == Seq::<char>::empty());
    if line.len() == 1 {
        assert(line.drop_last() =~= Seq::<Seq<char>>::empty());
        assert(line.skip(1) =~= Seq::<Seq<char>>::empty());
        assert(line.last() == line[0]);
        assert(flat(line) == flat(Seq::<Seq<char>>::empty()) + line[0]);
        assert(Seq::<char>::empty() + line[0] =~= line[0]);
        assert(line[0] + Seq::<char>::empty() =~= line[0]);
    } else {
        let d = line.drop_last();
        lemma_flat_front(d);
        assert(line.skip(1).drop_last() =~= d.skip(1));
        assert(line.skip(1).last() == line.last());
        assert(flat(line.skip(1)) == flat(d.skip(1)) + line.last());
        assert((d[0] + flat(d.skip(1))) + line.last() =~= d[0] + (flat(d.skip(1)) + line.last()));
        assert(d[0] == line[0]);
    }
}

/// One wrapping step: a chunk that would push the running line past the
/// width limit flushes the line first and starts a new one.
pub open spec fn wrap_step(state: (Seq<Seq<char>>, Seq<Seq<char>>), t: Seq<char>) -> (
    Seq<Seq<char>>,
    Seq<Seq<char>>,
) {
    if chunks_len(state.1) + t.len() > LP_CPLEX_LP_LINE_SIZE {
        (state.0.push(flat(state.1)), seq![t])
    } else {
        (state.0, state.1.push(t))
    }
}

/// Wrapping a chunk sequence: each chunk in turn goes through
/// [`wrap_step`]; the result is the flushed lines and the open line.
pub open spec fn wrap_fold(state: (Seq<Seq<char>>, Seq<Seq<char>>), chunks: Seq<Seq<char>>) -> (
    Seq<Seq<char>>,
    Seq<Seq<char>>,
)
    decreases chunks.len(),
{
    if chunks.len() == 0 {
        state
    } else {
        wrap_fold(wrap_step(state, chunks[0]), chunks.skip(1))
    }
}

/// Folding one more chunk is one more step.
pub proof fn lemma_wrap_fold_push(
    state: (Seq<Seq<char>>, Seq<Seq<char>>),
    s: Seq<Seq<char>>,
    t: Seq<char>,
)
    ensures
        wrap_fold(state, s.push(t)) == wrap_step(wrap_fold(state, s), t),
    decreases s.len(),
{
    if s.len() == 0 {
        assert(s.push(t)[0] == t);
        assert(s.push(t).skip(1) =~= Seq::<Seq<char>>::empty());
        assert(wrap_fold(wrap_step(state, t), Seq::<Seq<char>>::empty()) == wrap_step(state, t));
        assert(wrap_fold(state, Seq::<Seq<char>>::empty()) == state);
    } else {
        assert(s.push(t)[0] == s[0]);
        assert(s.push(t).skip(1) =~= s.skip(1).push(t));
        lemma_wrap_fold_push(wrap_step(state, s[0]), s.skip(1), t);
    }
}

/// Every line stays within the width limit.
pub open spec fn all_lines_fit(lines: Seq<Seq<char>>) -> bool {
    forall|i: int| 0 <= i < lines.len() ==> (#[trigger] lines[i]).len() <= LP_CPLEX_LP_LINE_SIZE
}

/// The LP line wrapping is sound.  Starting from fitting flushed lines
/// and a fitting open line, and given chunks that each fit the width on
/// their own: every flushed line still fits, the open line still fits,
/// nothing is lost or reordered — the flushed lines and the open line
/// concatenate back to the starting content followed by the chunks — and
/// lines are only ever added.
pub proof fn lemma_wrap_fold_sound(state: (Seq<Seq<char>>, Seq<Seq<char>>), chunks: Seq<Seq<char>>)
    requires
        all_lines_fit(state.0),
        chunks_len(state.1) <= LP_CPLEX_LP_LINE_SIZE,
        forall|i: int|
            0 <= i < chunks.len() ==> (#[trigger] chunks[i]).len() <= LP_CPLEX_LP_LINE_SIZE,
    ensures
        ({
            let w = wrap_fold(state, chunks);
            &&& all_lines_fit(w.0)
            &&& chunks_len(w.1) <= LP_CPLEX_LP_LINE_SIZE
            &&& flat(w.0) + flat(w.1) == flat(state.0) + flat(state.1) + flat(chunks)
            &&& w.0.len() >= state.0.len()
        }),
    decreases chunks.len(),
{
    let w = wrap_fold(state, chunks);
    if chunks.len() == 0 {
        assert(flat(chunks).len() == 0);
        assert(flat(w.0) + flat(w.1) =~= flat(state.0) + flat(state.1) + flat(chunks));
    } else {
        let t = chunks[0];
        let mid = wrap_step(state, t);
        assert(forall|i: int|
            0 <= i < chunks.skip(1).len() ==> (#[trigger] chunks.skip(1)[i]).len()
                <= LP_CPLEX_LP_LINE_SIZE);
        if chunks_len(state.1) + t.len() > LP_CPLEX_LP_LINE_SIZE {
            lemma_flat_len(state.1);
            assert(all_lines_fit(mid.0)) by {
                assert(forall|i: int|
                    0 <= i < state.0.len() ==> mid.0[i] == (#[trigger] state.0[i]));
                assert(mid.0.last() == flat(state.1));
            }
            assert(chunks_len(mid.1) == t.len()) by {
                assert(mid.1.drop_last() =~= Seq::<Seq<char>>::empty());
                assert(chunks_len(Seq::<Seq<char>>::empty()) == 0);
                assert(mid.1.last() == t);
            }
            assert(flat(mid.0) =~= flat(state.0) + flat(state.1)) by {
                assert(mid.0.drop_last() =~= state.0);
            }
            assert(flat(mid.1) =~= t) by {
                assert(mid.1.drop_last() =~= Seq::<Seq<char>>::empty());
                assert(flat(Seq::<Seq<char>>::empty()) == Seq::<char>::empty());
                assert(mid.1.last() == t);
            }
        } else {
            assert(chunks_len(mid.1) == chunks_len(state.1) + t.len()) by {
                assert(mid.1.drop_last() =~= state.1);
                assert(mid.1.last() == t);
            }
            assert(flat(mid.1) =~= flat(state.1) + t) by {
                assert(mid.1.drop_last() =~= state.1);
            }
        }
        lemma_wrap_fold_sound(mid, chunks.skip(1));
        lemma_flat_front(chunks);
        assert(flat(w.0) + flat(w.1) =~= flat(state.0) + flat(state.1) + flat(chunks));
    }
}

/// When the content cannot fit one line, the wrap emits at least two,
/// every one within the width, and they concatenate back to the prefix
/// and the chunks.
pub proof fn lemma_wrap_lines(prefix: Seq<char>, chunks: Seq<Seq<char>>)
    requires
        prefix.len() <= LP_CPLEX_LP_LINE_SIZE,
        forall|i: int|
            0 <= i < chunks.len() ==> (#[trigger] chunks[i]).len() <= LP_CPLEX_LP_LINE_SIZE,
    ensures
        ({
            let w = wrap_fold((Seq::<Seq<char>>::empty(), seq![prefix]), chunks);
            let emitted = w.0.push(flat(w.1));
            &&& all_lines_fit(emitted)
            &&& flat(emitted) == prefix + flat(chunks)
            &&& prefix.len() + chunks_len(chunks) > LP_CPLEX_LP_LINE_SIZE ==> emitted.len() >= 2
        }),
{
    let state = (Seq::<Seq<char>>::empty(), seq![prefix]);
    assert(chunks_len(state.1) == prefix.len()) by {
        assert(state.1.drop_last() =~= Seq::<Seq<char>>::empty());
        assert(chunks_len(Seq::<Seq<char>>::empty()) == 0);
        assert(state.1.last() == prefix);
    }
    assert(flat(state.1) =~= prefix) by {
        assert(state.1.drop_last() =~= Seq::<Seq<char>>::empty());
        assert(flat(Seq::<Seq<char>>::empty()) == Seq::<char>::empty());
        assert(state.1.last() == prefix);
    }
    assert(flat(state.0).len() == 0) by {
        assert(flat(Seq::<Seq<char>>::empty()) == Seq::<char>::empty());
    }
    lemma_wrap_fold_sound(state, chunks);
    let w = wrap_fold(state, chunks);
    let emitted = w.0.push(flat(w.1));
    lemma_flat_len(w.1);
    assert(all_lines_fit(emitted)) by {
        assert(forall|i: int| 0 <= i < w.0.len() ==> emitted[i] == (#[trigger] w.0[i]));
        assert(emitted.last() == flat(w.1));
    }
    assert(flat(emitted) =~= flat(w.0) + flat(w.1)) by {
        assert(emitted.drop_last() =~= w.0);
    }
    assert(flat(emitted) =~= prefix + flat(chunks));
    if prefix.len() + chunks_len(chunks) > LP_CPLEX_LP_LINE_SIZE {
        lemma_flat_len(chunks);
        if w.0.len() == 0 {
            assert(flat(w.0).len() == 0);
            assert(flat(w.1).len() == prefix.len() + chunks_len(chunks));
            assert(false);
        }
    }
}

/// The LP text of one term: an optional sign, the coefficient with
/// twelve decimal places (omitted when its magnitude is exactly one), and
/// the variable name, space-separated.  Only the first term of a run
/// omits the plus sign.
pub open spec fn cplex_term_chunk(c: int, name: Seq<char>, first: bool) -> Seq<char> {
    let sign = if c < 0 {
        seq![' ', '-']
    } else if !first {
        seq![' ', '+']
    } else {
        Seq::<char>::empty()
    };
    if iabs(c) == SCALE as int {
        sign + seq![' '] + name
    } else {
        sign + seq![' '] + fixed12(iabs(c)) + seq![' '] + name
    }
}

/// The LP text chunks of a sorted term run, in order.
pub open spec fn term_chunks(ts: Seq<LpTerm>) -> Seq<Seq<char>> {
    Seq::new(ts.len(), |i: int| cplex_term_chunk(ts[i].1 as int, key_text(ts[i].0), i == 0))
}

/// Writes the LP text of one term.
pub fn build_term_chunk(c: i64, v: &LpVariable, first: bool) -> (r: String)
    requires
        i64::MIN < c,
    ensures
        r@ == cplex_term_chunk(c as int, key_text(*v), first),
{
    let mut out = String::new();
    if c < 0 {
        push_char(&mut out, ' ');
        push_char(&mut out, '-');
    } else if !first {
        push_char(&mut out, ' ');
        push_char(&mut out, '+');
    }
    push_char(&mut out, ' ');
    let a = if c < 0 {
        -c
    } else {
        c
    };
    if a != SCALE {
        push_fixed12(a, &mut out);
        push_char(&mut out, ' ');
    }
    match &v.name {
        Some(n) => out.append(n.as_str()),
        None => (),
    }
    proof {
        assert(out@ =~= cplex_term_chunk(c as int, key_text(*v), first));
    }
    out
}

/// Counts the characters over a list of chunks, as the wrapping rule
/// does.
pub fn count_characters(line: &Vec<String>) -> (r: u128)
    requires
        line@.len() <= 0xffff_ffff,
    ensures
        r as int == chunks_len(str_views(line@)),
{
    let n = line.len();
    let mut acc: u128 = 0;
    let mut j: usize = 0;
    while j < n
        invariant
            j <= n,
            acc as int == chunks_len(str_views(line@.take(j as int))),
            acc as int <= (j as int) * 0x1_0000_0000_0000_0000,
        decreases n - j,
    {
        let l = line[j].as_str().unicode_len();
        acc = acc + (l as u128);
        j += 1;
        proof {
            assert(str_views(line@.take(j as int)).drop_last() =~= str_views(
                line@.take(j as int - 1),
            ));
            assert(str_views(line@.take(j as int)).last() == line@[j - 1]@);
        }
    }
    proof {
        assert(line@.take(n as int) =~= line@);
    }
    acc
}

/// Joins the chunks of one line into its text.
pub fn join_chunks(line: &Vec<String>) -> (r: String)
    ensures
        r@ == flat(str_views(line@)),
{
    let mut out = String::new();
    let n = line.len();
    let mut j: usize = 0;
    proof {
        assert(str_views(line@.take(0)) =~= Seq::<Seq<char>>::empty());
    }
    while j < n
        invariant
            j <= n,
            out@ == flat(str_views(line@.take(j as int))),
        decreases n - j,
    {
        out.append(line[j].as_str());
        j += 1;
        proof {
            assert(str_views(line@.take(j as int)).drop_last() =~= str_views(
                line@.take(j as int - 1),
            ));
            assert(str_views(line@.take(j as int)).last() == line@[j - 1]@);
        }
    }
    proof {
        assert(line@.take(n as int) =~= line@);
    }
    out
}

impl LpAffineExpression {
    /// The terms sorted ascending by variable name.
    pub fn sorted_terms(&self) -> (r: Vec<LpTerm>)
        requires
            self.wf(),
        ensures
            is_sorted_of(r@, self.terms@),
            r@.len() == self.terms@.len(),
            forall|k: int|
                0 <= k < r@.len() ==> num_ok((#[trigger] r@[k]).1 as int) && r@[k].0.wf(),
    {
        let mut out: Vec<LpTerm> = Vec::new();
        let n = self.terms.len();
        let mut i: usize = 0;
        proof {
            broadcast use vstd::seq_lib::group_to_multiset_ensures;

            assert(out@.to_multiset() =~= self.terms@.take(0).to_multiset()) by {
                assert(out@ =~= self.terms@.take(0));
            }
        }
        while i < n
            invariant
                i <= n,
                out@.len() == i,
                out@.to_multiset() == self.terms@.take(i as int).to_multiset(),
                sorted_by_key(out@),
                forall|k: int|
                    0 <= k < out@.len() ==> num_ok((#[trigger] out@[k]).1 as int)
                        && out@[k].0.wf(),
            decreases n - i,
        {
            let term = (self.terms[i].0.clone(), self.terms[i].1);
            let m = out.len();
            let mut pos: usize = 0;
            while pos < m && var_key_le(&out[pos].0, &term.0)
                invariant
                    pos <= m,
                    m == out@.len(),
                    term.0 == self.terms@[i as int].0,
                    forall|j: int|
                        0 <= j < pos ==> lex_le(key_text((#[trigger] out@[j]).0), key_text(term.0)),
                decreases m - pos,
            {
                pos += 1;
            }
            proof {
                if pos < m {
                    lemma_lex_le_total(key_text(out@[pos as int].0), key_text(term.0));
                }
            }
            let ghost pre = out@;
            out.insert(pos, term);
            i += 1;
            proof {
                broadcast use vstd::seq_lib::group_to_multiset_ensures;

                let cur = out@;
                assert(cur.remove(pos as int) =~= pre);
                assert(cur.to_multiset().remove(cur[pos as int]) =~= pre.to_multiset());
                assert(cur.to_multiset().contains(cur[pos as int])) by {
                    assert(cur.contains(cur[pos as int]));
                }
                assert(cur.to_multiset() =~= pre.to_multiset().insert(cur[pos as int]));
                assert(self.terms@.take(i as int).drop_last() =~= self.terms@.take(i as int - 1));
                assert(self.terms@.take(i as int) =~= self.terms@.take(i as int - 1).push(
                    self.terms@[i as int - 1],
                ));
                assert(cur[pos as int] == self.terms@[i as int - 1]);
                assert(cur.to_multiset() =~= self.terms@.take(i as int).to_multiset());
                assert forall|x: int, y: int|
                    0 <= x < y < cur.len() implies lex_le(
                    key_text((#[trigger] cur[x]).0),
                    key_text((#[trigger] cur[y]).0),
                ) by {
                    let kt = key_text(self.terms@[i as int - 1].0);
                    if y < pos {
                        assert(cur[x] == pre[x] && cur[y] == pre[y]);
                    } else if x < pos && y == pos {
                        assert(cur[x] == pre[x]);
                    } else if x < pos && y > pos {
                        assert(cur[x] == pre[x] && cur[y] == pre[y - 1]);
                    } else if x == pos && y > pos {
                        assert(cur[y] == pre[y - 1]);
                        assert(lex_le(kt, key_text(pre[pos as int].0)));
                        if y - 1 > pos {
                            lemma_lex_le_trans(
                                kt,
                                key_text(pre[pos as int].0),
                                key_text(pre[y - 1].0),
                            );
                        }
                    } else {
                        assert(cur[x] == pre[x - 1] && cur[y] == pre[y - 1]);
                    }
                }
                assert forall|k: int|
                    0 <= k < cur.len() implies num_ok((#[trigger] cur[k]).1 as int)
                        && cur[k].0.wf() by {
                    if k < pos {
                        assert(cur[k] == pre[k]);
                    } else if k > pos {
                        assert(cur[k] == pre[k - 1]);
                    }
                }
            }
        }
        proof {
            assert(self.terms@.take(n as int) =~= self.terms@);
        }
        out
    }

    /// The wrapped LP text chunks of the expression's terms, sorted by
    /// variable name: the flushed lines, and the still-open line as its
    /// chunk list.  The label `name:` opens the first line and counts
    /// toward its width.
    pub fn as_cplex_variables_only(&self, name: &str) -> (r: (Vec<String>, Vec<String>))
        requires
            self.wf(),
        ensures
            r.1@.len() >= 1,
            r.0@.len() + r.1@.len() <= self.terms@.len() + 2,
            exists|st: Seq<LpTerm>|
                #[trigger] is_sorted_of(st, self.terms@) && ({
                    let w = wrap_fold(
                        (Seq::<Seq<char>>::empty(), seq![name@ + seq![':']]),
                        term_chunks(st),
                    );
                    str_views(r.0@) == w.0 && str_views(r.1@) == w.1
                }),
    {
        let st = self.sorted_terms();
        let ghost chunks = term_chunks(st@);
        let ghost state0 = (Seq::<Seq<char>>::empty(), seq![name@ + seq![':']]);
        let mut lines: Vec<String> = Vec::new();
        let mut cur: Vec<String> = Vec::new();
        let mut head = String::new();
        head.append(name);
        push_char(&mut head, ':');
        proof {
            assert(head@ =~= name@ + seq![':']);
        }
        cur.push(head);
        proof {
            assert(chunks.take(0) =~= Seq::<Seq<char>>::empty());
            assert(wrap_fold(state0, chunks.take(0)) == state0);
            assert(str_views(lines@) =~= state0.0);
            assert(str_views(cur@) =~= state0.1);
        }
        let n = st.len();
        let mut i: usize = 0;
        while i < n
            invariant
                i <= n,
                n == st@.len(),
                n <= MAX_TERMS,
                cur@.len() >= 1,
                lines@.len() + cur@.len() <= i + 2,
                str_views(lines@) == wrap_fold(state0, chunks.take(i as int)).0,
                str_views(cur@) == wrap_fold(state0, chunks.take(i as int)).1,
            decreases n - i,
        {
            let chunk = build_term_chunk(st[i].1, &st[i].0, i == 0);
            proof {
                assert(chunk@ == chunks[i as int]);
            }
            let cl = chunk.as_str().unicode_len();
            let count = count_characters(&cur);
            let over: bool = if count > (LP_CPLEX_LP_LINE_SIZE as u128) {
                true
            } else {
                (cl as u128) > (LP_CPLEX_LP_LINE_SIZE as u128) - count
            };
            let ghost prelines = lines@;
            let ghost precur = cur@;
            if over {
                let joined = join_chunks(&cur);
                lines.push(joined);
                let mut nc: Vec<String> = Vec::new();
                nc.push(chunk);
                cur = nc;
            } else {
                cur.push(chunk);
            }
            i += 1;
            proof {
                assert(chunks.take(i as int) =~= chunks.take(i as int - 1).push(
                    chunks[i as int - 1],
                ));
                lemma_wrap_fold_push(state0, chunks.take(i as int - 1), chunks[i as int - 1]);
                let w = wrap_fold(state0, chunks.take(i as int - 1));
                if over {
                    assert(chunks_len(w.1) + chunks[i as int - 1].len()
                        > LP_CPLEX_LP_LINE_SIZE);
                    assert(str_views(lines@) =~= w.0.push(flat(w.1)));
                    assert(str_views(cur@) =~= seq![chunks[i as int - 1]]);
                } else {
                    assert(chunks_len(w.1) + chunks[i as int - 1].len()
                        <= LP_CPLEX_LP_LINE_SIZE);
                    assert(str_views(lines@) =~= w.0);
                    assert(str_views(cur@) =~= w.1.push(chunks[i as int - 1]));
                }
            }
        }
        proof {
            assert(chunks.take(n as int) =~= chunks);
        }
        (lines, cur)
    }

    /// The whole wrapped LP text of the expression under its label: the
    /// sorted terms, then the constant (always for a bare number, only
    /// when asked otherwise, and never when it is zero), one newline after
    /// every line.
    pub fn as_cplex_lp_affine_expression(&self, name: &str, with_constant: bool) -> (r: String)
        requires
            self.wf(),
        ensures
            exists|st: Seq<LpTerm>|
                #[trigger] is_sorted_of(st, self.terms@) && ({
                    let w = wrap_fold(
                        (Seq::<Seq<char>>::empty(), seq![name@ + seq![':']]),
                        term_chunks(st),
                    );
                    let w2 = wrap_step(
                        w,
                        constant_chunk(st.len() == 0, with_constant, self.constant as int),
                    );
                    r@ == joined_lines(w2.0.push(flat(w2.1)))
                }),
    {
        let (mut lines, mut cur) = self.as_cplex_variables_only(name);
        let ghost st = choose|st: Seq<LpTerm>|
            #[trigger] is_sorted_of(st, self.terms@) && ({
                let w = wrap_fold(
                    (Seq::<Seq<char>>::empty(), seq![name@ + seq![':']]),
                    term_chunks(st),
                );
                str_views(lines@) == w.0 && str_views(cur@) == w.1
            });
        proof {
            broadcast use vstd::seq_lib::group_to_multiset_ensures;

            assert(st.to_multiset().len() == st.len());
            assert(self.terms@.to_multiset().len() == self.terms@.len());
            assert(st.len() == self.terms@.len());
        }
        let mut term = String::new();
        if self.terms.len() == 0 {
            push_char(&mut term, ' ');
            push_fixed_short(self.constant, &mut term);
        } else if with_constant {
            if self.constant < 0 {
                push_char(&mut term, ' ');
                push_char(&mut term, '-');
                push_char(&mut term, ' ');
                push_fixed_short(-self.constant, &mut term);
            } else if self.constant > 0 {
                push_char(&mut term, ' ');
                push_char(&mut term, '+');
                push_char(&mut term, ' ');
                push_fixed_short(self.constant, &mut term);
            }
        }
        proof {
            assert(term@ =~= constant_chunk(st.len() == 0, with_constant, self.constant as int));
        }
        let cl = term.as_str().unicode_len();
        let count = count_characters(&cur);
        let over: bool = if count > (LP_CPLEX_LP_LINE_SIZE as u128) {
            true
        } else {
            (cl as u128) > (LP_CPLEX_LP_LINE_SIZE as u128) - count
        };
        if over {
            let joined = join_chunks(&cur);
            lines.push(joined);
            let mut nc: Vec<String> = Vec::new();
            nc.push(term);
            cur = nc;
        } else {
            cur.push(term);
        }
        proof {
            let w = wrap_fold(
                (Seq::<Seq<char>>::empty(), seq![name@ + seq![':']]),
                term_chunks(st),
            );
            let t = constant_chunk(st.len() == 0, with_constant, self.constant as int);
            if over {
                assert(chunks_len(w.1) + t.len() > LP_CPLEX_LP_LINE_SIZE);
                assert(str_views(lines@) =~= w.0.push(flat(w.1)));
                assert(str_views(cur@) =~= seq![t]);
            } else {
                assert(chunks_len(w.1) + t.len() <= LP_CPLEX_LP_LINE_SIZE);
                assert(str_views(lines@) =~= w.0);
                assert(str_views(cur@) =~= w.1.push(t));
            }
        }
        let last = join_chunks(&cur);
        lines.push(last);
        proof {
            let w = wrap_fold(
                (Seq::<Seq<char>>::empty(), seq![name@ + seq![':']]),
                term_chunks(st),
            );
            let w2 = wrap_step(
                w,
                constant_chunk(st.len() == 0, with_constant, self.constant as int),
            );
            assert(str_views(lines@) =~= w2.0.push(flat(w2.1)));
        }
        let mut out = String::new();
        let n = lines.len();
        let mut j: usize = 0;
        proof {
            assert(str_views(lines@.take(0)) =~= Seq::<Seq<char>>::empty());
        }
        while j < n
            invariant
                j <= n,
                out@ == joined_lines(str_views(lines@.take(j as int))),
            decreases n - j,
        {
            out.append(lines[j].as_str());
            push_char(&mut out, '\n');
            j += 1;
            proof {
                assert(str_views(lines@.take(j as int)).drop_last() =~= str_views(
                    lines@.take(j as int - 1),
                ));
                assert(str_views(lines@.take(j as int)).last() == lines@[j - 1]@);
                assert(out@ =~= joined_lines(str_views(lines@.take(j as int))));
            }
        }
        proof {
            assert(lines@.take(n as int) =~= lines@);
        }
        out
    }
}

/// The constant's chunk in the LP text: the bare number of a term-less
/// expression; else, when asked for, the signed constant; nothing when it
/// is zero.
pub open spec fn constant_chunk(terms_empty: bool, with_constant: bool, c: int) -> Seq<char> {
    if terms_empty {
        seq![' '] + fixed_short(c)
    } else if with_constant {
        if c < 0 {
            seq![' ', '-', ' '] + fixed_short(iabs(c))
        } else if c > 0 {
            seq![' ', '+', ' '] + fixed_short(c)
        } else {
            Seq::<char>::empty()
        }
    } else {
        Seq::<char>::empty()
    }
}

/// Lines joined with one newline after each.
pub open spec fn joined_lines(lines: Seq<Seq<char>>) -> Seq<char>
    decreases lines.len(),
{
    if lines.len() == 0 {
        Seq::<char>::empty()
    } else {
        joined_lines(lines.drop_last()) + lines.last() + seq!['\n']
    }
}

/// The bounds line of a variable in the LP text: `name free` when
/// unbounded, `name = v` when pinned, else the bounds around the name —
/// a zero lower bound of a continuous variable goes without saying, an
/// absent one reads `-inf`.
pub open spec fn lp_bound_text(v: LpVariable) -> Seq<char> {
    let name = key_text(v);
    if v.low_bound is None && v.up_bound is None {
        name + seq![' ', 'f', 'r', 'e', 'e']
    } else if v.low_bound is Some && v.up_bound == v.low_bound {
        name + seq![' ', '=', ' '] + fixed12(v.low_bound.unwrap() as int)
    } else {
        (match v.low_bound {
            Some(lb) => if lb == 0 && v.category == crate::variable::LpCategory::Continuous {
                Seq::<char>::empty()
            } else {
                fixed12(lb as int) + seq![' ', '<', '=', ' ']
            },
            None => seq!['-', 'i', 'n', 'f', ' ', '<', '=', ' '],
        }) + name + (match v.up_bound {
            Some(ub) => seq![' ', '<', '=', ' '] + fixed12(ub as int),
            None => Seq::<char>::empty(),
        })
    }
}

impl LpVariable {
    /// This variable's bounds line in the LP text.
    #[verifier::rlimit(60)]
    pub fn as_cplex_lp_variable(&self) -> (r: String)
        requires
            self.wf(),
        ensures
            r@ == lp_bound_text(*self),
    {
        let mut out = String::new();
        let free = self.low_bound.is_none() && self.up_bound.is_none();
        let pinned = match (self.low_bound, self.up_bound) {
            (Some(l), Some(u)) => l == u,
            _ => false,
        };
        if free {
            match &self.name {
                Some(n) => out.append(n.as_str()),
                None => (),
            }
            out.append(" free");
            proof {
                reveal_strlit(" free");
                assert(out@ =~= lp_bound_text(*self));
            }
        } else if pinned {
            match &self.name {
                Some(n) => out.append(n.as_str()),
                None => (),
            }
            push_char(&mut out, ' ');
            push_char(&mut out, '=');
            push_char(&mut out, ' ');
            let lb = match self.low_bound {
                Some(l) => l,
                None => 0,
            };
            push_fixed12(lb, &mut out);
            proof {
                assert(out@ =~= lp_bound_text(*self));
            }
        } else {
            match self.low_bound {
                Some(lb) => {
                    let skip = lb == 0 && match self.category {
                        crate::variable::LpCategory::Continuous => true,
                        _ => false,
                    };
                    if !skip {
                        push_fixed12(lb, &mut out);
                        push_char(&mut out, ' ');
                        push_char(&mut out, '<');
                        push_char(&mut out, '=');
                        push_char(&mut out, ' ');
                    }
                },
                None => {
                    out.append("-inf <= ");
                    proof {
                        reveal_strlit("-inf <= ");
                    }
                },
            }
            match &self.name {
                Some(n) => out.append(n.as_str()),
                None => (),
            }
            if let Some(ub) = self.up_bound {
                push_char(&mut out, ' ');
                push_char(&mut out, '<');
                push_char(&mut out, '=');
                push_char(&mut out, ' ');
                push_fixed12(ub, &mut out);
            }
            proof {
                assert(out@ =~= lp_bound_text(*self));
            }
        }
        out
    }
}

/// One term of the plain text form: a sign (bare `-` only at the front),
/// the coefficient and a star unless its absolute value is exactly one,
/// and the name.
pub open spec fn term_text(c: int, name: Seq<char>, first: bool) -> Seq<char> {
    let sign = if c < 0 {
        if first {
            seq!['-']
        } else {
            seq![' ', '-', ' ']
        }
    } else {
        if first {
            Seq::<char>::empty()
        } else {
            seq![' ', '+', ' ']
        }
    };
    let coeff = if iabs(c) != SCALE as int {
        fixed_short(iabs(c)) + seq!['*']
    } else {
        Seq::<char>::empty()
    };
    sign + coeff + name
}

/// The plain text of a sorted term run.
pub open spec fn terms_text(ts: Seq<LpTerm>) -> Seq<char>
    decreases ts.len(),
{
    if ts.len() == 0 {
        Seq::<char>::empty()
    } else {
        terms_text(ts.drop_last()) + term_text(
            ts.last().1 as int,
            key_text(ts.last().0),
            ts.len() == 1,
        )
    }
}

/// The plain text of an expression: its sorted terms and then the signed
/// constant, or the bare constant when there are no terms.
pub open spec fn expr_text(ts_sorted: Seq<LpTerm>, constant: int) -> Seq<char> {
    if ts_sorted.len() == 0 {
        fixed_short(constant)
    } else if constant < 0 {
        terms_text(ts_sorted) + seq![' ', '-', ' '] + fixed_short(iabs(constant))
    } else if constant > 0 {
        terms_text(ts_sorted) + seq![' ', '+', ' '] + fixed_short(constant)
    } else {
        terms_text(ts_sorted)
    }
}

/// The text of a constraint's relation sign.
pub open spec fn sense_text(s: int) -> Seq<char> {
    if s == 0 {
        seq![' ', '=', '=', ' ']
    } else if s == 1 {
        seq![' ', '>', '=', ' ']
    } else {
        seq![' ', '<', '=', ' ']
    }
}

/// Writes one term of the plain text form.
fn build_plain_term(c: i64, v: &LpVariable, first: bool) -> (r: String)
    requires
        i64::MIN < c,
    ensures
        r@ == term_text(c as int, key_text(*v), first),
{
    let mut out = String::new();
    if c < 0 {
        if first {
            push_char(&mut out, '-');
        } else {
            push_char(&mut out, ' ');
            push_char(&mut out, '-');
            push_char(&mut out, ' ');
        }
    } else if !first {
        push_char(&mut out, ' ');
        push_char(&mut out, '+');
        push_char(&mut out, ' ');
    }
    let a = if c < 0 {
        -c
    } else {
        c
    };
    if a != SCALE {
        push_fixed_short(a, &mut out);
        push_char(&mut out, '*');
    }
    match &v.name {
        Some(nm) => out.append(nm.as_str()),
        None => (),
    }
    proof {
        assert(out@ =~= term_text(c as int, key_text(*v), first));
    }
    out
}

impl LpAffineExpression {
    /// The expression written out: terms sorted by name, then the
    /// constant.
    pub fn as_text(&self) -> (r: String)
        requires
            self.wf(),
        ensures
            exists|st: Seq<LpTerm>|
                #[trigger] is_sorted_of(st, self.terms@) && r@ == expr_text(
                    st,
                    self.constant as int,
                ),
    {
        let st = self.sorted_terms();
        let mut out = String::new();
        let n = st.len();
        let mut i: usize = 0;
        proof {
            assert(st@.take(0) =~= Seq::<LpTerm>::empty());
            assert(out@ =~= terms_text(st@.take(0)));
        }
        while i < n
            invariant
                i <= n,
                n == st@.len(),
                forall|k: int|
                    0 <= k < st@.len() ==> num_ok((#[trigger] st@[k]).1 as int) && st@[k].0.wf(),
                out@ == terms_text(st@.take(i as int)),
            decreases n - i,
        {
            let t = build_plain_term(st[i].1, &st[i].0, i == 0);
            out.append(t.as_str());
            i += 1;
            proof {
                assert(st@.take(i as int).drop_last() =~= st@.take(i as int - 1));
                assert(st@.take(i as int).last() == st@[i as int - 1]);
                assert((st@.take(i as int).len() == 1) == (i == 1));
                assert(out@ == terms_text(st@.take(i as int)));
            }
        }
        proof {
            assert(st@.take(n as int) =~= st@);
        }
        if n == 0 {
            push_fixed_short(self.constant, &mut out);
        } else if self.constant < 0 {
            push_char(&mut out, ' ');
            push_char(&mut out, '-');
            push_char(&mut out, ' ');
            push_fixed_short(-self.constant, &mut out);
        } else if self.constant > 0 {
            push_char(&mut out, ' ');
            push_char(&mut out, '+');
            push_char(&mut out, ' ');
            push_fixed_short(self.constant, &mut out);
        }
        proof {
            assert(out@ =~= expr_text(st@, self.constant as int));
        }
        out
    }
}

impl crate::constraint::LpConstraint {
    /// The constraint written out: the expression, the relation sign, and
    /// the right-hand side.
    pub fn as_text(&self) -> (r: String)
        requires
            self.wf(),
        ensures
            exists|st: Seq<LpTerm>|
                #[trigger] is_sorted_of(st, self.expression.terms@) && r@ == expr_text(
                    st,
                    self.expression.constant as int,
                ) + sense_text(self.sense as int) + fixed_short(
                    -(self.expression.constant as int),
                ),
    {
        let mut out = self.expression.as_text();
        let ghost st = choose|st: Seq<LpTerm>|
            #[trigger] is_sorted_of(st, self.expression.terms@) && out@ == expr_text(
                st,
                self.expression.constant as int,
            );
        push_char(&mut out, ' ');
        if self.sense == 0 {
            push_char(&mut out, '=');
            push_char(&mut out, '=');
        } else if self.sense == 1 {
            push_char(&mut out, '>');
            push_char(&mut out, '=');
        } else {
            push_char(&mut out, '<');
            push_char(&mut out, '=');
        }
        push_char(&mut out, ' ');
        push_fixed_short(-self.expression.constant, &mut out);
        proof {
            assert(out@ =~= expr_text(st, self.expression.constant as int) + sense_text(
                self.sense as int,
            ) + fixed_short(-(self.expression.constant as int)));
        }
        out
    }
}

} // verus!
