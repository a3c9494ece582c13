//! Named symbolic entities and name sanitization.
//!
//! A stored name never holds one of the illegal characters
//! `- + [ ] space > /`: on every write the name passes through
//! [`sanitize_name`], which replaces each illegal character by an
//! underscore.  Sanitization is idempotent
//! ([`lemma_sanitize_idempotent`]), so identity by sanitized name is
//! stable.

use vstd::prelude::*;
use crate::text::push_char;

verus! {

/// A character that may not appear in a stored name.
pub open spec fn illegal_char(c: char) -> bool {
    c == '-' || c == '+' || c == '[' || c == ']' || c == ' ' || c == '>' || c == '/'
}

/// What sanitization produces: every illegal character replaced by an
/// underscore, every other character kept in place.
pub open spec fn sanitize_spec(s: Seq<char>) -> Seq<char> {
    s.map(|i: int, c: char| if illegal_char(c) { '_' } else { c })
}

/// A sequence that sanitization would leave unchanged.
pub open spec fn sanitized(s: Seq<char>) -> bool {
    forall|i: int| 0 <= i < s.len() ==> !illegal_char(#[trigger] s[i])
}

/// Sanitization is idempotent and its output holds no illegal character.
pub proof fn lemma_sanitize_idempotent(s: Seq<char>)
    ensures
        sanitized(sanitize_spec(s)),
        sanitize_spec(sanitize_spec(s)) == sanitize_spec(s),
{
    assert(sanitize_spec(sanitize_spec(s)) =~= sanitize_spec(s));
}

/// A sanitized sequence is a fixed point of sanitization.
pub proof fn lemma_sanitized_fixed(s: Seq<char>)
    requires
        sanitized(s),
    ensures
        sanitize_spec(s) == s,
{
    assert(sanitize_spec(s) =~= s);
}

/// Replaces each illegal character of `name` by an underscore and reports
/// whether any replacement happened.
pub fn sanitize_name_report(name: &str) -> (r: (String, bool))
    ensures
        r.0@ == sanitize_spec(name@),
        r.1 <==> !sanitized(name@),
{
    let mut out = String::new();
    let mut changed = false;
    let n = name.unicode_len();
    let mut i: usize = 0;
    while i < n
        invariant
            n == name@.len(),
            i <= n,
            out@ == sanitize_spec(name@.subrange(0, i as int)),
            changed <==> !sanitized(name@.subrange(0, i as int)),
        decreases n - i,
    {
        let c = name.get_char(i);
        if c == '-' || c == '+' || c == '[' || c == ']' || c == ' ' || c == '>' || c == '/' {
            push_char(&mut out, '_');
            changed = true;
        } else {
            push_char(&mut out, c);
        }
        i += 1;
        proof {
            let pre = name@.subrange(0, i as int - 1);
            let cur = name@.subrange(0, i as int);
            assert(cur =~= pre.push(name@[i as int - 1]));
            assert(out@ =~= sanitize_spec(cur));
            assert(sanitized(cur) ==> sanitized(pre)) by {
                if sanitized(cur) {
                    assert(forall|j: int| 0 <= j < pre.len() ==> pre[j] == #[trigger] cur[j]);
                }
            }
            assert(illegal_char(name@[i as int - 1]) ==> !sanitized(cur)) by {
                if illegal_char(name@[i as int - 1]) {
                    assert(cur[i as int - 1] == name@[i as int - 1]);
                }
            }
            assert(sanitized(pre) && !illegal_char(name@[i as int - 1]) ==> sanitized(cur)) by {
                if sanitized(pre) && !illegal_char(name@[i as int - 1]) {
                    assert(forall|j: int| 0 <= j < cur.len() ==> !illegal_char(#[trigger] cur[j]))
                        by {
                        assert(forall|j: int| 0 <= j < pre.len() ==> #[trigger] cur[j] == pre[j]);
                    }
                }
            }
        }
    }
    assert(name@.subrange(0, n as int) =~= name@);
    (out, changed)
}

/// Replaces each illegal character of `name` by an underscore.
pub fn sanitize_name(name: &str) -> (r: String)
    ensures
        r@ == sanitize_spec(name@),
{
    let (out, _) = sanitize_name_report(name);
    out
}

/// A named, sanitized symbolic entity: the base of variables.
/// Two elements are equal exactly when their names are equal.
#[derive(Debug, Hash)]
pub struct LpElement {
    name: Option<String>,
}

impl Clone for LpElement {
    fn clone(&self) -> (r: Self)
        ensures
            r == *self,
    {
        LpElement {
            name: match &self.name {
                Some(n) => Some(n.clone()),
                None => None,
            },
        }
    }
}

/// The name of an optionally named thing, as a mathematical value.
pub open spec fn opt_name_view(n: Option<String>) -> Option<Seq<char>> {
    match n {
        Some(s) => Some(s@),
        None => None,
    }
}

impl LpElement {
    /// The element's name, as a mathematical value.
    pub closed spec fn key(&self) -> Option<Seq<char>> {
        opt_name_view(self.name)
    }

    /// The stored name holds no illegal character.
    pub closed spec fn wf(&self) -> bool {
        match self.key() {
            Some(s) => sanitized(s),
            None => true,
        }
    }

    /// Makes an element, sanitizing the name.
    pub fn new(name: Option<String>) -> (r: LpElement)
        ensures
            r.key() == match name {
                Some(n) => Some(sanitize_spec(n@)),
                None => None::<Seq<char>>,
            },
            r.wf(),
    {
        let sane = match name {
            Some(n) => Some(sanitize_name(n.as_str())),
            None => None,
        };
        proof {
            match &sane {
                Some(s) => lemma_sanitize_idempotent(s@),
                None => (),
            }
        }
        LpElement { name: sane }
    }

    /// Replaces the name, sanitizing it.
    pub fn set_name(&mut self, name: Option<String>)
        ensures
            final(self).key() == match name {
                Some(n) => Some(sanitize_spec(n@)),
                None => None::<Seq<char>>,
            },
            final(self).wf(),
    {
        let fresh = Self::new(name);
        self.name = fresh.name;
    }

    /// The stored (sanitized) name.
    pub fn get_name(&self) -> (r: &Option<String>)
        ensures
            opt_name_view(*r) == self.key(),
    {
        &self.name
    }

    /// The stored name, or the empty string when there is none.
    pub fn as_text(&self) -> (r: String)
        ensures
            r@ == match self.key() {
                Some(s) => s,
                None => Seq::<char>::empty(),
            },
    {
        match &self.name {
            Some(n) => n.clone(),
            None => String::new(),
        }
    }
}

impl PartialEq for LpElement {
    fn eq(&self, other: &LpElement) -> (r: bool) {
        match (&self.name, &other.name) {
            (Some(a), Some(b)) => a.eq(b),
            (None, None) => true,
            _ => false,
        }
    }
}

impl vstd::std_specs::cmp::PartialEqSpecImpl for LpElement {
    open spec fn obeys_eq_spec() -> bool {
        true
    }

    open spec fn eq_spec(&self, other: &LpElement) -> bool {
        self.key() == other.key()
    }
}

} // verus!
