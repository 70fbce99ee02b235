//! The tagged operand value: a number, a text, or a boolean, with the
//! cross-type equality policy and the canonical display text shared by the
//! printing instructions.

use vstd::prelude::*;
use crate::numfmt::{spec_render_int, render_i64};

verus! {

/// The mathematical model of an operand value.
#[verifier::ext_equal]
pub enum SpecVal {
    Num(i64),
    Str(Seq<char>),
    Bool(bool),
}

/// An operand value as the interpreter holds it. Texts are kept as their
/// character sequence.
#[derive(Debug, Clone)]
pub enum StackVal {
    Num(i64),
    Str(Vec<char>),
    Bool(bool),
}

impl View for StackVal {
    type V = SpecVal;

    open spec fn view(&self) -> SpecVal {
        match self {
            StackVal::Num(n) => SpecVal::Num(*n),
            StackVal::Str(s) => SpecVal::Str(s@),
            StackVal::Bool(b) => SpecVal::Bool(*b),
        }
    }
}

/// Canonical text of a boolean.
pub open spec fn spec_render_bool(b: bool) -> Seq<char> {
    if b {
        seq!['t', 'r', 'u', 'e']
    } else {
        seq!['f', 'a', 'l', 's', 'e']
    }
}

/// Canonical display text of a value: numbers in decimal, texts verbatim,
/// booleans as `true`/`false`.
pub open spec fn spec_render(v: SpecVal) -> Seq<char> {
    match v {
        SpecVal::Num(n) => spec_render_int(n as int),
        SpecVal::Str(s) => s,
        SpecVal::Bool(b) => spec_render_bool(b),
    }
}

/// Equality across the three value tags: numbers numerically, a boolean
/// against a number as 0/1, any non-text against a text by canonical text,
/// texts exactly. Total; never fails.
pub open spec fn spec_vals_eq(a: SpecVal, b: SpecVal) -> bool {
    match (a, b) {
        (SpecVal::Num(x), SpecVal::Num(y)) => x == y,
        (SpecVal::Num(x), SpecVal::Bool(p)) => x == (if p { 1i64 } else { 0i64 }),
        (SpecVal::Num(x), SpecVal::Str(s)) => spec_render_int(x as int) == s,
        (SpecVal::Bool(p), SpecVal::Num(y)) => (if p { 1i64 } else { 0i64 }) == y,
        (SpecVal::Bool(p), SpecVal::Bool(q)) => p == q,
        (SpecVal::Bool(p), SpecVal::Str(s)) => spec_render_bool(p) == s,
        (SpecVal::Str(s), SpecVal::Num(y)) => spec_render_int(y as int) == s,
        (SpecVal::Str(s), SpecVal::Bool(q)) => spec_render_bool(q) == s,
        (SpecVal::Str(s), SpecVal::Str(t)) => s == t,
    }
}

/// Element-wise equality of two character vectors.
pub fn chars_eq(a: &Vec<char>, b: &Vec<char>) -> (r: bool)
    ensures
        r == (a@ == b@),
{
    if a.len() != b.len() {
        return false;
    }
    let mut i: usize = 0;
    while i < a.len()
        invariant
            0 <= i <= a@.len(),
            a@.len() == b@.len(),
            forall|j: int| 0 <= j < i ==> a@[j] == b@[j],
        decreases a@.len() - i,
    {
        if a[i] != b[i] {
            return false;
        }
        i = i + 1;
    }
    proof {
        assert(a@ =~= b@);
    }
    true
}

/// The canonical display text of a value.
pub fn render(v: &StackVal) -> (r: Vec<char>)
    ensures
        r@ == spec_render(v@),
{
    match v {
        StackVal::Num(n) => render_i64(*n),
        StackVal::Str(s) => {
            let mut out: Vec<char> = Vec::new();
            let mut i: usize = 0;
            while i < s.len()
                invariant
                    0 <= i <= s@.len(),
                    out@ == s@.take(i as int),
                decreases s@.len() - i,
            {
                out.push(s[i]);
                assert(out@ =~= s@.take(i as int + 1));
                i = i + 1;
            }
            proof {
                assert(s@.take(s@.len() as int) =~= s@);
            }
            out
        },
        StackVal::Bool(b) => {
            let mut out: Vec<char> = Vec::new();
            if *b {
                out.push('t');
                out.push('r');
                out.push('u');
                out.push('e');
                assert(out@ =~= spec_render_bool(true));
            } else {
                out.push('f');
                out.push('a');
                out.push('l');
                out.push('s');
                out.push('e');
                assert(out@ =~= spec_render_bool(false));
            }
            out
        },
    }
}

impl PartialEq for StackVal {
    /// The cross-type equality policy, as `==`.
    fn eq(&self, other: &Self) -> (r: bool) {
        match (self, other) {
            (StackVal::Num(x), StackVal::Num(y)) => x == y,
            (StackVal::Num(x), StackVal::Bool(p)) => *x == (if *p { 1i64 } else { 0i64 }),
            (StackVal::Num(x), StackVal::Str(s)) => chars_eq(&render_i64(*x), s),
            (StackVal::Bool(p), StackVal::Num(y)) => (if *p { 1i64 } else { 0i64 }) == *y,
            (StackVal::Bool(p), StackVal::Bool(q)) => p == q,
            (StackVal::Bool(p), StackVal::Str(s)) => {
                let t = render(&StackVal::Bool(*p));
                chars_eq(&t, s)
            },
            (StackVal::Str(s), StackVal::Num(y)) => chars_eq(&render_i64(*y), s),
            (StackVal::Str(s), StackVal::Bool(q)) => {
                let t = render(&StackVal::Bool(*q));
                chars_eq(&t, s)
            },
            (StackVal::Str(s), StackVal::Str(t)) => chars_eq(s, t),
        }
    }
}

impl vstd::std_specs::cmp::PartialEqSpecImpl for StackVal {
    open spec fn obeys_eq_spec() -> bool {
        true
    }

    open spec fn eq_spec(&self, other: &StackVal) -> bool {
        spec_vals_eq(self@, other@)
    }
}

/// Value equality is reflexive: every value equals itself under the
/// cross-type policy.
pub proof fn lemma_vals_eq_reflexive(v: SpecVal)
    ensures
        spec_vals_eq(v, v),
{
}

/// Value equality is symmetric across all three tags.
pub proof fn lemma_vals_eq_symmetric(a: SpecVal, b: SpecVal)
    ensures
        spec_vals_eq(a, b) == spec_vals_eq(b, a),
{
}

} // verus!
