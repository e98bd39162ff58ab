//! The parsed form of a list expression.

use vstd::prelude::*;

use crate::text::{clone_string, from_str, push_str};

verus! {

#[derive(Debug, Clone, Copy, PartialEq, Eq, Structural)]
pub enum SetOp {
    /// `|` or `+` - everything in either side, duplicates collapsed.
    Union,
    /// `-` - everything in the left side that is not in the right side.
    Difference,
    /// `&` - only what appears in both sides.
    Intersection,
    /// `^` - what appears in exactly one of the two sides.
    SymmetricDifference,
}

pub open spec fn set_op_symbol(op: SetOp) -> Seq<char> {
    match op {
        SetOp::Union => "|"@,
        SetOp::Difference => "-"@,
        SetOp::Intersection => "&"@,
        SetOp::SymmetricDifference => "^"@,
    }
}

impl SetOp {
    pub fn symbol(self) -> (r: &'static str)
        ensures
            r@ == set_op_symbol(self),
    {
        match self {
            SetOp::Union => "|",
            SetOp::Difference => "-",
            SetOp::Intersection => "&",
            SetOp::SymmetricDifference => "^",
        }
    }
}

#[derive(Debug)]
pub enum Expr {
    /// A source or another list, by name.
    Name(String),
    /// A `*` pattern over configured names, expanded when the config is compiled.
    Wildcard(String),
    Op { op: SetOp, lhs: Box<Expr>, rhs: Box<Expr> },
}

/// The mathematical form of an expression.
pub enum ExprV {
    Name(Seq<char>),
    Wildcard(Seq<char>),
    Op(SetOp, Box<ExprV>, Box<ExprV>),
}

pub open spec fn expr_view(e: &Expr) -> ExprV
    decreases e,
{
    match e {
        Expr::Name(n) => ExprV::Name(n@),
        Expr::Wildcard(p) => ExprV::Wildcard(p@),
        Expr::Op { op, lhs, rhs } => ExprV::Op(
            *op,
            Box::new(expr_view(lhs)),
            Box::new(expr_view(rhs)),
        ),
    }
}

impl View for Expr {
    type V = ExprV;

    open spec fn view(&self) -> ExprV {
        expr_view(self)
    }
}

/// Every name leaf, left to right, repeats included. Patterns are not names.
pub open spec fn name_leaves(e: ExprV) -> Seq<Seq<char>>
    decreases e,
{
    match e {
        ExprV::Name(n) => seq![n],
        ExprV::Wildcard(_) => seq![],
        ExprV::Op(_, l, r) => name_leaves(*l) + name_leaves(*r),
    }
}

/// Whether an expression holds no pattern, only names.
pub open spec fn wildcard_free(e: ExprV) -> bool
    decreases e,
{
    match e {
        ExprV::Name(_) => true,
        ExprV::Wildcard(_) => false,
        ExprV::Op(_, l, r) => wildcard_free(*l) && wildcard_free(*r),
    }
}

/// `acc` extended by each element of `s` that it does not hold yet, in order.
pub open spec fn add_new(acc: Seq<Seq<char>>, s: Seq<Seq<char>>) -> Seq<Seq<char>>
    decreases s.len(),
{
    if s.len() == 0 {
        acc
    } else {
        let next = if acc.contains(s[0]) {
            acc
        } else {
            acc.push(s[0])
        };
        add_new(next, s.drop_first())
    }
}

pub proof fn lemma_add_new_concat(acc: Seq<Seq<char>>, a: Seq<Seq<char>>, b: Seq<Seq<char>>)
    ensures
        add_new(acc, a + b) == add_new(add_new(acc, a), b),
    decreases a.len(),
{
    if a.len() == 0 {
        assert(a + b =~= b);
    } else {
        assert((a + b).drop_first() =~= a.drop_first() + b);
        assert((a + b)[0] == a[0]);
        let next = if acc.contains(a[0]) {
            acc
        } else {
            acc.push(a[0])
        };
        lemma_add_new_concat(next, a.drop_first(), b);
    }
}

pub proof fn lemma_add_new_no_duplicates(acc: Seq<Seq<char>>, s: Seq<Seq<char>>)
    requires
        acc.no_duplicates(),
    ensures
        add_new(acc, s).no_duplicates(),
        forall|x: Seq<char>| add_new(acc, s).contains(x) <==> (acc.contains(x) || s.contains(x)),
    decreases s.len(),
{
    if s.len() > 0 {
        let next = if acc.contains(s[0]) {
            acc
        } else {
            acc.push(s[0])
        };
        assert(next.no_duplicates()) by {
            if !acc.contains(s[0]) {
                assert forall|i: int, j: int|
                    0 <= i < next.len() && 0 <= j < next.len() && i != j implies next[i]
                    != next[j] by {
                    if i == acc.len() as int {
                        assert(next[j] == acc[j]);
                    } else if j == acc.len() as int {
                        assert(next[i] == acc[i]);
                    }
                }
            }
        }
        lemma_add_new_no_duplicates(next, s.drop_first());
        assert forall|x: Seq<char>| add_new(acc, s).contains(x) <==> (acc.contains(x) || s.contains(x)) by {
            if s.contains(x) && x != s[0] {
                let k = choose|k: int| 0 <= k < s.len() && s[k] == x;
                assert(s.drop_first()[k - 1] == x);
            }
            if s.drop_first().contains(x) {
                let k = choose|k: int| 0 <= k < s.drop_first().len() && s.drop_first()[k] == x;
                assert(s[k + 1] == x);
            }
            if next.contains(x) && !acc.contains(x) {
                assert(x == s[0]);
                assert(s[0] == x);
            }
            if x == s[0] && !acc.contains(s[0]) {
                assert(next[acc.len() as int] == x);
            }
            if acc.contains(x) {
                let k = choose|k: int| 0 <= k < acc.len() && acc[k] == x;
                assert(next[k] == x);
            }
        }
    }
}

/// What `add_new` appends keeps `acc` in front, takes names from `s` that
/// `acc` lacks, and lists them by where each first occurs in `s`.
pub proof fn lemma_add_new_order(acc: Seq<Seq<char>>, s: Seq<Seq<char>>)
    ensures
        add_new(acc, s).len() >= acc.len(),
        add_new(acc, s).subrange(0, acc.len() as int) == acc,
        forall|j: int|
            acc.len() <= j < add_new(acc, s).len() ==> s.contains(#[trigger] add_new(acc, s)[j]) && !acc.contains(
                add_new(acc, s)[j],
            ),
        forall|i: int, j: int, q: int|
            #![trigger add_new(acc, s)[i], add_new(acc, s)[j], s[q]]
            acc.len() <= i < j < add_new(acc, s).len() && 0 <= q < s.len() && s[q] == add_new(acc, s)[j]
                ==> s.subrange(0, q).contains(add_new(acc, s)[i]),
    decreases s.len(),
{
    let r = add_new(acc, s);
    if s.len() == 0 {
        assert(r.subrange(0, acc.len() as int) =~= acc);
    } else {
        let t = s.drop_first();
        let next = if acc.contains(s[0]) {
            acc
        } else {
            acc.push(s[0])
        };
        lemma_add_new_order(next, t);
        assert(r == add_new(next, t));
        assert(r.subrange(0, next.len() as int) == next);
        assert(r.subrange(0, acc.len() as int) =~= acc) by {
            assert forall|k: int| 0 <= k < acc.len() implies r[k] == acc[k] by {
                assert(r.subrange(0, next.len() as int)[k] == next[k]);
            }
        }
        assert forall|j: int| acc.len() <= j < r.len() implies s.contains(#[trigger] r[j]) && !acc.contains(r[j]) by {
            if j < next.len() {
                assert(r.subrange(0, next.len() as int)[j] == next[j]);
                assert(r[j] == s[0]);
                assert(s[0] == r[j]);
            } else {
                let k = choose|k: int| 0 <= k < t.len() && t[k] == r[j];
                assert(s[k + 1] == r[j]);
                if acc.contains(r[j]) {
                    let m = choose|m: int| 0 <= m < acc.len() && acc[m] == r[j];
                    assert(next[m] == r[j]);
                }
            }
        }
        assert forall|i: int, j: int, q: int|
            #![trigger r[i], r[j], s[q]]
            acc.len() <= i < j < r.len() && 0 <= q < s.len() && s[q] == r[j] implies s.subrange(0, q).contains(
            r[i],
        ) by {
            if q == 0 {
                // r[j] lies past `next`, so it is not s[0], which `next` holds.
                if j < next.len() {
                    assert(false);
                }
                assert(!next.contains(r[j]));
                if acc.contains(s[0]) {
                    let m = choose|m: int| 0 <= m < acc.len() && acc[m] == s[0];
                    assert(next[m] == s[0]);
                } else {
                    assert(next[acc.len() as int] == s[0]);
                }
                assert(false);
            } else {
                assert(t[q - 1] == s[q]);
                if i < next.len() {
                    assert(r.subrange(0, next.len() as int)[i] == next[i]);
                    assert(next[i] == s[0]);
                    assert(s.subrange(0, q)[0] == r[i]);
                } else {
                    assert(t[q - 1] == r[j]);
                    assert(t.subrange(0, q - 1).contains(r[i]));
                    let p = choose|p: int| 0 <= p < q - 1 && #[trigger] t.subrange(0, q - 1)[p] == r[i];
                    assert(s.subrange(0, q)[p + 1] == r[i]);
                }
            }
        }
    }
}

/// Every name referenced by an expression, in order of first appearance.
pub open spec fn expr_names(e: ExprV) -> Seq<Seq<char>> {
    add_new(seq![], name_leaves(e))
}

/// An expression's names hold no name twice, and are exactly its name
/// leaves.
pub proof fn lemma_expr_names(e: ExprV)
    ensures
        expr_names(e).no_duplicates(),
        forall|n: Seq<char>| expr_names(e).contains(n) <==> name_leaves(e).contains(n),
{
    lemma_add_new_no_duplicates(seq![], name_leaves(e));
}

/// An expression's names come in the order each first occurs among its
/// name leaves, left operand before right: where a name comes later in the
/// list, every leaf of it comes after some leaf of the earlier name.
pub proof fn lemma_expr_names_order(e: ExprV)
    ensures
        forall|i: int, j: int, q: int|
            #![trigger expr_names(e)[i], expr_names(e)[j], name_leaves(e)[q]]
            0 <= i < j < expr_names(e).len() && 0 <= q < name_leaves(e).len() && name_leaves(e)[q]
                == expr_names(e)[j] ==> name_leaves(e).subrange(0, q).contains(expr_names(e)[i]),
{
    lemma_add_new_order(seq![], name_leaves(e));
    let r = expr_names(e);
    let s = name_leaves(e);
    assert forall|i: int, j: int, q: int|
        #![trigger r[i], r[j], s[q]]
        0 <= i < j < r.len() && 0 <= q < s.len() && s[q] == r[j] implies s.subrange(0, q).contains(r[i]) by {
        assert(add_new(seq![], s)[i] == r[i]);
        assert(add_new(seq![], s)[j] == r[j]);
    }
}

/// Fully bracketed rendering, used in error messages and tests.
pub open spec fn canonical(e: ExprV) -> Seq<char>
    decreases e,
{
    match e {
        ExprV::Name(n) => n,
        ExprV::Wildcard(p) => p,
        ExprV::Op(op, l, r) => "("@ + canonical(*l) + " "@ + set_op_symbol(op) + " "@ + canonical(
            *r,
        ) + ")"@,
    }
}

pub fn strings_contain(v: &Vec<String>, s: &String) -> (r: bool)
    ensures
        r == v@.map_values(|x: String| x@).contains(s@),
{
    let mut i: usize = 0;
    while i < v.len()
        invariant
            0 <= i <= v@.len(),
            forall|k: int| 0 <= k < i ==> v@[k]@ != s@,
        decreases v.len() - i,
    {
        if crate::text::string_eq(&v[i], s) {
            assert(v@.map_values(|x: String| x@)[i as int] == s@);
            return true;
        }
        i += 1;
    }
    assert(!v@.map_values(|x: String| x@).contains(s@)) by {
        if v@.map_values(|x: String| x@).contains(s@) {
            let m = v@.map_values(|x: String| x@);
            let k = choose|k: int| 0 <= k < m.len() && #[trigger] m[k] == s@;
            assert(v@[k]@ == s@);
        }
    }
    false
}

/// Add `s` to `out` unless it is already there.
pub fn push_new(out: &mut Vec<String>, s: &String)
    ensures
        final(out)@.map_values(|x: String| x@) == add_new(
            old(out)@.map_values(|x: String| x@),
            seq![s@],
        ),
{
    let ghost before = old(out)@.map_values(|x: String| x@);
    assert(seq![s@].drop_first() =~= Seq::<Seq<char>>::empty());
    if !strings_contain(out, s) {
        out.push(clone_string(s));
        assert(out@.map_values(|x: String| x@) =~= before.push(s@));
        assert(add_new(before.push(s@), Seq::<Seq<char>>::empty()) == before.push(s@));
    } else {
        assert(add_new(before, Seq::<Seq<char>>::empty()) == before);
        assert(out@.map_values(|x: String| x@) =~= before);
    }
}

impl Expr {
    pub fn binary(op: SetOp, lhs: Expr, rhs: Expr) -> (r: Expr)
        ensures
            r@ == ExprV::Op(op, Box::new(lhs@), Box::new(rhs@)),
    {
        Expr::Op { op, lhs: Box::new(lhs), rhs: Box::new(rhs) }
    }

    /// Every name referenced by the expression, in order of first appearance.
    pub fn names(&self) -> (r: Vec<String>)
        ensures
            r@.map_values(|x: String| x@) == expr_names(self@),
    {
        let mut out: Vec<String> = Vec::new();
        assert(out@.map_values(|x: String| x@) =~= Seq::<Seq<char>>::empty());
        self.collect_names(&mut out);
        out
    }

    fn collect_names(&self, out: &mut Vec<String>)
        ensures
            final(out)@.map_values(|x: String| x@) == add_new(
                old(out)@.map_values(|x: String| x@),
                name_leaves(self@),
            ),
        decreases self,
    {
        match self {
            Expr::Name(name) => {
                push_new(out, name);
            },
            Expr::Wildcard(_) => {
                assert(name_leaves(self@) =~= Seq::<Seq<char>>::empty());
            },
            Expr::Op { lhs, rhs, .. } => {
                let ghost before = out@.map_values(|x: String| x@);
                lhs.collect_names(out);
                rhs.collect_names(out);
                proof {
                    lemma_add_new_concat(before, name_leaves(lhs@), name_leaves(rhs@));
                }
            },
        }
    }

    /// Fully bracketed rendering, used in error messages and tests.
    pub fn to_canonical_string(&self) -> (r: String)
        ensures
            r@ == canonical(self@),
        decreases self,
    {
        match self {
            Expr::Name(name) => clone_string(name),
            Expr::Wildcard(pattern) => clone_string(pattern),
            Expr::Op { op, lhs, rhs } => {
                let mut s = from_str("(");
                let l = lhs.to_canonical_string();
                push_str(&mut s, l.as_str());
                push_str(&mut s, " ");
                push_str(&mut s, op.symbol());
                push_str(&mut s, " ");
                let r = rhs.to_canonical_string();
                push_str(&mut s, r.as_str());
                push_str(&mut s, ")");
                s
            },
        }
    }

    pub fn deep_clone(&self) -> (r: Expr)
        ensures
            r@ == self@,
        decreases self,
    {
        match self {
            Expr::Name(name) => Expr::Name(clone_string(name)),
            Expr::Wildcard(pattern) => Expr::Wildcard(clone_string(pattern)),
            Expr::Op { op, lhs, rhs } => Expr::binary(*op, lhs.deep_clone(), rhs.deep_clone()),
        }
    }
}

} // verus!
