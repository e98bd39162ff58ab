//! Evaluation of a parsed expression over sets of group ids.
//!
//! Sets are `IndexSet`s so that ordering is meaningful and stable: the union
//! keeps the left side's order and appends what is new on the right, and the
//! other operators keep the left side's order. That means a source's own rank
//! order survives the algebra unless the list asks for an explicit sort.

use indexmap::IndexSet;
use vstd::prelude::*;

use super::ast::{Expr, ExprV, SetOp};
use crate::text::{clone_string, string_eq};

verus! {

/// Identifies one real-world title across every configured source.
pub type GroupId = usize;

pub type GroupSet = IndexSet<GroupId>;

#[verifier::external_type_specification]
#[verifier::external_body]
#[verifier::reject_recursive_types(T)]
#[verifier::reject_recursive_types(S)]
pub struct ExIndexSet<T, S>(indexmap::IndexSet<T, S>);

/// The members of an `IndexSet<usize>`, in insertion order.
pub uninterp spec fn set_items(s: IndexSet<usize>) -> Seq<usize>;

/// `IndexSet::new`: an empty set.
#[verifier::external_body]
pub(crate) fn set_new() -> (r: GroupSet)
    ensures
        set_items(r) == Seq::<usize>::empty(),
{
    IndexSet::new()
}

/// `IndexSet::insert`: a value not yet present is appended and `true`
/// returned; a present one leaves the set, and its order, unchanged.
#[verifier::external_body]
pub(crate) fn set_insert(s: &mut GroupSet, value: usize) -> (r: bool)
    ensures
        r == !set_items(*old(s)).contains(value),
        r ==> set_items(*final(s)) == set_items(*old(s)).push(value),
        !r ==> set_items(*final(s)) == set_items(*old(s)),
{
    s.insert(value)
}

/// `IndexSet::contains`.
#[verifier::external_body]
pub(crate) fn set_contains(s: &GroupSet, value: usize) -> (r: bool)
    ensures
        r == set_items(*s).contains(value),
{
    s.contains(&value)
}

/// `IndexSet::len`.
#[verifier::external_body]
pub(crate) fn set_len(s: &GroupSet) -> (r: usize)
    ensures
        r == set_items(*s).len(),
{
    s.len()
}

/// `IndexSet::get_index`: the member at a position in insertion order.
#[verifier::external_body]
pub(crate) fn set_get(s: &GroupSet, index: usize) -> (r: usize)
    requires
        index < set_items(*s).len(),
    ensures
        r == set_items(*s)[index as int],
{
    *s.get_index(index).unwrap()
}

/// `IndexSet::clone`, which keeps the members and their order.
#[verifier::external_body]
pub(crate) fn set_clone(s: &GroupSet) -> (r: GroupSet)
    ensures
        set_items(r) == set_items(*s),
{
    s.clone()
}

/// The members of a set, in order.
pub fn set_to_vec(s: &GroupSet) -> (r: Vec<usize>)
    ensures
        r@ == set_items(*s),
{
    let n = set_len(s);
    let mut out: Vec<usize> = Vec::new();
    let mut i: usize = 0;
    while i < n
        invariant
            0 <= i <= n,
            n == set_items(*s).len(),
            out@ == set_items(*s).take(i as int),
        decreases n - i,
    {
        out.push(set_get(s, i));
        assert(set_items(*s).take(i + 1) =~= set_items(*s).take(i as int).push(
            set_items(*s)[i as int],
        ));
        i += 1;
    }
    assert(set_items(*s).take(n as int) =~= set_items(*s));
    out
}

/// The distinct members of `v`, in order of first appearance.
pub open spec fn distinct(v: Seq<usize>) -> Seq<usize>
    decreases v.len(),
{
    if v.len() == 0 {
        seq![]
    } else {
        let d = distinct(v.drop_last());
        if d.contains(v.last()) {
            d
        } else {
            d.push(v.last())
        }
    }
}

/// A set holding the distinct members of `v`, in order of first appearance.
pub fn set_from_vec(v: &Vec<usize>) -> (r: GroupSet)
    ensures
        set_items(r) == distinct(v@),
{
    let mut out = set_new();
    let mut i: usize = 0;
    while i < v.len()
        invariant
            0 <= i <= v@.len(),
            set_items(out) == distinct(v@.take(i as int)),
        decreases v.len() - i,
    {
        assert(v@.take(i + 1).drop_last() =~= v@.take(i as int));
        set_insert(&mut out, v[i]);
        i += 1;
    }
    assert(v@.take(v@.len() as int) =~= v@);
    out
}

/// What each operator yields, in order.
pub open spec fn apply_spec(op: SetOp, lhs: Seq<usize>, rhs: Seq<usize>) -> Seq<usize> {
    match op {
        SetOp::Union => lhs + rhs.filter(|x: usize| !lhs.contains(x)),
        SetOp::Difference => lhs.filter(|x: usize| !rhs.contains(x)),
        SetOp::Intersection => lhs.filter(|x: usize| rhs.contains(x)),
        SetOp::SymmetricDifference => lhs.filter(|x: usize| !rhs.contains(x)) + rhs.filter(
            |x: usize| !lhs.contains(x),
        ),
    }
}

/// Append to `out` every member of `from` that passes the test, in order.
fn extend_filtered(out: &mut GroupSet, from: &GroupSet, other: &GroupSet, keep_members: bool)
    requires
        forall|x: usize|
            set_items(*old(out)).contains(x) ==> !set_items(*from).contains(x) || (keep_members
                != set_items(*other).contains(x)),
        set_items(*from).no_duplicates(),
    ensures
        set_items(*final(out)) == set_items(*old(out)) + set_items(*from).filter(
            |x: usize| set_items(*other).contains(x) == keep_members,
        ),
{
    let ghost base = set_items(*out);
    let ghost pred = |x: usize| set_items(*other).contains(x) == keep_members;
    let ghost src = set_items(*from);
    let n = set_len(from);
    let mut i: usize = 0;
    while i < n
        invariant
            0 <= i <= n,
            n == src.len(),
            src == set_items(*from),
            src.no_duplicates(),
            pred == (|x: usize| set_items(*other).contains(x) == keep_members),
            set_items(*out) == base + src.take(i as int).filter(pred),
            forall|x: usize| base.contains(x) ==> !src.contains(x) || !pred(x),
        decreases n - i,
    {
        let x = set_get(from, i);
        reveal_with_fuel(Seq::<_>::filter, 1);
        assert(src.take(i + 1).drop_last() =~= src.take(i as int));
        if set_contains(other, x) == keep_members {
            let ghost before = set_items(*out);
            assert(!before.contains(x)) by {
                if before.contains(x) {
                    let k = choose|k: int| 0 <= k < before.len() && before[k] == x;
                    if k < base.len() {
                        assert(base[k] == x);
                        assert(base.contains(x));
                    } else {
                        let f = src.take(i as int).filter(pred);
                        assert(f[k - base.len()] == x);
                        assert(f.contains(x));
                        lemma_filter_iff(src.take(i as int), pred, x);
                        let m = choose|m: int| 0 <= m < i && src[m] == x;
                        assert(src[m] == src[i as int]);
                    }
                }
            }
            set_insert(out, x);
            assert(set_items(*out) =~= base + src.take(i + 1).filter(pred));
        }
        i += 1;
    }
    assert(src.take(n as int) =~= src);
}

pub open spec fn well_formed(s: GroupSet) -> bool {
    set_items(s).no_duplicates()
}

/// Combine two sets with one operator. The union keeps the left side's order
/// and appends what is new on the right; the others keep the left side's order.
pub fn apply(op: SetOp, lhs: &GroupSet, rhs: &GroupSet) -> (r: GroupSet)
    requires
        well_formed(*lhs),
        well_formed(*rhs),
    ensures
        set_items(r) == apply_spec(op, set_items(*lhs), set_items(*rhs)),
        well_formed(r),
{
    let ghost l = set_items(*lhs);
    let ghost rr = set_items(*rhs);
    let out = match op {
        SetOp::Union => {
            let mut out = set_clone(lhs);
            extend_filtered(&mut out, rhs, lhs, false);
            out
        },
        SetOp::Difference => {
            let mut out = set_new();
            extend_filtered(&mut out, lhs, rhs, false);
            assert((|x: usize| rr.contains(x) == false) =~= (|x: usize| !rr.contains(x)));
            assert(set_items(out) =~= l.filter(|x: usize| !rr.contains(x)));
            out
        },
        SetOp::Intersection => {
            let mut out = set_new();
            extend_filtered(&mut out, lhs, rhs, true);
            assert((|x: usize| rr.contains(x) == true) =~= (|x: usize| rr.contains(x)));
            assert(set_items(out) =~= l.filter(|x: usize| rr.contains(x)));
            out
        },
        SetOp::SymmetricDifference => {
            let mut out = set_new();
            extend_filtered(&mut out, lhs, rhs, false);
            proof {
                assert forall|x: usize| set_items(out).contains(x) implies !rr.contains(x) || (false != l.contains(x)) by {
                    let f = l.filter(|y: usize| rr.contains(y) == false);
                    assert(set_items(out) =~= Seq::<usize>::empty() + f);
                    lemma_filter_iff(l, |y: usize| rr.contains(y) == false, x);
                }
            }
            extend_filtered(&mut out, rhs, lhs, false);
            out
        },
    };
    proof {
        let filtered_r = rr.filter(|x: usize| !l.contains(x));
        let filtered_l = l.filter(|x: usize| !rr.contains(x));
        assert((|x: usize| l.contains(x) == false) =~= (|x: usize| !l.contains(x)));
        assert((|x: usize| rr.contains(x) == false) =~= (|x: usize| !rr.contains(x)));
        assert((|x: usize| rr.contains(x) == true) =~= (|x: usize| rr.contains(x)));
        assert(rr.filter(|x: usize| l.contains(x) == false) =~= filtered_r);
        assert(l.filter(|x: usize| rr.contains(x) == false) =~= filtered_l);
        assert(l.filter(|x: usize| rr.contains(x) == true) =~= l.filter(|x: usize| rr.contains(x)));
        lemma_apply_no_duplicates(op, l, rr);
    }
    out
}

/// Membership in a filtered sequence.
pub proof fn lemma_filter_iff(s: Seq<usize>, pred: spec_fn(usize) -> bool, x: usize)
    ensures
        s.filter(pred).contains(x) <==> (s.contains(x) && pred(x)),
{
    if s.filter(pred).contains(x) {
        s.lemma_filter_contains_rev(pred, x);
        let k = choose|k: int| 0 <= k < s.filter(pred).len() && s.filter(pred)[k] == x;
        s.lemma_filter_pred(pred, k);
    }
    if s.contains(x) && pred(x) {
        let i = choose|i: int| 0 <= i < s.len() && s[i] == x;
        s.lemma_filter_contains(pred, i);
    }
}

pub proof fn lemma_filter_no_duplicates(s: Seq<usize>, pred: spec_fn(usize) -> bool)
    requires
        s.no_duplicates(),
    ensures
        s.filter(pred).no_duplicates(),
    decreases s.len(),
{
    reveal_with_fuel(Seq::<_>::filter, 1);
    if s.len() > 0 {
        lemma_filter_no_duplicates(s.drop_last(), pred);
        let f = s.drop_last().filter(pred);
        if pred(s.last()) {
            assert(!f.contains(s.last())) by {
                if f.contains(s.last()) {
                    lemma_filter_iff(s.drop_last(), pred, s.last());
                    let m = choose|m: int| 0 <= m < s.len() - 1 && s.drop_last()[m] == s.last();
                    assert(s[m] == s[s.len() - 1]);
                }
            }
            assert forall|i: int, j: int| 0 <= i < j < f.push(s.last()).len() implies f.push(s.last())[i] != f.push(s.last())[j] by {
                if j == f.len() {
                    assert(f[i] != s.last());
                }
            }
        }
    }
}

proof fn lemma_apply_no_duplicates(op: SetOp, l: Seq<usize>, r: Seq<usize>)
    requires
        l.no_duplicates(),
        r.no_duplicates(),
    ensures
        apply_spec(op, l, r).no_duplicates(),
{
    let fl = l.filter(|x: usize| !r.contains(x));
    let fr = r.filter(|x: usize| !l.contains(x));
    lemma_filter_no_duplicates(l, |x: usize| !r.contains(x));
    lemma_filter_no_duplicates(r, |x: usize| !l.contains(x));
    lemma_filter_no_duplicates(l, |x: usize| r.contains(x));
    match op {
        SetOp::Union => {
            assert forall|i: int, j: int| 0 <= i < j < (l + fr).len() implies (l + fr)[i] != (l
                + fr)[j] by {
                if i < l.len() && j >= l.len() {
                    assert(fr.contains((l + fr)[j]));
                    lemma_filter_iff(r, |x: usize| !l.contains(x), (l + fr)[j]);
                    assert(l.contains((l + fr)[i]));
                }
            }
        },
        SetOp::SymmetricDifference => {
            assert forall|i: int, j: int| 0 <= i < j < (fl + fr).len() implies (fl + fr)[i] != (fl
                + fr)[j] by {
                if i < fl.len() && j >= fl.len() {
                    let x = (fl + fr)[i];
                    assert(fl.contains(x));
                    lemma_filter_iff(l, |y: usize| !r.contains(y), x);
                    assert(fr.contains((fl + fr)[j]));
                    lemma_filter_iff(r, |y: usize| !l.contains(y), (fl + fr)[j]);
                }
            }
        },
        _ => {},
    }
}

/// Membership after each operator is the textbook set algebra: union is
/// either side, difference the left without the right, intersection both,
/// and symmetric difference exactly one side.
pub proof fn lemma_set_algebra_membership(lhs: Seq<usize>, rhs: Seq<usize>, x: usize)
    ensures
        apply_spec(SetOp::Union, lhs, rhs).contains(x) <==> (lhs.contains(x) || rhs.contains(x)),
        apply_spec(SetOp::Difference, lhs, rhs).contains(x) <==> (lhs.contains(x)
            && !rhs.contains(x)),
        apply_spec(SetOp::Intersection, lhs, rhs).contains(x) <==> (lhs.contains(x)
            && rhs.contains(x)),
        apply_spec(SetOp::SymmetricDifference, lhs, rhs).contains(x) <==> (lhs.contains(x)
            != rhs.contains(x)),
{
    let fl = lhs.filter(|y: usize| !rhs.contains(y));
    let fr = rhs.filter(|y: usize| !lhs.contains(y));
    let il = lhs.filter(|y: usize| rhs.contains(y));
    lemma_filter_iff(lhs, |y: usize| !rhs.contains(y), x);
    lemma_filter_iff(rhs, |y: usize| !lhs.contains(y), x);
    lemma_filter_iff(lhs, |y: usize| rhs.contains(y), x);
    assert((lhs + fr).contains(x) <==> (lhs.contains(x) || fr.contains(x))) by {
        if (lhs + fr).contains(x) {
            let k = choose|k: int| 0 <= k < (lhs + fr).len() && (lhs + fr)[k] == x;
            if k < lhs.len() {
                assert(lhs[k] == x);
            } else {
                assert(fr[k - lhs.len()] == x);
            }
        }
        if lhs.contains(x) {
            let k = choose|k: int| 0 <= k < lhs.len() && lhs[k] == x;
            assert((lhs + fr)[k] == x);
        }
        if fr.contains(x) {
            let k = choose|k: int| 0 <= k < fr.len() && fr[k] == x;
            assert((lhs + fr)[k + lhs.len()] == x);
        }
    }
    assert((fl + fr).contains(x) <==> (fl.contains(x) || fr.contains(x))) by {
        if (fl + fr).contains(x) {
            let k = choose|k: int| 0 <= k < (fl + fr).len() && (fl + fr)[k] == x;
            if k < fl.len() {
                assert(fl[k] == x);
            } else {
                assert(fr[k - fl.len()] == x);
            }
        }
        if fl.contains(x) {
            let k = choose|k: int| 0 <= k < fl.len() && fl[k] == x;
            assert((fl + fr)[k] == x);
        }
        if fr.contains(x) {
            let k = choose|k: int| 0 <= k < fr.len() && fr[k] == x;
            assert((fl + fr)[k + fl.len()] == x);
        }
    }
}

/// The union keeps the left side's order and appends what is new on the
/// right: the left side is always a prefix of the result.
pub proof fn lemma_union_keeps_left_order(lhs: Seq<usize>, rhs: Seq<usize>)
    ensures
        apply_spec(SetOp::Union, lhs, rhs).subrange(0, lhs.len() as int) == lhs,
{
    assert(apply_spec(SetOp::Union, lhs, rhs).subrange(0, lhs.len() as int) =~= lhs);
}

/// An expression references a name that is neither a source nor a list.
#[derive(Debug)]
pub struct UnknownName(pub String);

pub open spec fn unknown_name_message(name: Seq<char>) -> Seq<char> {
    "expression references `"@ + name + "`, which is not a known source or list"@
}

impl UnknownName {
    pub fn message(&self) -> (r: String)
        ensures
            r@ == unknown_name_message(self.0@),
    {
        let mut out = String::new();
        crate::text::push_str(&mut out, "expression references `");
        crate::text::push_str(&mut out, self.0.as_str());
        crate::text::push_str(&mut out, "`, which is not a known source or list");
        out
    }
}

/// The sets an expression is evaluated over, keyed by name.
pub open spec fn env_view(sets: Seq<(String, GroupSet)>) -> Seq<(Seq<char>, Seq<usize>)> {
    sets.map_values(|e: (String, GroupSet)| (e.0@, set_items(e.1)))
}

/// The first set registered under `name`.
pub open spec fn env_lookup(env: Seq<(Seq<char>, Seq<usize>)>, name: Seq<char>) -> Option<
    Seq<usize>,
>
    decreases env.len(),
{
    if env.len() == 0 {
        None
    } else if env[0].0 == name {
        Some(env[0].1)
    } else {
        env_lookup(env.drop_first(), name)
    }
}

pub open spec fn env_well_formed(sets: Seq<(String, GroupSet)>) -> bool {
    forall|i: int| 0 <= i < sets.len() ==> well_formed(#[trigger] sets[i].1)
}

/// What evaluating an expression yields, or the first unknown name.
pub open spec fn eval_spec(e: ExprV, env: Seq<(Seq<char>, Seq<usize>)>) -> Result<
    Seq<usize>,
    Seq<char>,
>
    decreases e,
{
    match e {
        ExprV::Name(n) => match env_lookup(env, n) {
            Some(s) => Ok(s),
            None => Err(n),
        },
        ExprV::Wildcard(p) => Err(p),
        ExprV::Op(op, l, r) => match eval_spec(*l, env) {
            Err(m) => Err(m),
            Ok(a) => match eval_spec(*r, env) {
                Err(m) => Err(m),
                Ok(b) => Ok(apply_spec(op, a, b)),
            },
        },
    }
}

/// Evaluation fails only on a name the sets do not hold, one the formula
/// references, or on a pattern left in it.
pub proof fn lemma_unknown_name(e: ExprV, env: Seq<(Seq<char>, Seq<usize>)>)
    ensures
        eval_spec(e, env) matches Err(n) ==> (crate::expr::ast::name_leaves(e).contains(n) && env_lookup(
            env,
            n,
        ) is None) || !crate::expr::ast::wildcard_free(e),
    decreases e,
{
    match e {
        ExprV::Name(n) => {
            assert(crate::expr::ast::name_leaves(e)[0] == n);
        },
        ExprV::Wildcard(_) => {},
        ExprV::Op(_, l, r) => {
            lemma_unknown_name(*l, env);
            lemma_unknown_name(*r, env);
            let a = crate::expr::ast::name_leaves(*l);
            let b = crate::expr::ast::name_leaves(*r);
            assert(crate::expr::ast::name_leaves(e) == a + b);
            if let Err(n) = eval_spec(*l, env) {
                if a.contains(n) {
                    let i = choose|i: int| 0 <= i < a.len() && a[i] == n;
                    assert((a + b)[i] == n);
                }
            } else if let Err(n) = eval_spec(*r, env) {
                if b.contains(n) {
                    let i = choose|i: int| 0 <= i < b.len() && b[i] == n;
                    assert((a + b)[a.len() + i] == n);
                }
            }
        },
    }
}

/// A formula with no pattern, every name of which is bound, evaluates.
pub proof fn lemma_eval_bound(e: ExprV, env: Seq<(Seq<char>, Seq<usize>)>)
    requires
        crate::expr::ast::wildcard_free(e),
        forall|n: Seq<char>| #[trigger] crate::expr::ast::name_leaves(e).contains(n) ==> env_lookup(env, n) is Some,
    ensures
        eval_spec(e, env) is Ok,
    decreases e,
{
    match e {
        ExprV::Name(n) => {
            assert(crate::expr::ast::name_leaves(e)[0] == n);
            assert(crate::expr::ast::name_leaves(e).contains(n));
            assert(env_lookup(env, n) is Some);
        },
        ExprV::Wildcard(_) => {},
        ExprV::Op(_, l, r) => {
            let a = crate::expr::ast::name_leaves(*l);
            let b = crate::expr::ast::name_leaves(*r);
            assert(crate::expr::ast::name_leaves(e) == a + b);
            assert forall|n: Seq<char>| #[trigger] a.contains(n) implies env_lookup(env, n) is Some by {
                let i = choose|i: int| 0 <= i < a.len() && a[i] == n;
                assert((a + b)[i] == n);
                assert(crate::expr::ast::name_leaves(e).contains(n));
            }
            assert forall|n: Seq<char>| #[trigger] b.contains(n) implies env_lookup(env, n) is Some by {
                let i = choose|i: int| 0 <= i < b.len() && b[i] == n;
                assert((a + b)[a.len() + i] == n);
                assert(crate::expr::ast::name_leaves(e).contains(n));
            }
            lemma_eval_bound(*l, env);
            lemma_eval_bound(*r, env);
        },
    }
}

/// Evaluation succeeding means every name in the formula is bound.
proof fn lemma_eval_ok_bound(e: ExprV, env: Seq<(Seq<char>, Seq<usize>)>)
    requires
        eval_spec(e, env) is Ok,
    ensures
        forall|n: Seq<char>| #[trigger] crate::expr::ast::name_leaves(e).contains(n) ==> env_lookup(env, n) is Some,
    decreases e,
{
    match e {
        ExprV::Name(m) => {
            assert forall|n: Seq<char>| #[trigger] crate::expr::ast::name_leaves(e).contains(n) implies env_lookup(
                env,
                n,
            ) is Some by {
                let i = choose|i: int| 0 <= i < crate::expr::ast::name_leaves(e).len() && crate::expr::ast::name_leaves(e)[i] == n;
                assert(n == m);
            }
        },
        ExprV::Wildcard(_) => {},
        ExprV::Op(_, l, r) => {
            lemma_eval_ok_bound(*l, env);
            lemma_eval_ok_bound(*r, env);
            let a = crate::expr::ast::name_leaves(*l);
            let b = crate::expr::ast::name_leaves(*r);
            assert(crate::expr::ast::name_leaves(e) == a + b);
            assert forall|n: Seq<char>| #[trigger] crate::expr::ast::name_leaves(e).contains(n) implies env_lookup(
                env,
                n,
            ) is Some by {
                let i = choose|i: int| 0 <= i < (a + b).len() && (a + b)[i] == n;
                if i < a.len() {
                    assert(a[i] == n);
                    assert(a.contains(n));
                } else {
                    assert(b[i - a.len()] == n);
                    assert(b.contains(n));
                }
            }
        },
    }
}

/// A formula without patterns evaluates exactly when every name in it is
/// bound; otherwise the error names the first unbound one, left to right.
pub proof fn lemma_eval_ok_iff_bound(e: ExprV, env: Seq<(Seq<char>, Seq<usize>)>)
    requires
        crate::expr::ast::wildcard_free(e),
    ensures
        eval_spec(e, env) is Ok <==> forall|n: Seq<char>|
            #[trigger] crate::expr::ast::name_leaves(e).contains(n) ==> env_lookup(env, n) is Some,
        eval_spec(e, env) matches Err(n) ==> crate::expr::ast::name_leaves(e).contains(n) && env_lookup(
            env,
            n,
        ) is None,
{
    if eval_spec(e, env) is Ok {
        lemma_eval_ok_bound(e, env);
    } else if forall|n: Seq<char>|
        #[trigger] crate::expr::ast::name_leaves(e).contains(n) ==> env_lookup(env, n) is Some {
        lemma_eval_bound(e, env);
    }
    lemma_unknown_name(e, env);
}

/// Find the set registered under `name`.
pub fn lookup_set<'a>(sets: &'a Vec<(String, GroupSet)>, name: &String) -> (r: Option<&'a GroupSet>)
    requires
        env_well_formed(sets@),
    ensures
        match r {
            Some(s) => env_lookup(env_view(sets@), name@) == Some(set_items(*s)) && well_formed(*s),
            None => env_lookup(env_view(sets@), name@) is None,
        },
{
    let ghost env = env_view(sets@);
    assert(env.subrange(0, env.len() as int) =~= env);
    let mut i: usize = 0;
    while i < sets.len()
        invariant
            0 <= i <= sets@.len(),
            env_well_formed(sets@),
            env == env_view(sets@),
            env_lookup(env, name@) == env_lookup(env.subrange(i as int, env.len() as int), name@),
        decreases sets.len() - i,
    {
        let ghost rest = env.subrange(i as int, env.len() as int);
        assert(rest.drop_first() =~= env.subrange(i + 1, env.len() as int));
        if string_eq(&sets[i].0, name) {
            return Some(&sets[i].1);
        }
        i += 1;
    }
    None
}

/// Register `set` under `name`, replacing whatever was there.
pub fn env_insert(sets: &mut Vec<(String, GroupSet)>, name: &String, set: GroupSet)
    requires
        env_well_formed(old(sets)@),
        well_formed(set),
    ensures
        env_well_formed(final(sets)@),
        env_lookup(env_view(final(sets)@), name@) == Some(set_items(set)),
        forall|other: Seq<char>|
            other != name@ ==> env_lookup(env_view(final(sets)@), other) == env_lookup(
                env_view(old(sets)@),
                other,
            ),
{
    let ghost old_env = env_view(sets@);
    sets.insert(0, (clone_string(name), set));
    proof {
        let e = env_view(sets@);
        assert(e.drop_first() =~= old_env);
        assert forall|k: int| 0 <= k < sets@.len() implies well_formed(#[trigger] sets@[k].1) by {
            if k > 0 {
                assert(sets@[k] == old(sets)@[k - 1]);
            }
        }
    }
}

/// Evaluate an expression over named sets.
pub fn eval(expr: &Expr, sets: &Vec<(String, GroupSet)>) -> (r: Result<GroupSet, UnknownName>)
    requires
        env_well_formed(sets@),
    ensures
        match (r, eval_spec(expr@, env_view(sets@))) {
            (Ok(s), Ok(m)) => set_items(s) == m && well_formed(s),
            (Err(UnknownName(n)), Err(m)) => n@ == m,
            _ => false,
        },
    decreases expr,
{
    match expr {
        Expr::Name(name) => match lookup_set(sets, name) {
            Some(s) => Ok(set_clone(s)),
            None => Err(UnknownName(clone_string(name))),
        },
        Expr::Wildcard(pattern) => Err(UnknownName(clone_string(pattern))),
        Expr::Op { op, lhs, rhs } => {
            let l = match eval(lhs, sets) {
                Ok(l) => l,
                Err(e) => return Err(e),
            };
            let r = match eval(rhs, sets) {
                Ok(r) => r,
                Err(e) => return Err(e),
            };
            Ok(apply(*op, &l, &r))
        },
    }
}

} // verus!
