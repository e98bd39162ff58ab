//! Wildcard patterns over configured names: `animation.studios.*`.
//!
//! A pattern stands for the union of every source and list whose name it
//! matches, so a formula keeps working as the config grows. Patterns are
//! expanded once, when the config is compiled - everything downstream
//! (dependency tracking, cycle detection, evaluation) only ever sees names.

use vstd::prelude::*;

use super::ast::{add_new, lemma_add_new_concat, lemma_add_new_no_duplicates, push_new, wildcard_free, Expr, ExprV, SetOp};
use crate::text::{chars_of, clone_string, has_char, str_eq, str_has};

verus! {

/// `*` is reserved: a configured name may not contain one, so a name that
/// does is always a pattern - quoting does not turn it back into a literal.
pub fn is_pattern(name: &str) -> (r: bool)
    ensures
        r == has_char(name@, '*'),
{
    str_has(name, '*')
}

/// `*` stands for any run of characters, dots included; everything else is
/// literal.
pub open spec fn glob(p: Seq<char>, n: Seq<char>) -> bool
    decreases p.len() + n.len(),
{
    if p.len() == 0 {
        n.len() == 0
    } else if p[0] == '*' {
        glob(p.drop_first(), n) || (n.len() > 0 && glob(p, n.drop_first()))
    } else {
        n.len() > 0 && p[0] == n[0] && glob(p.drop_first(), n.drop_first())
    }
}

/// Without a `*`, a pattern matches exactly the name it spells.
pub proof fn lemma_glob_literal(p: Seq<char>, n: Seq<char>)
    requires
        !has_char(p, '*'),
    ensures
        glob(p, n) <==> p == n,
    decreases p.len(),
{
    if p.len() > 0 {
        assert(p[0] != '*');
        assert(!has_char(p.drop_first(), '*')) by {
            if has_char(p.drop_first(), '*') {
                let i = choose|i: int| 0 <= i < p.drop_first().len() && p.drop_first()[i] == '*';
                assert(p[i + 1] == '*');
            }
        }
        if n.len() > 0 {
            lemma_glob_literal(p.drop_first(), n.drop_first());
            if p[0] == n[0] && p.drop_first() == n.drop_first() {
                assert forall|i: int| 0 <= i < p.len() implies p[i] == n[i] by {
                    if i > 0 {
                        assert(p[i] == p.drop_first()[i - 1]);
                        assert(n[i] == n.drop_first()[i - 1]);
                    }
                }
                assert(p =~= n);
            }
            if p == n {
                assert(p.drop_first() == n.drop_first());
            }
        }
    } else if n.len() > 0 {
        assert(p != n);
    } else {
        assert(p =~= n);
    }
}

/// A pattern of `*` alone matches every name, dots included.
pub proof fn lemma_glob_star(n: Seq<char>)
    ensures
        glob(seq!['*'], n),
    decreases n.len(),
{
    let p = seq!['*'];
    assert(p.drop_first() =~= Seq::<char>::empty());
    assert(p[0] == '*' && p.len() == 1);
    if n.len() > 0 {
        lemma_glob_star(n.drop_first());
        assert(glob(p, n.drop_first()));
    } else {
        assert(glob(p.drop_first(), n));
    }
}

/// How many `*` a pattern holds.
pub open spec fn star_count(p: Seq<char>) -> nat
    decreases p.len(),
{
    if p.len() == 0 {
        0
    } else if p[0] == '*' {
        1 + star_count(p.drop_first())
    } else {
        star_count(p.drop_first())
    }
}

/// The pattern with its `*`s replaced, in order, by the texts of `fill`.
pub open spec fn fill_in(p: Seq<char>, fill: Seq<Seq<char>>) -> Seq<char>
    decreases p.len(),
{
    if p.len() == 0 {
        seq![]
    } else if p[0] == '*' {
        (if fill.len() > 0 {
            fill[0]
        } else {
            seq![]
        }) + fill_in(p.drop_first(), fill.drop_first())
    } else {
        seq![p[0]] + fill_in(p.drop_first(), fill)
    }
}

/// A `*` at the head of a pattern absorbs any text in front of what the
/// rest of the pattern matches.
proof fn lemma_glob_absorb(p: Seq<char>, w: Seq<char>, m: Seq<char>)
    requires
        p.len() > 0,
        p[0] == '*',
        glob(p.drop_first(), m),
    ensures
        glob(p, w + m),
    decreases w.len(),
{
    if w.len() == 0 {
        assert(w + m =~= m);
    } else {
        lemma_glob_absorb(p, w.drop_first(), m);
        assert((w + m).drop_first() =~= w.drop_first() + m);
    }
}

/// A name matches a pattern exactly when it is the pattern with each `*`
/// replaced by some text, possibly empty, dots included; every other
/// character stands for itself.
pub proof fn lemma_glob_fill(p: Seq<char>, n: Seq<char>)
    ensures
        glob(p, n) <==> exists|fill: Seq<Seq<char>>| fill.len() == star_count(p) && #[trigger] fill_in(p, fill) == n,
    decreases p.len() + n.len(),
{
    if glob(p, n) {
        lemma_glob_fill_some(p, n);
    }
    if exists|fill: Seq<Seq<char>>| fill.len() == star_count(p) && #[trigger] fill_in(p, fill) == n {
        let fill = choose|fill: Seq<Seq<char>>| fill.len() == star_count(p) && #[trigger] fill_in(p, fill) == n;
        lemma_fill_glob(p, fill);
    }
}

/// Every filled-in pattern matches it.
proof fn lemma_fill_glob(p: Seq<char>, fill: Seq<Seq<char>>)
    requires
        fill.len() == star_count(p),
    ensures
        glob(p, fill_in(p, fill)),
    decreases p.len(),
{
    if p.len() > 0 {
        if p[0] == '*' {
            lemma_fill_glob(p.drop_first(), fill.drop_first());
            lemma_glob_absorb(p, fill[0], fill_in(p.drop_first(), fill.drop_first()));
        } else {
            lemma_fill_glob(p.drop_first(), fill);
            let n = fill_in(p, fill);
            assert(n.drop_first() =~= fill_in(p.drop_first(), fill));
        }
    }
}

/// Every match is a filled-in pattern.
proof fn lemma_glob_fill_some(p: Seq<char>, n: Seq<char>)
    requires
        glob(p, n),
    ensures
        exists|fill: Seq<Seq<char>>| fill.len() == star_count(p) && #[trigger] fill_in(p, fill) == n,
    decreases p.len() + n.len(),
{
    if p.len() == 0 {
        let fill = Seq::<Seq<char>>::empty();
        assert(fill_in(p, fill) =~= n);
    } else if p[0] == '*' {
        if glob(p.drop_first(), n) {
            lemma_glob_fill_some(p.drop_first(), n);
            let rest = choose|fill: Seq<Seq<char>>|
                fill.len() == star_count(p.drop_first()) && #[trigger] fill_in(p.drop_first(), fill) == n;
            let fill = seq![Seq::<char>::empty()] + rest;
            assert(fill.drop_first() =~= rest);
            assert(fill_in(p, fill) =~= n);
        } else {
            lemma_glob_fill_some(p, n.drop_first());
            let f = choose|fill: Seq<Seq<char>>| fill.len() == star_count(p) && #[trigger] fill_in(p, fill) == n.drop_first();
            let fill = seq![seq![n[0]] + f[0]] + f.drop_first();
            assert(fill.drop_first() =~= f.drop_first());
            assert(fill_in(p, f) == f[0] + fill_in(p.drop_first(), f.drop_first()));
            assert(fill_in(p, fill) =~= seq![n[0]] + n.drop_first());
            assert(seq![n[0]] + n.drop_first() =~= n);
        }
    } else {
        lemma_glob_fill_some(p.drop_first(), n.drop_first());
        let f = choose|fill: Seq<Seq<char>>|
            fill.len() == star_count(p.drop_first()) && #[trigger] fill_in(p.drop_first(), fill) == n.drop_first();
        assert(fill_in(p, f) =~= seq![p[0]] + n.drop_first());
        assert(seq![n[0]] + n.drop_first() =~= n);
    }
}

pub open spec fn suffix(s: Seq<char>, i: int) -> Seq<char> {
    s.subrange(i, s.len() as int)
}

/// Whether `name` matches `pattern`.
pub fn matches(pattern: &str, name: &str) -> (r: bool)
    ensures
        r == glob(pattern@, name@),
{
    let p = chars_of(pattern);
    let n = chars_of(name);
    let plen = p.len();
    let nlen = n.len();
    // `next[j]` answers whether `p[i + 1..]` matches `n[j..]`; the rows are
    // computed from the end of the pattern towards its start.
    let mut next: Vec<bool> = Vec::new();
    let mut j: usize = 0;
    while j < nlen
        invariant
            0 <= j <= nlen,
            nlen == n@.len(),
            next@.len() == j,
            forall|k: int| 0 <= k < j ==> next@[k] == false,
        decreases nlen - j,
    {
        next.push(false);
        j += 1;
    }
    next.push(true);
    assert forall|k: int| 0 <= k <= nlen implies next@[k] == glob(
        suffix(p@, plen as int),
        suffix(n@, k),
    ) by {
        assert(suffix(p@, plen as int).len() == 0);
    }
    let mut i: usize = plen;
    while i > 0
        invariant
            0 <= i <= plen,
            plen == p@.len(),
            nlen == n@.len(),
            next@.len() == nlen + 1,
            forall|k: int| 0 <= k <= nlen ==> next@[k] == glob(suffix(p@, i as int), suffix(n@, k)),
        decreases i,
    {
        let pi = i - 1;
        let c = p[pi];
        let ghost ps = suffix(p@, pi as int);
        assert(ps[0] == c);
        assert(ps.drop_first() =~= suffix(p@, i as int));
        let mut cur: Vec<bool> = Vec::new();
        let mut k: usize = 0;
        while k < nlen
            invariant
                0 <= k <= nlen,
                cur@.len() == k,
            decreases nlen - k,
        {
            cur.push(false);
            k += 1;
        }
        // The empty rest of the name: only a `*` can match it.
        assert(suffix(n@, nlen as int).len() == 0);
        let last = c == '*' && next[nlen];
        cur.push(last);
        let mut jj: usize = nlen;
        while jj > 0
            invariant
                0 <= jj <= nlen,
                nlen == n@.len(),
                cur@.len() == nlen + 1,
                next@.len() == nlen + 1,
                ps.len() > 0,
                ps[0] == c,
                ps.drop_first() == suffix(p@, i as int),
                forall|k: int| 0 <= k <= nlen ==> next@[k] == glob(suffix(p@, i as int), suffix(n@, k)),
                forall|k: int| jj <= k <= nlen ==> cur@[k] == glob(ps, suffix(n@, k)),
            decreases jj,
        {
            let j = jj - 1;
            let ghost ns = suffix(n@, j as int);
            assert(ns[0] == n@[j as int]);
            assert(ns.drop_first() =~= suffix(n@, j + 1));
            let value = if c == '*' {
                next[j] || cur[j + 1]
            } else {
                c == n[j] && next[j + 1]
            };
            cur.set(j, value);
            jj = j;
        }
        next = cur;
        i = pi;
    }
    assert(suffix(p@, 0) =~= p@);
    assert(suffix(n@, 0) =~= n@);
    next[0]
}

/// The candidates the pattern matches, in the order given, minus `defining` -
/// a list may not expand to include itself.
pub open spec fn expand_spec(
    pattern: Seq<char>,
    candidates: Seq<Seq<char>>,
    defining: Seq<char>,
) -> Seq<Seq<char>> {
    candidates.filter(|c: Seq<char>| c != defining && glob(pattern, c))
}

pub fn expand(pattern: &str, candidates: &Vec<String>, defining: &str) -> (r: Vec<String>)
    ensures
        r@.map_values(|x: String| x@) == expand_spec(
            pattern@,
            candidates@.map_values(|x: String| x@),
            defining@,
        ),
{
    let ghost cands = candidates@.map_values(|x: String| x@);
    let ghost pred = |c: Seq<char>| c != defining@ && glob(pattern@, c);
    let mut out: Vec<String> = Vec::new();
    let mut i: usize = 0;
    while i < candidates.len()
        invariant
            0 <= i <= candidates@.len(),
            cands == candidates@.map_values(|x: String| x@),
            pred == (|c: Seq<char>| c != defining@ && glob(pattern@, c)),
            out@.map_values(|x: String| x@) == cands.take(i as int).filter(pred),
        decreases candidates.len() - i,
    {
        let ghost before = out@.map_values(|x: String| x@);
        let candidate = &candidates[i];
        reveal_with_fuel(Seq::<_>::filter, 1);
        assert(cands.take(i + 1).drop_last() =~= cands.take(i as int));
        assert(cands.take(i + 1).last() == candidate@);
        if !str_eq(candidate.as_str(), defining) && matches(pattern, candidate.as_str()) {
            out.push(clone_string(candidate));
            assert(out@.map_values(|x: String| x@) =~= before.push(candidate@));
        } else {
            assert(out@.map_values(|x: String| x@) =~= before);
        }
        i += 1;
    }
    assert(cands.take(candidates@.len() as int) =~= cands);
    out
}

/// A left-nested union of the names, so the union keeps their order; a
/// single name needs no union at all.
pub open spec fn union_spec(names: Seq<Seq<char>>) -> Option<ExprV>
    decreases names.len(),
{
    if names.len() == 0 {
        None
    } else if names.len() == 1 {
        Some(ExprV::Name(names[0]))
    } else {
        Some(
            ExprV::Op(
                SetOp::Union,
                Box::new(union_spec(names.drop_last())->0),
                Box::new(ExprV::Name(names.last())),
            ),
        )
    }
}

pub fn union_of(names: &Vec<String>) -> (r: Option<Expr>)
    ensures
        match r {
            Some(e) => union_spec(names@.map_values(|x: String| x@)) == Some(e@),
            None => union_spec(names@.map_values(|x: String| x@)) is None,
        },
{
    let ghost all = names@.map_values(|x: String| x@);
    if names.len() == 0 {
        return None;
    }
    let mut out = Expr::Name(clone_string(&names[0]));
    assert(all.take(1).len() == 1);
    assert(union_spec(all.take(1)) == Some(out@));
    let mut i: usize = 1;
    while i < names.len()
        invariant
            1 <= i <= names@.len(),
            all == names@.map_values(|x: String| x@),
            union_spec(all.take(i as int)) == Some(out@),
        decreases names.len() - i,
    {
        assert(all.take(i + 1).drop_last() =~= all.take(i as int));
        assert(all.take(i + 1).last() == names@[i as int]@);
        out = Expr::binary(SetOp::Union, out, Expr::Name(clone_string(&names[i])));
        i += 1;
    }
    assert(all.take(names@.len() as int) =~= all);
    Some(out)
}

/// What rewriting does to one expression: every pattern becomes the union of
/// the names it matches; a pattern that matches nothing is left in place.
pub open spec fn rewrite_spec(e: ExprV, candidates: Seq<Seq<char>>, defining: Seq<char>) -> ExprV
    decreases e,
{
    match e {
        ExprV::Name(n) => ExprV::Name(n),
        ExprV::Op(op, l, r) => ExprV::Op(
            op,
            Box::new(rewrite_spec(*l, candidates, defining)),
            Box::new(rewrite_spec(*r, candidates, defining)),
        ),
        ExprV::Wildcard(p) => match union_spec(expand_spec(p, candidates, defining)) {
            Some(x) => x,
            None => ExprV::Wildcard(p),
        },
    }
}

/// The patterns that match nothing, left to right, repeats included.
pub open spec fn unmatched_leaves(
    e: ExprV,
    candidates: Seq<Seq<char>>,
    defining: Seq<char>,
) -> Seq<Seq<char>>
    decreases e,
{
    match e {
        ExprV::Name(_) => seq![],
        ExprV::Op(_, l, r) => unmatched_leaves(*l, candidates, defining) + unmatched_leaves(
            *r,
            candidates,
            defining,
        ),
        ExprV::Wildcard(p) => if expand_spec(p, candidates, defining).len() == 0 {
            seq![p]
        } else {
            seq![]
        },
    }
}

proof fn lemma_union_empty(names: Seq<Seq<char>>)
    ensures
        union_spec(names) is None <==> names.len() == 0,
{
}

proof fn lemma_union_wildcard_free(names: Seq<Seq<char>>)
    ensures
        union_spec(names) matches Some(x) ==> wildcard_free(x),
    decreases names.len(),
{
    if names.len() > 1 {
        lemma_union_wildcard_free(names.drop_last());
        lemma_union_empty(names.drop_last());
        let inner = union_spec(names.drop_last())->0;
        assert(wildcard_free(inner));
        assert(wildcard_free(ExprV::Name(names.last())));
        assert(union_spec(names) == Some(
            ExprV::Op(SetOp::Union, Box::new(inner), Box::new(ExprV::Name(names.last()))),
        ));
    }
}

/// Where every pattern matches something, rewriting leaves no pattern.
proof fn lemma_rewrite_wildcard_free(e: ExprV, candidates: Seq<Seq<char>>, defining: Seq<char>)
    requires
        unmatched_leaves(e, candidates, defining).len() == 0,
    ensures
        wildcard_free(rewrite_spec(e, candidates, defining)),
    decreases e,
{
    match e {
        ExprV::Name(_) => {},
        ExprV::Op(_, l, r) => {
            lemma_rewrite_wildcard_free(*l, candidates, defining);
            lemma_rewrite_wildcard_free(*r, candidates, defining);
        },
        ExprV::Wildcard(p) => {
            lemma_union_empty(expand_spec(p, candidates, defining));
            lemma_union_wildcard_free(expand_spec(p, candidates, defining));
        },
    }
}

/// Replace every wildcard with a left-nested union of the names it matches.
///
/// Patterns that match nothing are returned in order of first appearance and
/// left in the tree unchanged, so the caller can report all of them at once.
pub fn expand_expr(expr: &Expr, candidates: &Vec<String>, defining: &str) -> (r: (Expr, Vec<String>))
    ensures
        r.0@ == rewrite_spec(expr@, candidates@.map_values(|x: String| x@), defining@),
        r.1@.map_values(|x: String| x@) == add_new(
            seq![],
            unmatched_leaves(expr@, candidates@.map_values(|x: String| x@), defining@),
        ),
        r.1@.len() == 0 ==> wildcard_free(r.0@),
{
    let mut unmatched: Vec<String> = Vec::new();
    assert(unmatched@.map_values(|x: String| x@) =~= Seq::<Seq<char>>::empty());
    let expanded = rewrite(expr, candidates, defining, &mut unmatched);
    proof {
        let cands = candidates@.map_values(|x: String| x@);
        let leaves = unmatched_leaves(expr@, cands, defining@);
        lemma_add_new_no_duplicates(seq![], leaves);
        if leaves.len() > 0 {
            assert(leaves.contains(leaves[0]));
            assert(add_new(seq![], leaves).contains(leaves[0]));
        } else {
            lemma_rewrite_wildcard_free(expr@, cands, defining@);
        }
    }
    (expanded, unmatched)
}

fn rewrite(expr: &Expr, candidates: &Vec<String>, defining: &str, unmatched: &mut Vec<String>) -> (r:
    Expr)
    ensures
        r@ == rewrite_spec(expr@, candidates@.map_values(|x: String| x@), defining@),
        final(unmatched)@.map_values(|x: String| x@) == add_new(
            old(unmatched)@.map_values(|x: String| x@),
            unmatched_leaves(expr@, candidates@.map_values(|x: String| x@), defining@),
        ),
    decreases expr,
{
    let ghost cands = candidates@.map_values(|x: String| x@);
    match expr {
        Expr::Name(n) => {
            assert(add_new(unmatched@.map_values(|x: String| x@), Seq::<Seq<char>>::empty())
                == unmatched@.map_values(|x: String| x@));
            Expr::Name(clone_string(n))
        },
        Expr::Op { op, lhs, rhs } => {
            let ghost before = unmatched@.map_values(|x: String| x@);
            let l = rewrite(lhs, candidates, defining, unmatched);
            let r = rewrite(rhs, candidates, defining, unmatched);
            proof {
                lemma_add_new_concat(
                    before,
                    unmatched_leaves(lhs@, cands, defining@),
                    unmatched_leaves(rhs@, cands, defining@),
                );
            }
            Expr::binary(*op, l, r)
        },
        Expr::Wildcard(pattern) => {
            let matched = expand(pattern.as_str(), candidates, defining);
            match union_of(&matched) {
                Some(expanded) => {
                    assert(add_new(unmatched@.map_values(|x: String| x@), Seq::<Seq<char>>::empty())
                        == unmatched@.map_values(|x: String| x@));
                    expanded
                },
                None => {
                    push_new(unmatched, pattern);
                    Expr::Wildcard(clone_string(pattern))
                },
            }
        },
    }
}

} // verus!
