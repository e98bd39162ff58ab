//! Chains of shared ids: the relation that groups items. Two items belong
//! together when one shares an id with the other, or with an item that
//! belongs with the other, and so on.

use vstd::prelude::*;

use crate::model::ItemKeyView;

verus! {

/// Items `a` and `b` of `seen` share an id.
pub open spec fn linked(seen: Seq<Seq<ItemKeyView>>, a: int, b: int) -> bool {
    exists|k: ItemKeyView| #[trigger] seen[a].contains(k) && seen[b].contains(k)
}

/// A walk over `seen` from item to item, each sharing an id with the next.
pub open spec fn is_chain(seen: Seq<Seq<ItemKeyView>>, path: Seq<int>) -> bool {
    &&& path.len() > 0
    &&& forall|t: int| 0 <= t < path.len() ==> 0 <= #[trigger] path[t] < seen.len()
    &&& forall|t: int| 0 <= t < path.len() - 1 ==> #[trigger] linked(seen, path[t], path[t + 1])
}

/// A chain of shared ids joins item `i` to item `j`.
pub open spec fn chained(seen: Seq<Seq<ItemKeyView>>, i: int, j: int) -> bool {
    exists|path: Seq<int>| #[trigger] is_chain(seen, path) && path[0] == i && path.last() == j
}

/// Item `i` of `seen` is joined by a chain to an item sharing an id with `x`.
pub open spec fn reaches(seen: Seq<Seq<ItemKeyView>>, i: int, x: Seq<ItemKeyView>) -> bool {
    exists|a: int|
        0 <= a < seen.len() && #[trigger] chained(seen, i, a) && exists|k: ItemKeyView|
            #[trigger] seen[a].contains(k) && x.contains(k)
}

pub proof fn lemma_chained_refl(seen: Seq<Seq<ItemKeyView>>, i: int)
    requires
        0 <= i < seen.len(),
    ensures
        chained(seen, i, i),
{
    let path = seq![i];
    assert(is_chain(seen, path));
}

pub proof fn lemma_chained_step(seen: Seq<Seq<ItemKeyView>>, i: int, j: int)
    requires
        0 <= i < seen.len(),
        0 <= j < seen.len(),
        linked(seen, i, j),
    ensures
        chained(seen, i, j),
{
    let path = seq![i, j];
    assert(is_chain(seen, path));
}

pub proof fn lemma_linked_sym(seen: Seq<Seq<ItemKeyView>>, i: int, j: int)
    requires
        linked(seen, i, j),
    ensures
        linked(seen, j, i),
{
    let k = choose|k: ItemKeyView| #[trigger] seen[i].contains(k) && seen[j].contains(k);
    assert(seen[j].contains(k) && seen[i].contains(k));
}

pub proof fn lemma_chained_concat(seen: Seq<Seq<ItemKeyView>>, i: int, j: int, l: int)
    requires
        chained(seen, i, j),
        chained(seen, j, l),
    ensures
        chained(seen, i, l),
{
    let p = choose|path: Seq<int>| #[trigger] is_chain(seen, path) && path[0] == i && path.last() == j;
    let q = choose|path: Seq<int>| #[trigger] is_chain(seen, path) && path[0] == j && path.last() == l;
    let r = p + q.drop_first();
    assert forall|t: int| 0 <= t < r.len() implies 0 <= #[trigger] r[t] < seen.len() by {
        if t >= p.len() {
            assert(r[t] == q[t - p.len() + 1]);
        }
    }
    assert forall|t: int| 0 <= t < r.len() - 1 implies #[trigger] linked(seen, r[t], r[t + 1]) by {
        if t < p.len() - 1 {
            assert(r[t] == p[t] && r[t + 1] == p[t + 1]);
        } else if t == p.len() - 1 {
            assert(r[t] == j && q[0] == j);
            assert(r[t + 1] == q[1]);
            assert(linked(seen, q[0], q[1]));
        } else {
            assert(r[t] == q[t - p.len() + 1]);
            assert(r[t + 1] == q[t - p.len() + 2]);
            assert(linked(seen, q[t - p.len() + 1], q[t - p.len() + 1 + 1]));
        }
    }
    assert(is_chain(seen, r));
    if q.len() == 1 {
        assert(r =~= p);
    } else {
        assert(r.last() == q.last());
    }
}

pub proof fn lemma_chained_sym(seen: Seq<Seq<ItemKeyView>>, i: int, j: int)
    requires
        chained(seen, i, j),
    ensures
        chained(seen, j, i),
{
    let p = choose|path: Seq<int>| #[trigger] is_chain(seen, path) && path[0] == i && path.last() == j;
    let r = p.reverse();
    assert forall|t: int| 0 <= t < r.len() implies 0 <= #[trigger] r[t] < seen.len() by {
        assert(r[t] == p[p.len() - 1 - t]);
    }
    assert forall|t: int| 0 <= t < r.len() - 1 implies #[trigger] linked(seen, r[t], r[t + 1]) by {
        let u = p.len() - 2 - t;
        assert(r[t] == p[u + 1]);
        assert(r[t + 1] == p[u]);
        assert(linked(seen, p[u], p[u + 1]));
        lemma_linked_sym(seen, p[u], p[u + 1]);
    }
    assert(is_chain(seen, r));
    assert(r[0] == j);
    assert(r.last() == i);
}

/// A chain among the first items stays one when an item is added.
pub proof fn lemma_chained_lift(seen: Seq<Seq<ItemKeyView>>, x: Seq<ItemKeyView>, i: int, j: int)
    requires
        chained(seen, i, j),
    ensures
        chained(seen.push(x), i, j),
{
    let p = choose|path: Seq<int>| #[trigger] is_chain(seen, path) && path[0] == i && path.last() == j;
    let s2 = seen.push(x);
    assert forall|t: int| 0 <= t < p.len() - 1 implies #[trigger] linked(s2, p[t], p[t + 1]) by {
        assert(linked(seen, p[t], p[t + 1]));
        let k = choose|k: ItemKeyView| #[trigger] seen[p[t]].contains(k) && seen[p[t + 1]].contains(k);
        assert(s2[p[t]] == seen[p[t]]);
        assert(s2[p[t + 1]] == seen[p[t + 1]]);
        assert(s2[p[t]].contains(k));
    }
    assert(is_chain(s2, p));
}

/// Where a chain goes once an item `x` is added after the first `seen`: from
/// an earlier item to an earlier item, it either needed no `x`, or both ends
/// reach an item sharing an id with `x`; to `x` itself, its start reaches one.
proof fn lemma_chain_split(seen: Seq<Seq<ItemKeyView>>, x: Seq<ItemKeyView>, path: Seq<int>)
    requires
        is_chain(seen.push(x), path),
        path[0] < seen.len(),
    ensures
        path.last() < seen.len() ==> chained(seen, path[0], path.last()) || (reaches(seen, path[0], x)
            && reaches(seen, path.last(), x)),
        path.last() == seen.len() ==> reaches(seen, path[0], x),
    decreases path.len(),
{
    let s2 = seen.push(x);
    let n = seen.len() as int;
    let i = path[0];
    if path.len() == 1 {
        lemma_chained_refl(seen, i);
    } else {
        let p = path.drop_last();
        assert(is_chain(s2, p)) by {
            assert forall|t: int| 0 <= t < p.len() implies 0 <= #[trigger] p[t] < s2.len() by {
                assert(p[t] == path[t]);
            }
            assert forall|t: int| 0 <= t < p.len() - 1 implies #[trigger] linked(s2, p[t], p[t + 1]) by {
                assert(p[t] == path[t] && p[t + 1] == path[t + 1]);
            }
        }
        lemma_chain_split(seen, x, p);
        let y = p.last();
        let z = path.last();
        assert(y == path[path.len() - 2]);
        assert(linked(s2, path[path.len() - 2], path[path.len() - 2 + 1]));
        assert(linked(s2, y, z));
        let k = choose|k: ItemKeyView| #[trigger] s2[y].contains(k) && s2[z].contains(k);
        assert(0 <= y < s2.len() && 0 <= z < s2.len()) by {
            assert(path[path.len() - 2] == y);
        }
        if y < n {
            assert(s2[y] == seen[y]);
            if z < n {
                assert(s2[z] == seen[z]);
                assert(linked(seen, y, z));
                lemma_chained_step(seen, y, z);
                if chained(seen, i, y) {
                    lemma_chained_concat(seen, i, y, z);
                } else {
                    let a = choose|a: int|
                        0 <= a < seen.len() && #[trigger] chained(seen, y, a) && exists|k2: ItemKeyView|
                            #[trigger] seen[a].contains(k2) && x.contains(k2);
                    lemma_chained_sym(seen, y, z);
                    lemma_chained_concat(seen, z, y, a);
                    assert(chained(seen, z, a));
                }
            } else {
                assert(z == n);
                assert(s2[z] == x);
                if chained(seen, i, y) {
                    assert(seen[y].contains(k) && x.contains(k));
                    assert(chained(seen, i, y));
                }
            }
        } else {
            assert(y == n);
            assert(s2[y] == x);
            if z < n {
                assert(s2[z] == seen[z]);
                lemma_chained_refl(seen, z);
                assert(seen[z].contains(k) && x.contains(k));
            }
        }
    }
}

/// Once `x` is added after the first `seen`, two earlier items are joined
/// exactly when they were already, or both reach an item sharing an id with
/// `x`; an earlier item is joined to `x` exactly when it reaches one.
pub proof fn lemma_chained_push(seen: Seq<Seq<ItemKeyView>>, x: Seq<ItemKeyView>, i: int, j: int)
    requires
        0 <= i < seen.len(),
        0 <= j < seen.len(),
    ensures
        chained(seen.push(x), i, j) <==> (chained(seen, i, j) || (reaches(seen, i, x) && reaches(seen, j, x))),
        chained(seen.push(x), i, seen.len() as int) <==> reaches(seen, i, x),
{
    let s2 = seen.push(x);
    let n = seen.len() as int;
    if chained(s2, i, j) {
        let p = choose|path: Seq<int>| #[trigger] is_chain(s2, path) && path[0] == i && path.last() == j;
        lemma_chain_split(seen, x, p);
    }
    if chained(s2, i, n) {
        let p = choose|path: Seq<int>| #[trigger] is_chain(s2, path) && path[0] == i && path.last() == n;
        lemma_chain_split(seen, x, p);
    }
    if chained(seen, i, j) {
        lemma_chained_lift(seen, x, i, j);
    }
    if reaches(seen, i, x) {
        lemma_reaches_new(seen, x, i);
    }
    if reaches(seen, i, x) && reaches(seen, j, x) {
        lemma_reaches_new(seen, x, i);
        lemma_reaches_new(seen, x, j);
        lemma_chained_sym(s2, j, n);
        lemma_chained_concat(s2, i, n, j);
    }
}

proof fn lemma_reaches_new(seen: Seq<Seq<ItemKeyView>>, x: Seq<ItemKeyView>, i: int)
    requires
        reaches(seen, i, x),
    ensures
        chained(seen.push(x), i, seen.len() as int),
{
    let s2 = seen.push(x);
    let n = seen.len() as int;
    let a = choose|a: int|
        0 <= a < seen.len() && #[trigger] chained(seen, i, a) && exists|k: ItemKeyView|
            #[trigger] seen[a].contains(k) && x.contains(k);
    let k = choose|k: ItemKeyView| #[trigger] seen[a].contains(k) && x.contains(k);
    lemma_chained_lift(seen, x, i, a);
    assert(s2[a] == seen[a] && s2[n] == x);
    assert(s2[a].contains(k) && s2[n].contains(k));
    assert(linked(s2, a, n));
    lemma_chained_step(s2, a, n);
    lemma_chained_concat(s2, i, a, n);
}

} // verus!
