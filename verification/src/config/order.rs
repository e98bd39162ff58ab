//! Dependency-first ordering of lists, with the cycles found on the way.
//!
//! Lists are numbered; `deps[i]` lists the lists that list `i` references, in
//! the order they are referenced. A depth-first walk emits each list after
//! everything it depends on, and reports a cycle whenever the walk reaches a
//! list it is still in the middle of.

use vstd::prelude::*;

verus! {

pub const UNVISITED: u8 = 0;
pub const IN_PROGRESS: u8 = 1;
pub const DONE: u8 = 2;

/// How many lists the walk has not reached yet.
pub open spec fn unvisited(m: Seq<u8>) -> nat
    decreases m.len(),
{
    if m.len() == 0 {
        0
    } else {
        unvisited(m.drop_last()) + if m.last() == UNVISITED {
            1nat
        } else {
            0nat
        }
    }
}

proof fn lemma_unvisited_update(m: Seq<u8>, i: int, v: u8)
    requires
        0 <= i < m.len(),
        v != UNVISITED,
    ensures
        unvisited(m.update(i, v)) == unvisited(m) - if m[i] == UNVISITED {
            1int
        } else {
            0int
        },
    decreases m.len(),
{
    let u = m.update(i, v);
    if i == m.len() - 1 {
        assert(u.drop_last() =~= m.drop_last());
    } else {
        assert(u.drop_last() =~= m.drop_last().update(i, v));
        lemma_unvisited_update(m.drop_last(), i, v);
    }
}

proof fn lemma_unvisited_monotone(a: Seq<u8>, b: Seq<u8>)
    requires
        a.len() == b.len(),
        forall|j: int| 0 <= j < a.len() && a[j] != UNVISITED ==> b[j] != UNVISITED,
    ensures
        unvisited(b) <= unvisited(a),
    decreases a.len(),
{
    if a.len() > 0 {
        lemma_unvisited_monotone(a.drop_last(), b.drop_last());
    }
}

/// Everything `deps` refers to is a list.
pub open spec fn deps_in_range(deps: Seq<Vec<usize>>) -> bool {
    forall|i: int, k: int|
        0 <= i < deps.len() && 0 <= k < deps[i]@.len() ==> #[trigger] deps[i]@[k] < deps.len()
}

/// Whether `d` occurs in `order` before position `p`.
pub open spec fn occurs_before(order: Seq<usize>, d: usize, p: int) -> bool {
    exists|q: int| 0 <= q < p && order[q] == d
}

/// Every list in `order` comes after every list it depends on.
pub open spec fn dependencies_first(deps: Seq<Vec<usize>>, order: Seq<usize>) -> bool {
    forall|p: int, k: int|
        0 <= p < order.len() && 0 <= k < deps[order[p] as int]@.len() ==> #[trigger] occurs_before(
            order,
            deps[order[p] as int]@[k],
            p,
        )
}

/// Whether `d` is among the lists that list `i` depends on.
pub open spec fn depends_on(deps: Seq<Vec<usize>>, i: usize, d: usize) -> bool {
    0 <= i < deps.len() && deps[i as int]@.contains(d)
}

/// A cycle as reported: a list, the lists it leads to one dependency at a
/// time, and the first list again at the end.
pub open spec fn is_cycle(deps: Seq<Vec<usize>>, c: Seq<usize>) -> bool {
    &&& c.len() >= 2
    &&& c[0] == c[c.len() - 1]
    &&& forall|t: int| 0 <= t < c.len() - 1 ==> #[trigger] depends_on(deps, c[t], c[t + 1])
}

/// Each list on the walk's stack depends on the next one.
pub open spec fn stack_is_path(deps: Seq<Vec<usize>>, stack: Seq<usize>) -> bool {
    forall|t: int| 0 <= t < stack.len() - 1 ==> #[trigger] depends_on(deps, stack[t], stack[t + 1])
}

/// Every cycle reported so far is one.
pub open spec fn cycles_real(deps: Seq<Vec<usize>>, cycles: Seq<Vec<usize>>) -> bool {
    forall|j: int| 0 <= j < cycles.len() ==> is_cycle(deps, (#[trigger] cycles[j])@)
}

/// The walk's bookkeeping.
pub struct Walk {
    pub marks: Vec<u8>,
    pub stack: Vec<usize>,
    pub order: Vec<usize>,
    /// Each cycle as the lists on it, the first one repeated at the end.
    pub cycles: Vec<Vec<usize>>,
}

impl Walk {
    pub open spec fn consistent(&self, n: nat) -> bool {
        &&& self.marks@.len() == n
        &&& forall|j: int| 0 <= j < n ==> #[trigger] self.marks@[j] <= DONE
        &&& self.stack@.no_duplicates()
        &&& forall|j: int| 0 <= j < self.stack@.len() ==> #[trigger] self.stack@[j] < n
        &&& forall|j: int|
            0 <= j < n ==> (self.marks@[j] == IN_PROGRESS <==> self.stack@.contains(j as usize))
        &&& self.order@.no_duplicates()
        &&& forall|j: int| 0 <= j < self.order@.len() ==> #[trigger] self.order@[j] < n
        &&& forall|j: int| 0 <= j < n ==> (self.marks@[j] == DONE <==> self.order@.contains(j as usize))
    }

    /// What a walk step keeps: nothing is forgotten, and the order only grows.
    pub open spec fn extends(&self, old: Walk) -> bool {
        &&& self.marks@.len() == old.marks@.len()
        &&& forall|j: int|
            0 <= j < old.marks@.len() && old.marks@[j] != UNVISITED ==> #[trigger] self.marks@[j]
                == old.marks@[j]
        &&& self.stack@ == old.stack@
        &&& old.order@.len() <= self.order@.len()
        &&& forall|j: int| 0 <= j < old.order@.len() ==> #[trigger] self.order@[j] == old.order@[j]
        &&& old.cycles@.len() <= self.cycles@.len()
    }
}

fn visit(deps: &Vec<Vec<usize>>, i: usize, walk: &mut Walk)
    requires
        deps_in_range(deps@),
        i < deps@.len(),
        old(walk).consistent(deps@.len() as nat),
        old(walk).cycles@.len() == 0 ==> dependencies_first(deps@, old(walk).order@),
        stack_is_path(deps@, old(walk).stack@),
        old(walk).stack@.len() > 0 ==> depends_on(deps@, old(walk).stack@.last(), i),
        cycles_real(deps@, old(walk).cycles@),
    ensures
        cycles_real(deps@, final(walk).cycles@),
        final(walk).consistent(deps@.len() as nat),
        final(walk).extends(*old(walk)),
        final(walk).cycles@.len() == 0 ==> dependencies_first(deps@, final(walk).order@),
        old(walk).marks@[i as int] == UNVISITED ==> final(walk).marks@[i as int] == DONE,
        old(walk).marks@[i as int] == IN_PROGRESS ==> final(walk).cycles@.len() > 0,
    decreases unvisited(old(walk).marks@),
{
    let n = deps.len();
    let mark = walk.marks[i];
    if mark == DONE {
        return;
    }
    if mark == IN_PROGRESS {
        // The walk came back to a list it has not finished: a cycle.
        let mut start: usize = 0;
        while start < walk.stack.len() && walk.stack[start] != i
            invariant
                start <= walk.stack@.len(),
                forall|t: int| 0 <= t < start ==> walk.stack@[t] != i,
            decreases walk.stack.len() - start,
        {
            start += 1;
        }
        proof {
            assert(walk.marks@[i as int] == IN_PROGRESS);
            assert(walk.stack@.contains(i));
            let w = choose|w: int| 0 <= w < walk.stack@.len() && walk.stack@[w] == i;
            assert(start <= w);
            assert(start < walk.stack@.len());
            assert(walk.stack@[start as int] == i);
        }
        let mut cycle: Vec<usize> = Vec::new();
        let mut k: usize = start;
        while k < walk.stack.len()
            invariant
                start <= k <= walk.stack@.len(),
                start < walk.stack@.len(),
                cycle@ == walk.stack@.subrange(start as int, k as int),
            decreases walk.stack.len() - k,
        {
            cycle.push(walk.stack[k]);
            proof {
                assert(walk.stack@.subrange(start as int, k + 1) =~= walk.stack@.subrange(start as int, k as int).push(walk.stack@[k as int]));
            }
            k += 1;
        }
        let ghost path = cycle@;
        cycle.push(i);
        proof {
            let c = cycle@;
            let st = walk.stack@;
            assert(c == path.push(i));
            assert(path.len() == st.len() - start);
            assert(c[0] == st[start as int]);
            assert forall|t: int| 0 <= t < c.len() - 1 implies #[trigger] depends_on(deps@, c[t], c[t + 1]) by {
                if t < path.len() - 1 {
                    assert(c[t] == st[start + t]);
                    assert(c[t + 1] == st[start + t + 1]);
                    assert(depends_on(deps@, st[start + t], st[start + t + 1]));
                } else {
                    assert(c[t] == st[st.len() - 1]);
                    assert(c[t + 1] == i);
                }
            }
            assert(is_cycle(deps@, c));
        }
        let ghost prev_cycles = walk.cycles@;
        walk.cycles.push(cycle);
        proof {
            assert forall|j: int| 0 <= j < walk.cycles@.len() implies is_cycle(deps@, (#[trigger] walk.cycles@[j])@) by {
                if j < prev_cycles.len() {
                    assert(walk.cycles@[j] == prev_cycles[j]);
                }
            }
        }
        return;
    }
    let ghost entry = *walk;
    assert(entry.marks@ == old(walk).marks@);
    proof {
        lemma_unvisited_update(walk.marks@, i as int, IN_PROGRESS);
    }
    walk.marks.set(i, IN_PROGRESS);
    let ghost before_push = walk.stack@;
    walk.stack.push(i);
    proof {
        assert(walk.stack@ == before_push.push(i));
        assert forall|t: int| 0 <= t < walk.stack@.len() - 1 implies #[trigger] depends_on(
            deps@,
            walk.stack@[t],
            walk.stack@[t + 1],
        ) by {
            if t < before_push.len() - 1 {
                assert(walk.stack@[t] == before_push[t]);
                assert(walk.stack@[t + 1] == before_push[t + 1]);
                assert(depends_on(deps@, before_push[t], before_push[t + 1]));
            } else {
                assert(walk.stack@[t] == before_push.last());
                assert(walk.stack@[t + 1] == i);
            }
        }
        assert(!before_push.contains(i));
        assert forall|x: int, y: int|
            0 <= x < walk.stack@.len() && 0 <= y < walk.stack@.len() && x != y implies walk.stack@[x]
            != walk.stack@[y] by {
            if x == before_push.len() {
                assert(walk.stack@[y] == before_push[y]);
            } else if y == before_push.len() {
                assert(walk.stack@[x] == before_push[x]);
            } else {
                assert(walk.stack@[x] == before_push[x] && walk.stack@[y] == before_push[y]);
            }
        }
        assert forall|j: int| 0 <= j < n implies (walk.marks@[j] == IN_PROGRESS
            <==> walk.stack@.contains(j as usize)) by {
            if walk.stack@.contains(j as usize) && j != i {
                let w = choose|w: int| 0 <= w < walk.stack@.len() && walk.stack@[w] == j as usize;
                assert(before_push[w] == j as usize);
            }
            if before_push.contains(j as usize) {
                let w = choose|w: int| 0 <= w < before_push.len() && before_push[w] == j as usize;
                assert(walk.stack@[w] == j as usize);
            }
            if j == i {
                assert(walk.stack@[before_push.len() as int] == i);
            }
        }
    }
    let ghost started = *walk;
    let mut k: usize = 0;
    while k < deps[i].len()
        invariant
            deps_in_range(deps@),
            i < deps@.len(),
            n == deps@.len(),
            walk.consistent(n as nat),
            walk.extends(started),
            walk.marks@[i as int] == IN_PROGRESS,
            walk.stack@ == started.stack@,
            walk.cycles@.len() == 0 ==> dependencies_first(deps@, walk.order@),
            cycles_real(deps@, walk.cycles@),
            stack_is_path(deps@, walk.stack@),
            walk.stack@.len() > 0 && walk.stack@.last() == i,
            unvisited(walk.marks@) < unvisited(entry.marks@),
            entry.marks@ == old(walk).marks@,
            k <= deps@[i as int]@.len(),
            forall|m: int|
                0 <= m < k ==> walk.marks@[#[trigger] deps@[i as int]@[m] as int] == DONE
                    || walk.cycles@.len() > 0,
        decreases deps@[i as int]@.len() - k,
    {
        let d = deps[i][k];
        assert(deps@[i as int]@[k as int] == d);
        assert(depends_on(deps@, walk.stack@.last(), d));
        let ghost here = *walk;
        visit(deps, d, walk);
        proof {
            lemma_unvisited_monotone(here.marks@, walk.marks@);
            assert forall|m: int|
                0 <= m < k + 1 implies walk.marks@[#[trigger] deps@[i as int]@[m] as int] == DONE
                || walk.cycles@.len() > 0 by {
                if m < k {
                    if here.marks@[deps@[i as int]@[m] as int] == DONE {
                    }
                }
            }
            assert forall|j: int|
                0 <= j < started.marks@.len() && started.marks@[j] != UNVISITED implies #[trigger] walk.marks@[j]
                == started.marks@[j] by {
                assert(here.marks@[j] == started.marks@[j]);
            }
            assert forall|j: int| 0 <= j < started.order@.len() implies #[trigger] walk.order@[j]
                == started.order@[j] by {
                assert(here.order@[j] == started.order@[j]);
            }
        }
        k += 1;
    }
    let ghost finishing = *walk;
    walk.stack.pop();
    proof {
        assert(walk.stack@ == entry.stack@) by {
            assert(started.stack@ == entry.stack@.push(i));
            assert(walk.stack@ =~= entry.stack@);
        }
        lemma_unvisited_update(walk.marks@, i as int, DONE);
    }
    walk.marks.set(i, DONE);
    let ghost before_order = walk.order@;
    walk.order.push(i);
    proof {
        assert(walk.order@ == before_order.push(i));
        assert(!before_order.contains(i)) by {
            if before_order.contains(i) {
                assert(finishing.marks@[i as int] == DONE);
            }
        }
        assert forall|x: int, y: int|
            0 <= x < walk.order@.len() && 0 <= y < walk.order@.len() && x != y implies walk.order@[x]
            != walk.order@[y] by {
            if x == before_order.len() {
                assert(walk.order@[y] == before_order[y]);
            } else if y == before_order.len() {
                assert(walk.order@[x] == before_order[x]);
            } else {
                assert(walk.order@[x] == before_order[x] && walk.order@[y] == before_order[y]);
            }
        }
        assert forall|j: int| 0 <= j < n implies (walk.marks@[j] == DONE
            <==> walk.order@.contains(j as usize)) by {
            if walk.order@.contains(j as usize) && j != i {
                let w = choose|w: int| 0 <= w < walk.order@.len() && walk.order@[w] == j as usize;
                assert(before_order[w] == j as usize);
            }
            if before_order.contains(j as usize) {
                let w = choose|w: int| 0 <= w < before_order.len() && before_order[w] == j as usize;
                assert(walk.order@[w] == j as usize);
            }
            if j == i {
                assert(walk.order@[before_order.len() as int] == i);
            }
        }
        assert forall|j: int| 0 <= j < n implies (walk.marks@[j] == IN_PROGRESS
            <==> walk.stack@.contains(j as usize)) by {
            if j == i {
                assert(!entry.stack@.contains(i));
            }
        }
        if walk.cycles@.len() == 0 {
            assert forall|p: int, m: int|
                0 <= p < walk.order@.len() && 0 <= m < deps@[walk.order@[p] as int]@.len()
                    implies #[trigger] occurs_before(
                    walk.order@,
                    deps@[walk.order@[p] as int]@[m],
                    p,
                ) by {
                if p < before_order.len() {
                    assert(walk.order@[p] == before_order[p]);
                    assert(occurs_before(before_order, deps@[before_order[p] as int]@[m], p));
                    let q = choose|q: int|
                        0 <= q < p && before_order[q] == deps@[before_order[p] as int]@[m];
                    assert(walk.order@[q] == before_order[q]);
                } else {
                    assert(walk.order@[p] == i);
                    let d = deps@[i as int]@[m];
                    assert(finishing.marks@[d as int] == DONE);
                    assert(before_order.contains(d));
                    let q = choose|q: int| 0 <= q < before_order.len() && before_order[q] == d;
                    assert(walk.order@[q] == d);
                }
            }
            assert(dependencies_first(deps@, walk.order@));
        }
        assert forall|j: int|
            0 <= j < entry.marks@.len() && entry.marks@[j] != UNVISITED implies #[trigger] walk.marks@[j]
            == entry.marks@[j] by {
            assert(started.marks@[j] == entry.marks@[j]);
        }
        assert forall|j: int| 0 <= j < entry.order@.len() implies #[trigger] walk.order@[j]
            == entry.order@[j] by {
            assert(started.order@[j] == entry.order@[j]);
        }
    }
}

/// Walk every list, in the order given, emitting each after its
/// dependencies. Returns the order and the cycles found.
pub fn dependency_order(deps: &Vec<Vec<usize>>) -> (r: (Vec<usize>, Vec<Vec<usize>>))
    requires
        deps_in_range(deps@),
    ensures
        cycles_real(deps@, r.1@),
        r.0@.len() == deps@.len(),
        r.0@.no_duplicates(),
        forall|j: int| 0 <= j < r.0@.len() ==> #[trigger] r.0@[j] < deps@.len(),
        r.1@.len() == 0 ==> dependencies_first(deps@, r.0@),
{
    let n = deps.len();
    let mut marks: Vec<u8> = Vec::new();
    let mut j: usize = 0;
    while j < n
        invariant
            j <= n,
            marks@.len() == j,
            forall|x: int| 0 <= x < j ==> #[trigger] marks@[x] == UNVISITED,
        decreases n - j,
    {
        marks.push(UNVISITED);
        j += 1;
    }
    let mut walk = Walk { marks, stack: Vec::new(), order: Vec::new(), cycles: Vec::new() };
    let mut i: usize = 0;
    while i < n
        invariant
            i <= n,
            n == deps@.len(),
            deps_in_range(deps@),
            walk.consistent(n as nat),
            walk.stack@.len() == 0,
            walk.cycles@.len() == 0 ==> dependencies_first(deps@, walk.order@),
            cycles_real(deps@, walk.cycles@),
            forall|x: int| 0 <= x < i ==> #[trigger] walk.marks@[x] == DONE,
        decreases n - i,
    {
        let ghost before = walk;
        visit(deps, i, &mut walk);
        proof {
            assert forall|x: int| 0 <= x < i + 1 implies #[trigger] walk.marks@[x] == DONE by {
                if x < i {
                    assert(before.marks@[x] == DONE);
                } else {
                    assert(before.marks@[x] != IN_PROGRESS) by {
                        assert(!before.stack@.contains(x as usize));
                    }
                }
            }
        }
        i += 1;
    }
    proof {
        // Every list is done, so every list is in the order exactly once.
        assert forall|x: usize| x < n implies #[trigger] walk.order@.contains(x) by {
            assert(walk.marks@[x as int] == DONE);
        }
        let s = walk.order@.to_set();
        assert(s.len() == walk.order@.len()) by {
            walk.order@.unique_seq_to_set();
        }
        let full = Set::new(|x: usize| x < n);
        assert(s =~= full) by {
            assert forall|x: usize| s.contains(x) <==> full.contains(x) by {
                if s.contains(x) {
                    let w = choose|w: int| 0 <= w < walk.order@.len() && walk.order@[w] == x;
                }
                if full.contains(x) {
                    assert(walk.order@.contains(x));
                }
            }
        }
        lemma_range_set_len(n);
    }
    (walk.order, walk.cycles)
}

proof fn lemma_range_set_len(n: usize)
    ensures
        Set::new(|x: usize| x < n).len() == n,
        Set::new(|x: usize| x < n).finite(),
    decreases n,
{
    if n == 0 {
        assert(Set::new(|x: usize| x < n) =~= Set::<usize>::empty());
    } else {
        let m = (n - 1) as usize;
        lemma_range_set_len(m);
        assert(Set::new(|x: usize| x < n) =~= Set::new(|x: usize| x < m).insert(m));
    }
}


/// A duplicate-free sequence of `n` indices below `n` holds every one.
pub proof fn lemma_perm_contains(order: Seq<usize>, n: nat, v: usize)
    requires
        order.len() == n,
        order.no_duplicates(),
        forall|j: int| 0 <= j < order.len() ==> #[trigger] order[j] < n,
        v < n,
    ensures
        order.contains(v),
{
    let m = order.map_values(|x: usize| x as int);
    assert(m.no_duplicates()) by {
        assert forall|a: int, b: int| 0 <= a < m.len() && 0 <= b < m.len() && a != b implies m[a] != m[b] by {
            assert(order[a] != order[b]);
        }
    }
    m.unique_seq_to_set();
    vstd::set_lib::lemma_int_range(0, n as int);
    assert(m.to_set().subset_of(vstd::set_lib::set_int_range(0, n as int))) by {
        assert forall|x: int| #[trigger] m.to_set().contains(x) implies vstd::set_lib::set_int_range(0, n as int).contains(x) by {
            let k = choose|k: int| 0 <= k < m.len() && m[k] == x;
            assert(order[k] < n);
        }
    }
    vstd::set_lib::lemma_subset_equality(m.to_set(), vstd::set_lib::set_int_range(0, n as int));
    assert(vstd::set_lib::set_int_range(0, n as int).contains(v as int));
    assert(m.to_set().contains(v as int));
    let k = choose|k: int| 0 <= k < m.len() && m[k] == v as int;
    assert(order[k] == v);
}

proof fn lemma_walk_back(deps: Seq<Vec<usize>>, order: Seq<usize>, c: Seq<usize>, p0: int, t: int) -> (p: int)
    requires
        dependencies_first(deps, order),
        is_cycle(deps, c),
        0 <= p0 < order.len(),
        order[p0] == c[0],
        0 <= t < c.len(),
    ensures
        0 <= p < order.len(),
        order[p] == c[t],
        p + t <= p0,
    decreases t,
{
    if t == 0 {
        p0
    } else {
        let q = lemma_walk_back(deps, order, c, p0, t - 1);
        let u = t - 1;
        assert(depends_on(deps, c[u], c[u + 1]));
        let row = deps[c[t - 1] as int]@;
        assert(row.contains(c[t]));
        let k = choose|k: int| 0 <= k < row.len() && #[trigger] row[k] == c[t];
        assert(occurs_before(order, deps[order[q] as int]@[k], q));
        let r = choose|r: int| 0 <= r < q && order[r] == deps[order[q] as int]@[k];
        r
    }
}

/// An order in which every list comes after those it depends on, holding
/// every list once, leaves no room for a cycle.
pub proof fn lemma_first_order_acyclic(deps: Seq<Vec<usize>>, order: Seq<usize>, c: Seq<usize>)
    requires
        dependencies_first(deps, order),
        order.len() == deps.len(),
        order.no_duplicates(),
        forall|j: int| 0 <= j < order.len() ==> #[trigger] order[j] < deps.len(),
    ensures
        !is_cycle(deps, c),
{
    if is_cycle(deps, c) {
        let z: int = 0;
        assert(depends_on(deps, c[z], c[z + 1]));
        lemma_perm_contains(order, deps.len(), c[0]);
        let p0 = choose|p: int| 0 <= p < order.len() && order[p] == c[0];
        let p = lemma_walk_back(deps, order, c, p0, c.len() - 1);
        assert(order[p] == order[p0]);
    }
}
} // verus!
