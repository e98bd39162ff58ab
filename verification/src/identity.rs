//! Item identity: two items are the same when they share *any* external id.
//!
//! Sources rarely agree on which ids they carry - MDBList gives TMDb+IMDb,
//! Sonarr gives TVDb+IMDb, a homemade JSON feed may give IMDb only. Matching on
//! a single provider would silently split one title into two. Instead every id
//! an item carries is a key, all keys of one item are linked, and linked keys
//! form a group. Matching is therefore transitive: an IMDb-only item bridges a
//! TMDb-only item and a TVDb-only item that both share its IMDb id.

use vstd::prelude::*;

use crate::chains::{chained, lemma_chained_push, lemma_chained_refl, lemma_chained_sym, reaches};
use crate::model::{Attrs, AttrsView, Item, ItemKey, ItemKeyView, ItemView};

verus! {

/// Identifies one real-world title across every configured source.
pub type GroupId = usize;

/// A slot handed out by [`Interner::insert`]. Slots are merged as more items
/// arrive, so a slot is only turned into a [`GroupId`] by
/// [`Interner::resolve`] once every item has been inserted.
pub type SlotId = usize;

/// The representative of `i` under the parent links `p`: follow links to
/// smaller slots until a slot is its own parent.
pub open spec fn root_of(p: Seq<usize>, i: int) -> int
    decreases i,
{
    if 0 <= i < p.len() && 0 <= p[i] < i {
        root_of(p, p[i] as int)
    } else {
        i
    }
}

/// Every link points at the slot itself or an older one.
pub open spec fn links_down(p: Seq<usize>) -> bool {
    forall|i: int| 0 <= i < p.len() ==> p[i] <= i
}

pub proof fn lemma_root(p: Seq<usize>, i: int)
    requires
        links_down(p),
        0 <= i < p.len(),
    ensures
        0 <= root_of(p, i) <= i,
        p[root_of(p, i)] == root_of(p, i),
    decreases i,
{
    if p[i] < i {
        lemma_root(p, p[i] as int);
    }
}

/// Pointing `node` at its grandparent keeps every representative.
proof fn lemma_compress(p: Seq<usize>, node: int, j: int)
    requires
        links_down(p),
        0 <= node < p.len(),
        p[node] != node,
        0 <= j < p.len(),
    ensures
        links_down(p.update(node, p[p[node] as int])),
        root_of(p.update(node, p[p[node] as int]), j) == root_of(p, j),
    decreases j,
{
    let q = p.update(node, p[p[node] as int]);
    assert(links_down(q)) by {
        assert forall|i: int| 0 <= i < q.len() implies q[i] <= i by {
            if i == node {
                assert(p[p[node] as int] <= p[node]);
            }
        }
    }
    if q[j] < j {
        lemma_compress(p, node, q[j] as int);
        if j == node {
            let parent = p[node] as int;
            if p[parent] < parent {
                assert(root_of(p, parent) == root_of(p, p[parent] as int));
            }
        }
    } else if j == node {
        assert(p[p[node] as int] <= p[node] < node);
    }
}

/// Linking the root `absorb` under the root `keep` sends its whole group to
/// `keep` and leaves every other group alone.
proof fn lemma_link(p: Seq<usize>, keep: int, absorb: int, j: int)
    requires
        links_down(p),
        0 <= keep < absorb < p.len(),
        p[keep] == keep,
        p[absorb] == absorb,
        0 <= j < p.len(),
    ensures
        links_down(p.update(absorb, keep as usize)),
        root_of(p.update(absorb, keep as usize), j) == if root_of(p, j) == absorb {
            keep
        } else {
            root_of(p, j)
        },
    decreases j,
{
    let q = p.update(absorb, keep as usize);
    if q[j] < j {
        lemma_link(p, keep, absorb, q[j] as int);
        if j == absorb {
            assert(root_of(p, keep) == keep);
        }
    }
}

/// A new slot that is its own parent leaves every older representative alone.
proof fn lemma_extend(p: Seq<usize>, n: usize, j: int)
    requires
        n == p.len(),
        0 <= j < p.len(),
    ensures
        root_of(p.push(n), j) == root_of(p, j),
    decreases j,
{
    let q = p.push(n);
    assert(q[j] == p[j]);
    if 0 <= p[j] < j {
        lemma_extend(p, n, p[j] as int);
    }
}

/// Whether `g` is one of the representatives listed.
pub open spec fn has_root(roots: Seq<usize>, g: int) -> bool {
    exists|m: int| 0 <= m < roots.len() && roots[m] as int == g
}

/// The slot the table records for a key: the first entry with that key.
pub open spec fn table_slot(t: Seq<(ItemKey, usize)>, k: ItemKeyView) -> Option<int>
    decreases t.len(),
{
    if t.len() == 0 {
        None
    } else if t.last().0@ == k {
        match table_slot(t.drop_last(), k) {
            Some(s) => Some(s),
            None => Some(t.last().1 as int),
        }
    } else {
        table_slot(t.drop_last(), k)
    }
}

proof fn lemma_table_slot(t: Seq<(ItemKey, usize)>, k: ItemKeyView)
    ensures
        table_slot(t, k) matches Some(s) ==> exists|i: int|
            0 <= i < t.len() && t[i].0@ == k && t[i].1 == s,
        table_slot(t, k) is None ==> forall|i: int| 0 <= i < t.len() ==> t[i].0@ != k,
        (forall|i: int| 0 <= i < t.len() ==> t[i].0@ != k) ==> table_slot(t, k) is None,
    decreases t.len(),
{
    if t.len() > 0 {
        lemma_table_slot(t.drop_last(), k);
        match table_slot(t.drop_last(), k) {
            Some(s) => {
                let i = choose|i: int|
                    0 <= i < t.drop_last().len() && t.drop_last()[i].0@ == k && t.drop_last()[i].1
                        == s;
                assert(t[i] == t.drop_last()[i]);
            },
            None => {},
        }
        assert forall|i: int| 0 <= i < t.len() - 1 implies t[i] == t.drop_last()[i] by {}
    }
}

proof fn lemma_table_push(t: Seq<(ItemKey, usize)>, e: (ItemKey, usize), k: ItemKeyView)
    ensures
        table_slot(t.push(e), k) == if table_slot(t, k) is Some || e.0@ != k {
            table_slot(t, k)
        } else {
            Some(e.1 as int)
        },
{
    assert(t.push(e).drop_last() =~= t);
}

pub struct Interner {
    parent: Vec<usize>,
    items: Vec<Item>,
    /// Each key with the slot of the first item that carried it.
    keys: Vec<(ItemKey, usize)>,
    /// The ids of every item inserted so far, with the slot it went to.
    seen: Ghost<Seq<(Seq<ItemKeyView>, int)>>,
}

impl Interner {
    /// The structure's invariant: one parent link per slot, every link
    /// pointing at an older slot, and every recorded slot in range.
    pub closed spec fn well_formed(&self) -> bool {
        &&& self.parent@.len() == self.items@.len()
        &&& links_down(self.parent@)
        &&& forall|i: int| 0 <= i < self.keys@.len() ==> self.keys@[i].1 < self.items@.len()
    }

    /// How many slots have been handed out.
    pub closed spec fn slots(&self) -> nat {
        self.items@.len()
    }

    /// The group a slot belongs to: its representative slot.
    pub closed spec fn group(&self, slot: int) -> int {
        root_of(self.parent@, slot)
    }

    /// The slot recorded for a key, if any item carried it.
    pub closed spec fn key_slot(&self, k: ItemKeyView) -> Option<int> {
        table_slot(self.keys@, k)
    }

    /// The item held at a slot; for a representative, the merged item.
    pub closed spec fn member(&self, slot: int) -> ItemView {
        self.items@[slot]@
    }

    /// Whether the key is recorded, at a slot of the group `g`.
    pub open spec fn leads_to(&self, k: ItemKeyView, g: int) -> bool {
        match self.key_slot(k) {
            Some(t) => self.group(t) == g,
            None => false,
        }
    }

    /// Each slot's group, as a function.
    pub open spec fn group_fn(&self) -> spec_fn(int) -> int {
        |x: int| self.group(x)
    }

    /// The groups a set of slots falls into.
    pub open spec fn groups_of(&self, xs: Set<int>) -> Set<int> {
        xs.map(self.group_fn())
    }

    /// Where slots that shared a group before still share one, a set of
    /// slots falls into no more groups than it did.
    proof fn lemma_groups_only_merge(before: Interner, after: Interner, xs: Set<int>)
        requires
            xs.finite(),
            forall|a: int, b: int|
                xs.contains(a) && xs.contains(b) && before.group(a) == before.group(b) ==> after.group(a)
                    == after.group(b),
        ensures
            after.groups_of(xs).len() <= before.groups_of(xs).len(),
        decreases xs.len(),
    {
        xs.lemma_map_finite(after.group_fn());
        xs.lemma_map_finite(before.group_fn());
        if xs.len() == 0 {
            assert(after.groups_of(xs) =~= Set::<int>::empty());
        } else {
            let x = xs.choose();
            let rest = xs.remove(x);
            Interner::lemma_groups_only_merge(before, after, rest);
            rest.lemma_map_finite(after.group_fn());
            rest.lemma_map_finite(before.group_fn());
            assert(after.groups_of(xs) =~= after.groups_of(rest).insert(after.group(x)));
            assert(before.groups_of(xs) =~= before.groups_of(rest).insert(before.group(x)));
            if before.groups_of(rest).contains(before.group(x)) {
                let y = choose|y: int| rest.contains(y) && before.group_fn()(y) == before.group(x);
                assert(after.group(y) == after.group(x));
                assert(rest.contains(y) && after.group_fn()(y) == after.group(x));
                assert(after.groups_of(rest).contains(after.group(x)));
            }
        }
    }

    /// Whether the item's keys reach the group represented by `g`.
    pub open spec fn touches(&self, item: ItemView, g: int) -> bool {
        exists|k: int| 0 <= k < item.keys().len() && #[trigger] self.leads_to(item.keys()[k], g)
    }

    /// The ids of each item inserted so far, in order.
    pub closed spec fn inserted(&self) -> Seq<Seq<ItemKeyView>> {
        self.seen@.map_values(|e: (Seq<ItemKeyView>, int)| e.0)
    }

    /// The slot the `i`th inserted item went to.
    pub closed spec fn slot_of(&self, i: int) -> int {
        self.seen@[i].1
    }

    /// What grouping keeps true of the items inserted so far: each went to
    /// a slot, each of its ids leads to that slot's group, every recorded id
    /// came from one of them, and two of them share a group exactly when a
    /// chain of shared ids joins them.
    pub closed spec fn chains_ok(&self) -> bool {
        let n = self.seen@.len();
        &&& forall|i: int| 0 <= i < n ==> 0 <= #[trigger] self.slot_of(i) < self.slots()
        &&& forall|i: int, m: int|
            0 <= i < n && 0 <= m < self.inserted()[i].len() ==> #[trigger] self.leads_to(
                self.inserted()[i][m],
                self.group(self.slot_of(i)),
            )
        &&& forall|k: ItemKeyView|
            #[trigger] self.key_slot(k) is Some ==> exists|i: int|
                0 <= i < n && #[trigger] self.inserted()[i].contains(k)
        &&& forall|i: int, j: int|
            #![trigger self.slot_of(i), self.slot_of(j)]
            0 <= i < n && 0 <= j < n ==> (self.group(self.slot_of(i)) == self.group(self.slot_of(j))
                <==> chained(self.inserted(), i, j))
    }

    /// Two inserted items share a group exactly when a chain of shared ids
    /// joins them: the first shares an id with a second, which shares one
    /// with a third, and so on to the last.
    pub proof fn lemma_groups_are_chains(&self, i: int, j: int)
        requires
            self.chains_ok(),
            0 <= i < self.inserted().len(),
            0 <= j < self.inserted().len(),
        ensures
            self.group(self.slot_of(i)) == self.group(self.slot_of(j)) <==> chained(self.inserted(), i, j),
    {
        assert(self.slot_of(i) == self.seen@[i].1);
        assert(self.slot_of(j) == self.seen@[j].1);
    }

    /// A change that keeps the slots, their groups, the recorded ids and
    /// the record of insertions keeps what grouping promises of them.
    proof fn lemma_chains_kept(self, other: Interner)
        requires
            self.well_formed(),
            other.slots() == self.slots(),
            forall|j: int| 0 <= j < self.slots() ==> other.group(j) == self.group(j),
            other.keys@ == self.keys@,
            other.seen == self.seen,
        ensures
            self.chains_ok() ==> other.chains_ok(),
            other.inserted() == self.inserted(),
            forall|i: int| 0 <= i < self.inserted().len() ==> other.slot_of(i) == self.slot_of(i),
    {
        assert(other.inserted() =~= self.inserted());
        if self.chains_ok() {
            let n = self.seen@.len();
            assert forall|i: int| 0 <= i < n implies 0 <= #[trigger] other.slot_of(i) < other.slots() by {
                assert(0 <= self.slot_of(i) < self.slots());
            }
            assert forall|k: ItemKeyView| #[trigger] other.key_slot(k) is Some implies exists|i: int|
                0 <= i < n && #[trigger] other.inserted()[i].contains(k) by {
                assert(self.key_slot(k) is Some);
            }
            assert forall|i: int, m: int|
                0 <= i < n && 0 <= m < other.inserted()[i].len() implies #[trigger] other.leads_to(
                other.inserted()[i][m],
                other.group(other.slot_of(i)),
            ) by {
                assert(self.leads_to(self.inserted()[i][m], self.group(self.slot_of(i))));
                self.lemma_key_slot(self.inserted()[i][m]);
            }
            assert forall|i: int, j: int|
                #![trigger other.slot_of(i), other.slot_of(j)]
                0 <= i < n && 0 <= j < n implies (other.group(other.slot_of(i)) == other.group(other.slot_of(j))
                <==> chained(other.inserted(), i, j)) by {
                assert(self.slot_of(i) == other.slot_of(i));
                assert(self.slot_of(j) == other.slot_of(j));
                assert(0 <= self.slot_of(i) < self.slots());
                assert(0 <= self.slot_of(j) < self.slots());
            }
        }
    }

    pub fn new() -> (r: Interner)
        ensures
            r.well_formed(),
            r.slots() == 0,
            forall|k: ItemKeyView| r.key_slot(k) is None,
            r.inserted().len() == 0,
            r.chains_ok(),
    {
        let r = Interner {
            parent: Vec::new(),
            items: Vec::new(),
            keys: Vec::new(),
            seen: Ghost(Seq::empty()),
        };
        assert forall|k: ItemKeyView| r.key_slot(k) is None by {
            assert(r.keys@.len() == 0);
        }
        r
    }

    pub proof fn lemma_group(&self, slot: int)
        requires
            self.well_formed(),
            0 <= slot < self.slots(),
        ensures
            0 <= self.group(slot) <= slot,
            self.group(self.group(slot)) == self.group(slot),
    {
        lemma_root(self.parent@, slot);
        lemma_root(self.parent@, root_of(self.parent@, slot));
    }

    pub proof fn lemma_key_slot(&self, k: ItemKeyView)
        requires
            self.well_formed(),
        ensures
            self.key_slot(k) matches Some(s) ==> 0 <= s < self.slots(),
    {
        lemma_table_slot(self.keys@, k);
    }

    fn find(&mut self, node: usize) -> (r: usize)
        requires
            old(self).well_formed(),
            node < old(self).slots(),
        ensures
            final(self).well_formed(),
            r == old(self).group(node as int),
            final(self).items@ == old(self).items@,
            final(self).keys@ == old(self).keys@,
            final(self).seen == old(self).seen,
            forall|j: int| 0 <= j < old(self).slots() ==> final(self).group(j) == old(self).group(j),
    {
        let ghost orig = self.parent@;
        let ghost target = root_of(orig, node as int);
        let mut node = node;
        while self.parent[node] != node
            invariant
                self.parent@.len() == orig.len(),
                self.parent@.len() == self.items@.len(),
                self.items@ == old(self).items@,
                self.keys@ == old(self).keys@,
                self.seen == old(self).seen,
                self.well_formed(),
                node < self.parent@.len(),
                root_of(self.parent@, node as int) == target,
                forall|j: int| 0 <= j < orig.len() ==> root_of(self.parent@, j) == root_of(orig, j),
            decreases node,
        {
            let ghost p = self.parent@;
            let up = self.parent[node];
            let grand = self.parent[up];
            proof {
                assert forall|j: int| 0 <= j < p.len() implies root_of(
                    p.update(node as int, p[up as int]),
                    j,
                ) == root_of(p, j) by {
                    lemma_compress(p, node as int, j);
                }
                lemma_compress(p, node as int, 0);
            }
            self.parent.set(node, grand);
            proof {
                assert(self.parent@ == p.update(node as int, p[up as int]));
                assert(root_of(p, node as int) == root_of(p, up as int));
                if p[up as int] < up {
                    assert(root_of(p, up as int) == root_of(p, grand as int));
                }
            }
            node = grand;
        }
        node
    }

    fn union(&mut self, a: usize, b: usize) -> (r: usize)
        requires
            old(self).well_formed(),
            a < old(self).slots(),
            b < old(self).slots(),
        ensures
            final(self).well_formed(),
            final(self).slots() == old(self).slots(),
            final(self).keys@ == old(self).keys@,
            final(self).seen == old(self).seen,
            r < old(self).slots(),
            r == old(self).group(a as int) || r == old(self).group(b as int),
            r <= old(self).group(a as int),
            r <= old(self).group(b as int),
            forall|j: int|
                0 <= j < old(self).slots() ==> final(self).group(j) == if old(self).group(j)
                    == old(self).group(a as int) || old(self).group(j) == old(self).group(
                    b as int,
                ) {
                    r as int
                } else {
                    old(self).group(j)
                },
            forall|j: int|
                0 <= j < old(self).slots() && j != r ==> final(self).items@[j] == old(
                    self,
                ).items@[j],
            old(self).group(a as int) == old(self).group(b as int) ==> final(self).items@ == old(
                self,
            ).items@,
            old(self).member(r as int).kept_in(final(self).member(r as int)),
            old(self).group(a as int) != old(self).group(b as int) ==> final(self).member(r as int) == old(
                self,
            ).member(r as int).merge_from(
                old(self).member(
                    if r == old(self).group(a as int) {
                        old(self).group(b as int)
                    } else {
                        old(self).group(a as int)
                    },
                ),
            ),
    {
        let ra = self.find(a);
        let rb = self.find(b);
        proof {
            lemma_root(self.parent@, a as int);
            lemma_root(self.parent@, b as int);
        }
        if ra == rb {
            return ra;
        }
        // The older slot always survives, so the item seen first keeps its
        // title and year and group ids stay in first-seen order.
        let (keep, absorb) = if ra < rb {
            (ra, rb)
        } else {
            (rb, ra)
        };
        let ghost p = self.parent@;
        proof {
            assert forall|j: int| 0 <= j < p.len() implies root_of(
                p.update(absorb as int, keep),
                j,
            ) == if root_of(p, j) == absorb {
                keep as int
            } else {
                root_of(p, j)
            } by {
                lemma_link(p, keep as int, absorb as int, j);
            }
            lemma_link(p, keep as int, absorb as int, 0);
        }
        self.parent.set(absorb, keep);
        let absorbed = self.items[absorb].clone();
        let mut kept = self.items[keep].clone();
        kept.merge_from(&absorbed);
        self.items.set(keep, kept);
        keep
    }

    fn lookup_key(&self, key: &ItemKey) -> (r: Option<usize>)
        ensures
            match r {
                Some(s) => self.key_slot(key@) == Some(s as int),
                None => self.key_slot(key@) is None,
            },
    {
        let mut i: usize = 0;
        let mut found: Option<usize> = None;
        while i < self.keys.len()
            invariant
                0 <= i <= self.keys@.len(),
                match found {
                    Some(s) => table_slot(self.keys@.subrange(0, i as int), key@) == Some(s as int),
                    None => table_slot(self.keys@.subrange(0, i as int), key@) is None,
                },
            decreases self.keys.len() - i,
        {
            proof {
                lemma_table_push(self.keys@.subrange(0, i as int), self.keys@[i as int], key@);
                assert(self.keys@.subrange(0, i as int).push(self.keys@[i as int])
                    =~= self.keys@.subrange(0, i + 1));
            }
            if found.is_none() && self.keys[i].0.same(key) {
                found = Some(self.keys[i].1);
            }
            i += 1;
        }
        assert(self.keys@.subrange(0, self.keys@.len() as int) =~= self.keys@);
        found
    }

    /// Add an item, merging it into any group it shares an id with.
    ///
    /// Items with no ids at all cannot be identified and are rejected.
    pub fn insert(&mut self, item: &Item) -> (r: Option<SlotId>)
        requires
            old(self).well_formed(),
        ensures
            final(self).well_formed(),
            r is None <==> item@.keys().len() == 0,
            r is None ==> final(self).slots() == old(self).slots() && forall|j: int|
                0 <= j < old(self).slots() ==> final(self).group(j) == old(self).group(j),
            r matches Some(s) ==> {
                &&& s < final(self).slots()
                &&& final(self).slots() == old(self).slots() || (final(self).slots() == old(
                    self,
                ).slots() + 1 && s == old(self).slots())
                // The item opens a new slot exactly when it reaches no group
                // that is already there.
                &&& (final(self).slots() == old(self).slots() <==> exists|j: int|
                    0 <= j < old(self).slots() && #[trigger] old(self).touches(item@, old(self).group(j)))
                // Every id the item carries now leads to the item's group.
                &&& forall|k: int|
                    0 <= k < item@.keys().len() ==> #[trigger] final(self).leads_to(
                        item@.keys()[k],
                        final(self).group(s as int),
                    )
                // A group the item reaches is merged into the item's group.
                &&& forall|j: int|
                    0 <= j < old(self).slots() && old(self).touches(item@, old(self).group(j))
                        ==> final(self).group(j) == final(self).group(s as int)
                // Groups the item does not reach are left as they were.
                &&& forall|j: int|
                    0 <= j < old(self).slots() && !old(self).touches(item@, old(self).group(j))
                        ==> final(self).group(j) == old(self).group(j)
                // The item's group holds a value wherever the item did, and
                // wherever the item of any group it joined did.
                &&& item@.covered_by(final(self).member(s as int))
                &&& forall|j: int|
                    0 <= j < old(self).slots() && old(self).touches(item@, old(self).group(j))
                        ==> #[trigger] old(self).member(old(self).group(j)).covered_by(final(self).member(s as int))
                // A brand-new group holds the item itself.
                &&& s == old(self).slots() ==> final(self).member(s as int) == item@
                // The item joins exactly the groups it reaches.
                &&& forall|a: int|
                    0 <= a < old(self).slots() ==> (#[trigger] final(self).group(a) == final(self).group(s as int)
                        <==> old(self).touches(item@, old(self).group(a)))
                // Two earlier slots share a group afterwards exactly when they
                // shared one before, or the item reached both their groups.
                &&& forall|a: int, b: int|
                    0 <= a < old(self).slots() && 0 <= b < old(self).slots() ==> (#[trigger] final(self).group(a)
                        == #[trigger] final(self).group(b) <==> (old(self).group(a) == old(self).group(b)
                        || (old(self).touches(item@, old(self).group(a)) && old(self).touches(item@, old(self).group(b)))))
            },
            // Values already known are never overwritten: every slot's item
            // keeps each value it held, and only fills in what it lacked.
            forall|j: int| 0 <= j < old(self).slots() ==> #[trigger] old(self).member(j).kept_in(final(self).member(j)),
            // Ids seen before keep the slot they were first seen at.
            forall|k: ItemKeyView|
                old(self).key_slot(k) is Some ==> final(self).key_slot(k) == old(self).key_slot(k),
            // The item is recorded among those inserted, at its slot.
            r is None ==> final(self).inserted() == old(self).inserted() && forall|i: int|
                0 <= i < old(self).inserted().len() ==> final(self).slot_of(i) == old(self).slot_of(i),
            r matches Some(s) ==> {
                &&& final(self).inserted() == old(self).inserted().push(item@.keys())
                &&& final(self).slot_of(old(self).inserted().len() as int) == s
                &&& forall|i: int|
                    0 <= i < old(self).inserted().len() ==> final(self).slot_of(i) == old(self).slot_of(i)
            },
            old(self).chains_ok() ==> final(self).chains_ok(),
            // Earlier slots only ever come together: any set of them falls
            // into at most as many groups as before, so a count of distinct
            // items can fall as items are added, never rise.
            forall|xs: Set<int>|
                xs.finite() && (forall|x: int| xs.contains(x) ==> 0 <= x < old(self).slots())
                    ==> #[trigger] final(self).groups_of(xs).len() <= old(self).groups_of(xs).len(),
    {
        let keys = item.keys();
        if keys.len() == 0 {
            return None;
        }
        let ghost start = *self;
        // Every group any of this item's keys already belongs to.
        let roots = self.touched_roots(&keys, item);
        let slot: usize;
        if roots.len() == 0 {
            slot = self.items.len();
            let ghost p = self.parent@;
            self.parent.push(slot);
            self.items.push(item.clone());
            proof {
                assert(self.parent@ == p.push(slot));
                assert forall|j: int| 0 <= j < p.len() implies root_of(self.parent@, j) == root_of(
                    p,
                    j,
                ) by {
                    lemma_extend(p, slot, j);
                }
                assert(root_of(self.parent@, slot as int) == slot);
                assert(links_down(self.parent@));
                assert forall|j: int| 0 <= j < start.slots() implies !start.touches(
                    item@,
                    start.group(j),
                ) by {}
            }
        } else {
            let ghost mid = *self;
            slot = self.merge_roots(&roots, Ghost(start));
            let ghost after = *self;
            assert(after.group(slot as int) == slot as int);
            let mut merged = self.items[slot].clone();
            merged.merge_from(item);
            self.items.set(slot, merged);
            proof {
                crate::model::lemma_merge_keeps_both(after.member(slot as int), item@);
                assert(item@.covered_by(self.member(slot as int)));
                assert forall|j: int|
                    0 <= j < start.slots() && has_root(roots@, start.group(j)) implies #[trigger] start.member(
                    start.group(j),
                ).covered_by(self.member(slot as int)) by {
                    start.lemma_group(j);
                    let m = choose|m: int| 0 <= m < roots@.len() && roots@[m] as int == start.group(j);
                    assert(start.member(start.group(j)) == mid.member(roots@[m] as int));
                    assert(mid.member(roots@[m] as int).covered_by(after.member(slot as int)));
                }
                assert forall|j: int| 0 <= j < start.slots() implies #[trigger] start.member(j).kept_in(
                    self.member(j),
                ) by {
                    assert(start.member(j) == mid.member(j));
                    assert(mid.member(j).kept_in(after.member(j)));
                }
                assert forall|j: int|
                    0 <= j < start.slots() && has_root(roots@, start.group(j)) implies self.group(j)
                    == self.group(slot as int) by {
                    assert(mid.group(j) == start.group(j));
                    assert(self.parent@ == after.parent@);
                    assert(after.group(j) == slot as int);
                }
                assert forall|j: int|
                    0 <= j < start.slots() && !has_root(roots@, start.group(j)) implies self.group(j)
                    == start.group(j) by {
                    assert(mid.group(j) == start.group(j));
                    assert(self.parent@ == after.parent@);
                    assert(after.group(j) == mid.group(j));
                }
            }
        }
        proof {
            assert forall|m: int|
                0 <= m < keys@.len() && (#[trigger] start.key_slot(item@.keys()[m])) is Some
                    implies has_root(roots@, start.group(start.key_slot(item@.keys()[m])->0)) by {
                let t = start.key_slot(item@.keys()[m])->0;
                start.lemma_key_slot(item@.keys()[m]);
                start.lemma_group(t);
                assert(start.leads_to(item@.keys()[m], start.group(t)));
                assert(start.touches(item@, start.group(t)));
            }
        }
        assert forall|j: int| 0 <= j < start.slots() implies #[trigger] start.member(j).kept_in(self.member(j)) by {
            if roots@.len() == 0 {
                assert(self.items@[j] == start.items@[j]);
            }
        }
        assert(item@.covered_by(self.member(slot as int)));
        assert forall|j: int|
            0 <= j < start.slots() && has_root(roots@, start.group(j)) implies #[trigger] start.member(
            start.group(j),
        ).covered_by(self.member(slot as int)) by {}
        let ghost merged_state = *self;
        self.record_keys(&keys, item, slot, Ghost(start), Ghost(roots@));
        proof {
            assert forall|j: int| 0 <= j < start.slots() implies self.group(j) == merged_state.group(j) by {}
            assert(slot < self.slots());
            assert(self.group(slot as int) == merged_state.group(slot as int));
            assert forall|j: int|
                0 <= j < start.slots() && start.touches(item@, start.group(j)) implies self.group(j)
                == self.group(slot as int) by {
                assert(has_root(roots@, start.group(j)));
                assert(roots@.len() > 0);
                assert(merged_state.group(j) == merged_state.group(slot as int));
            }
            assert forall|j: int|
                0 <= j < start.slots() && !start.touches(item@, start.group(j)) implies self.group(j)
                == start.group(j) by {
                assert(!has_root(roots@, start.group(j)));
            }
            assert(slot == start.slots() ==> self.member(slot as int) == item@);
            assert(self.group(slot as int) == slot as int);
            assert forall|k: ItemKeyView| #[trigger] self.key_slot(k) is Some implies start.key_slot(k) is Some
                || item@.keys().contains(k) by {}
            assert forall|u: int|
                0 <= u < start.slots() && !start.touches(item@, start.group(u)) implies start.group(u)
                != self.group(slot as int) by {
                start.lemma_group(u);
                assert(!has_root(roots@, start.group(u)));
            }
            assert forall|a: int|
                0 <= a < start.slots() implies (#[trigger] self.group(a) == self.group(slot as int)
                <==> start.touches(item@, start.group(a))) by {}
            assert forall|a: int, b: int|
                0 <= a < start.slots() && 0 <= b < start.slots() implies (#[trigger] self.group(a)
                == #[trigger] self.group(b) <==> (start.group(a) == start.group(b) || (start.touches(
                item@,
                start.group(a),
            ) && start.touches(item@, start.group(b))))) by {
                if start.group(a) == start.group(b) {
                    assert(start.touches(item@, start.group(a)) == start.touches(item@, start.group(b)));
                }
            }
        }
        proof {
            assert forall|j: int| 0 <= j < start.slots() implies #[trigger] start.member(j).kept_in(self.member(j)) by {
                assert(self.items@ == merged_state.items@);
                assert(start.member(j).kept_in(merged_state.member(j)));
            }
            if roots@.len() > 0 {
                let m = choose|m: int| 0 <= m < roots@.len() && roots@[m] as int == slot as int;
                assert(start.group(roots@[m] as int) == roots@[m] as int);
                assert(has_root(roots@, start.group(slot as int)));
                assert(start.touches(item@, start.group(slot as int)));
            }
        }
        let ghost grouped = *self;
        self.seen = Ghost(self.seen@.push((item@.keys(), slot as int)));
        proof {
            assert(self.inserted() =~= start.inserted().push(item@.keys()));
            if start.chains_ok() {
                lemma_chains_insert(start, grouped, *self, item@, slot as int);
            }
            assert(self.slot_of(start.inserted().len() as int) == slot);
            assert forall|i: int| 0 <= i < start.inserted().len() implies self.slot_of(i) == start.slot_of(i) by {
                assert(self.seen@[i] == start.seen@[i]);
            }
            assert forall|j: int| 0 <= j < self.slots() implies self.group(j) == grouped.group(j) by {}
            assert forall|k: ItemKeyView| self.key_slot(k) == grouped.key_slot(k) by {}
            assert(self.member(slot as int) == grouped.member(slot as int));
            assert forall|k: int| 0 <= k < item@.keys().len() implies #[trigger] self.leads_to(
                item@.keys()[k],
                self.group(slot as int),
            ) by {
                assert(grouped.leads_to(item@.keys()[k], grouped.group(slot as int)));
            }
            assert forall|j: int|
                0 <= j < start.slots() && start.touches(item@, start.group(j)) implies self.group(j)
                == self.group(slot as int) by {
                assert(grouped.group(j) == grouped.group(slot as int));
            }
            assert forall|j: int|
                0 <= j < start.slots() && !start.touches(item@, start.group(j)) implies self.group(j)
                == start.group(j) by {
                assert(grouped.group(j) == start.group(j));
            }
            assert forall|a: int|
                0 <= a < start.slots() implies (#[trigger] self.group(a) == self.group(slot as int)
                <==> start.touches(item@, start.group(a))) by {
                assert(grouped.group(a) == self.group(a));
            }
            assert forall|a: int, b: int|
                0 <= a < start.slots() && 0 <= b < start.slots() implies (#[trigger] self.group(a)
                == #[trigger] self.group(b) <==> (start.group(a) == start.group(b) || (start.touches(
                item@,
                start.group(a),
            ) && start.touches(item@, start.group(b))))) by {
                assert(grouped.group(a) == self.group(a));
                assert(grouped.group(b) == self.group(b));
            }
        }
        proof {
            assert forall|j: int| 0 <= j < start.slots() implies #[trigger] start.member(j).kept_in(self.member(j)) by {
                assert(self.items@ == grouped.items@);
                assert(start.member(j).kept_in(grouped.member(j)));
            }
            assert(self.items@ == merged_state.items@);
            assert(self.member(slot as int) == merged_state.member(slot as int));
            assert forall|j: int|
                0 <= j < start.slots() && start.touches(item@, start.group(j)) implies #[trigger] start.member(
                start.group(j),
            ).covered_by(self.member(slot as int)) by {
                assert(has_root(roots@, start.group(j)));
            }
            assert forall|xs: Set<int>|
                xs.finite() && (forall|x: int| xs.contains(x) ==> 0 <= x < start.slots()) implies #[trigger] self.groups_of(
                xs,
            ).len() <= start.groups_of(xs).len() by {
                assert forall|a: int, b: int|
                    xs.contains(a) && xs.contains(b) && start.group(a) == start.group(b) implies self.group(a)
                    == self.group(b) by {
                    assert(0 <= a < start.slots() && 0 <= b < start.slots());
                }
                Interner::lemma_groups_only_merge(start, *self, xs);
            }
        }
        Some(slot)
    }

    /// The distinct groups the item's keys reach, each by its representative.
    fn touched_roots(&mut self, keys: &Vec<ItemKey>, item: &Item) -> (roots: Vec<usize>)
        requires
            old(self).well_formed(),
            keys@.len() == item@.keys().len(),
            forall|m: int| 0 <= m < keys@.len() ==> (#[trigger] keys@[m])@ == item@.keys()[m],
        ensures
            final(self).well_formed(),
            final(self).slots() == old(self).slots(),
            final(self).keys@ == old(self).keys@,
            final(self).items@ == old(self).items@,
            final(self).seen == old(self).seen,
            forall|j: int| 0 <= j < old(self).slots() ==> final(self).group(j) == old(self).group(j),
            roots@.no_duplicates(),
            forall|m: int|
                0 <= m < roots@.len() ==> (#[trigger] roots@[m]) < old(self).slots() && old(
                    self,
                ).group(roots@[m] as int) == roots@[m] as int,
            forall|j: int|
                0 <= j < old(self).slots() ==> (old(self).touches(item@, old(self).group(j))
                    <==> has_root(roots@, old(self).group(j))),
    {
        let ghost start = *self;
        let mut roots: Vec<usize> = Vec::new();
        let mut i: usize = 0;
        while i < keys.len()
            invariant
                self.well_formed(),
                start.well_formed(),
                self.slots() == start.slots(),
                self.keys@ == start.keys@,
                self.items@ == start.items@,
                self.seen == start.seen,
                keys@.len() == item@.keys().len(),
                forall|m: int| 0 <= m < keys@.len() ==> (#[trigger] keys@[m])@ == item@.keys()[m],
                0 <= i <= keys@.len(),
                forall|j: int| 0 <= j < start.slots() ==> self.group(j) == start.group(j),
                roots@.no_duplicates(),
                forall|m: int|
                    0 <= m < roots@.len() ==> (#[trigger] roots@[m]) < start.slots() && start.group(
                        roots@[m] as int,
                    ) == roots@[m] as int && start.touches(item@, roots@[m] as int),
                forall|m: int|
                    0 <= m < i && (#[trigger] start.key_slot(item@.keys()[m])) is Some
                        ==> has_root(roots@, start.group(start.key_slot(item@.keys()[m])->0)),
            decreases keys.len() - i,
        {
            proof {
                assert(keys@[i as int]@ == item@.keys()[i as int]);
            }
            let found = self.lookup_key(&keys[i]);
            match found {
                Some(slot) => {
                    proof {
                        start.lemma_key_slot(keys@[i as int]@);
                    }
                    let root = self.find(slot);
                    proof {
                        start.lemma_group(slot as int);
                        assert(start.leads_to(item@.keys()[i as int], root as int));
                        assert(start.touches(item@, root as int));
                    }
                    let mut seen = false;
                    let mut m: usize = 0;
                    while m < roots.len()
                        invariant
                            0 <= m <= roots@.len(),
                            seen == exists|t: int| 0 <= t < m && roots@[t] == root,
                        decreases roots.len() - m,
                    {
                        if roots[m] == root {
                            seen = true;
                        }
                        m += 1;
                    }
                    let ghost before = roots@;
                    if !seen {
                        roots.push(root);
                        proof {
                            assert(roots@[before.len() as int] == root);
                            assert forall|x: int, y: int|
                                0 <= x < roots@.len() && 0 <= y < roots@.len() && x != y implies roots@[x]
                                != roots@[y] by {
                                if x == before.len() {
                                    assert(roots@[y] == before[y]);
                                } else if y == before.len() {
                                    assert(roots@[x] == before[x]);
                                } else {
                                    assert(roots@[x] == before[x] && roots@[y] == before[y]);
                                }
                            }
                        }
                    }
                    proof {
                        assert forall|g: int| has_root(before, g) implies has_root(roots@, g) by {
                            let w = choose|w: int| 0 <= w < before.len() && before[w] as int == g;
                            assert(roots@[w] == before[w]);
                        }
                        let w = choose|w: int| 0 <= w < roots@.len() && roots@[w] == root;
                        assert(has_root(roots@, root as int));
                    }
                },
                None => {},
            }
            i += 1;
        }
        proof {
            assert forall|j: int| 0 <= j < start.slots() implies (start.touches(
                item@,
                start.group(j),
            ) <==> has_root(roots@, start.group(j))) by {
                start.lemma_group(j);
                if start.touches(item@, start.group(j)) {
                    let k = choose|k: int|
                        0 <= k < item@.keys().len() && #[trigger] start.leads_to(
                            item@.keys()[k],
                            start.group(j),
                        );
                    assert(start.key_slot(item@.keys()[k]) is Some);
                }
                if has_root(roots@, start.group(j)) {
                    let m = choose|m: int| 0 <= m < roots@.len() && roots@[m] as int == start.group(j);
                    assert(start.touches(item@, roots@[m] as int));
                }
            }
        }
        roots
    }

    /// Union every group in `roots` into one; the oldest representative wins.
    fn merge_roots(&mut self, roots: &Vec<usize>, Ghost(start): Ghost<Interner>) -> (r: usize)
        requires
            old(self).well_formed(),
            roots@.len() > 0,
            roots@.no_duplicates(),
            forall|m: int|
                0 <= m < roots@.len() ==> (#[trigger] roots@[m]) < old(self).slots() && old(
                    self,
                ).group(roots@[m] as int) == roots@[m] as int,
        ensures
            final(self).well_formed(),
            final(self).slots() == old(self).slots(),
            final(self).keys@ == old(self).keys@,
            final(self).seen == old(self).seen,
            r < old(self).slots(),
            has_root(roots@, r as int),
            final(self).group(r as int) == r as int,
            forall|j: int|
                0 <= j < old(self).slots() ==> final(self).group(j) == if has_root(
                    roots@,
                    old(self).group(j),
                ) {
                    r as int
                } else {
                    old(self).group(j)
                },
            forall|j: int| 0 <= j < old(self).slots() ==> #[trigger] old(self).member(j).kept_in(final(self).member(j)),
            forall|m: int|
                0 <= m < roots@.len() ==> old(self).member(#[trigger] roots@[m] as int).covered_by(
                    final(self).member(r as int),
                ),
    {
        let ghost first = *self;
        let mut root = roots[0];
        proof {
            first.lemma_group(root as int);
            assert forall|j: int| 0 <= j < first.slots() implies self.group(j) == if has_root(
                roots@.subrange(0, 1),
                first.group(j),
            ) {
                root as int
            } else {
                first.group(j)
            } by {
                first.lemma_group(j);
                if has_root(roots@.subrange(0, 1), first.group(j)) {
                    let w = choose|w: int|
                        0 <= w < roots@.subrange(0, 1).len() && roots@.subrange(0, 1)[w] as int
                            == first.group(j);
                    assert(w == 0);
                }
                if first.group(j) == root as int {
                    assert(roots@.subrange(0, 1)[0] == root);
                }
            }
        }
        proof {
            assert(roots@.subrange(0, 1)[0] == root);
        }
        let mut k: usize = 1;
        while k < roots.len()
            invariant
                self.well_formed(),
                first.well_formed(),
                self.slots() == first.slots(),
                self.keys@ == first.keys@,
                self.seen == first.seen,
                1 <= k <= roots@.len(),
                roots@.no_duplicates(),
                forall|m: int|
                    0 <= m < roots@.len() ==> (#[trigger] roots@[m]) < first.slots() && first.group(
                        roots@[m] as int,
                    ) == roots@[m] as int,
                root < first.slots(),
                self.group(root as int) == root as int,
                forall|j: int| 0 <= j < first.slots() ==> #[trigger] first.member(j).kept_in(self.member(j)),
                forall|m: int|
                    0 <= m < k ==> first.member(#[trigger] roots@[m] as int).covered_by(self.member(root as int)),
                has_root(roots@.subrange(0, k as int), root as int),
                forall|j: int|
                    0 <= j < first.slots() ==> self.group(j) == if has_root(
                        roots@.subrange(0, k as int),
                        first.group(j),
                    ) {
                        root as int
                    } else {
                        first.group(j)
                    },
            decreases roots.len() - k,
        {
            let other = roots[k];
            let ghost prefix = roots@.subrange(0, k as int);
            let ghost longer = roots@.subrange(0, k + 1);
            proof {
                assert(longer =~= prefix.push(other));
                assert(!has_root(prefix, other as int)) by {
                    if has_root(prefix, other as int) {
                        let w = choose|w: int| 0 <= w < prefix.len() && prefix[w] as int == other as int;
                        assert(roots@[w] == roots@[k as int]);
                    }
                }
                first.lemma_group(other as int);
                assert(self.group(other as int) == other as int);
            }
            let ghost mid = *self;
            let ghost old_root = root;
            root = self.union(root, other);
            proof {
                crate::model::lemma_merge_keeps_both(mid.member(root as int), mid.member(other as int));
                crate::model::lemma_merge_keeps_both(mid.member(other as int), mid.member(old_root as int));
                assert(first.member(other as int).kept_in(mid.member(other as int)));
                assert forall|m: int| 0 <= m < k + 1 implies first.member(#[trigger] roots@[m] as int).covered_by(
                    self.member(root as int),
                ) by {
                    if m < k {
                        assert(first.member(roots@[m] as int).covered_by(mid.member(old_root as int)));
                    }
                }
                assert forall|j: int| 0 <= j < first.slots() implies #[trigger] first.member(j).kept_in(self.member(j)) by {
                    assert(first.member(j).kept_in(mid.member(j)));
                    if j != root {
                        assert(self.items@[j] == mid.items@[j]);
                    }
                }
                assert(mid.group(old_root as int) == old_root as int);
                let w0 = choose|w: int| 0 <= w < prefix.len() && prefix[w] as int == old_root as int;
                assert(longer[w0] == prefix[w0]);
                assert(longer[k as int] == other);
                assert(has_root(longer, root as int));
                assert forall|j: int| 0 <= j < first.slots() implies self.group(j) == if has_root(
                    longer,
                    first.group(j),
                ) {
                    root as int
                } else {
                    first.group(j)
                } by {
                    first.lemma_group(j);
                    assert(mid.group(j) == if has_root(prefix, first.group(j)) {
                        old_root as int
                    } else {
                        first.group(j)
                    });
                    if has_root(prefix, first.group(j)) {
                        let w = choose|w: int| 0 <= w < prefix.len() && prefix[w] as int == first.group(j);
                        assert(longer[w] == prefix[w]);
                    } else if first.group(j) == other as int {
                        assert(longer[k as int] == other);
                    } else {
                        if has_root(longer, first.group(j)) {
                            let w = choose|w: int| 0 <= w < longer.len() && longer[w] as int == first.group(j);
                            if w < k {
                                assert(prefix[w] == longer[w]);
                            }
                        }
                    }
                }
                mid.lemma_group(root as int);
            }
            k += 1;
        }
        assert(roots@.subrange(0, roots@.len() as int) =~= roots@);
        root
    }

    /// Record every id of the item at `slot`, keeping ids seen before where
    /// they were.
    fn record_keys(
        &mut self,
        keys: &Vec<ItemKey>,
        item: &Item,
        slot: usize,
        Ghost(start): Ghost<Interner>,
        Ghost(roots): Ghost<Seq<usize>>,
    )
        requires
            old(self).well_formed(),
            start.well_formed(),
            slot < old(self).slots(),
            old(self).keys@ == start.keys@,
            start.slots() <= old(self).slots(),
            keys@.len() == item@.keys().len(),
            forall|m: int| 0 <= m < keys@.len() ==> (#[trigger] keys@[m])@ == item@.keys()[m],
            forall|j: int|
                0 <= j < start.slots() && has_root(roots, start.group(j)) ==> old(self).group(j)
                    == old(self).group(slot as int),
            forall|m: int|
                0 <= m < keys@.len() && (#[trigger] start.key_slot(item@.keys()[m])) is Some
                    ==> has_root(roots, start.group(start.key_slot(item@.keys()[m])->0)),
        ensures
            final(self).well_formed(),
            final(self).parent@ == old(self).parent@,
            final(self).items@ == old(self).items@,
            final(self).seen == old(self).seen,
            forall|k: ItemKeyView|
                start.key_slot(k) is Some ==> final(self).key_slot(k) == start.key_slot(k),
            forall|k: ItemKeyView|
                #[trigger] final(self).key_slot(k) is Some ==> start.key_slot(k) is Some || item@.keys().contains(k),
            forall|m: int|
                0 <= m < keys@.len() ==> #[trigger] final(self).leads_to(
                    item@.keys()[m],
                    final(self).group(slot as int),
                ),
    {
        let ghost before = *self;
        let mut q: usize = 0;
        while q < keys.len()
            invariant
                self.well_formed(),
                start.well_formed(),
                self.parent@ == before.parent@,
                self.items@ == before.items@,
                self.seen == before.seen,
                slot < self.slots(),
                start.slots() <= self.slots(),
                0 <= q <= keys@.len(),
                keys@.len() == item@.keys().len(),
                forall|m: int| 0 <= m < keys@.len() ==> (#[trigger] keys@[m])@ == item@.keys()[m],
                forall|kv: ItemKeyView|
                    start.key_slot(kv) is Some ==> self.key_slot(kv) == start.key_slot(kv),
                forall|kv: ItemKeyView|
                    #![trigger self.key_slot(kv)]
                    self.key_slot(kv) is Some ==> (start.key_slot(kv) == self.key_slot(kv)
                        || self.key_slot(kv) == Some(slot as int)),
                forall|kv: ItemKeyView|
                    #![trigger self.key_slot(kv)]
                    self.key_slot(kv) is Some ==> start.key_slot(kv) is Some || item@.keys().contains(kv),
                forall|m: int|
                    0 <= m < q ==> (#[trigger] self.key_slot(item@.keys()[m])) is Some,
            decreases keys.len() - q,
        {
            let found = self.lookup_key(&keys[q]);
            proof {
                assert(keys@[q as int]@ == item@.keys()[q as int]);
            }
            if found.is_none() {
                let ghost t = self.keys@;
                assert forall|m: int| 0 <= m < q implies table_slot(t, item@.keys()[m]) is Some by {
                    assert(self.key_slot(item@.keys()[m]) is Some);
                }
                let entry = (keys[q].clone(), slot);
                let ghost pre = *self;
                self.keys.push(entry);
                proof {
                    assert forall|kv: ItemKeyView| true implies table_slot(t.push(entry), kv) == if table_slot(t, kv) is Some || entry.0@ != kv {
                        table_slot(t, kv)
                    } else {
                        Some(entry.1 as int)
                    } by {
                        lemma_table_push(t, entry, kv);
                    }
                    assert forall|i2: int| 0 <= i2 < self.keys@.len() implies self.keys@[i2].1 < self.items@.len() by {
                        if i2 < t.len() {
                            assert(self.keys@[i2] == t[i2]);
                        }
                    }
                    assert(self.key_slot(item@.keys()[q as int]) is Some);
                    assert forall|kv: ItemKeyView| #[trigger] self.key_slot(kv) is Some implies start.key_slot(kv) is Some
                        || item@.keys().contains(kv) by {
                        lemma_table_push(t, entry, kv);
                        if table_slot(t, kv) is None {
                            assert(entry.0@ == kv);
                            assert(item@.keys()[q as int] == kv);
                        } else {
                            assert(pre.key_slot(kv) is Some);
                        }
                    }
                    assert forall|m: int| 0 <= m < q implies (#[trigger] self.key_slot(
                        item@.keys()[m],
                    )) is Some by {
                        lemma_table_push(t, entry, item@.keys()[m]);
                    }
                }
            }
            q += 1;
        }
        proof {
            assert forall|m: int| 0 <= m < keys@.len() implies #[trigger] self.leads_to(
                item@.keys()[m],
                self.group(slot as int),
            ) by {
                let kv = item@.keys()[m];
                assert(self.key_slot(kv) is Some);
                let t = self.key_slot(kv)->0;
                if start.key_slot(kv) == Some(t) {
                    start.lemma_key_slot(kv);
                    assert(has_root(roots, start.group(t)));
                    assert(before.group(t) == before.group(slot as int));
                }
            }
        }
    }
}

/// Inserting an item keeps what grouping promises: the new item is joined
/// to exactly the items a chain of shared ids leads from it to.
proof fn lemma_chains_insert(start: Interner, grouped: Interner, fin: Interner, item: ItemView, s: int)
    requires
        start.well_formed(),
        start.chains_ok(),
        grouped.well_formed(),
        fin.parent == grouped.parent,
        fin.items == grouped.items,
        fin.keys == grouped.keys,
        item.keys().len() > 0,
        0 <= s < grouped.slots(),
        start.slots() <= grouped.slots(),
        fin.seen@ == start.seen@.push((item.keys(), s)),
        forall|k: int| 0 <= k < item.keys().len() ==> #[trigger] grouped.leads_to(item.keys()[k], grouped.group(s)),
        forall|a: int|
            0 <= a < start.slots() ==> (#[trigger] grouped.group(a) == grouped.group(s) <==> start.touches(
                item,
                start.group(a),
            )),
        forall|a: int, b: int|
            0 <= a < start.slots() && 0 <= b < start.slots() ==> (#[trigger] grouped.group(a)
                == #[trigger] grouped.group(b) <==> (start.group(a) == start.group(b) || (start.touches(
                item,
                start.group(a),
            ) && start.touches(item, start.group(b))))),
        forall|k: ItemKeyView| start.key_slot(k) is Some ==> grouped.key_slot(k) == start.key_slot(k),
        forall|k: ItemKeyView|
            #[trigger] grouped.key_slot(k) is Some ==> start.key_slot(k) is Some || item.keys().contains(k),
    ensures
        fin.chains_ok(),
{
    let x = item.keys();
    let old_ins = start.inserted();
    let n = start.seen@.len() as int;
    assert(fin.inserted() =~= old_ins.push(x));
    assert(fin.slots() == grouped.slots());
    assert forall|j: int| 0 <= j < fin.slots() implies fin.group(j) == grouped.group(j) by {}
    assert forall|k: ItemKeyView| fin.key_slot(k) == grouped.key_slot(k) by {}
    assert forall|i: int| 0 <= i < n implies fin.slot_of(i) == start.slot_of(i) && 0 <= start.slot_of(i)
        < start.slots() by {
        assert(fin.seen@[i] == start.seen@[i]);
    }
    assert(fin.slot_of(n) == s);
    // An earlier item's group is reached by the new item's ids exactly when
    // a chain leads from it to an item sharing an id with the new one.
    assert forall|i: int| 0 <= i < n implies (start.touches(item, start.group(start.slot_of(i))) <==> reaches(
        old_ins,
        i,
        x,
    )) by {
        let si = start.slot_of(i);
        if start.touches(item, start.group(si)) {
            let m = choose|m: int| 0 <= m < x.len() && #[trigger] start.leads_to(x[m], start.group(si));
            assert(start.key_slot(x[m]) is Some);
            let a = choose|a: int| 0 <= a < n && #[trigger] old_ins[a].contains(x[m]);
            let m2 = choose|m2: int| 0 <= m2 < old_ins[a].len() && old_ins[a][m2] == x[m];
            assert(start.leads_to(old_ins[a][m2], start.group(start.slot_of(a))));
            assert(start.group(start.slot_of(i)) == start.group(start.slot_of(a)));
            assert(chained(old_ins, i, a));
            assert(old_ins[a].contains(x[m]) && x.contains(x[m]));
        }
        if reaches(old_ins, i, x) {
            let a = choose|a: int|
                0 <= a < old_ins.len() && #[trigger] chained(old_ins, i, a) && exists|k: ItemKeyView|
                    #[trigger] old_ins[a].contains(k) && x.contains(k);
            let k = choose|k: ItemKeyView| #[trigger] old_ins[a].contains(k) && x.contains(k);
            assert(start.group(start.slot_of(i)) == start.group(start.slot_of(a)));
            let m2 = choose|m2: int| 0 <= m2 < old_ins[a].len() && old_ins[a][m2] == k;
            assert(start.leads_to(old_ins[a][m2], start.group(start.slot_of(a))));
            let m = choose|m: int| 0 <= m < x.len() && x[m] == k;
            assert(start.leads_to(x[m], start.group(si)));
        }
    }
    let new_ins = fin.inserted();
    assert forall|i: int| 0 <= i < n + 1 implies 0 <= #[trigger] fin.slot_of(i) < fin.slots() by {}
    assert forall|i: int, m: int|
        0 <= i < n + 1 && 0 <= m < new_ins[i].len() implies #[trigger] fin.leads_to(
        new_ins[i][m],
        fin.group(fin.slot_of(i)),
    ) by {
        if i < n {
            let k = old_ins[i][m];
            assert(new_ins[i] == old_ins[i]);
            assert(start.leads_to(k, start.group(start.slot_of(i))));
            let t = start.key_slot(k)->0;
            start.lemma_key_slot(k);
            assert(grouped.key_slot(k) == Some(t));
            assert(grouped.group(t) == grouped.group(start.slot_of(i)));
        } else {
            assert(new_ins[i] == x);
            assert(grouped.leads_to(x[m], grouped.group(s)));
        }
    }
    assert forall|k: ItemKeyView| #[trigger] fin.key_slot(k) is Some implies exists|i: int|
        0 <= i < n + 1 && #[trigger] new_ins[i].contains(k) by {
        assert(grouped.key_slot(k) is Some);
        if start.key_slot(k) is Some {
            let i = choose|i: int| 0 <= i < n && #[trigger] old_ins[i].contains(k);
            assert(new_ins[i] == old_ins[i]);
        } else {
            assert(new_ins[n] == x);
        }
    }
    assert forall|i: int, j: int|
        #![trigger fin.slot_of(i), fin.slot_of(j)]
        0 <= i < n + 1 && 0 <= j < n + 1 implies (fin.group(fin.slot_of(i)) == fin.group(fin.slot_of(j))
        <==> chained(new_ins, i, j)) by {
        if i < n && j < n {
            lemma_chained_push(old_ins, x, i, j);
            assert(start.group(start.slot_of(i)) == start.group(start.slot_of(j)) <==> chained(old_ins, i, j));
        } else if i < n {
            lemma_chained_push(old_ins, x, i, i);
        } else if j < n {
            lemma_chained_push(old_ins, x, j, j);
            if chained(new_ins, i, j) {
                lemma_chained_sym(new_ins, i, j);
            }
            if chained(new_ins, j, i) {
                lemma_chained_sym(new_ins, j, i);
            }
        } else {
            lemma_chained_refl(new_ins, n);
        }
    }
}

impl Interner {
    /// The group a slot ended up in, after all merges.
    pub fn resolve(&mut self, slot: SlotId) -> (r: GroupId)
        requires
            old(self).well_formed(),
            slot < old(self).slots(),
        ensures
            final(self).well_formed(),
            r == old(self).group(slot as int),
            final(self).slots() == old(self).slots(),
            forall|j: int| 0 <= j < old(self).slots() ==> final(self).group(j) == old(self).group(j),
            forall|k: ItemKeyView| final(self).key_slot(k) == old(self).key_slot(k),
            forall|j: int| 0 <= j < old(self).slots() ==> final(self).member(j) == old(self).member(j),
            final(self).inserted() == old(self).inserted(),
            forall|i: int| 0 <= i < old(self).inserted().len() ==> final(self).slot_of(i) == old(self).slot_of(i),
            old(self).chains_ok() ==> final(self).chains_ok(),
    {
        let ghost start = *self;
        let r = self.find(slot);
        proof {
            start.lemma_chains_kept(*self);
        }
        r
    }

    pub fn item(&self, group: GroupId) -> (r: &Item)
        requires
            group < self.slots(),
        ensures
            r@ == self.member(group as int),
    {
        &self.items[group]
    }

    /// Fill in what the item at a slot does not know yet from `attrs`.
    pub fn fill_attrs(&mut self, slot: SlotId, attrs: &Attrs)
        requires
            old(self).well_formed(),
            slot < old(self).slots(),
        ensures
            final(self).well_formed(),
            final(self).slots() == old(self).slots(),
            forall|j: int| 0 <= j < old(self).slots() ==> final(self).group(j) == old(self).group(j),
            forall|k: ItemKeyView| final(self).key_slot(k) == old(self).key_slot(k),
            forall|j: int|
                0 <= j < old(self).slots() && j != slot ==> final(self).member(j) == old(self).member(j),
            final(self).member(slot as int) == (ItemView {
                attrs: old(self).member(slot as int).attrs.fill_from(attrs@),
                ..old(self).member(slot as int)
            }),
            final(self).inserted() == old(self).inserted(),
            forall|i: int| 0 <= i < old(self).inserted().len() ==> final(self).slot_of(i) == old(self).slot_of(i),
            old(self).chains_ok() ==> final(self).chains_ok(),
    {
        let ghost start = *self;
        let mut it = self.items[slot].clone();
        it.attrs.fill_from(attrs);
        self.items.set(slot, it);
        proof {
            start.lemma_chains_kept(*self);
        }
    }

    pub fn len(&self) -> (r: usize)
        ensures
            r == self.slots(),
    {
        self.items.len()
    }

    pub fn is_empty(&self) -> (r: bool)
        ensures
            r == (self.slots() == 0),
    {
        self.items.len() == 0
    }
}

} // verus!
