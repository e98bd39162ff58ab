//! Descriptive metadata for titles whose own source did not carry it.
//!
//! Sources hand back the ids and whatever else their payload happened to
//! include. MDBList lists carry country, language and genre; Radarr, Sonarr,
//! static entries and most JSON feeds do not. This store is where the gaps get
//! filled, and it exists so that a gap is filled *once*.
//!
//! The TTL is deliberately long. A film's country of origin, its original
//! language and its genres do not change, so re-asking is pure waste; the only
//! reason there is a TTL at all is that providers do correct their own data.
//!
//! The store is an in-memory table keyed by id; reading and writing
//! `metadata.json` is the caller's part, through [`MetaStore::records`] and
//! [`MetaStore::restore_records`].

use vstd::prelude::*;

use crate::clock::{elapsed_spec, older_than, span_nanos, Stamp};
use crate::config::model::Span;
use crate::model::{Attrs, AttrsView, Item, ItemKey, ItemKeyView, ItemView, MediaType, Provider};
use crate::text::{clone_string, from_str, push_str};

verus! {

/// The file the store is kept in, inside the cache directory.
pub const FILE_NAME: &'static str = "metadata.json";

/// What is known about one id at one point in time. `attrs: None` records
/// that the provider had never heard of the id - a negative result worth
/// remembering, because otherwise every pass asks about it again.
#[derive(Debug)]
pub struct MetaEntry {
    pub attrs: Option<Attrs>,
    pub checked_at: Stamp,
}

pub struct MetaEntryView {
    pub attrs: Option<AttrsView>,
    pub checked_at: Stamp,
}

pub open spec fn attrs_view(a: Option<Attrs>) -> Option<AttrsView> {
    match a {
        Some(x) => Some(x@),
        None => None,
    }
}

impl View for MetaEntry {
    type V = MetaEntryView;

    open spec fn view(&self) -> MetaEntryView {
        MetaEntryView { attrs: attrs_view(self.attrs), checked_at: self.checked_at }
    }
}

/// Whether an answer checked at `checked_at` is still good at `now`: a
/// positive answer for `ttl`, a negative one for `miss_ttl`. A time in the
/// future counts as fresh rather than thrash.
pub open spec fn fresh_spec(known: bool, checked_at: Stamp, ttl: Span, miss_ttl: Span, now: Stamp) -> bool {
    let limit = if known {
        ttl
    } else {
        miss_ttl
    };
    match elapsed_spec(now, checked_at) {
        Some(age) => age <= span_nanos(limit),
        None => true,
    }
}

fn clone_attrs(a: &Option<Attrs>) -> (r: Option<Attrs>)
    ensures
        attrs_view(r) == attrs_view(*a),
{
    match a {
        Some(x) => Some(x.clone()),
        None => None,
    }
}

impl MetaEntry {
    /// Whether this answer is recent enough that the id need not be asked
    /// about again.
    pub fn is_fresh(&self, ttl: Span, miss_ttl: Span, now: Stamp) -> (r: bool)
        ensures
            r == fresh_spec(self.attrs is Some, self.checked_at, ttl, miss_ttl, now),
    {
        let limit = if self.attrs.is_some() {
            ttl
        } else {
            miss_ttl
        };
        !older_than(now, self.checked_at, limit)
    }

    pub fn duplicate(&self) -> (r: MetaEntry)
        ensures
            r@ == self@,
    {
        MetaEntry { attrs: clone_attrs(&self.attrs), checked_at: self.checked_at }
    }
}

/// One entry as it is written to disk: JSON object keys cannot be structs,
/// so the key travels inside the record.
#[derive(Debug)]
pub struct MetaRecord {
    pub media_type: MediaType,
    pub provider: Provider,
    pub id: String,
    pub checked_at: Stamp,
    pub attrs: Option<Attrs>,
}

pub open spec fn record_key(r: MetaRecord) -> ItemKeyView {
    ItemKeyView { media_type: r.media_type, provider: r.provider, value: r.id@ }
}

pub open spec fn record_entry(r: MetaRecord) -> MetaEntryView {
    MetaEntryView { attrs: attrs_view(r.attrs), checked_at: r.checked_at }
}

/// No two entries share a key.
pub open spec fn distinct_keys(entries: Seq<(ItemKey, MetaEntry)>) -> bool {
    forall|i: int, j: int|
        0 <= i < j < entries.len() ==> (#[trigger] entries[i].0)@ != (#[trigger] entries[j].0)@
}

pub open spec fn key_lookup(entries: Seq<(ItemKey, MetaEntry)>, k: ItemKeyView) -> Option<
    MetaEntryView,
> {
    if exists|i: int| 0 <= i < entries.len() && (#[trigger] entries[i].0)@ == k {
        Some(entries[choose|i: int| 0 <= i < entries.len() && (#[trigger] entries[i].0)@ == k].1@)
    } else {
        None
    }
}

proof fn lemma_key_at(entries: Seq<(ItemKey, MetaEntry)>, i: int)
    requires
        distinct_keys(entries),
        0 <= i < entries.len(),
    ensures
        key_lookup(entries, entries[i].0@) == Some(entries[i].1@),
{
    let k = entries[i].0@;
    assert((entries[i].0)@ == k);
    let w = choose|w: int| 0 <= w < entries.len() && (#[trigger] entries[w].0)@ == k;
    if w < i {
    } else if i < w {
    }
}

/// The attributes known for a sequence of keys, merged in order: an earlier
/// key's values win, a later key fills what is still missing.
pub open spec fn merge_known(answers: Seq<Option<MetaEntryView>>) -> Option<AttrsView>
    decreases answers.len(),
{
    if answers.len() == 0 {
        None
    } else {
        let before = merge_known(answers.drop_last());
        match answers.last() {
            Some(e) => match e.attrs {
                Some(a) => match before {
                    Some(m) => Some(m.fill_from(a)),
                    None => Some(a),
                },
                None => before,
            },
            None => before,
        }
    }
}

/// The last record in `records[..n]` for key `k` that is fresh at `now`.
pub open spec fn last_fresh(
    records: Seq<MetaRecord>,
    n: int,
    k: ItemKeyView,
    ttl: Span,
    miss_ttl: Span,
    now: Stamp,
) -> Option<MetaEntryView>
    decreases n,
{
    if n <= 0 || n > records.len() {
        None
    } else {
        let r = records[n - 1];
        if record_key(r) == k && fresh_spec(r.attrs is Some, r.checked_at, ttl, miss_ttl, now) {
            Some(record_entry(r))
        } else {
            last_fresh(records, n - 1, k, ttl, miss_ttl, now)
        }
    }
}

/// Every id asked about, with what was learned and when.
#[derive(Debug)]
pub struct MetaStore {
    dir: String,
    persist: bool,
    entries: Vec<(ItemKey, MetaEntry)>,
}

impl MetaStore {
    pub fn new(dir: String, persist: bool) -> (r: MetaStore)
        ensures
            r.well_formed(),
            r.dir_view() == dir@,
            r.persists() == persist,
            r.size() == 0,
            forall|k: ItemKeyView| r.entry(k) is None,
    {
        MetaStore { dir, persist, entries: Vec::new() }
    }

    pub closed spec fn well_formed(&self) -> bool {
        distinct_keys(self.entries@)
    }

    pub closed spec fn dir_view(&self) -> Seq<char> {
        self.dir@
    }

    pub closed spec fn persists(&self) -> bool {
        self.persist
    }

    /// What is recorded for an id.
    pub closed spec fn entry(&self, k: ItemKeyView) -> Option<MetaEntryView> {
        key_lookup(self.entries@, k)
    }

    /// How many ids are recorded.
    pub closed spec fn size(&self) -> nat {
        self.entries@.len()
    }

    /// What the store knows about an item, trying each of its ids in turn.
    pub open spec fn known(&self, item: ItemView) -> Option<AttrsView> {
        merge_known(item.keys().map_values(|k: ItemKeyView| self.entry(k)))
    }

    pub fn dir(&self) -> (r: &str)
        ensures
            r@ == self.dir_view(),
    {
        self.dir.as_str()
    }

    pub fn persist(&self) -> (r: bool)
        ensures
            r == self.persists(),
    {
        self.persist
    }

    /// Where the store is kept on disk.
    pub fn path(&self) -> (r: String)
        ensures
            r@ == self.dir_view() + "/"@ + FILE_NAME@,
    {
        let mut out = clone_string(&self.dir);
        push_str(&mut out, "/");
        push_str(&mut out, FILE_NAME);
        out
    }

    pub fn len(&self) -> (r: usize)
        ensures
            r == self.size(),
    {
        self.entries.len()
    }

    pub fn is_empty(&self) -> (r: bool)
        ensures
            r == (self.size() == 0),
    {
        self.entries.len() == 0
    }

    fn find(&self, key: &ItemKey) -> (r: Option<usize>)
        requires
            self.well_formed(),
        ensures
            match r {
                Some(i) => i < self.entries@.len() && self.entries@[i as int].0@ == key@
                    && self.entry(key@) == Some(self.entries@[i as int].1@),
                None => self.entry(key@) is None,
            },
    {
        let mut i: usize = 0;
        while i < self.entries.len()
            invariant
                self.well_formed(),
                0 <= i <= self.entries@.len(),
                forall|j: int| 0 <= j < i ==> (#[trigger] self.entries@[j].0)@ != key@,
            decreases self.entries.len() - i,
        {
            if self.entries[i].0.same(key) {
                proof {
                    lemma_key_at(self.entries@, i as int);
                }
                return Some(i);
            }
            i += 1;
        }
        None
    }

    /// The best attributes known for an item, tried across every id it
    /// carries so a title looked up by TMDb id is still found by its IMDb id
    /// later.
    pub fn lookup(&self, item: &Item) -> (r: Option<Attrs>)
        requires
            self.well_formed(),
        ensures
            attrs_view(r) == self.known(item@),
    {
        let keys = item.keys();
        let ghost answers = item@.keys().map_values(|k: ItemKeyView| self.entry(k));
        let mut merged: Option<Attrs> = None;
        let mut i: usize = 0;
        while i < keys.len()
            invariant
                self.well_formed(),
                0 <= i <= keys@.len(),
                keys@.len() == item@.keys().len(),
                forall|j: int| 0 <= j < keys@.len() ==> (#[trigger] keys@[j])@ == item@.keys()[j],
                answers == item@.keys().map_values(|k: ItemKeyView| self.entry(k)),
                attrs_view(merged) == merge_known(answers.subrange(0, i as int)),
            decreases keys.len() - i,
        {
            let ghost prev = merged;
            assert(answers.subrange(0, i + 1).drop_last() =~= answers.subrange(0, i as int));
            assert(answers[i as int] == self.entry(keys@[i as int]@));
            match self.find(&keys[i]) {
                Some(slot) => {
                    match &self.entries[slot].1.attrs {
                        Some(a) => {
                            match &mut merged {
                                Some(m) => {
                                    m.fill_from(a);
                                },
                                None => {
                                    merged = Some(a.clone());
                                },
                            }
                        },
                        None => {},
                    }
                },
                None => {},
            }
            i += 1;
        }
        assert(answers.subrange(0, keys@.len() as int) =~= answers);
        merged
    }

    /// Whether this id has been asked about recently enough to skip.
    pub fn is_fresh(&self, key: &ItemKey, ttl: Span, miss_ttl: Span, now: Stamp) -> (r: bool)
        requires
            self.well_formed(),
        ensures
            r == (self.entry(key@) matches Some(e) && fresh_spec(
                e.attrs is Some,
                e.checked_at,
                ttl,
                miss_ttl,
                now,
            )),
    {
        match self.find(key) {
            Some(i) => self.entries[i].1.is_fresh(ttl, miss_ttl, now),
            None => false,
        }
    }

    /// Put an entry under a key, replacing what was there.
    fn put(&mut self, key: ItemKey, entry: MetaEntry)
        requires
            old(self).well_formed(),
        ensures
            final(self).well_formed(),
            final(self).entry(key@) == Some(entry@),
            forall|k: ItemKeyView| k != key@ ==> final(self).entry(k) == old(self).entry(k),
            final(self).dir_view() == old(self).dir_view(),
            final(self).persists() == old(self).persists(),
            final(self).size() == old(self).size() + if old(self).entry(key@) is Some {
                0int
            } else {
                1int
            },
    {
        let ghost before = self.entries@;
        let ghost k = key@;
        let ghost e = entry@;
        match self.find(&key) {
            Some(i) => {
                self.entries.remove(i);
                self.entries.insert(i, (key, entry));
                proof {
                    assert forall|a: int| 0 <= a < before.len() implies (#[trigger] self.entries@[a].0)@
                        == before[a].0@ by {
                        if a == i {
                        } else {
                            assert(self.entries@[a] == before[a]);
                        }
                    }
                    assert forall|a: int, b: int|
                        0 <= a < b < self.entries@.len() implies (#[trigger] self.entries@[a].0)@
                        != (#[trigger] self.entries@[b].0)@ by {
                        assert(before[a].0@ != before[b].0@);
                    }
                    lemma_key_at(self.entries@, i as int);
                    assert forall|n: ItemKeyView| n != k implies key_lookup(self.entries@, n)
                        == key_lookup(before, n) by {
                        if exists|a: int| 0 <= a < before.len() && (#[trigger] before[a].0)@ == n {
                            let a = choose|a: int| 0 <= a < before.len() && (#[trigger] before[a].0)@ == n;
                            lemma_key_at(before, a);
                            assert(self.entries@[a] == before[a]);
                            lemma_key_at(self.entries@, a);
                        } else {
                            assert forall|a: int| 0 <= a < self.entries@.len() implies (#[trigger] self.entries@[a].0)@ != n by {
                                assert(self.entries@[a].0@ == before[a].0@);
                            }
                        }
                    }
                }
            },
            None => {
                self.entries.push((key, entry));
                proof {
                    let last = before.len() as int;
                    assert forall|a: int| 0 <= a < before.len() implies (#[trigger] before[a].0)@
                        != k by {
                        if before[a].0@ == k {
                            assert(key_lookup(before, k) is Some);
                        }
                    }
                    assert forall|a: int, b: int|
                        0 <= a < b < self.entries@.len() implies (#[trigger] self.entries@[a].0)@
                        != (#[trigger] self.entries@[b].0)@ by {
                        if b == last {
                            assert(self.entries@[a] == before[a]);
                        } else {
                            assert(self.entries@[a] == before[a]);
                            assert(self.entries@[b] == before[b]);
                        }
                    }
                    lemma_key_at(self.entries@, last);
                    assert forall|n: ItemKeyView| n != k implies key_lookup(self.entries@, n)
                        == key_lookup(before, n) by {
                        if exists|a: int| 0 <= a < before.len() && (#[trigger] before[a].0)@ == n {
                            let a = choose|a: int| 0 <= a < before.len() && (#[trigger] before[a].0)@ == n;
                            lemma_key_at(before, a);
                            assert(self.entries@[a] == before[a]);
                            lemma_key_at(self.entries@, a);
                        } else {
                            assert forall|a: int| 0 <= a < self.entries@.len() implies (#[trigger] self.entries@[a].0)@ != n by {
                                if a < last {
                                    assert(self.entries@[a] == before[a]);
                                }
                            }
                        }
                    }
                }
            },
        }
    }

    /// Record what a provider said about a title at `now`, under every id
    /// it gave back, so any of them finds it next time.
    pub fn record(&mut self, keys: &[ItemKey], attrs: Option<Attrs>, now: Stamp)
        requires
            old(self).well_formed(),
        ensures
            final(self).well_formed(),
            forall|i: int|
                0 <= i < keys@.len() ==> final(self).entry((#[trigger] keys@[i])@) == Some(
                    MetaEntryView { attrs: attrs_view(attrs), checked_at: now },
                ),
            forall|k: ItemKeyView|
                (forall|i: int| 0 <= i < keys@.len() ==> (#[trigger] keys@[i])@ != k)
                    ==> final(self).entry(k) == old(self).entry(k),
            final(self).dir_view() == old(self).dir_view(),
            final(self).persists() == old(self).persists(),
    {
        let ghost v = MetaEntryView { attrs: attrs_view(attrs), checked_at: now };
        let mut i: usize = 0;
        while i < keys.len()
            invariant
                self.well_formed(),
                    0 <= i <= keys@.len(),
                v == (MetaEntryView { attrs: attrs_view(attrs), checked_at: now }),
                forall|j: int| 0 <= j < i ==> self.entry((#[trigger] keys@[j])@) == Some(v),
                forall|k: ItemKeyView|
                    (forall|j: int| 0 <= j < i ==> (#[trigger] keys@[j])@ != k) ==> self.entry(k)
                        == old(self).entry(k),
                self.dir_view() == old(self).dir_view(),
                self.persists() == old(self).persists(),
            decreases keys.len() - i,
        {
            let entry = MetaEntry { attrs: clone_attrs(&attrs), checked_at: now };
            let ghost mid = *self;
            self.put(keys[i].clone(), entry);
            proof {
                assert forall|k: ItemKeyView|
                    (forall|j: int| 0 <= j < i + 1 ==> (#[trigger] keys@[j])@ != k) implies self.entry(k)
                    == old(self).entry(k) by {
                    assert(keys@[i as int]@ != k);
                    assert forall|j: int| 0 <= j < i implies (#[trigger] keys@[j])@ != k by {
                        assert(keys@[j]@ != k);
                    }
                }
            }
            i += 1;
        }
    }

    /// Seed the store from records read from disk. Records that are no
    /// longer fresh at `now` are dropped - they would be refetched anyway,
    /// and dropping them keeps the file from growing without bound. Returns
    /// how many ids the store holds afterwards.
    pub fn restore_records(
        &mut self,
        records: Vec<MetaRecord>,
        ttl: Span,
        miss_ttl: Span,
        now: Stamp,
    ) -> (r: usize)
        requires
            old(self).well_formed(),
        ensures
            final(self).well_formed(),
            r == final(self).size(),
            forall|k: ItemKeyView|
                #[trigger] final(self).entry(k) == match last_fresh(
                    records@,
                    records@.len() as int,
                    k,
                    ttl,
                    miss_ttl,
                    now,
                ) {
                    Some(e) => Some(e),
                    None => old(self).entry(k),
                },
            final(self).dir_view() == old(self).dir_view(),
            final(self).persists() == old(self).persists(),
    {
        let ghost all = records@;
        let mut i: usize = 0;
        while i < records.len()
            invariant
                self.well_formed(),
                            all == records@,
                0 <= i <= records@.len(),
                forall|k: ItemKeyView|
                    #[trigger] self.entry(k) == match last_fresh(all, i as int, k, ttl, miss_ttl, now) {
                        Some(e) => Some(e),
                        None => old(self).entry(k),
                    },
                self.dir_view() == old(self).dir_view(),
                self.persists() == old(self).persists(),
            decreases records.len() - i,
        {
            let record = &records[i];
            let entry = MetaEntry { attrs: clone_attrs(&record.attrs), checked_at: record.checked_at };
            if entry.is_fresh(ttl, miss_ttl, now) {
                let key = ItemKey {
                    media_type: record.media_type,
                    provider: record.provider,
                    value: clone_string(&record.id),
                };
                self.put(key, entry);
            }
            proof {
                assert forall|k: ItemKeyView|
                    #[trigger] self.entry(k) == match last_fresh(all, i + 1, k, ttl, miss_ttl, now) {
                        Some(e) => Some(e),
                        None => old(self).entry(k),
                    } by {
                    assert(all[i as int] == records@[i as int]);
                }
            }
            i += 1;
        }
        self.entries.len()
    }

    /// Every entry as a record, for writing to disk.
    pub fn records(&self) -> (r: Vec<MetaRecord>)
        requires
            self.well_formed(),
        ensures
            r@.len() == self.size(),
            forall|i: int|
                0 <= i < r@.len() ==> self.entry(record_key(#[trigger] r@[i])) == Some(
                    record_entry(r@[i]),
                ),
    {
        let mut out: Vec<MetaRecord> = Vec::new();
        let mut i: usize = 0;
        while i < self.entries.len()
            invariant
                self.well_formed(),
                0 <= i <= self.entries@.len(),
                out@.len() == i,
                forall|j: int|
                    0 <= j < i ==> self.entry(record_key(#[trigger] out@[j])) == Some(
                        record_entry(out@[j]),
                    ),
            decreases self.entries.len() - i,
        {
            let (key, entry) = &self.entries[i];
            proof {
                lemma_key_at(self.entries@, i as int);
            }
            let record = MetaRecord {
                media_type: key.media_type,
                provider: key.provider,
                id: clone_string(&key.value),
                checked_at: entry.checked_at,
                attrs: clone_attrs(&entry.attrs),
            };
            out.push(record);
            i += 1;
        }
        out
    }
}

/// A freshly recorded answer is fresh: whatever `record` writes at `now`,
/// `is_fresh` at the same `now` reports as not worth asking about again.
pub proof fn lemma_recorded_is_fresh(attrs: Option<AttrsView>, now: Stamp, ttl: Span, miss_ttl: Span)
    ensures
        fresh_spec(attrs is Some, now, ttl, miss_ttl, now),
{
}

/// Whether an answer carries attributes.
pub open spec fn positive(answer: Option<MetaEntryView>) -> bool {
    answer matches Some(e) && e.attrs is Some
}

proof fn lemma_merge_single(answers: Seq<Option<MetaEntryView>>, k: int, a: AttrsView)
    requires
        0 <= k < answers.len(),
        answers[k] matches Some(e) && e.attrs == Some(a),
        forall|j: int| 0 <= j < answers.len() && j != k ==> !positive(#[trigger] answers[j]),
    ensures
        merge_known(answers) == Some(a),
    decreases answers.len(),
{
    if k < answers.len() - 1 {
        assert(!positive(answers[answers.len() - 1]));
        lemma_merge_single(answers.drop_last(), k, a);
    } else {
        lemma_merge_none(answers.drop_last());
    }
}

proof fn lemma_merge_none(answers: Seq<Option<MetaEntryView>>)
    requires
        forall|j: int| 0 <= j < answers.len() ==> !positive(#[trigger] answers[j]),
    ensures
        merge_known(answers) is None,
    decreases answers.len(),
{
    if answers.len() > 0 {
        assert(!positive(answers[answers.len() - 1]));
        lemma_merge_none(answers.drop_last());
    }
}

/// A title is found by any of its ids: when one id of an item has an answer
/// with attributes and no other id of it has one, what the store knows of
/// the item is that answer.
pub proof fn lemma_found_by_any_id(store: MetaStore, item: ItemView, k: int, a: AttrsView)
    requires
        0 <= k < item.keys().len(),
        store.entry(item.keys()[k]) matches Some(e) && e.attrs == Some(a),
        forall|j: int| 0 <= j < item.keys().len() && j != k ==> !positive(store.entry(#[trigger] item.keys()[j])),
    ensures
        store.known(item) == Some(a),
{
    let answers = item.keys().map_values(|key: ItemKeyView| store.entry(key));
    assert forall|j: int| 0 <= j < answers.len() && j != k implies !positive(#[trigger] answers[j]) by {
        assert(answers[j] == store.entry(item.keys()[j]));
    }
    lemma_merge_single(answers, k, a);
}

} // verus!
