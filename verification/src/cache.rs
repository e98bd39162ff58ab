//! Per-source snapshots.
//!
//! Radarr and Kometa poll on their own schedule and expect an answer straight
//! away, while MDBList has a request quota and can be down. So nothing is ever
//! fetched during a request: a background refresher keeps snapshots warm, and
//! a failed refresh leaves the last good snapshot in place, marked stale.
//! This module holds the snapshots and decides what a fetch, a failure and a
//! restore do to them; reading and writing the files is the caller's part.

use std::hash::{Hash, Hasher};

use vstd::prelude::*;

use crate::clock::{elapsed_spec, later_than, older_than, span_nanos, Stamp};
use crate::config::model::{SourceConfig, Span};
use crate::config::render::config_text;
use crate::model::{Item, ItemView};
use crate::config::model::{insert_sorted, text_lt};
use crate::model::strings_view;
use crate::text::{clone_string, from_str, is_ascii_alnum, push_char, push_str, str_eq};

verus! {

/// What is persisted per source.
#[derive(Debug)]
pub struct Snapshot {
    pub fetched_at: Stamp,
    /// Identifies the source configuration that produced this snapshot, so a
    /// changed config never serves data fetched under the old one.
    pub fingerprint: String,
    pub items: Vec<Item>,
}

#[derive(Debug)]
pub struct SourceStatus {
    pub items: Option<Vec<Item>>,
    pub fetched_at: Option<Stamp>,
    pub last_attempt: Option<Stamp>,
    pub last_error: Option<String>,
    pub fingerprint: String,
}

pub open spec fn items_view(items: Seq<Item>) -> Seq<ItemView> {
    items.map_values(|i: Item| i@)
}

pub fn clone_items(items: &Vec<Item>) -> (r: Vec<Item>)
    ensures
        items_view(r@) == items_view(items@),
{
    let mut out: Vec<Item> = Vec::new();
    let mut i: usize = 0;
    while i < items.len()
        invariant
            0 <= i <= items@.len(),
            out@.len() == i,
            forall|k: int| 0 <= k < i ==> (#[trigger] out@[k])@ == items@[k]@,
        decreases items.len() - i,
    {
        let c = items[i].clone();
        out.push(c);
        i += 1;
    }
    assert(items_view(out@) =~= items_view(items@));
    out
}

impl SourceStatus {
    /// A source nothing is known about.
    pub fn empty() -> (r: SourceStatus)
        ensures
            r.items is None,
            r.fetched_at is None,
            r.last_attempt is None,
            r.last_error is None,
            r.fingerprint@.len() == 0,
    {
        SourceStatus {
            items: None,
            fetched_at: None,
            last_attempt: None,
            last_error: None,
            fingerprint: String::new(),
        }
    }

    pub fn duplicate(&self) -> (r: SourceStatus)
        ensures
            r.items is Some == self.items is Some,
            r.items matches Some(v) ==> items_view(v@) == items_view(self.items->0@),
            r.fetched_at == self.fetched_at,
            r.last_attempt == self.last_attempt,
            crate::model::ov(r.last_error) == crate::model::ov(self.last_error),
            r.fingerprint@ == self.fingerprint@,
    {
        SourceStatus {
            items: match &self.items {
                Some(v) => Some(clone_items(v)),
                None => None,
            },
            fetched_at: self.fetched_at,
            last_attempt: self.last_attempt,
            last_error: crate::model::clone_opt_string(&self.last_error),
            fingerprint: clone_string(&self.fingerprint),
        }
    }

    pub fn item_count(&self) -> (r: Option<usize>)
        ensures
            r == match self.items {
                Some(v) => Some(v@.len() as usize),
                None => None::<usize>,
            },
    {
        match &self.items {
            Some(v) => Some(v.len()),
            None => None,
        }
    }

    /// How long ago the snapshot was fetched, at `now`; `None` when it never
    /// was, or when its time lies after `now`.
    pub fn age_at(&self, now: Stamp) -> (r: Option<Span>)
        requires
            now.nanos < 1_000_000_000,
            self.fetched_at matches Some(t) ==> t.nanos < 1_000_000_000,
        ensures
            match self.fetched_at {
                None => r is None,
                Some(t) => match elapsed_spec(now, t) {
                    None => r is None,
                    Some(n) => r matches Some(s) && span_nanos(s) == n && s.nanos < 1_000_000_000,
                },
            },
    {
        match self.fetched_at {
            None => None,
            Some(t) => {
                let a = now.secs as i128 * 1_000_000_000 + now.nanos as i128;
                let b = t.secs as i128 * 1_000_000_000 + t.nanos as i128;
                assert(now.secs * 1_000_000_000 >= i64::MIN * 1_000_000_000) by (nonlinear_arith)
                    requires now.secs >= i64::MIN;
                assert(now.secs * 1_000_000_000 <= i64::MAX * 1_000_000_000) by (nonlinear_arith)
                    requires now.secs <= i64::MAX;
                assert(t.secs * 1_000_000_000 >= i64::MIN * 1_000_000_000) by (nonlinear_arith)
                    requires t.secs >= i64::MIN;
                assert(t.secs * 1_000_000_000 <= i64::MAX * 1_000_000_000) by (nonlinear_arith)
                    requires t.secs <= i64::MAX;
                if a < b {
                    None
                } else {
                    let d = a - b;
                    let secs = d / 1_000_000_000;
                    let nanos = d % 1_000_000_000;
                    assert(secs <= u64::MAX) by (nonlinear_arith)
                        requires
                            d <= (i64::MAX - i64::MIN) * 1_000_000_000 + 999_999_999,
                            d >= 0,
                            secs == d / 1_000_000_000;
                    Some(Span { secs: secs as u64, nanos: nanos as u32 })
                }
            },
        }
    }

    /// Older than its TTL - still served, but the refresher wants another
    /// go. A source never fetched, or fetched at a time after `now`, counts
    /// as stale.
    pub fn is_stale_at(&self, ttl: Span, now: Stamp) -> (r: bool)
        ensures
            r == match self.fetched_at {
                None => true,
                Some(t) => match elapsed_spec(now, t) {
                    None => true,
                    Some(age) => age > span_nanos(ttl),
                },
            },
    {
        match self.fetched_at {
            None => true,
            Some(t) => {
                if later_than(t, now) {
                    true
                } else {
                    older_than(now, t, ttl)
                }
            },
        }
    }
}

/// Every source's status, by name.
#[derive(Debug)]
pub struct CacheStore {
    dir: String,
    persist: bool,
    entries: Vec<(String, SourceStatus)>,
}

/// No two entries share a name.
pub open spec fn distinct_names(entries: Seq<(String, SourceStatus)>) -> bool {
    forall|i: int, j: int|
        0 <= i < j < entries.len() ==> #[trigger] entries[i].0@ != #[trigger] entries[j].0@
}

/// The status under `name`.
pub open spec fn lookup(entries: Seq<(String, SourceStatus)>, name: Seq<char>) -> Option<
    SourceStatus,
> {
    if exists|i: int| 0 <= i < entries.len() && #[trigger] entries[i].0@ == name {
        Some(entries[choose|i: int| 0 <= i < entries.len() && #[trigger] entries[i].0@ == name].1)
    } else {
        None
    }
}

proof fn lemma_lookup_at(entries: Seq<(String, SourceStatus)>, i: int)
    requires
        distinct_names(entries),
        0 <= i < entries.len(),
    ensures
        lookup(entries, entries[i].0@) == Some(entries[i].1),
{
    let name = entries[i].0@;
    assert(entries[i].0@ == name);
    let w = choose|w: int| 0 <= w < entries.len() && #[trigger] entries[w].0@ == name;
    if w < i {
    } else if i < w {
    }
}

proof fn lemma_lookup_none(entries: Seq<(String, SourceStatus)>, name: Seq<char>)
    requires
        forall|i: int| 0 <= i < entries.len() ==> #[trigger] entries[i].0@ != name,
    ensures
        lookup(entries, name) is None,
{
}

proof fn lemma_lookup_some(entries: Seq<(String, SourceStatus)>, name: Seq<char>)
    requires
        lookup(entries, name) is Some,
    ensures
        exists|i: int| 0 <= i < entries.len() && #[trigger] entries[i].0@ == name,
{
}

/// Two statuses that hold the same data.
pub open spec fn same_status(a: SourceStatus, b: SourceStatus) -> bool {
    &&& (a.items is Some <==> b.items is Some)
    &&& (a.items is Some ==> items_view(a.items->0@) == items_view(b.items->0@))
    &&& a.fetched_at == b.fetched_at
    &&& a.last_attempt == b.last_attempt
    &&& crate::model::ov(a.last_error) == crate::model::ov(b.last_error)
    &&& a.fingerprint@ == b.fingerprint@
}

impl CacheStore {
    pub fn new(dir: String, persist: bool) -> (r: CacheStore)
        ensures
            r.well_formed(),
            r.dir_view() == dir@,
            r.persists() == persist,
            forall|n: Seq<char>| r.status_of(n) is None,
    {
        CacheStore { dir, persist, entries: Vec::new() }
    }

    pub closed spec fn dir_view(&self) -> Seq<char> {
        self.dir@
    }

    pub closed spec fn persists(&self) -> bool {
        self.persist
    }

    /// The directory snapshots are kept in.
    pub fn dir(&self) -> (r: &str)
        ensures
            r@ == self.dir_view(),
    {
        self.dir.as_str()
    }

    /// Whether snapshots are written to and read from disk.
    pub fn persist(&self) -> (r: bool)
        ensures
            r == self.persists(),
    {
        self.persist
    }

    /// Where a source's snapshot is kept.
    pub fn path_for(&self, name: &str) -> (r: String)
        ensures
            r@ == self.dir_view() + "/"@ + file_stem_spec(name@) + ".json"@,
    {
        snapshot_path(self.dir.as_str(), name)
    }

    pub closed spec fn well_formed(&self) -> bool {
        distinct_names(self.entries@)
    }

    /// The status recorded for a source, if any.
    pub closed spec fn status_of(&self, name: Seq<char>) -> Option<SourceStatus> {
        lookup(self.entries@, name)
    }

    fn find(&self, name: &str) -> (r: Option<usize>)
        requires
            self.well_formed(),
        ensures
            match r {
                Some(i) => i < self.entries@.len() && self.entries@[i as int].0@ == name@
                    && self.status_of(name@) == Some(self.entries@[i as int].1),
                None => self.status_of(name@) is None,
            },
    {
        let mut i: usize = 0;
        while i < self.entries.len()
            invariant
                self.well_formed(),
                0 <= i <= self.entries@.len(),
                forall|j: int| 0 <= j < i ==> #[trigger] self.entries@[j].0@ != name@,
            decreases self.entries.len() - i,
        {
            if str_eq(self.entries[i].0.as_str(), name) {
                proof {
                    lemma_lookup_at(self.entries@, i as int);
                }
                return Some(i);
            }
            i += 1;
        }
        None
    }

    /// A copy of a source's status; a source never seen has an empty one.
    pub fn status(&self, name: &str) -> (r: SourceStatus)
        requires
            self.well_formed(),
        ensures
            match self.status_of(name@) {
                Some(s) => same_status(r, s),
                None => r.items is None && r.fetched_at is None && r.last_attempt is None
                    && r.last_error is None && r.fingerprint@.len() == 0,
            },
    {
        match self.find(name) {
            Some(i) => self.entries[i].1.duplicate(),
            None => SourceStatus::empty(),
        }
    }

    /// The items last fetched for a source.
    pub fn items(&self, name: &str) -> (r: Option<Vec<Item>>)
        requires
            self.well_formed(),
        ensures
            match self.status_of(name@) {
                Some(s) => match s.items {
                    Some(v) => r matches Some(w) && items_view(w@) == items_view(v@),
                    None => r is None,
                },
                None => r is None,
            },
    {
        match self.find(name) {
            Some(i) => match &self.entries[i].1.items {
                Some(v) => Some(clone_items(v)),
                None => None,
            },
            None => None,
        }
    }

    /// Every source's status, ordered by name.
    pub fn statuses(&self) -> (r: Vec<(String, SourceStatus)>)
        requires
            self.well_formed(),
        ensures
            forall|i: int, j: int| 0 <= i < j < r@.len() ==> text_lt(r@[i].0@, r@[j].0@),
            forall|k: int|
                0 <= k < r@.len() ==> ((#[trigger] self.status_of(r@[k].0@)) matches Some(s)
                    && same_status(r@[k].1, s)),
            forall|n: Seq<char>|
                #[trigger] self.status_of(n) is Some ==> exists|k: int|
                    0 <= k < r@.len() && #[trigger] r@[k].0@ == n,
    {
        let mut names: Vec<String> = Vec::new();
        let mut i: usize = 0;
        while i < self.entries.len()
            invariant
                0 <= i <= self.entries@.len(),
                forall|a: int, b: int|
                    0 <= a < b < names@.len() ==> text_lt(names@[a]@, names@[b]@),
                forall|t: Seq<char>|
                    strings_view(names@).contains(t) <==> exists|j: int|
                        0 <= j < i && #[trigger] self.entries@[j].0@ == t,
            decreases self.entries.len() - i,
        {
            let ghost before = names@;
            insert_sorted(&mut names, clone_string(&self.entries[i].0));
            proof {
                assert forall|t: Seq<char>|
                    strings_view(names@).contains(t) <==> exists|j: int|
                        0 <= j < i + 1 && #[trigger] self.entries@[j].0@ == t by {
                    if t == self.entries@[i as int].0@ {
                        assert(self.entries@[i as int].0@ == t);
                    }
                    if exists|j: int| 0 <= j < i + 1 && #[trigger] self.entries@[j].0@ == t {
                        let j = choose|j: int| 0 <= j < i + 1 && #[trigger] self.entries@[j].0@ == t;
                        if j < i {
                            assert(strings_view(before).contains(t));
                        }
                    }
                }
            }
            i += 1;
        }
        let mut out: Vec<(String, SourceStatus)> = Vec::new();
        let mut k: usize = 0;
        while k < names.len()
            invariant
                self.well_formed(),
                0 <= k <= names@.len(),
                out@.len() == k,
                forall|a: int, b: int|
                    0 <= a < b < names@.len() ==> text_lt(names@[a]@, names@[b]@),
                forall|t: Seq<char>|
                    strings_view(names@).contains(t) <==> exists|j: int|
                        0 <= j < self.entries@.len() && #[trigger] self.entries@[j].0@ == t,
                forall|a: int| 0 <= a < k ==> #[trigger] out@[a].0@ == names@[a]@,
                forall|a: int|
                    0 <= a < k ==> ((#[trigger] self.status_of(out@[a].0@)) matches Some(s)
                        && same_status(out@[a].1, s)),
            decreases names.len() - k,
        {
            proof {
                assert(strings_view(names@)[k as int] == names@[k as int]@);
                let t = names@[k as int]@;
                assert(strings_view(names@).contains(t));
                let j = choose|j: int| 0 <= j < self.entries@.len() && #[trigger] self.entries@[j].0@ == t;
                lemma_lookup_at(self.entries@, j);
            }
            let status = self.status(names[k].as_str());
            out.push((clone_string(&names[k]), status));
            k += 1;
        }
        proof {
            assert forall|n: Seq<char>|
                #[trigger] self.status_of(n) is Some implies exists|k: int|
                    0 <= k < out@.len() && #[trigger] out@[k].0@ == n by {
                lemma_lookup_some(self.entries@, n);
                assert(strings_view(names@).contains(n));
                let w = choose|w: int| 0 <= w < strings_view(names@).len() && strings_view(names@)[w] == n;
                assert(out@[w].0@ == n);
            }
        }
        out
    }

    /// The slot for a source, made if it is new.
    fn slot(&mut self, name: &str) -> (r: usize)
        requires
            old(self).well_formed(),
        ensures
            final(self).well_formed(),
            r < final(self).entries@.len(),
            final(self).entries@[r as int].0@ == name@,
            final(self).dir_view() == old(self).dir_view(),
            final(self).persists() == old(self).persists(),
            forall|n: Seq<char>| n != name@ ==> final(self).status_of(n) == old(self).status_of(n),
            final(self).status_of(name@) == Some(final(self).entries@[r as int].1),
            old(self).status_of(name@) matches Some(s) ==> final(self).entries@[r as int].1 == s,
            old(self).status_of(name@) is None ==> final(self).entries@[r as int].1.items is None
                && final(self).entries@[r as int].1.fetched_at is None
                && final(self).entries@[r as int].1.last_attempt is None
                && final(self).entries@[r as int].1.last_error is None,
    {
        match self.find(name) {
            Some(i) => i,
            None => {
                let ghost before = self.entries@;
                self.entries.push((from_str(name), SourceStatus::empty()));
                let r = self.entries.len() - 1;
                proof {
                    assert forall|i: int| 0 <= i < before.len() implies #[trigger] before[i].0@
                        != name@ by {
                        if before[i].0@ == name@ {
                            assert(lookup(before, name@) is Some);
                        }
                    }
                    assert(self.entries@[r as int].0@ == name@);
                    assert forall|n: Seq<char>| n != name@ implies self.status_of(n) == old(
                        self,
                    ).status_of(n) by {
                        if exists|i: int| 0 <= i < before.len() && #[trigger] before[i].0@ == n {
                            let a = choose|i: int| 0 <= i < before.len() && #[trigger] before[i].0@ == n;
                            lemma_lookup_at(before, a);
                            lemma_lookup_at(self.entries@, a);
                        } else {
                            assert forall|i: int| 0 <= i < self.entries@.len() implies #[trigger] self.entries@[i].0@ != n by {
                                if i < before.len() {
                                    assert(self.entries@[i] == before[i]);
                                }
                            }
                        }
                    }
                    lemma_lookup_at(self.entries@, r as int);
                }
                r
            },
        }
    }

    /// Put `status` in slot `i` and hand back what was there.
    fn replace_at(&mut self, i: usize, status: SourceStatus) -> (r: SourceStatus)
        requires
            old(self).well_formed(),
            i < old(self).entries@.len(),
        ensures
            final(self).well_formed(),
            r == old(self).entries@[i as int].1,
            final(self).entries@.len() == old(self).entries@.len(),
            final(self).entries@[i as int].0@ == old(self).entries@[i as int].0@,
            final(self).dir_view() == old(self).dir_view(),
            final(self).persists() == old(self).persists(),
            final(self).status_of(old(self).entries@[i as int].0@) == Some(status),
            forall|n: Seq<char>|
                n != old(self).entries@[i as int].0@ ==> final(self).status_of(n) == old(
                    self,
                ).status_of(n),
    {
        let ghost before = self.entries@;
        let (name, previous) = self.entries.remove(i);
        let ghost st = status;
        self.entries.insert(i, (name, status));
        proof {
            assert(self.entries@ =~= before.update(i as int, (before[i as int].0, st)));
            assert forall|a: int| 0 <= a < before.len() implies #[trigger] self.entries@[a].0@
                == before[a].0@ by {}
            assert forall|a: int, b: int|
                0 <= a < b < self.entries@.len() implies #[trigger] self.entries@[a].0@
                != #[trigger] self.entries@[b].0@ by {
                assert(before[a].0@ != before[b].0@);
            }
            lemma_lookup_at(self.entries@, i as int);
            assert forall|n: Seq<char>|
                n != before[i as int].0@ implies self.status_of(n) == old(self).status_of(n) by {
                if exists|a: int| 0 <= a < before.len() && #[trigger] before[a].0@ == n {
                    let a = choose|a: int| 0 <= a < before.len() && #[trigger] before[a].0@ == n;
                    lemma_lookup_at(before, a);
                    lemma_lookup_at(self.entries@, a);
                } else {
                    assert forall|a: int| 0 <= a < self.entries@.len() implies #[trigger] self.entries@[a].0@ != n by {
                        assert(self.entries@[a].0@ == before[a].0@);
                    }
                }
            }
        }
        previous
    }

    /// Record a successful fetch at `now`.
    pub fn store(&mut self, name: &str, fingerprint: &str, items: Vec<Item>, now: Stamp)
        requires
            old(self).well_formed(),
        ensures
            final(self).well_formed(),
            final(self).status_of(name@) matches Some(s) && s.items == Some(items) && s.fetched_at
                == Some(now) && s.last_attempt == Some(now) && s.last_error is None
                && s.fingerprint@ == fingerprint@,
            forall|n: Seq<char>| n != name@ ==> final(self).status_of(n) == old(self).status_of(n),
            final(self).dir_view() == old(self).dir_view(),
            final(self).persists() == old(self).persists(),
    {
        let i = self.slot(name);
        let status = SourceStatus {
            items: Some(items),
            fetched_at: Some(now),
            last_attempt: Some(now),
            last_error: None,
            fingerprint: from_str(fingerprint),
        };
        self.replace_at(i, status);
    }

    /// Record a failed fetch at `now`. Any previous snapshot stays in place.
    pub fn record_failure(&mut self, name: &str, error: &str, now: Stamp)
        requires
            old(self).well_formed(),
        ensures
            final(self).well_formed(),
            final(self).status_of(name@) matches Some(s) && s.last_attempt == Some(now)
                && crate::model::ov(s.last_error) == Some(error@),
            old(self).status_of(name@) matches Some(o) ==> (final(self).status_of(name@) matches Some(s)
                && s.items == o.items && s.fetched_at == o.fetched_at && s.fingerprint == o.fingerprint),
            old(self).status_of(name@) is None ==> (final(self).status_of(name@) matches Some(s)
                && s.items is None && s.fetched_at is None),
            forall|n: Seq<char>| n != name@ ==> final(self).status_of(n) == old(self).status_of(n),
            final(self).dir_view() == old(self).dir_view(),
            final(self).persists() == old(self).persists(),
    {
        let i = self.slot(name);
        let ghost mid = self.status_of(name@);
        let previous = self.replace_at(i, SourceStatus::empty());
        let updated = SourceStatus {
            items: previous.items,
            fetched_at: previous.fetched_at,
            last_attempt: Some(now),
            last_error: Some(from_str(error)),
            fingerprint: previous.fingerprint,
        };
        self.replace_at(i, updated);
    }

    /// Seed a source from its persisted snapshot. A snapshot whose
    /// fingerprint no longer matches the configuration is ignored, and so is
    /// every snapshot when persistence is off.
    pub fn restore(&mut self, name: &str, fingerprint: &str, snapshot: Snapshot) -> (r: bool)
        requires
            old(self).well_formed(),
        ensures
            final(self).well_formed(),
            r == (old(self).persists() && snapshot.fingerprint@ == fingerprint@),
            r ==> (final(self).status_of(name@) matches Some(s) && s.items == Some(snapshot.items)
                && s.fetched_at == Some(snapshot.fetched_at) && s.fingerprint@ == fingerprint@),
            r ==> (old(self).status_of(name@) matches Some(o) ==> (final(self).status_of(name@) matches Some(s)
                && s.last_attempt == o.last_attempt && s.last_error == o.last_error)),
            !r ==> forall|n: Seq<char>| final(self).status_of(n) == old(self).status_of(n),
            forall|n: Seq<char>| n != name@ ==> final(self).status_of(n) == old(self).status_of(n),
            final(self).dir_view() == old(self).dir_view(),
            final(self).persists() == old(self).persists(),
    {
        if !self.persist {
            return false;
        }
        if !str_eq(snapshot.fingerprint.as_str(), fingerprint) {
            return false;
        }
        let i = self.slot(name);
        let previous = self.replace_at(i, SourceStatus::empty());
        let updated = SourceStatus {
            items: Some(snapshot.items),
            fetched_at: Some(snapshot.fetched_at),
            last_attempt: previous.last_attempt,
            last_error: previous.last_error,
            fingerprint: snapshot.fingerprint,
        };
        self.replace_at(i, updated);
        true
    }

    /// Drop the entries of sources that no longer exist, after a reload:
    /// a source in `keep` keeps its status, any other has none.
    pub fn retain(&mut self, keep: &Vec<String>)
        requires
            old(self).well_formed(),
        ensures
            final(self).well_formed(),
            final(self).dir_view() == old(self).dir_view(),
            final(self).persists() == old(self).persists(),
            forall|n: Seq<char>|
                strings_view(keep@).contains(n) ==> #[trigger] final(self).status_of(n) == old(
                    self,
                ).status_of(n),
            forall|n: Seq<char>|
                !strings_view(keep@).contains(n) ==> #[trigger] final(self).status_of(n) is None,
    {
        let mut rest: Vec<(String, SourceStatus)> = Vec::new();
        core::mem::swap(&mut rest, &mut self.entries);
        let ghost o = rest@;
        let mut kept: Vec<(String, SourceStatus)> = Vec::new();
        let ghost mut idx: int = 0;
        while rest.len() > 0
            invariant
                distinct_names(o),
                0 <= idx <= o.len(),
                rest@ == o.subrange(idx, o.len() as int),
                distinct_names(kept@),
                forall|k: int|
                    0 <= k < kept@.len() ==> strings_view(keep@).contains(#[trigger] kept@[k].0@),
                forall|k: int|
                    0 <= k < kept@.len() ==> exists|j: int|
                        0 <= j < idx && #[trigger] o[j] == #[trigger] kept@[k],
                forall|j: int|
                    0 <= j < idx && strings_view(keep@).contains(#[trigger] o[j].0@) ==> exists|
                        k: int,
                    |
                        0 <= k < kept@.len() && #[trigger] kept@[k] == o[j],
            decreases rest.len(),
        {
            let ghost before = kept@;
            assert(rest@[0] == o[idx]);
            let entry = rest.remove(0);
            let ghost e = entry;
            if crate::expr::ast::strings_contain(keep, &entry.0) {
                kept.push(entry);
                proof {
                    assert(strings_view(keep@) == keep@.map_values(|x: String| x@));
                    assert forall|a: int, b: int|
                        0 <= a < b < kept@.len() implies #[trigger] kept@[a].0@
                        != #[trigger] kept@[b].0@ by {
                        if b == before.len() {
                            let j = choose|j: int| 0 <= j < idx && #[trigger] o[j] == #[trigger] before[a];
                            assert(o[j].0@ != o[idx].0@);
                        } else {
                            assert(before[a].0@ != before[b].0@);
                        }
                    }
                    assert forall|k: int| 0 <= k < kept@.len() implies exists|j: int|
                        0 <= j < idx + 1 && #[trigger] o[j] == #[trigger] kept@[k] by {
                        if k == before.len() {
                            assert(o[idx] == kept@[k]);
                        } else {
                            let j = choose|j: int| 0 <= j < idx && #[trigger] o[j] == #[trigger] before[k];
                            assert(o[j] == kept@[k]);
                        }
                    }
                    assert forall|j: int|
                        0 <= j < idx + 1 && strings_view(keep@).contains(#[trigger] o[j].0@) implies exists|
                            k: int,
                        | 0 <= k < kept@.len() && #[trigger] kept@[k] == o[j] by {
                        if j == idx {
                            assert(kept@[before.len() as int] == o[j]);
                        } else {
                            let k = choose|k: int| 0 <= k < before.len() && #[trigger] before[k] == o[j];
                            assert(kept@[k] == o[j]);
                        }
                    }
                }
            } else {
                proof {
                    assert(strings_view(keep@) == keep@.map_values(|x: String| x@));
                    assert forall|k: int| 0 <= k < kept@.len() implies exists|j: int|
                        0 <= j < idx + 1 && #[trigger] o[j] == #[trigger] kept@[k] by {
                        let j = choose|j: int| 0 <= j < idx && #[trigger] o[j] == #[trigger] kept@[k];
                        assert(o[j] == kept@[k]);
                    }
                }
            }
            proof {
                idx = idx + 1;
            }
        }
        proof {
            assert forall|n: Seq<char>|
                strings_view(keep@).contains(n) implies #[trigger] lookup(kept@, n) == lookup(o, n) by {
                if exists|j: int| 0 <= j < o.len() && #[trigger] o[j].0@ == n {
                    let j = choose|j: int| 0 <= j < o.len() && #[trigger] o[j].0@ == n;
                    let k = choose|k: int| 0 <= k < kept@.len() && #[trigger] kept@[k] == o[j];
                    lemma_lookup_at(o, j);
                    lemma_lookup_at(kept@, k);
                } else {
                    assert forall|k: int| 0 <= k < kept@.len() implies #[trigger] kept@[k].0@ != n by {
                        let j = choose|j: int| 0 <= j < idx && #[trigger] o[j] == #[trigger] kept@[k];
                        assert(o[j].0@ != n);
                    }
                }
            }
            assert forall|n: Seq<char>|
                !strings_view(keep@).contains(n) implies #[trigger] lookup(kept@, n) is None by {
                assert forall|k: int| 0 <= k < kept@.len() implies #[trigger] kept@[k].0@ != n by {
                    assert(strings_view(keep@).contains(kept@[k].0@));
                }
            }
        }
        self.entries = kept;
    }
}

/// Source names may contain anything; the hash suffix keeps two names that
/// sanitize to the same string apart.
pub open spec fn sanitized(name: Seq<char>) -> Seq<char> {
    Seq::new(name.len(), |i: int| if is_ascii_alnum(name[i]) { name[i] } else { '_' })
}

/// What `std::hash::DefaultHasher` makes of a text, the hasher built with
/// `DefaultHasher::new()` and fed the text through `Hash`.
pub uninterp spec fn text_hash(text: Seq<char>) -> u64;

/// `DefaultHasher::new()`, `str::hash` and `Hasher::finish`. Claimed: the
/// value is a function of the text; `DefaultHasher::new` uses fixed keys, so
/// it is the same in every process of one build.
#[verifier::external_body]
fn hash_text(text: &str) -> (r: u64)
    ensures
        r == text_hash(text@),
{
    let mut hasher = std::hash::DefaultHasher::new();
    text.hash(&mut hasher);
    hasher.finish()
}

pub open spec fn hex_digit(d: nat) -> char {
    if d < 10 {
        (('0' as u32) + d) as char
    } else {
        (('a' as u32) + d - 10) as char
    }
}

/// Eight lowercase hex digits.
pub open spec fn hex8(n: u32) -> Seq<char> {
    Seq::new(8, |i: int| hex_digit(((n as nat) / pow16((7 - i) as nat)) % 16))
}

pub open spec fn pow16(k: nat) -> nat
    decreases k,
{
    if k == 0 {
        1
    } else {
        16 * pow16((k - 1) as nat)
    }
}

proof fn lemma_pow16_positive(k: nat)
    ensures
        pow16(k) >= 1,
    decreases k,
{
    if k > 0 {
        lemma_pow16_positive((k - 1) as nat);
    }
}

/// The low 32 bits of a text's hash, as eight hex digits.
pub open spec fn short_hash_spec(text: Seq<char>) -> Seq<char> {
    hex8((text_hash(text) % 0x1_0000_0000) as u32)
}

fn hex_char(d: u32) -> (r: char)
    requires
        d < 16,
    ensures
        r == hex_digit(d as nat),
{
    if d < 10 {
        let c = (('0' as u8) + d as u8) as char;
        assert(c == (('0' as u32) + d) as char);
        c
    } else {
        let c = (('a' as u8) + (d - 10) as u8) as char;
        assert(c == (('a' as u32) + d - 10) as char);
        c
    }
}

pub fn short_hash(text: &str) -> (r: String)
    ensures
        r@ == short_hash_spec(text@),
{
    let h = hash_text(text);
    let n = (h % 0x1_0000_0000) as u32;
    let mut out = String::new();
    let mut i: usize = 0;
    let mut div: u32 = 0x1000_0000;
    assert(pow16(7) == 0x1000_0000) by {
        reveal_with_fuel(pow16, 8);
    }
    while i < 8
        invariant
            0 <= i <= 8,
            div as nat == pow16((7 - i) as nat) || (i == 8 && div == 0),
            out@.len() == i,
            forall|k: int| 0 <= k < i ==> out@[k] == hex_digit(((n as nat) / pow16((7 - k) as nat)) % 16),
        decreases 8 - i,
    {
        proof {
            lemma_pow16_positive((7 - i) as nat);
            if i < 7 {
                assert(pow16((7 - i) as nat) == 16 * pow16((6 - i) as nat));
            }
        }
        let d = (n / div) % 16;
        push_char(&mut out, hex_char(d));
        div = div / 16;
        i += 1;
    }
    assert(out@ =~= hex8(n));
    out
}

/// A name made safe for a file name, with the hash that keeps names apart.
pub open spec fn file_stem_spec(name: Seq<char>) -> Seq<char> {
    sanitized(name) + "-"@ + short_hash_spec(name)
}

pub fn file_stem(name: &str) -> (r: String)
    ensures
        r@ == file_stem_spec(name@),
{
    let v = crate::text::chars_of(name);
    let mut out = String::new();
    let mut i: usize = 0;
    while i < v.len()
        invariant
            0 <= i <= v@.len(),
            v@ == name@,
            out@ == sanitized(name@).subrange(0, i as int),
        decreases v.len() - i,
    {
        let c = v[i];
        let alnum = ('0' <= c && c <= '9') || ('A' <= c && c <= 'Z') || ('a' <= c && c <= 'z');
        push_char(&mut out, if alnum { c } else { '_' });
        assert(out@ =~= sanitized(name@).subrange(0, i + 1));
        i += 1;
    }
    assert(sanitized(name@).subrange(0, v@.len() as int) =~= sanitized(name@));
    push_str(&mut out, "-");
    let h = short_hash(name);
    push_str(&mut out, h.as_str());
    out
}

/// The path a source's snapshot is kept at, inside the cache directory.
pub fn snapshot_path(dir: &str, name: &str) -> (r: String)
    ensures
        r@ == dir@ + "/"@ + file_stem_spec(name@) + ".json"@,
{
    let mut out = from_str(dir);
    push_str(&mut out, "/");
    let stem = file_stem(name);
    push_str(&mut out, stem.as_str());
    push_str(&mut out, ".json");
    out
}

/// A source's configuration reduced to a comparable string.
pub fn fingerprint(source: &SourceConfig) -> (r: String)
    ensures
        r@ == short_hash_spec(config_text(*source)),
{
    let text = crate::config::render::render_source(source);
    short_hash(text.as_str())
}

} // verus!
