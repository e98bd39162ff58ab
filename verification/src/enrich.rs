//! Backfilling attributes that sources do not carry.
//!
//! The cost control here is scoping, not throttling. Three things narrow the
//! work before a single request is made:
//!
//! 1. Only attributes some `filter:` actually reads are fetched, so a config
//!    with no filters enriches nothing at all.
//! 2. Only sources that feed a filtered list are considered.
//! 3. Only items that still lack one of those attributes after their own
//!    payload and the metadata store have been consulted are asked about.
//!
//! What is left is batched 200 ids to a request, and remembered for a month -
//! including the fact that a provider had never heard of an id. Steady state
//! is therefore zero requests; the one-off cost of a cold 5,000-title library
//! is about 25. The requests themselves are the caller's part.

use vstd::prelude::*;

use crate::cache::CacheStore;
use crate::clock::Stamp;
use crate::config::compile::{CompiledList, Runtime};
use crate::config::model::Span;
use crate::doc::{json_document, lookup, parse_json, Doc};
use crate::filter::attr::{needs_metadata_spec, present_in_spec, Attribute};
use crate::meta::{attrs_view, MetaEntryView, MetaStore};
use crate::model::{
    media_type_text, media_type_word, normalize_imdb, normalize_imdb_spec, ov, provider_text,
    strings_view, Attrs, AttrsView, Item, ItemKey, ItemKeyView, ItemView, MediaType, Provider,
};
use crate::sources::json_value::{opt_doc, str_of};
use crate::sources::mdblist::{attrs_from_json, attrs_spec, status_message, truncate, truncate_spec};
use crate::text::{decimal, fmt_u64, from_str, keyword, parse_u64, parse_u64_spec, push_str, trim};

verus! {

/// MDBList accepts up to 200 ids per request, and bills one unit per request
/// regardless of how many that is.
pub const BATCH: usize = 200;

// ---------------------------------------------------------------------------
// What is worth asking about
// ---------------------------------------------------------------------------

/// Whether some list reading source `s` consults the metadata attribute `a`.
pub open spec fn wants(lists: Seq<CompiledList>, s: Seq<char>, a: Attribute) -> bool {
    exists|p: int, d: int|
        0 <= p < lists.len() && 0 <= d < lists[p].source_deps@.len() && (
        #[trigger] lists[p].source_deps@[d])@ == s && lists[p].required_attrs@.contains(a)
            && needs_metadata_spec(a)
}

/// Whether source `s` feeds a list that consults any metadata attribute.
pub open spec fn fed(lists: Seq<CompiledList>, s: Seq<char>) -> bool {
    exists|a: Attribute| wants(lists, s, a)
}

/// Whether an entry of `out` is named `s`.
pub open spec fn has_name(out: Seq<(String, Vec<Attribute>)>, s: Seq<char>) -> bool {
    exists|k: int| 0 <= k < out.len() && (#[trigger] out[k]).0@ == s
}

/// The metadata attributes a list's filter reads.
fn metadata_attrs(list: &CompiledList) -> (r: Vec<Attribute>)
    ensures
        forall|a: Attribute| #[trigger] r@.contains(a) <==> (list.required_attrs@.contains(a) && needs_metadata_spec(a)),
{
    let mut out: Vec<Attribute> = Vec::new();
    let mut i: usize = 0;
    while i < list.required_attrs.len()
        invariant
            0 <= i <= list.required_attrs@.len(),
            forall|a: Attribute| #[trigger] out@.contains(a) <==> ((exists|t: int| 0 <= t < i && #[trigger] list.required_attrs@[t] == a) && needs_metadata_spec(a)),
        decreases list.required_attrs.len() - i,
    {
        let a = list.required_attrs[i];
        let ghost before = out@;
        if a.needs_metadata() {
            out.push(a);
        }
        proof {
            assert forall|b: Attribute| #[trigger] out@.contains(b) <==> ((exists|t: int| 0 <= t < i + 1 && #[trigger] list.required_attrs@[t] == b) && needs_metadata_spec(b)) by {
                if exists|t: int| 0 <= t < i + 1 && #[trigger] list.required_attrs@[t] == b {
                    let w = choose|w: int| 0 <= w < i + 1 && #[trigger] list.required_attrs@[w] == b;
                    if w < i {
                        assert(exists|t: int| 0 <= t < i && #[trigger] list.required_attrs@[t] == b);
                    }
                }
                if out@.contains(b) && !before.contains(b) {
                    let w = choose|w: int| 0 <= w < out@.len() && #[trigger] out@[w] == b;
                    assert(w == before.len());
                }
                if before.contains(b) {
                    let w = choose|w: int| 0 <= w < before.len() && #[trigger] before[w] == b;
                    assert(out@[w] == b);
                }
                if needs_metadata_spec(b) && b == a {
                    assert(out@[before.len() as int] == b);
                }
                if exists|t: int| 0 <= t < i && #[trigger] list.required_attrs@[t] == b {
                    let w = choose|w: int| 0 <= w < i && #[trigger] list.required_attrs@[w] == b;
                    assert(0 <= w < i + 1);
                }
            }
        }
        i += 1;
    }
    proof {
        assert forall|b: Attribute| #[trigger] out@.contains(b) <==> (list.required_attrs@.contains(b) && needs_metadata_spec(b)) by {
            if list.required_attrs@.contains(b) {
                let w = choose|w: int| 0 <= w < list.required_attrs@.len() && #[trigger] list.required_attrs@[w] == b;
                assert(exists|t: int| 0 <= t < i && #[trigger] list.required_attrs@[t] == b);
            }
        }
    }
    out
}

/// Add to `set` what it lacks of `more`.
fn add_attributes(set: &mut Vec<Attribute>, more: &Vec<Attribute>)
    ensures
        forall|a: Attribute| #[trigger] final(set)@.contains(a) <==> (old(set)@.contains(a) || more@.contains(a)),
{
    let mut i: usize = 0;
    while i < more.len()
        invariant
            0 <= i <= more@.len(),
            forall|a: Attribute| #[trigger] set@.contains(a) <==> (old(set)@.contains(a) || exists|t: int| 0 <= t < i && #[trigger] more@[t] == a),
        decreases more.len() - i,
    {
        let a = more[i];
        let mut present = false;
        let mut m: usize = 0;
        while m < set.len()
            invariant
                0 <= m <= set@.len(),
                present == exists|t: int| 0 <= t < m && #[trigger] set@[t] == a,
            decreases set.len() - m,
        {
            if set[m] == a {
                present = true;
            }
            m += 1;
        }
        let ghost before = set@;
        if !present {
            set.push(a);
        }
        proof {
            assert forall|b: Attribute| #[trigger] set@.contains(b) <==> (old(set)@.contains(b) || exists|t: int| 0 <= t < i + 1 && #[trigger] more@[t] == b) by {
                if exists|t: int| 0 <= t < i + 1 && #[trigger] more@[t] == b {
                    let w = choose|w: int| 0 <= w < i + 1 && #[trigger] more@[w] == b;
                    if w < i {
                        assert(exists|t: int| 0 <= t < i && #[trigger] more@[t] == b);
                    } else if present {
                        let t = choose|t: int| 0 <= t < before.len() && #[trigger] before[t] == a;
                        assert(set@[t] == b);
                    } else {
                        assert(set@[before.len() as int] == b);
                    }
                }
                if exists|t: int| 0 <= t < i && #[trigger] more@[t] == b {
                    let w = choose|w: int| 0 <= w < i && #[trigger] more@[w] == b;
                    assert(0 <= w < i + 1);
                }
                if before.contains(b) {
                    let t = choose|t: int| 0 <= t < before.len() && #[trigger] before[t] == b;
                    assert(set@[t] == b);
                }
                if set@.contains(b) && !before.contains(b) {
                    let w = choose|w: int| 0 <= w < set@.len() && #[trigger] set@[w] == b;
                    assert(w == before.len());
                    assert(more@[i as int] == b);
                }
            }
        }
        i += 1;
    }
    proof {
        assert forall|b: Attribute| #[trigger] set@.contains(b) <==> (old(set)@.contains(b) || more@.contains(b)) by {
            if more@.contains(b) {
                let w = choose|w: int| 0 <= w < more@.len() && #[trigger] more@[w] == b;
                assert(exists|t: int| 0 <= t < i && #[trigger] more@[t] == b);
            }
        }
    }
}

/// The metadata attributes that lists reading source `s` consult.
pub fn source_needs(runtime: &Runtime, s: &str) -> (r: Vec<Attribute>)
    ensures
        forall|a: Attribute| #[trigger] r@.contains(a) <==> wants(runtime.lists@, s@, a),
{
    let ghost lists = runtime.lists@;
    let mut out: Vec<Attribute> = Vec::new();
    let mut p: usize = 0;
    while p < runtime.lists.len()
        invariant
            0 <= p <= lists.len(),
            lists == runtime.lists@,
            forall|a: Attribute| #[trigger] out@.contains(a) <==> wants(lists.take(p as int), s@, a),
        decreases runtime.lists.len() - p,
    {
        let list = &runtime.lists[p];
        let key = crate::text::from_str(s);
        let reads = crate::expr::ast::strings_contain(&list.source_deps, &key);
        let ghost before = out@;
        if reads {
            let attrs = metadata_attrs(list);
            add_attributes(&mut out, &attrs);
        }
        proof {
            assert forall|a: Attribute| #[trigger] out@.contains(a) <==> wants(lists.take(p + 1), s@, a) by {
                lemma_wants_push(lists, p as int, s@, a);
                if reads && list.required_attrs@.contains(a) && needs_metadata_spec(a) {
                    let d = choose|d: int| 0 <= d < list.source_deps@.len() && #[trigger] strings_view(list.source_deps@)[d] == s@;
                    assert((list.source_deps@[d])@ == s@);
                }
                if (exists|d: int| 0 <= d < lists[p as int].source_deps@.len() && (#[trigger] lists[p as int].source_deps@[d])@ == s@) {
                    let d = choose|d: int| 0 <= d < lists[p as int].source_deps@.len() && (#[trigger] lists[p as int].source_deps@[d])@ == s@;
                    assert(strings_view(list.source_deps@)[d] == s@);
                }
            }
        }
        p += 1;
    }
    assert(lists.take(lists.len() as int) =~= lists);
    out
}

/// `wants` over one more list.
proof fn lemma_wants_push(lists: Seq<CompiledList>, p: int, s: Seq<char>, a: Attribute)
    requires
        0 <= p < lists.len(),
    ensures
        wants(lists.take(p + 1), s, a) <==> (wants(lists.take(p), s, a) || ((exists|d: int|
            0 <= d < lists[p].source_deps@.len() && (#[trigger] lists[p].source_deps@[d])@ == s)
            && lists[p].required_attrs@.contains(a) && needs_metadata_spec(a))),
{
    let next = lists.take(p + 1);
    let prev = lists.take(p);
    if wants(next, s, a) {
        let (q, d) = choose|q: int, d: int|
            0 <= q < next.len() && 0 <= d < next[q].source_deps@.len() && (
            #[trigger] next[q].source_deps@[d])@ == s && next[q].required_attrs@.contains(a)
                && needs_metadata_spec(a);
        if q < p {
            assert(prev[q] == next[q]);
            assert((prev[q].source_deps@[d])@ == s);
        } else {
            assert(next[q] == lists[p]);
            assert((lists[p].source_deps@[d])@ == s);
        }
    }
    if wants(prev, s, a) {
        let (q, d) = choose|q: int, d: int|
            0 <= q < prev.len() && 0 <= d < prev[q].source_deps@.len() && (
            #[trigger] prev[q].source_deps@[d])@ == s && prev[q].required_attrs@.contains(a)
                && needs_metadata_spec(a);
        assert(next[q] == prev[q]);
        assert((next[q].source_deps@[d])@ == s);
    }
    if (exists|d: int|
        0 <= d < lists[p].source_deps@.len() && (#[trigger] lists[p].source_deps@[d])@ == s)
        && lists[p].required_attrs@.contains(a) && needs_metadata_spec(a) {
        let d = choose|d: int| 0 <= d < lists[p].source_deps@.len() && (#[trigger] lists[p].source_deps@[d])@ == s;
        assert(next[p] == lists[p]);
        assert((next[p].source_deps@[d])@ == s);
    }
}

/// For each configured source some list's filter needs metadata for, the
/// attributes those lists consult, in configuration order.
pub fn needed_per_source(runtime: &Runtime) -> (r: Vec<(String, Vec<Attribute>)>)
    ensures
        forall|k: int, a: Attribute|
            0 <= k < r@.len() ==> (#[trigger] r@[k].1@.contains(a) <==> wants(runtime.lists@, r@[k].0@, a)),
        forall|k: int| 0 <= k < r@.len() ==> fed(runtime.lists@, (#[trigger] r@[k]).0@),
        forall|i: int|
            0 <= i < runtime.config.sources@.len() && fed(runtime.lists@, (#[trigger] runtime.config.sources@[i]).0@)
                ==> has_name(r@, runtime.config.sources@[i].0@),
        forall|k: int|
            0 <= k < r@.len() ==> crate::config::model::names_of(runtime.config.sources@).contains((#[trigger] r@[k]).0@),
{
    let mut out: Vec<(String, Vec<Attribute>)> = Vec::new();
    let mut i: usize = 0;
    while i < runtime.config.sources.len()
        invariant
            0 <= i <= runtime.config.sources@.len(),
            forall|k: int, a: Attribute|
                0 <= k < out@.len() ==> (#[trigger] out@[k].1@.contains(a) <==> wants(runtime.lists@, out@[k].0@, a)),
            forall|k: int| 0 <= k < out@.len() ==> fed(runtime.lists@, (#[trigger] out@[k]).0@),
            forall|j: int|
                0 <= j < i && fed(runtime.lists@, (#[trigger] runtime.config.sources@[j]).0@)
                    ==> has_name(out@, runtime.config.sources@[j].0@),
            forall|k: int|
                0 <= k < out@.len() ==> crate::config::model::names_of(runtime.config.sources@).contains((#[trigger] out@[k]).0@),
        decreases runtime.config.sources.len() - i,
    {
        let name = &runtime.config.sources[i].0;
        let needs = source_needs(runtime, name.as_str());
        let ghost prior = out@;
        if needs.len() > 0 {
            out.push((crate::text::clone_string(name), needs));
            proof {
                assert(out@[prior.len() as int].1@.contains(out@[prior.len() as int].1@[0]));
                assert(crate::config::model::names_of(runtime.config.sources@)[i as int] == name@);
            }
        } else {
            proof {
                assert forall|a: Attribute| !wants(runtime.lists@, name@, a) by {
                    if wants(runtime.lists@, name@, a) {
                        assert(needs@.contains(a));
                    }
                }
            }
        }
        proof {
            assert forall|k: int| 0 <= k < prior.len() implies out@[k] == prior[k] by {}
            assert forall|j: int|
                0 <= j < i + 1 && fed(runtime.lists@, (#[trigger] runtime.config.sources@[j]).0@)
                    implies has_name(out@, runtime.config.sources@[j].0@) by {
                if j < i {
                    let k = choose|k: int| 0 <= k < prior.len() && (#[trigger] prior[k]).0@ == runtime.config.sources@[j].0@;
                    assert(out@[k] == prior[k]);
                } else {
                    assert(out@[prior.len() as int].0@ == name@);
                }
            }
        }
        i += 1;
    }
    out
}

} // verus!

verus! {

pub open spec fn all_present(attributes: Seq<Attribute>, attrs: AttrsView) -> bool {
    forall|k: int| 0 <= k < attributes.len() ==> present_in_spec(#[trigger] attributes[k], attrs)
}

/// What an item knows once the store's answers are added to its own.
pub open spec fn known_attrs(item: ItemView, meta: MetaStore) -> AttrsView {
    match meta.known(item) {
        Some(a) => item.attrs.fill_from(a),
        None => item.attrs,
    }
}

fn all_present_in(attributes: &Vec<Attribute>, attrs: &Attrs) -> (r: bool)
    ensures
        r == all_present(attributes@, attrs@),
{
    let mut i: usize = 0;
    while i < attributes.len()
        invariant
            0 <= i <= attributes@.len(),
            forall|k: int| 0 <= k < i ==> present_in_spec(#[trigger] attributes@[k], attrs@),
        decreases attributes.len() - i,
    {
        if !attributes[i].present_in(attrs) {
            return false;
        }
        i += 1;
    }
    true
}

/// Whether an item already answers every attribute, counting both what its
/// own source gave it and what the store has learned since.
pub fn satisfied(item: &Item, meta: &MetaStore, attributes: &Vec<Attribute>) -> (r: bool)
    requires
        meta.well_formed(),
    ensures
        r == (all_present(attributes@, item@.attrs) || all_present(attributes@, known_attrs(item@, *meta))),
{
    if all_present_in(attributes, &item.attrs) {
        return true;
    }
    let mut known = item.attrs.clone();
    match meta.lookup(item) {
        Some(stored) => known.fill_from(&stored),
        None => {},
    }
    all_present_in(attributes, &known)
}

/// The id to ask about: TMDb, IMDb, Trakt, TVDb, in order of how widely the
/// provider understands them.
pub open spec fn preferred_spec(item: ItemView) -> Option<ItemKeyView> {
    match item.ids.tmdb {
        Some(n) => Some(ItemKeyView { media_type: item.media_type, provider: Provider::Tmdb, value: decimal(n as nat) }),
        None => match item.ids.imdb {
            Some(s) => Some(ItemKeyView { media_type: item.media_type, provider: Provider::Imdb, value: s }),
            None => match item.ids.trakt {
                Some(n) => Some(ItemKeyView { media_type: item.media_type, provider: Provider::Trakt, value: decimal(n as nat) }),
                None => match item.ids.tvdb {
                    Some(n) => Some(ItemKeyView { media_type: item.media_type, provider: Provider::Tvdb, value: decimal(n as nat) }),
                    None => None,
                },
            },
        },
    }
}

pub fn preferred_key(item: &Item) -> (r: Option<ItemKey>)
    ensures
        match preferred_spec(item@) {
            Some(k) => r matches Some(x) && x@ == k,
            None => r is None,
        },
{
    if let Some(n) = item.ids.tmdb {
        return Some(ItemKey { media_type: item.media_type, provider: Provider::Tmdb, value: fmt_u64(n as u64) });
    }
    if let Some(s) = &item.ids.imdb {
        return Some(ItemKey { media_type: item.media_type, provider: Provider::Imdb, value: crate::text::clone_string(s) });
    }
    if let Some(n) = item.ids.trakt {
        return Some(ItemKey { media_type: item.media_type, provider: Provider::Trakt, value: fmt_u64(n as u64) });
    }
    if let Some(n) = item.ids.tvdb {
        return Some(ItemKey { media_type: item.media_type, provider: Provider::Tvdb, value: fmt_u64(n as u64) });
    }
    None
}

/// Every id the response carries, so the title is findable by any of them.
/// This is a free side benefit: an item that arrived from Radarr with only
/// a TMDb id gains its IMDb and Trakt ids for future lookups.
pub open spec fn response_keys(raw: Doc, m: MediaType) -> Seq<ItemKeyView> {
    match lookup(raw, "ids"@) {
        None => seq![],
        Some(ids) => {
            let number = |key: Seq<char>, p: Provider| match lookup(ids, key) {
                Some(Doc::Number(n)) => match n.unsigned {
                    Some(u) => seq![ItemKeyView { media_type: m, provider: p, value: decimal(u as nat) }],
                    None => Seq::<ItemKeyView>::empty(),
                },
                _ => Seq::<ItemKeyView>::empty(),
            };
            number("tmdb"@, Provider::Tmdb) + number("trakt"@, Provider::Trakt) + number("tvdb"@, Provider::Tvdb)
                + match lookup(ids, "imdb"@) {
                Some(Doc::Text(t)) => match normalize_imdb_spec(t@) {
                    Some(v) => seq![ItemKeyView { media_type: m, provider: Provider::Imdb, value: v }],
                    None => Seq::<ItemKeyView>::empty(),
                },
                _ => Seq::<ItemKeyView>::empty(),
            }
        },
    }
}

pub open spec fn key_views(keys: Seq<ItemKey>) -> Seq<ItemKeyView> {
    keys.map_values(|k: ItemKey| k@)
}

fn push_number_key(out: &mut Vec<ItemKey>, ids: &Doc, key: &str, provider: Provider, media_type: MediaType)
    ensures
        key_views(final(out)@) == key_views(old(out)@) + match lookup(*ids, key@) {
            Some(Doc::Number(n)) => match n.unsigned {
                Some(u) => seq![ItemKeyView { media_type, provider, value: decimal(u as nat) }],
                None => Seq::<ItemKeyView>::empty(),
            },
            _ => Seq::<ItemKeyView>::empty(),
        },
{
    let ghost before = out@;
    match ids.get(key) {
        Some(Doc::Number(n)) => match n.unsigned {
            Some(u) => {
                out.push(ItemKey { media_type, provider, value: fmt_u64(u) });
                assert(key_views(out@) =~= key_views(before).push(out@[before.len() as int]@));
            },
            None => {
                assert(key_views(out@) =~= key_views(before) + Seq::<ItemKeyView>::empty());
            },
        },
        _ => {
            assert(key_views(out@) =~= key_views(before) + Seq::<ItemKeyView>::empty());
        },
    }
}

pub fn keys_from_response(raw: &Doc, media_type: MediaType) -> (r: Vec<ItemKey>)
    ensures
        key_views(r@) == response_keys(*raw, media_type),
{
    let mut out: Vec<ItemKey> = Vec::new();
    let ids = match raw.get("ids") {
        Some(ids) => ids,
        None => {
            assert(key_views(out@) =~= Seq::<ItemKeyView>::empty());
            return out;
        },
    };
    assert(key_views(out@) =~= Seq::<ItemKeyView>::empty());
    push_number_key(&mut out, ids, "tmdb", Provider::Tmdb, media_type);
    push_number_key(&mut out, ids, "trakt", Provider::Trakt, media_type);
    push_number_key(&mut out, ids, "tvdb", Provider::Tvdb, media_type);
    let ghost before = out@;
    match ids.get("imdb") {
        Some(Doc::Text(t)) => match normalize_imdb(t.as_str()) {
            Some(v) => {
                out.push(ItemKey { media_type, provider: Provider::Imdb, value: v });
                assert(key_views(out@) =~= key_views(before).push(out@[before.len() as int]@));
            },
            None => {},
        },
        _ => {},
    }
    assert(key_views(out@) =~= response_keys(*raw, media_type));
    out
}

} // verus!

verus! {

/// The items a source's snapshot holds, or none.
pub open spec fn source_items(cache: CacheStore, s: Seq<char>) -> Seq<ItemView> {
    match cache.status_of(s) {
        Some(st) => match st.items {
            Some(v) => crate::cache::items_view(v@),
            None => seq![],
        },
        None => seq![],
    }
}

pub open spec fn fresh_key(meta: MetaStore, k: ItemKeyView, ttl: Span, miss_ttl: Span, now: Stamp) -> bool {
    meta.entry(k) matches Some(e) && crate::meta::fresh_spec(e.attrs is Some, e.checked_at, ttl, miss_ttl, now)
}

/// Whether an item of a source needing `attributes` is worth asking about:
/// it lacks one of them even with the store's answers, it has an id to ask
/// by, and that id was not asked about recently.
pub open spec fn qualifies(
    attributes: Seq<Attribute>,
    item: ItemView,
    meta: MetaStore,
    ttl: Span,
    miss_ttl: Span,
    now: Stamp,
) -> bool {
    &&& !(all_present(attributes, item.attrs) || all_present(attributes, known_attrs(item, meta)))
    &&& preferred_spec(item) is Some
    &&& !fresh_key(meta, preferred_spec(item)->0, ttl, miss_ttl, now)
}

/// Whether some item of some needed source qualifies and is asked about by
/// the key `k`.
pub open spec fn worth(
    needed: Seq<(String, Vec<Attribute>)>,
    cache: CacheStore,
    meta: MetaStore,
    ttl: Span,
    miss_ttl: Span,
    now: Stamp,
    k: ItemKeyView,
) -> bool {
    exists|a: int, b: int|
        0 <= a < needed.len() && 0 <= b < source_items(cache, needed[a].0@).len() && qualifies(
            needed[a].1@,
            #[trigger] source_items(cache, needed[a].0@)[b],
            meta,
            ttl,
            miss_ttl,
            now,
        ) && preferred_spec(source_items(cache, needed[a].0@)[b]) == Some(k)
}

pub open spec fn seen_before(i: int, j: int, ci: int, cj: int) -> bool {
    i < ci || (i == ci && j < cj)
}

fn key_in(keys: &Vec<ItemKey>, key: &ItemKey) -> (r: bool)
    ensures
        r == key_views(keys@).contains(key@),
{
    let mut i: usize = 0;
    while i < keys.len()
        invariant
            0 <= i <= keys@.len(),
            forall|t: int| 0 <= t < i ==> (#[trigger] keys@[t])@ != key@,
        decreases keys.len() - i,
    {
        if keys[i].same(key) {
            assert(key_views(keys@)[i as int] == key@);
            return true;
        }
        i += 1;
    }
    proof {
        if key_views(keys@).contains(key@) {
            let w = choose|w: int| 0 <= w < key_views(keys@).len() && key_views(keys@)[w] == key@;
            assert(keys@[w]@ == key@);
        }
    }
    false
}

/// The ids still worth asking about, once each, in the order the sources
/// and their items come.
pub fn outstanding_keys(
    needed: &Vec<(String, Vec<Attribute>)>,
    cache: &CacheStore,
    meta: &MetaStore,
    ttl: Span,
    miss_ttl: Span,
    now: Stamp,
) -> (r: Vec<ItemKey>)
    requires
        cache.well_formed(),
        meta.well_formed(),
    ensures
        key_views(r@).no_duplicates(),
        forall|t: int| 0 <= t < r@.len() ==> worth(needed@, *cache, *meta, ttl, miss_ttl, now, (#[trigger] r@[t])@),
        forall|i: int, j: int|
            0 <= i < needed@.len() && 0 <= j < source_items(*cache, needed@[i].0@).len() && qualifies(
                needed@[i].1@,
                #[trigger] source_items(*cache, needed@[i].0@)[j],
                *meta,
                ttl,
                miss_ttl,
                now,
            ) ==> key_views(r@).contains(preferred_spec(source_items(*cache, needed@[i].0@)[j])->0),
{
    let mut out: Vec<ItemKey> = Vec::new();
    let mut i: usize = 0;
    while i < needed.len()
        invariant
            cache.well_formed(),
            meta.well_formed(),
            0 <= i <= needed@.len(),
            key_views(out@).no_duplicates(),
            forall|t: int| 0 <= t < out@.len() ==> worth(needed@, *cache, *meta, ttl, miss_ttl, now, (#[trigger] out@[t])@),
            forall|a: int, b: int|
                0 <= a < i && 0 <= b < source_items(*cache, needed@[a].0@).len() && qualifies(
                    needed@[a].1@,
                    #[trigger] source_items(*cache, needed@[a].0@)[b],
                    *meta,
                    ttl,
                    miss_ttl,
                    now,
                ) ==> key_views(out@).contains(preferred_spec(source_items(*cache, needed@[a].0@)[b])->0),
        decreases needed.len() - i,
    {
        let (name, attributes) = &needed[i];
        let items = match cache.items(name.as_str()) {
            Some(v) => v,
            None => Vec::new(),
        };
        let ghost src = source_items(*cache, name@);
        assert(crate::cache::items_view(items@) == src);
        let mut j: usize = 0;
        while j < items.len()
            invariant
                cache.well_formed(),
                meta.well_formed(),
                0 <= i < needed@.len(),
                *name == needed@[i as int].0,
                *attributes == needed@[i as int].1,
                src == source_items(*cache, name@),
                crate::cache::items_view(items@) == src,
                0 <= j <= items@.len(),
                key_views(out@).no_duplicates(),
                forall|t: int| 0 <= t < out@.len() ==> worth(needed@, *cache, *meta, ttl, miss_ttl, now, (#[trigger] out@[t])@),
                forall|a: int, b: int|
                    seen_before(a, b, i as int, j as int) && 0 <= a && 0 <= b < source_items(*cache, needed@[a].0@).len()
                        && qualifies(
                        needed@[a].1@,
                        #[trigger] source_items(*cache, needed@[a].0@)[b],
                        *meta,
                        ttl,
                        miss_ttl,
                        now,
                    ) ==> key_views(out@).contains(preferred_spec(source_items(*cache, needed@[a].0@)[b])->0),
            decreases items.len() - j,
        {
            let item = &items[j];
            assert(src[j as int] == item@);
            let ghost prior = out@;
            if !satisfied(item, meta, attributes) {
                if let Some(key) = preferred_key(item) {
                    if !meta.is_fresh(&key, ttl, miss_ttl, now) {
                        if !key_in(&out, &key) {
                            let ghost kv = key@;
                            out.push(key);
                            proof {
                                assert(key_views(out@) =~= key_views(prior).push(kv));
                                assert(qualifies(needed@[i as int].1@, src[j as int], *meta, ttl, miss_ttl, now));
                                assert forall|t: int| 0 <= t < out@.len() implies worth(needed@, *cache, *meta, ttl, miss_ttl, now, (#[trigger] out@[t])@) by {
                                    if t < prior.len() {
                                        assert(out@[t] == prior[t]);
                                    } else {
                                        assert(source_items(*cache, needed@[i as int].0@)[j as int] == src[j as int]);
                                    }
                                }
                            }
                        }
                    }
                }
            }
            proof {
                assert forall|t: int| 0 <= t < prior.len() implies key_views(out@).contains(key_views(prior)[t]) by {
                    assert(key_views(out@)[t] == key_views(prior)[t]);
                }
                assert forall|a: int, b: int|
                    seen_before(a, b, i as int, j + 1) && 0 <= a && 0 <= b < source_items(*cache, needed@[a].0@).len()
                        && qualifies(
                        needed@[a].1@,
                        #[trigger] source_items(*cache, needed@[a].0@)[b],
                        *meta,
                        ttl,
                        miss_ttl,
                        now,
                    ) implies key_views(out@).contains(preferred_spec(source_items(*cache, needed@[a].0@)[b])->0) by {
                    if seen_before(a, b, i as int, j as int) {
                        let k = preferred_spec(source_items(*cache, needed@[a].0@)[b])->0;
                        let w = choose|w: int| 0 <= w < key_views(prior).len() && key_views(prior)[w] == k;
                        assert(key_views(out@).contains(key_views(prior)[w]));
                    } else {
                        assert(a == i && b == j);
                        assert(source_items(*cache, needed@[a].0@)[b] == item@);
                        if key_views(out@).len() > prior.len() {
                            assert(key_views(out@)[prior.len() as int] == preferred_spec(item@)->0);
                        }
                    }
                }
            }
            j += 1;
        }
        i += 1;
    }
    out
}

/// The keys of `keys` that a bucket for `provider` and `media_type` takes.
pub open spec fn bucket_of(keys: Seq<ItemKeyView>, provider: Provider, media_type: MediaType) -> Seq<ItemKeyView> {
    keys.filter(|k: ItemKeyView| k.provider == provider && k.media_type == media_type)
}

} // verus!

verus! {

/// One batch's worth of work: a provider, a media type, and the ids to ask
/// for, in the order they were found.
#[derive(Debug)]
pub struct Bucket {
    pub provider: Provider,
    pub media_type: MediaType,
    pub keys: Vec<ItemKey>,
}

pub open spec fn buckets_ok(r: Seq<Bucket>, keys: Seq<ItemKeyView>) -> bool {
    &&& forall|b: int| 0 <= b < r.len() ==> (#[trigger] r[b]).keys@.len() > 0
    &&& forall|b: int, c: int|
        0 <= b < c < r.len() ==> !((#[trigger] r[b]).provider == (#[trigger] r[c]).provider && r[b].media_type
            == r[c].media_type)
    &&& forall|b: int|
        0 <= b < r.len() ==> key_views((#[trigger] r[b]).keys@) == bucket_of(keys, r[b].provider, r[b].media_type)
    &&& forall|t: int|
        0 <= t < keys.len() ==> exists|b: int|
            0 <= b < r.len() && (#[trigger] r[b]).provider == (#[trigger] keys[t]).provider && r[b].media_type
                == keys[t].media_type
}

/// Group keys by the route they would be asked by.
pub fn bucketize(keys: &Vec<ItemKey>) -> (r: Vec<Bucket>)
    ensures
        buckets_ok(r@, key_views(keys@)),
{
    let ghost all = key_views(keys@);
    let mut out: Vec<Bucket> = Vec::new();
    let mut i: usize = 0;
    while i < keys.len()
        invariant
            0 <= i <= keys@.len(),
            all == key_views(keys@),
            buckets_ok(out@, all.take(i as int)),
        decreases keys.len() - i,
    {
        let key = &keys[i];
        let ghost kv = key@;
        let ghost prefix = all.take(i as int);
        assert(all.take(i + 1) =~= prefix.push(kv));
        let mut b: usize = 0;
        while b < out.len() && !(out[b].provider == key.provider && out[b].media_type == key.media_type)
            invariant
                0 <= b <= out@.len(),
                kv == key@,
                forall|c: int| 0 <= c < b ==> !((#[trigger] out@[c]).provider == kv.provider && out@[c].media_type == kv.media_type),
            decreases out.len() - b,
        {
            b += 1;
        }
        let ghost prior = out@;
        if b < out.len() {
            let mut bucket = out.remove(b);
            let ghost before_keys = key_views(bucket.keys@);
            bucket.keys.push(key.clone());
            out.insert(b, bucket);
            proof {
                assert(out@ =~= prior.update(b as int, out@[b as int]));
                assert forall|c: int|
                    0 <= c < out@.len() implies key_views((#[trigger] out@[c]).keys@) == bucket_of(all.take(i + 1), out@[c].provider, out@[c].media_type) by {
                    prefix.lemma_filter_push(kv, |k: ItemKeyView| k.provider == out@[c].provider && k.media_type == out@[c].media_type);
                    if c == b {
                        assert(key_views(out@[c].keys@) =~= before_keys.push(kv));
                    } else {
                        assert(out@[c] == prior[c]);
                    }
                }
                assert forall|t: int| 0 <= t < all.take(i + 1).len() implies exists|d: int|
                    0 <= d < out@.len() && (#[trigger] out@[d]).provider == (#[trigger] all.take(i + 1)[t]).provider && out@[d].media_type
                        == all.take(i + 1)[t].media_type by {
                    if t < i {
                        assert(all.take(i + 1)[t] == prefix[t]);
                        let d = choose|d: int| 0 <= d < prior.len() && (#[trigger] prior[d]).provider == (#[trigger] prefix[t]).provider && prior[d].media_type == prefix[t].media_type;
                        assert(out@[d].provider == prior[d].provider);
                    } else {
                        assert(out@[b as int].provider == kv.provider);
                    }
                }
            }
        } else {
            let mut first: Vec<ItemKey> = Vec::new();
            first.push(key.clone());
            out.push(Bucket { provider: key.provider, media_type: key.media_type, keys: first });
            proof {
                assert forall|c: int|
                    0 <= c < out@.len() implies key_views((#[trigger] out@[c]).keys@) == bucket_of(all.take(i + 1), out@[c].provider, out@[c].media_type) by {
                    prefix.lemma_filter_push(kv, |k: ItemKeyView| k.provider == out@[c].provider && k.media_type == out@[c].media_type);
                    if c == b {
                        assert(bucket_of(prefix, kv.provider, kv.media_type) =~= Seq::<ItemKeyView>::empty()) by {
                            let f = |k: ItemKeyView| k.provider == kv.provider && k.media_type == kv.media_type;
                            if prefix.filter(f).len() > 0 {
                                let x = prefix.filter(f)[0];
                                assert(prefix.filter(f).contains(x));
                                prefix.lemma_filter_contains_rev(f, x);
                                let t = choose|t: int| 0 <= t < prefix.len() && prefix[t] == x;
                                let d = choose|d: int| 0 <= d < prior.len() && (#[trigger] prior[d]).provider == (#[trigger] prefix[t]).provider && prior[d].media_type == prefix[t].media_type;
                                assert(false);
                            }
                        }
                        assert(key_views(out@[c].keys@) =~= seq![kv]);
                    } else {
                        assert(out@[c] == prior[c]);
                    }
                }
                assert forall|t: int| 0 <= t < all.take(i + 1).len() implies exists|d: int|
                    0 <= d < out@.len() && (#[trigger] out@[d]).provider == (#[trigger] all.take(i + 1)[t]).provider && out@[d].media_type
                        == all.take(i + 1)[t].media_type by {
                    if t < i {
                        assert(all.take(i + 1)[t] == prefix[t]);
                        let d = choose|d: int| 0 <= d < prior.len() && (#[trigger] prior[d]).provider == (#[trigger] prefix[t]).provider && prior[d].media_type == prefix[t].media_type;
                        assert(out@[d] == prior[d]);
                    } else {
                        assert(out@[b as int].provider == kv.provider);
                    }
                }
            }
        }
        i += 1;
    }
    assert(all.take(keys@.len() as int) =~= all);
    out
}

} // verus!

verus! {

/// The media type a returned entry is filed under: its own `type`, which is
/// trusted over the route so a mis-typed item is not filed under the wrong
/// key.
/// Whether an entry holds a positive answer given at `now`.
pub open spec fn learned_now(e: Option<MetaEntryView>, now: Stamp) -> bool {
    e matches Some(x) && x.attrs is Some && x.checked_at == now
}

pub open spec fn entry_type(raw: Doc, route: MediaType) -> MediaType {
    match lookup(raw, "type"@) {
        Some(Doc::Text(t)) => match media_type_word(keyword(t@)) {
            Some(m) => m,
            None => route,
        },
        _ => route,
    }
}

pub open spec fn entry_keys(raw: Doc, route: MediaType) -> Seq<ItemKeyView> {
    response_keys(raw, entry_type(raw, route))
}

/// Every key the first `n` entries answered.
pub open spec fn answered(returned: Seq<Doc>, route: MediaType, n: int) -> Seq<ItemKeyView>
    decreases n,
{
    if n <= 0 || n > returned.len() {
        seq![]
    } else {
        answered(returned, route, n - 1) + entry_keys(returned[n - 1], route)
    }
}

/// How many of the first `n` entries carried keys and something usable.
pub open spec fn learned_count(returned: Seq<Doc>, route: MediaType, n: int) -> nat
    decreases n,
{
    if n <= 0 || n > returned.len() {
        0
    } else {
        learned_count(returned, route, n - 1) + if entry_keys(returned[n - 1], route).len() > 0
            && !attrs_spec(returned[n - 1]).is_empty() {
            1nat
        } else {
            0nat
        }
    }
}

/// How many of the first `n` asked keys went unanswered.
pub open spec fn unanswered_count(asked: Seq<ItemKeyView>, answered: Seq<ItemKeyView>, n: int) -> nat
    decreases n,
{
    if n <= 0 || n > asked.len() {
        0
    } else {
        unanswered_count(asked, answered, n - 1) + if answered.contains(asked[n - 1]) {
            0nat
        } else {
            1nat
        }
    }
}

fn entry_media_type(raw: &Doc, route: MediaType) -> (r: MediaType)
    ensures
        r == entry_type(*raw, route),
{
    match raw.get("type") {
        Some(Doc::Text(t)) => match MediaType::parse(t.as_str()) {
            Some(m) => m,
            None => route,
        },
        _ => route,
    }
}

/// Store what came back, and remember the ids that did not: MDBList
/// silently omits titles it does not know, and without a negative entry
/// those would be re-requested on every single pass. An entry answered with
/// nothing usable is still recorded, so it is not asked about again
/// tomorrow. Returns how many titles were learned and how many asked ids
/// went unanswered.
pub fn absorb(
    meta: &mut MetaStore,
    route: MediaType,
    asked: &Vec<ItemKey>,
    returned: &Vec<Doc>,
    now: Stamp,
) -> (r: (usize, usize))
    requires
        old(meta).well_formed(),
    ensures
        final(meta).well_formed(),
        r.0 == learned_count(returned@, route, returned@.len() as int),
        r.1 == unanswered_count(key_views(asked@), answered(returned@, route, returned@.len() as int), asked@.len() as int),
        forall|t: int|
            0 <= t < asked@.len() && !answered(returned@, route, returned@.len() as int).contains((#[trigger] asked@[t])@)
                ==> final(meta).entry(asked@[t]@) == Some(MetaEntryView { attrs: None, checked_at: now }),
        forall|k: ItemKeyView|
            answered(returned@, route, returned@.len() as int).contains(k) ==> learned_now(#[trigger] final(meta).entry(k), now),
        forall|k: ItemKeyView|
            !answered(returned@, route, returned@.len() as int).contains(k) && !key_views(asked@).contains(k)
                ==> #[trigger] final(meta).entry(k) == old(meta).entry(k),
        final(meta).dir_view() == old(meta).dir_view(),
        final(meta).persists() == old(meta).persists(),
{
    let mut seen: Vec<ItemKey> = Vec::new();
    let mut known: usize = 0;
    let mut i: usize = 0;
    while i < returned.len()
        invariant
            meta.well_formed(),
            0 <= i <= returned@.len(),
            key_views(seen@) == answered(returned@, route, i as int),
            known == learned_count(returned@, route, i as int),
            known <= i,
            forall|k: ItemKeyView|
                key_views(seen@).contains(k) ==> learned_now(#[trigger] meta.entry(k), now),
            forall|k: ItemKeyView| !key_views(seen@).contains(k) ==> #[trigger] meta.entry(k) == old(meta).entry(k),
            meta.dir_view() == old(meta).dir_view(),
            meta.persists() == old(meta).persists(),
        decreases returned.len() - i,
    {
        let raw = &returned[i];
        let media_type = entry_media_type(raw, route);
        let keys = keys_from_response(raw, media_type);
        let ghost before = key_views(seen@);
        if keys.len() > 0 {
            let attrs = attrs_from_json(raw);
            if attrs.is_empty() {
                meta.record(keys.as_slice(), Some(Attrs::empty()), now);
            } else {
                meta.record(keys.as_slice(), Some(attrs), now);
                known = known + 1;
            }
            let mut k: usize = 0;
            while k < keys.len()
                invariant
                    0 <= k <= keys@.len(),
                    key_views(seen@) == before + key_views(keys@).take(k as int),
                decreases keys.len() - k,
            {
                let ghost prior = seen@;
                let copy = keys[k].clone();
                seen.push(copy);
                assert(key_views(seen@) =~= key_views(prior).push(keys@[k as int]@));
                assert(key_views(keys@).take(k + 1) =~= key_views(keys@).take(k as int).push(keys@[k as int]@));
                assert(key_views(seen@) =~= before + key_views(keys@).take(k + 1));
                k += 1;
            }
            assert(key_views(keys@).take(keys@.len() as int) =~= key_views(keys@));
            proof {
                assert forall|x: ItemKeyView| key_views(seen@).contains(x) implies learned_now(#[trigger] meta.entry(x), now) by {
                    if !before.contains(x) {
                        let w = choose|w: int| 0 <= w < key_views(seen@).len() && key_views(seen@)[w] == x;
                        assert(key_views(keys@)[w - before.len()] == x);
                        assert(keys@[w - before.len()]@ == x);
                    } else {
                        if (exists|t: int| 0 <= t < keys@.len() && (#[trigger] keys@[t])@ == x) {
                        } else {
                        }
                    }
                }
                assert forall|x: ItemKeyView| !key_views(seen@).contains(x) implies #[trigger] meta.entry(x) == old(meta).entry(x) by {
                    assert(!before.contains(x)) by {
                        if before.contains(x) {
                            let w = choose|w: int| 0 <= w < before.len() && before[w] == x;
                            assert(key_views(seen@)[w] == x);
                        }
                    }
                    assert forall|t: int| 0 <= t < keys@.len() implies (#[trigger] keys@[t])@ != x by {
                        assert(key_views(seen@)[before.len() + t] == keys@[t]@);
                    }
                }
            }
        } else {
            assert(key_views(keys@) =~= Seq::<ItemKeyView>::empty());
        }
        proof {
            assert(answered(returned@, route, i + 1) == answered(returned@, route, i as int) + entry_keys(returned@[i as int], route));
            assert(key_views(seen@) =~= answered(returned@, route, i + 1));
        }
        i += 1;
    }
    let ghost all = key_views(seen@);
    let ghost mid = *meta;
    let mut missing: usize = 0;
    let mut t: usize = 0;
    while t < asked.len()
        invariant
            meta.well_formed(),
            0 <= t <= asked@.len(),
            all == key_views(seen@),
            all == answered(returned@, route, returned@.len() as int),
            missing == unanswered_count(key_views(asked@), all, t as int),
            missing <= t,
            forall|u: int|
                0 <= u < t && !all.contains((#[trigger] asked@[u])@) ==> meta.entry(asked@[u]@) == Some(
                    MetaEntryView { attrs: None, checked_at: now },
                ),
            forall|k: ItemKeyView|
                all.contains(k) ==> learned_now(#[trigger] meta.entry(k), now),
            forall|k: ItemKeyView|
                !all.contains(k) && !key_views(asked@).contains(k) ==> #[trigger] meta.entry(k) == old(meta).entry(k),
            forall|k: ItemKeyView|
                !all.contains(k) && !key_views(asked@).take(t as int).contains(k) ==> #[trigger] meta.entry(k) == old(meta).entry(k),
            meta.dir_view() == old(meta).dir_view(),
            meta.persists() == old(meta).persists(),
        decreases asked.len() - t,
    {
        let key = &asked[t];
        assert(key_views(asked@)[t as int] == key@);
        assert(key_views(asked@).take(t + 1) =~= key_views(asked@).take(t as int).push(key@));
        if !key_in(&seen, key) {
            let single = vec![key.clone()];
            meta.record(single.as_slice(), None, now);
            missing = missing + 1;
            proof {
                assert(single@[0]@ == key@);
                assert forall|k: ItemKeyView| all.contains(k) implies learned_now(#[trigger] meta.entry(k), now) by {
                    assert(k != key@);
                    assert forall|x: int| 0 <= x < single@.len() implies (#[trigger] single@[x])@ != k by {}
                }
                assert forall|k: ItemKeyView| !all.contains(k) && !key_views(asked@).contains(k) implies #[trigger] meta.entry(k) == old(meta).entry(k) by {
                    assert(key_views(asked@).contains(key@));
                    assert forall|x: int| 0 <= x < single@.len() implies (#[trigger] single@[x])@ != k by {}
                }
                assert forall|k: ItemKeyView| !all.contains(k) && !key_views(asked@).take(t + 1).contains(k) implies #[trigger] meta.entry(k) == old(meta).entry(k) by {
                    assert(key_views(asked@).take(t + 1)[t as int] == key@);
                    assert forall|x: int| 0 <= x < single@.len() implies (#[trigger] single@[x])@ != k by {}
                    if key_views(asked@).take(t as int).contains(k) {
                        let w = choose|w: int| 0 <= w < t && key_views(asked@).take(t as int)[w] == k;
                        assert(key_views(asked@).take(t + 1)[w] == k);
                    }
                }
                assert forall|u: int|
                    0 <= u < t + 1 && !all.contains((#[trigger] asked@[u])@) implies meta.entry(asked@[u]@) == Some(
                        MetaEntryView { attrs: None, checked_at: now },
                    ) by {
                    if asked@[u]@ != key@ {
                        assert forall|x: int| 0 <= x < single@.len() implies (#[trigger] single@[x])@ != asked@[u]@ by {}
                    }
                }
            }
        } else {
            proof {
                assert forall|k: ItemKeyView| !all.contains(k) && !key_views(asked@).take(t + 1).contains(k) implies #[trigger] meta.entry(k) == old(meta).entry(k) by {
                    if key_views(asked@).take(t as int).contains(k) {
                        let w = choose|w: int| 0 <= w < t && key_views(asked@).take(t as int)[w] == k;
                        assert(key_views(asked@).take(t + 1)[w] == k);
                    }
                }
            }
        }
        t += 1;
    }
    (known, missing)
}

/// Where a batch of ids is asked about.
pub open spec fn batch_url_spec(base_url: Seq<char>, provider: Provider, media_type: MediaType) -> Seq<char> {
    crate::sources::arr::trim_end_char(base_url, '/') + "/"@ + provider_text(provider) + "/"@
        + media_type_text(media_type)
}

pub fn batch_url(base_url: &str, provider: Provider, media_type: MediaType) -> (r: String)
    ensures
        r@ == batch_url_spec(base_url@, provider, media_type),
{
    let mut url = crate::sources::arr::trim_end_slashes(base_url);
    push_str(&mut url, "/");
    push_str(&mut url, provider.as_str());
    push_str(&mut url, "/");
    push_str(&mut url, media_type.as_str());
    url
}

/// The ids of a batch, as the request body lists them.
pub fn batch_ids(keys: &Vec<ItemKey>) -> (r: Vec<String>)
    ensures
        strings_view(r@) == key_views(keys@).map_values(|k: ItemKeyView| k.value),
{
    let mut out: Vec<String> = Vec::new();
    let mut i: usize = 0;
    while i < keys.len()
        invariant
            0 <= i <= keys@.len(),
            strings_view(out@) == key_views(keys@).take(i as int).map_values(|k: ItemKeyView| k.value),
        decreases keys.len() - i,
    {
        let ghost prior = out@;
        out.push(crate::text::clone_string(&keys[i].value));
        assert(strings_view(out@) =~= strings_view(prior).push(keys@[i as int]@.value));
        assert(key_views(keys@).take(i + 1).map_values(|k: ItemKeyView| k.value) =~= key_views(keys@).take(i as int).map_values(|k: ItemKeyView| k.value).push(keys@[i as int]@.value));
        i += 1;
    }
    assert(key_views(keys@).take(keys@.len() as int) =~= key_views(keys@));
    out
}

/// What one batch answered.
#[derive(Debug)]
pub struct Batch {
    pub items: Vec<Doc>,
    /// `X-RateLimit-Remaining`, when the provider sent it.
    pub remaining: Option<u64>,
}

pub open spec fn remaining_of(header: Option<Seq<char>>) -> Option<u64> {
    match header {
        Some(h) => parse_u64_spec(trim(h)),
        None => None,
    }
}

pub open spec fn quota_message(retry_after: Option<Seq<char>>) -> Seq<char> {
    "MDBList daily quota exhausted"@ + match retry_after {
        Some(s) => ", resets in "@ + s + "s"@,
        None => Seq::empty(),
    }
}

/// What a batch response means. `status` is the status code and
/// `status_text` how it prints; the headers are passed as text where the
/// response had them.
pub open spec fn batch_spec(
    status: u16,
    status_text: Seq<char>,
    retry_after: Option<Seq<char>>,
    url: Seq<char>,
    body: Seq<char>,
) -> Result<Seq<Doc>, Seq<char>> {
    if status == 429 {
        Err(quota_message(retry_after))
    } else if !(200 <= status < 300) {
        Err(status_message(status_text, url, body))
    } else {
        match json_document(body) {
            Err(m) => Err("parsing MDBList response: "@ + truncate_spec(body, 300) + ": "@ + m),
            Ok(d) => match lookup(d, "error"@) {
                Some(Doc::Text(e)) => Err("MDBList returned an error: "@ + e@),
                _ => match d {
                    Doc::List(items) => Ok(items@),
                    _ => Err("expected a JSON array from "@ + url + ", got "@ + truncate_spec(body, 300)),
                },
            },
        }
    }
}

pub fn read_batch(
    status: u16,
    status_text: &str,
    retry_after: Option<&str>,
    remaining: Option<&str>,
    url: &str,
    body: &str,
) -> (r: Result<Batch, String>)
    ensures
        match batch_spec(status, status_text@, match retry_after { Some(s) => Some(s@), None => None }, url@, body@) {
            Ok(items) => r matches Ok(b) && b.items@ == items && b.remaining == remaining_of(
                match remaining { Some(s) => Some(s@), None => None },
            ),
            Err(m) => r matches Err(e) && e@ == m,
        },
{
    let left = match remaining {
        Some(h) => {
            let trimmed = crate::text::trim_string(h);
            parse_u64(trimmed.as_str())
        },
        None => None,
    };
    if status == 429 {
        let mut e = from_str("MDBList daily quota exhausted");
        if let Some(s) = retry_after {
            push_str(&mut e, ", resets in ");
            push_str(&mut e, s);
            push_str(&mut e, "s");
        } else {
            assert(e@ =~= e@ + Seq::<char>::empty());
        }
        return Err(e);
    }
    if !(200 <= status && status < 300) {
        return Err(crate::sources::mdblist::status_error(status_text, url, body));
    }
    let parsed = match parse_json(body) {
        Ok(d) => d,
        Err(m) => {
            let mut e = from_str("parsing MDBList response: ");
            let cut = truncate(body, 300);
            push_str(&mut e, cut.as_str());
            push_str(&mut e, ": ");
            push_str(&mut e, m.as_str());
            return Err(e);
        },
    };
    if let Some(Doc::Text(e)) = parsed.get("error") {
        let mut m = from_str("MDBList returned an error: ");
        push_str(&mut m, e.as_str());
        return Err(m);
    }
    match parsed {
        Doc::List(items) => Ok(Batch { items, remaining: left }),
        _ => {
            let mut e = from_str("expected a JSON array from ");
            push_str(&mut e, url);
            push_str(&mut e, ", got ");
            let cut = truncate(body, 300);
            push_str(&mut e, cut.as_str());
            Err(e)
        },
    }
}

} // verus!

verus! {

/// One request of an enrichment pass.
#[derive(Debug)]
pub struct BatchRequest {
    pub url: String,
    pub provider: Provider,
    pub media_type: MediaType,
    pub keys: Vec<ItemKey>,
}

/// One enrichment pass, sequential on purpose: the budget and the
/// provider's remaining daily allowance are both running totals, and a
/// handful of requests per pass is not worth making them concurrent and
/// approximate. The caller makes each request and hands the answer back.
#[derive(Debug)]
pub struct EnrichPass {
    buckets: Vec<Bucket>,
    pub apikey: String,
    base_url: String,
    budget: usize,
    reserve: u64,
    bucket: usize,
    offset: usize,
    requests: usize,
    learned: usize,
    unknown: usize,
    stopped: bool,
}

/// How a pass begins.
#[derive(Debug)]
pub enum PassStart {
    /// Enrichment is switched off.
    Disabled,
    /// Every title already has what its filters read.
    NothingToDo,
    /// Titles need metadata but there is no key to ask with; how many.
    NoApiKey(usize),
    Run(EnrichPass),
}

/// A running total that sticks at the largest `usize`.
pub open spec fn sat_sum(a: nat, b: nat) -> nat {
    if a + b <= usize::MAX {
        a + b
    } else {
        usize::MAX as nat
    }
}

pub open spec fn chunk_end(len: nat, offset: nat) -> nat {
    if offset + BATCH < len {
        (offset + BATCH) as nat
    } else {
        len
    }
}

impl EnrichPass {
    pub closed spec fn wf(&self) -> bool {
        &&& self.bucket <= self.buckets@.len()
        &&& self.bucket < self.buckets@.len() ==> self.offset < self.buckets@[self.bucket as int].keys@.len()
        &&& forall|b: int| 0 <= b < self.buckets@.len() ==> (#[trigger] self.buckets@[b]).keys@.len() > 0
    }

    /// The service the requests go to.
    pub closed spec fn base_url_view(&self) -> Seq<char> {
        self.base_url@
    }

    /// The key the pass asks with.
    pub closed spec fn apikey_view(&self) -> Seq<char> {
        self.apikey@
    }

    /// Every key the pass was set up to ask about, over all its batches.
    pub closed spec fn planned_keys(&self) -> Set<ItemKeyView> {
        Set::new(
            |k: ItemKeyView|
                exists|b: int, t: int|
                    0 <= b < self.buckets@.len() && 0 <= t < self.buckets@[b].keys@.len()
                        && #[trigger] self.buckets@[b].keys@[t]@ == k,
        )
    }

    pub closed spec fn requests_made(&self) -> nat {
        self.requests as nat
    }

    pub closed spec fn is_stopped(&self) -> bool {
        self.stopped
    }

    pub closed spec fn exhausted(&self) -> bool {
        self.bucket >= self.buckets@.len()
    }

    pub closed spec fn budget_of(&self) -> nat {
        self.budget as nat
    }

    pub closed spec fn reserve_of(&self) -> u64 {
        self.reserve
    }

    /// The keys the next request asks about.
    pub closed spec fn next_keys(&self) -> Seq<ItemKeyView> {
        let ks = key_views(self.buckets@[self.bucket as int].keys@);
        ks.subrange(self.offset as int, chunk_end(ks.len(), self.offset as nat) as int)
    }

    pub fn requests(&self) -> (r: usize)
        ensures
            r == self.requests_made(),
    {
        self.requests
    }

    /// How many titles the pass has learned attributes for so far.
    pub closed spec fn learned_total(&self) -> nat {
        self.learned as nat
    }

    /// How many ids the provider has said it does not know, so far.
    pub closed spec fn unknown_total(&self) -> nat {
        self.unknown as nat
    }

    /// The media type the next request is routed under.
    pub closed spec fn next_route(&self) -> MediaType {
        self.buckets@[self.bucket as int].media_type
    }

    /// The provider the next request asks by.
    pub closed spec fn next_provider(&self) -> Provider {
        self.buckets@[self.bucket as int].provider
    }

    pub fn learned(&self) -> (r: usize)
        ensures
            r == self.learned_total(),
    {
        self.learned
    }

    pub fn unknown(&self) -> (r: usize)
        ensures
            r == self.unknown_total(),
    {
        self.unknown
    }

    /// Whether the pass ended on its budget with work left.
    pub fn budget_reached(&self) -> (r: bool)
        ensures
            r == (!self.is_stopped() && !self.exhausted() && self.requests_made() >= self.budget_of()),
    {
        !self.stopped && self.bucket < self.buckets.len() && self.requests >= self.budget
    }

    /// The next request to make, if the pass goes on: it stops when the work
    /// is done, the budget is spent, or an answer said to stop.
    pub fn next_request(&self) -> (r: Option<BatchRequest>)
        requires
            self.wf(),
        ensures
            r is Some <==> (!self.is_stopped() && !self.exhausted() && self.requests_made() < self.budget_of()),
            r matches Some(q) ==> key_views(q.keys@) == self.next_keys() && q.keys@.len() > 0 && q.keys@.len() <= BATCH
                && q.media_type == self.next_route() && q.provider == self.next_provider()
                && q.url@ == batch_url_spec(self.base_url_view(), self.next_provider(), self.next_route()),
    {
        if self.stopped || self.bucket >= self.buckets.len() || self.requests >= self.budget {
            return None;
        }
        let bucket = &self.buckets[self.bucket];
        let len = bucket.keys.len();
        let end = if len - self.offset > BATCH {
            self.offset + BATCH
        } else {
            len
        };
        let mut keys: Vec<ItemKey> = Vec::new();
        let mut i: usize = self.offset;
        let ghost ks = key_views(bucket.keys@);
        while i < end
            invariant
                self.offset <= i <= end <= len,
                len == bucket.keys@.len(),
                ks == key_views(bucket.keys@),
                key_views(keys@) == ks.subrange(self.offset as int, i as int),
            decreases end - i,
        {
            let ghost prior = keys@;
            keys.push(bucket.keys[i].clone());
            assert(key_views(keys@) =~= key_views(prior).push(bucket.keys@[i as int]@));
            assert(ks.subrange(self.offset as int, i + 1) =~= ks.subrange(self.offset as int, i as int).push(ks[i as int]));
            i += 1;
        }
        let url = batch_url(self.base_url.as_str(), bucket.provider, bucket.media_type);
        Some(BatchRequest { url, provider: bucket.provider, media_type: bucket.media_type, keys })
    }

    fn advance(&mut self, taken: usize)
        requires
            old(self).wf(),
            old(self).bucket < old(self).buckets@.len(),
            taken == chunk_end(old(self).buckets@[old(self).bucket as int].keys@.len(), old(self).offset as nat) - old(self).offset,
        ensures
            final(self).wf(),
            final(self).buckets == old(self).buckets,
            final(self).requests == old(self).requests,
            final(self).stopped == old(self).stopped,
            final(self).learned == old(self).learned,
            final(self).unknown == old(self).unknown,
            final(self).budget == old(self).budget,
            final(self).reserve == old(self).reserve,
            final(self).apikey == old(self).apikey,
            final(self).base_url == old(self).base_url,
            old(self).offset + taken < old(self).buckets@[old(self).bucket as int].keys@.len() ==> final(self).bucket
                == old(self).bucket && final(self).offset == old(self).offset + taken,
            old(self).offset + taken >= old(self).buckets@[old(self).bucket as int].keys@.len() ==> final(self).bucket
                == old(self).bucket + 1 && final(self).offset == 0,
    {
        let count = self.buckets.len();
        let len = self.buckets[self.bucket].keys.len();
        if self.offset + taken < len {
            self.offset = self.offset + taken;
        } else {
            self.bucket = self.bucket + 1;
            self.offset = 0;
        }
    }

    /// Take in a batch's answer: store what it says, move on, and stop when
    /// the provider's allowance has dropped below the reserve. Returns
    /// whether the pass goes on.
    pub fn on_answer(&mut self, meta: &mut MetaStore, batch: &Batch, now: Stamp) -> (r: bool)
        requires
            old(self).wf(),
            old(meta).well_formed(),
            !old(self).is_stopped() && !old(self).exhausted() && old(self).requests_made() < old(self).budget_of(),
        ensures
            final(self).wf(),
            final(meta).well_formed(),
            final(self).requests_made() == old(self).requests_made() + 1,
            final(self).is_stopped() == (batch.remaining matches Some(left) && left < old(self).reserve_of()),
            r == !final(self).is_stopped(),
            final(self).learned_total() == sat_sum(
                old(self).learned_total(),
                learned_count(batch.items@, old(self).next_route(), batch.items@.len() as int),
            ),
            final(self).unknown_total() == sat_sum(
                old(self).unknown_total(),
                unanswered_count(
                    old(self).next_keys(),
                    answered(batch.items@, old(self).next_route(), batch.items@.len() as int),
                    old(self).next_keys().len() as int,
                ),
            ),
    {
        let request = match self.next_request() {
            Some(q) => q,
            None => {
                return false;
            },
        };
        let (known, missing) = absorb(meta, request.media_type, &request.keys, &batch.items, now);
        self.learned = self.learned.saturating_add(known);
        self.unknown = self.unknown.saturating_add(missing);
        self.requests = self.requests + 1;
        let taken = request.keys.len();
        proof {
            assert(key_views(request.keys@).len() == request.keys@.len());
        }
        self.advance(taken);
        match batch.remaining {
            Some(left) => {
                if left < self.reserve {
                    self.stopped = true;
                }
            },
            None => {},
        }
        !self.stopped
    }

    /// A failed request is usually the quota or the API being down; either
    /// way the rest of the pass would fail too, so it stops.
    pub fn on_failure(&mut self)
        requires
            old(self).wf(),
        ensures
            final(self).wf(),
            final(self).is_stopped(),
            final(self).requests_made() == old(self).requests_made() + 1 || old(self).requests_made() == usize::MAX,
    {
        self.requests = self.requests.saturating_add(1);
        self.stopped = true;
    }
}

/// Whether an item lacks, both in itself and with what the store knows of
/// it, some attribute a list fed by source `s` reads.
pub open spec fn lacks_wanted(lists: Seq<CompiledList>, s: Seq<char>, item: ItemView, meta: MetaStore) -> bool {
    !((forall|a: Attribute| wants(lists, s, a) ==> present_in_spec(a, item.attrs)) || (forall|a: Attribute|
        wants(lists, s, a) ==> present_in_spec(a, known_attrs(item, meta))))
}

/// Whether a pass at `now` would ask about key `k`: some item of a source
/// that feeds a metadata-reading list lacks what those lists read, has a
/// preferred key, and that key `k` has no fresh answer in the store.
pub open spec fn asks_about(runtime: Runtime, cache: CacheStore, meta: MetaStore, now: Stamp, k: ItemKeyView) -> bool {
    let sources = runtime.config.sources@;
    let c = runtime.config.metadata;
    exists|i: int, j: int|
        0 <= i < sources.len() && fed(runtime.lists@, sources[i].0@) && 0 <= j < source_items(
            cache,
            sources[i].0@,
        ).len() && lacks_wanted(runtime.lists@, sources[i].0@, #[trigger] source_items(cache, sources[i].0@)[j], meta)
            && preferred_spec(source_items(cache, sources[i].0@)[j]) == Some(k) && !fresh_key(
            meta,
            k,
            c.ttl,
            c.miss_ttl,
            now,
        )
}

/// Every key a pass at `now` would ask about.
pub open spec fn asked_keys(runtime: Runtime, cache: CacheStore, meta: MetaStore, now: Stamp) -> Set<ItemKeyView> {
    Set::new(|k: ItemKeyView| asks_about(runtime, cache, meta, now, k))
}

/// What `needed_per_source` promises of its answer.
pub open spec fn needed_ok(runtime: Runtime, needed: Seq<(String, Vec<Attribute>)>) -> bool {
    &&& forall|k: int, a: Attribute|
        0 <= k < needed.len() ==> (#[trigger] needed[k].1@.contains(a) <==> wants(runtime.lists@, needed[k].0@, a))
    &&& forall|k: int| 0 <= k < needed.len() ==> fed(runtime.lists@, (#[trigger] needed[k]).0@)
    &&& forall|i: int|
        0 <= i < runtime.config.sources@.len() && fed(runtime.lists@, (#[trigger] runtime.config.sources@[i]).0@)
            ==> has_name(needed, runtime.config.sources@[i].0@)
    &&& forall|k: int|
        0 <= k < needed.len() ==> crate::config::model::names_of(runtime.config.sources@).contains((#[trigger] needed[k]).0@)
}

proof fn lemma_worth_asks(
    runtime: Runtime,
    cache: CacheStore,
    meta: MetaStore,
    now: Stamp,
    needed: Seq<(String, Vec<Attribute>)>,
    k: ItemKeyView,
)
    requires
        needed_ok(runtime, needed),
        worth(needed, cache, meta, runtime.config.metadata.ttl, runtime.config.metadata.miss_ttl, now, k),
    ensures
        asks_about(runtime, cache, meta, now, k),
{
    let c = runtime.config.metadata;
    let (a, b) = choose|a: int, b: int|
        0 <= a < needed.len() && 0 <= b < source_items(cache, needed[a].0@).len() && qualifies(
            needed[a].1@,
            #[trigger] source_items(cache, needed[a].0@)[b],
            meta,
            c.ttl,
            c.miss_ttl,
            now,
        ) && preferred_spec(source_items(cache, needed[a].0@)[b]) == Some(k);
    let item = source_items(cache, needed[a].0@)[b];
    assert forall|x: Attribute| #[trigger] needed[a].1@.contains(x) <==> wants(runtime.lists@, needed[a].0@, x) by {}
    lemma_all_present_wanted(runtime.lists@, needed[a].0@, needed[a].1@, item.attrs);
    lemma_all_present_wanted(runtime.lists@, needed[a].0@, needed[a].1@, known_attrs(item, meta));
    assert(fed(runtime.lists@, needed[a].0@));
    assert(crate::config::model::names_of(runtime.config.sources@).contains(needed[a].0@));
    let i = choose|i: int|
        0 <= i < crate::config::model::names_of(runtime.config.sources@).len()
            && crate::config::model::names_of(runtime.config.sources@)[i] == needed[a].0@;
    assert(runtime.config.sources@[i].0@ == needed[a].0@);
    assert(source_items(cache, runtime.config.sources@[i].0@)[b] == item);
}

proof fn lemma_asks_listed(
    runtime: Runtime,
    cache: CacheStore,
    meta: MetaStore,
    now: Stamp,
    needed: Seq<(String, Vec<Attribute>)>,
    k: ItemKeyView,
)
    requires
        needed_ok(runtime, needed),
        asks_about(runtime, cache, meta, now, k),
    ensures
        exists|a: int, b: int|
            0 <= a < needed.len() && 0 <= b < source_items(cache, needed[a].0@).len() && qualifies(
                needed[a].1@,
                #[trigger] source_items(cache, needed[a].0@)[b],
                meta,
                runtime.config.metadata.ttl,
                runtime.config.metadata.miss_ttl,
                now,
            ) && preferred_spec(source_items(cache, needed[a].0@)[b]) == Some(k),
{
    let c = runtime.config.metadata;
    let sources = runtime.config.sources@;
    let (i, j) = choose|i: int, j: int|
        0 <= i < sources.len() && fed(runtime.lists@, sources[i].0@) && 0 <= j < source_items(
            cache,
            sources[i].0@,
        ).len() && lacks_wanted(runtime.lists@, sources[i].0@, #[trigger] source_items(cache, sources[i].0@)[j], meta)
            && preferred_spec(source_items(cache, sources[i].0@)[j]) == Some(k) && !fresh_key(
            meta,
            k,
            c.ttl,
            c.miss_ttl,
            now,
        );
    assert(has_name(needed, sources[i].0@));
    let a = choose|a: int| 0 <= a < needed.len() && (#[trigger] needed[a]).0@ == sources[i].0@;
    let item = source_items(cache, sources[i].0@)[j];
    assert forall|x: Attribute| #[trigger] needed[a].1@.contains(x) <==> wants(runtime.lists@, needed[a].0@, x) by {}
    lemma_all_present_wanted(runtime.lists@, needed[a].0@, needed[a].1@, item.attrs);
    lemma_all_present_wanted(runtime.lists@, needed[a].0@, needed[a].1@, known_attrs(item, meta));
    assert(source_items(cache, needed[a].0@)[j] == item);
    assert(qualifies(needed[a].1@, source_items(cache, needed[a].0@)[j], meta, c.ttl, c.miss_ttl, now));
}

/// `all_present` over a source's needed attributes says what it says over
/// every attribute its lists want.
proof fn lemma_all_present_wanted(lists: Seq<CompiledList>, s: Seq<char>, attrs: Seq<Attribute>, x: AttrsView)
    requires
        forall|a: Attribute| #[trigger] attrs.contains(a) <==> wants(lists, s, a),
    ensures
        all_present(attrs, x) <==> (forall|a: Attribute| wants(lists, s, a) ==> present_in_spec(a, x)),
{
    if all_present(attrs, x) {
        assert forall|a: Attribute| wants(lists, s, a) implies present_in_spec(a, x) by {
            assert(attrs.contains(a));
            let k = choose|k: int| 0 <= k < attrs.len() && attrs[k] == a;
            assert(present_in_spec(attrs[k], x));
        }
    }
    if forall|a: Attribute| wants(lists, s, a) ==> present_in_spec(a, x) {
        assert forall|k: int| 0 <= k < attrs.len() implies present_in_spec(#[trigger] attrs[k], x) by {
            assert(attrs.contains(attrs[k]));
        }
    }
}

/// Decide how a pass begins at `now`: nothing happens when enrichment is
/// off or every title already has what its filters read, and nothing can
/// happen without a key.
pub fn start_pass(runtime: &Runtime, cache: &CacheStore, meta: &MetaStore, now: Stamp) -> (r: PassStart)
    requires
        cache.well_formed(),
        meta.well_formed(),
    ensures
        !runtime.config.metadata.enabled ==> r is Disabled,
        r matches PassStart::Run(p) ==> p.wf() && p.requests_made() == 0 && !p.is_stopped()
            && p.budget_of() == runtime.config.metadata.budget && p.reserve_of() == runtime.config.metadata.reserve,
        !(exists|s: Seq<char>| fed(runtime.lists@, s)) ==> (r is Disabled || r is NothingToDo),
        r is Disabled <==> !runtime.config.metadata.enabled,
        runtime.config.metadata.enabled ==> (r is NothingToDo <==> !(exists|k: ItemKeyView|
            asks_about(*runtime, *cache, *meta, now, k))),
        r matches PassStart::NoApiKey(n) ==> n > 0 && runtime.mdblist_any_apikey_spec() is None && n
            == asked_keys(*runtime, *cache, *meta, now).len(),
        r matches PassStart::Run(p) ==> runtime.mdblist_any_apikey_spec() == Some(p.apikey_view())
            && p.base_url_view() == runtime.mdblist_base_url_spec() && p.planned_keys() == asked_keys(
            *runtime,
            *cache,
            *meta,
            now,
        ),
        runtime.config.metadata.enabled && (exists|k: ItemKeyView| asks_about(*runtime, *cache, *meta, now, k))
            ==> (r is Run <==> runtime.mdblist_any_apikey_spec() is Some),
{
    let config = &runtime.config.metadata;
    if !config.enabled {
        return PassStart::Disabled;
    }
    let needed = needed_per_source(runtime);
    proof {
        if needed@.len() > 0 {
            assert(fed(runtime.lists@, needed@[0].0@));
        }
    }
    let keys = outstanding_keys(&needed, cache, meta, config.ttl, config.miss_ttl, now);
    proof {
        assert forall|k: ItemKeyView| #[trigger] key_views(keys@).contains(k) implies asks_about(
            *runtime,
            *cache,
            *meta,
            now,
            k,
        ) by {
            let t = choose|t: int| 0 <= t < key_views(keys@).len() && key_views(keys@)[t] == k;
            assert(keys@[t]@ == k);
            lemma_worth_asks(*runtime, *cache, *meta, now, needed@, k);
        }
        assert forall|k: ItemKeyView| asks_about(*runtime, *cache, *meta, now, k) implies #[trigger] key_views(
            keys@,
        ).contains(k) by {
            lemma_asks_listed(*runtime, *cache, *meta, now, needed@, k);
            let (a, b) = choose|a: int, b: int|
                0 <= a < needed@.len() && 0 <= b < source_items(*cache, needed@[a].0@).len() && qualifies(
                    needed@[a].1@,
                    #[trigger] source_items(*cache, needed@[a].0@)[b],
                    *meta,
                    config.ttl,
                    config.miss_ttl,
                    now,
                ) && preferred_spec(source_items(*cache, needed@[a].0@)[b]) == Some(k);
        }
        assert(key_views(keys@).to_set() =~= asked_keys(*runtime, *cache, *meta, now));
        key_views(keys@).unique_seq_to_set();
        if keys@.len() > 0 {
            assert(key_views(keys@).contains(key_views(keys@)[0]));
        } else {
            assert forall|k: ItemKeyView| !asks_about(*runtime, *cache, *meta, now, k) by {
                if asks_about(*runtime, *cache, *meta, now, k) {
                    assert(key_views(keys@).contains(k));
                }
            }
        }
    }
    if keys.len() == 0 {
        return PassStart::NothingToDo;
    }
    let apikey = match runtime.mdblist_any_apikey() {
        Some(k) => k,
        None => return PassStart::NoApiKey(keys.len()),
    };
    let buckets = bucketize(&keys);
    proof {
        let all = key_views(keys@);
        assert forall|k: ItemKeyView| all.contains(k) <==> (exists|b: int, t: int|
            0 <= b < buckets@.len() && 0 <= t < buckets@[b].keys@.len()
                && #[trigger] buckets@[b].keys@[t]@ == k) by {
            if all.contains(k) {
                let t = choose|t: int| 0 <= t < all.len() && all[t] == k;
                let b = choose|b: int|
                    0 <= b < buckets@.len() && (#[trigger] buckets@[b]).provider == (#[trigger] all[t]).provider
                        && buckets@[b].media_type == all[t].media_type;
                let pred = |x: ItemKeyView| x.provider == buckets@[b].provider && x.media_type == buckets@[b].media_type;
                all.lemma_filter_contains(pred, t);
                assert(key_views(buckets@[b].keys@) == all.filter(pred));
                let u = choose|u: int| 0 <= u < all.filter(pred).len() && all.filter(pred)[u] == k;
                assert(key_views(buckets@[b].keys@)[u] == buckets@[b].keys@[u]@);
            }
            if exists|b: int, t: int|
                0 <= b < buckets@.len() && 0 <= t < buckets@[b].keys@.len() && #[trigger] buckets@[b].keys@[t]@ == k {
                let (b, t) = choose|b: int, t: int|
                    0 <= b < buckets@.len() && 0 <= t < buckets@[b].keys@.len() && #[trigger] buckets@[b].keys@[t]@ == k;
                let pred = |x: ItemKeyView| x.provider == buckets@[b].provider && x.media_type == buckets@[b].media_type;
                assert(key_views(buckets@[b].keys@) == all.filter(pred));
                assert(key_views(buckets@[b].keys@)[t] == k);
                assert(all.filter(pred).contains(k));
                all.lemma_filter_contains_rev(pred, k);
            }
        }
    }
    let pass = EnrichPass {
        buckets,
        apikey,
        base_url: runtime.mdblist_base_url(),
        budget: config.budget,
        reserve: config.reserve,
        bucket: 0,
        offset: 0,
        requests: 0,
        learned: 0,
        unknown: 0,
        stopped: false,
    };
    proof {
        assert(pass.planned_keys() =~= asked_keys(*runtime, *cache, *meta, now)) by {
            assert forall|k: ItemKeyView| pass.planned_keys().contains(k) <==> key_views(keys@).contains(k) by {}
        }
    }
    PassStart::Run(pass)
}

} // verus!
