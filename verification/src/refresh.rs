//! Keeping source snapshots warm: which sources a refresh pass fetches.
//!
//! Nothing is fetched while serving a request. A supervisor ticks on
//! `cache.check_interval`, reads whatever configuration is current, and
//! refreshes the sources whose data has aged out or whose configuration
//! changed. A failure is recorded and the previous snapshot keeps serving.
//! Running the fetches is the caller's part.

use vstd::prelude::*;

use crate::cache::{fingerprint, short_hash_spec, CacheStore};
use crate::config::render::config_text;
use crate::clock::Stamp;
use crate::config::compile::{named, Runtime};
use crate::lists::{stale_at, ttl_of};
use crate::config::model::SourceConfig;
use crate::model::strings_view;

verus! {

/// Whether a source is due at `now`: it has no data yet, its data was
/// fetched under another configuration, or its data is past its TTL. A name
/// that is not a configured source is never due.
pub open spec fn due_spec(runtime: Runtime, cache: CacheStore, name: Seq<char>, now: Stamp) -> bool {
    match named(runtime.config.sources@, name) {
        None => false,
        Some(source) => match cache.status_of(name) {
            None => true,
            Some(s) => s.items is None || s.fingerprint@ != short_hash_spec(config_text(source))
                || stale_at(s, ttl_of(runtime, name), now),
        },
    }
}

pub fn due(runtime: &Runtime, cache: &CacheStore, name: &str, now: Stamp) -> (r: bool)
    requires
        cache.well_formed(),
    ensures
        r == due_spec(*runtime, *cache, name@, now),
{
    let source = match runtime.source(name) {
        Some(s) => s,
        None => return false,
    };
    let status = cache.status(name);
    if status.items.is_none() {
        return true;
    }
    let current = fingerprint(source);
    if !crate::text::str_eq(status.fingerprint.as_str(), current.as_str()) {
        return true;
    }
    status.is_stale_at(runtime.ttl_for(name), now)
}

/// The configured sources due at `now`, in configuration order.
pub fn due_sources(runtime: &Runtime, cache: &CacheStore, now: Stamp) -> (r: Vec<String>)
    requires
        cache.well_formed(),
    ensures
        strings_view(r@) == crate::config::model::names_of(runtime.config.sources@).filter(
            |n: Seq<char>| due_spec(*runtime, *cache, n, now),
        ),
{
    let ghost names = crate::config::model::names_of(runtime.config.sources@);
    let ghost pred = |n: Seq<char>| due_spec(*runtime, *cache, n, now);
    let mut out: Vec<String> = Vec::new();
    let mut i: usize = 0;
    while i < runtime.config.sources.len()
        invariant
            cache.well_formed(),
            0 <= i <= runtime.config.sources@.len(),
            names == crate::config::model::names_of(runtime.config.sources@),
            forall|n: Seq<char>| #[trigger] pred(n) == due_spec(*runtime, *cache, n, now),
            strings_view(out@) == names.take(i as int).filter(pred),
        decreases runtime.config.sources.len() - i,
    {
        let name = &runtime.config.sources[i].0;
        assert(names.take(i + 1) =~= names.take(i as int).push(name@));
        proof {
            names.take(i as int).lemma_filter_push(name@, pred);
        }
        if due(runtime, cache, name.as_str(), now) {
            let ghost prior = out@;
            out.push(crate::text::clone_string(name));
            assert(strings_view(out@) =~= strings_view(prior).push(name@));
        }
        i += 1;
    }
    assert(names.take(names.len() as int) =~= names);
    proof {
        let spec_pred = |n: Seq<char>| due_spec(*runtime, *cache, n, now);
        assert(pred =~= spec_pred);
    }
    out
}

/// Whether `name` is a network source whose snapshot carries `fp`.
pub open spec fn from_source(sources: Seq<(String, SourceConfig)>, name: Seq<char>, fp: Seq<char>) -> bool {
    exists|j: int|
        0 <= j < sources.len() && (#[trigger] sources[j]).0@ == name && !(sources[j].1 is Static) && fp
            == short_hash_spec(config_text(sources[j].1))
}

/// The sources worth seeding from disk, with the fingerprint their snapshot
/// must carry: every source that is fetched over the network.
pub fn restorable(runtime: &Runtime) -> (r: Vec<(String, String)>)
    ensures
        forall|k: int| 0 <= k < r@.len() ==> from_source(runtime.config.sources@, (#[trigger] r@[k]).0@, r@[k].1@),
        r@.len() == runtime.config.sources@.filter(|e: (String, crate::config::model::SourceConfig)| e.1 !is Static).len(),
{
    let ghost pred = |e: (String, crate::config::model::SourceConfig)| e.1 !is Static;
    let mut out: Vec<(String, String)> = Vec::new();
    let mut i: usize = 0;
    while i < runtime.config.sources.len()
        invariant
            0 <= i <= runtime.config.sources@.len(),
            forall|e: (String, crate::config::model::SourceConfig)| #[trigger] pred(e) == e.1 !is Static,
            out@.len() == runtime.config.sources@.take(i as int).filter(pred).len(),
            forall|k: int| 0 <= k < out@.len() ==> from_source(runtime.config.sources@, (#[trigger] out@[k]).0@, out@[k].1@),
        decreases runtime.config.sources.len() - i,
    {
        let (name, source) = &runtime.config.sources[i];
        assert(runtime.config.sources@.take(i + 1) =~= runtime.config.sources@.take(i as int).push(runtime.config.sources@[i as int]));
        proof {
            runtime.config.sources@.take(i as int).lemma_filter_push(runtime.config.sources@[i as int], pred);
        }
        if source.is_remote() {
            let ghost prior = out@;
            out.push((crate::text::clone_string(name), fingerprint(source)));
            proof {
                assert forall|k: int| 0 <= k < out@.len() implies from_source(runtime.config.sources@, (#[trigger] out@[k]).0@, out@[k].1@) by {
                    if k < prior.len() {
                        assert(out@[k] == prior[k]);
                    } else {
                        assert(out@[k].0@ == runtime.config.sources@[i as int].0@);
                        assert(runtime.config.sources@[i as int].0@ == name@);
                    }
                }
            }
        }
        i += 1;
    }
    assert(runtime.config.sources@.take(runtime.config.sources@.len() as int) =~= runtime.config.sources@);
    proof {
        let spec_pred = |e: (String, crate::config::model::SourceConfig)| e.1 !is Static;
        assert(pred =~= spec_pred);
    }
    out
}

} // verus!
