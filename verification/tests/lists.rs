use repsetarr::api::{list_index, source_health, ListQuery, OutputFormat};
use repsetarr::cache::{fingerprint, CacheStore};
use repsetarr::clock::Stamp;
use repsetarr::config::compile::{compile, Runtime};
use repsetarr::config::model::SourceConfig;
use repsetarr::config::parse_str_with;
use repsetarr::lists::{evaluate_all_at, evaluate_at, EvalError};
use repsetarr::meta::MetaStore;
use repsetarr::refresh::{due, due_sources, restorable};
use repsetarr::sources::static_list;

fn no_env(_: &str) -> Option<String> {
    None
}

fn runtime(raw: &str) -> Runtime {
    compile(parse_str_with(raw, &no_env).expect("parses"), "test.yml".into()).expect("compiles")
}

fn at(secs: i64) -> Stamp {
    Stamp { secs, nanos: 0 }
}

/// A cache holding every static source, fetched at `when`.
fn fetched(runtime: &Runtime, when: Stamp) -> CacheStore {
    let mut cache = CacheStore::new("/nonexistent".into(), false);
    for (name, source) in &runtime.config.sources {
        if let SourceConfig::Static(s) = source {
            let items = static_list::fetch(s).expect("static items parse");
            cache.store(name, "fp", items, when);
        }
    }
    cache
}

fn ids(runtime: &Runtime, cache: &CacheStore, list: &str) -> Vec<u32> {
    let meta = MetaStore::new("/nonexistent".into(), false);
    let evaluation = evaluate_at(runtime, cache, &meta, list, at(100)).expect("evaluates");
    evaluation.items.iter().map(|i| i.ids.tmdb.expect("tmdb id")).collect()
}

const CHAIN: &str = r#"
sources:
  src1: { type: static, media_type: movie, items: ["tmdb:1", "tmdb:2"] }
  src2: { type: static, media_type: movie, items: ["tmdb:3"] }
  src3: { type: static, media_type: movie, items: ["tmdb:2"] }
  src4: { type: static, media_type: movie, items: ["tmdb:3", "tmdb:9"] }
lists:
  a: { list_formula: "src1 | src2" }
  b: { list_formula: "a - src3" }
  c: { list_formula: "b & src4" }
"#;

#[test]
fn a_three_deep_chain_composes() {
    let rt = runtime(CHAIN);
    let cache = fetched(&rt, at(100));
    assert_eq!(ids(&rt, &cache, "a"), vec![1, 2, 3]);
    assert_eq!(ids(&rt, &cache, "b"), vec![1, 3]);
    assert_eq!(ids(&rt, &cache, "c"), vec![3]);
}

#[test]
fn the_dependency_graph_comes_in_evaluation_order() {
    let rt = runtime(CHAIN);
    assert_eq!(rt.list_order, vec!["a", "b", "c"]);
    let c = rt.list("c").unwrap();
    assert_eq!(c.list_deps, vec!["a", "b"]);
    let mut sources = c.source_deps.clone();
    sources.sort();
    assert_eq!(sources, vec!["src1", "src2", "src3", "src4"]);
}

#[test]
fn a_diamond_dependency_is_evaluated_once_and_listed_once() {
    let rt = runtime(
        r#"
sources:
  base_src: { type: static, media_type: movie, items: ["tmdb:1", "tmdb:2", "tmdb:3", "tmdb:4"] }
  x: { type: static, media_type: movie, items: ["tmdb:1"] }
  y: { type: static, media_type: movie, items: ["tmdb:2"] }
lists:
  base: { list_formula: "base_src" }
  left: { list_formula: "base - x" }
  right: { list_formula: "base - y" }
  top: { list_formula: "left | right" }
"#,
    );
    let cache = fetched(&rt, at(100));
    assert_eq!(ids(&rt, &cache, "left"), vec![2, 3, 4]);
    assert_eq!(ids(&rt, &cache, "right"), vec![1, 3, 4]);
    assert_eq!(ids(&rt, &cache, "top"), vec![2, 3, 4, 1]);
    assert_eq!(rt.list("top").unwrap().list_deps, vec!["base", "left", "right"]);
}

#[test]
fn a_dependencys_limit_bounds_what_the_dependent_sees() {
    let rt = runtime(
        r#"
sources:
  everything: { type: static, media_type: movie, items: ["tmdb:10", "tmdb:11", "tmdb:12", "tmdb:13"] }
  owned: { type: static, media_type: movie, items: ["tmdb:12"] }
lists:
  shortlist: { list_formula: "everything", limit: 2 }
  to_grab: { list_formula: "shortlist - owned" }
"#,
    );
    let cache = fetched(&rt, at(100));
    assert_eq!(ids(&rt, &cache, "shortlist"), vec![10, 11]);
    assert_eq!(ids(&rt, &cache, "to_grab"), vec![10, 11]);
}

#[test]
fn nothing_links_two_ids_unless_an_item_carries_both() {
    let rt = runtime(
        r#"
sources:
  trending: { type: static, media_type: movie, items: ["tmdb:550", "tmdb:603"] }
  seen: { type: static, media_type: movie, items: ["imdb:tt0137523"] }
lists:
  wanted: { list_formula: "trending - seen" }
"#,
    );
    let cache = fetched(&rt, at(100));
    assert_eq!(ids(&rt, &cache, "wanted"), vec![550, 603]);
}

#[test]
fn an_unknown_list_is_refused() {
    let rt = runtime(CHAIN);
    let cache = fetched(&rt, at(100));
    let meta = MetaStore::new("/nonexistent".into(), false);
    match evaluate_at(&rt, &cache, &meta, "ghost", at(100)) {
        Err(e @ EvalError::UnknownList(_)) => assert_eq!(e.message(), "no list named `ghost`"),
        other => panic!("expected an unknown list, got {other:?}"),
    }
}

#[test]
fn one_source_with_no_data_fails_only_the_lists_that_reach_it() {
    let rt = runtime(
        r#"
sources:
  ok: { type: static, media_type: movie, items: ["tmdb:1"] }
  broken: { type: static, media_type: movie, items: ["tmdb:2"] }
lists:
  fine: { list_formula: "ok" }
  doomed: { list_formula: "ok | broken" }
  downstream: { list_formula: "doomed - ok" }
"#,
    );
    let mut cache = CacheStore::new("/nonexistent".into(), false);
    cache.store("ok", "fp", static_list::fetch(match &rt.config.sources[0].1 {
        SourceConfig::Static(s) => s,
        _ => unreachable!(),
    }).unwrap(), at(100));
    cache.record_failure("broken", "unreachable", at(100));
    let meta = MetaStore::new("/nonexistent".into(), false);
    assert!(evaluate_at(&rt, &cache, &meta, "fine", at(100)).is_ok());
    for name in ["doomed", "downstream"] {
        match evaluate_at(&rt, &cache, &meta, name, at(100)) {
            Err(EvalError::NoData(missing)) => assert_eq!(missing, vec!["broken"], "{name}"),
            other => panic!("{name}: expected no data, got {other:?}"),
        }
    }
    let all = evaluate_all_at(&rt, &cache, &meta, at(100));
    let index = list_index(&rt, &all);
    assert_eq!(index.len(), 3);
    assert!(index[0].outcome.is_ok());
    assert!(index[1].outcome.is_err());
    assert_eq!(index[2].list_deps, vec!["doomed"]);

    let (health, degraded) = source_health(&rt, &cache, at(100));
    assert!(degraded);
    assert_eq!(health.len(), 2);
    assert_eq!(health[1].name, "broken");
    assert_eq!(health[1].last_error.as_deref(), Some("unreachable"));
    assert_eq!(health[1].items, None);
}

#[test]
fn stale_sources_are_named_but_still_served() {
    let rt = runtime(
        r#"
cache:
  default_ttl: 1h
sources:
  a: { type: static, media_type: movie, items: ["tmdb:1"] }
lists:
  l: { list_formula: "a" }
"#,
    );
    let cache = fetched(&rt, at(0));
    let meta = MetaStore::new("/nonexistent".into(), false);
    let fresh = evaluate_at(&rt, &cache, &meta, "l", at(3600)).unwrap();
    assert!(fresh.stale_sources.is_empty());
    let stale = evaluate_at(&rt, &cache, &meta, "l", at(3601)).unwrap();
    assert_eq!(stale.stale_sources, vec!["a"]);
    assert_eq!(stale.items.len(), 1);
    assert_eq!(stale.evaluated_at, at(3601));
}

#[test]
fn a_list_keeps_only_its_media_type_and_year_range() {
    let rt = runtime(
        r#"
sources:
  mixed: { type: static, media_type: movie, items: ["tmdb:1", "tmdb:2"] }
  shows: { type: static, media_type: show, items: ["tvdb:3"] }
lists:
  movies_only: { list_formula: "mixed | shows", media_type: movie }
"#,
    );
    let cache = fetched(&rt, at(100));
    assert_eq!(ids(&rt, &cache, "movies_only"), vec![1, 2]);
}

#[test]
fn sources_are_due_until_fetched_and_again_after_their_ttl() {
    let rt = runtime(
        r#"
cache:
  default_ttl: 1h
sources:
  a: { type: static, media_type: movie, items: ["tmdb:1"] }
  b: { type: static, media_type: movie, items: ["tmdb:2"] }
lists: {}
"#,
    );
    let mut cache = CacheStore::new("/nonexistent".into(), false);
    assert_eq!(due_sources(&rt, &cache, at(0)), vec!["a", "b"]);
    assert!(restorable(&rt).is_empty(), "static sources are never restored from disk");
    for (name, source) in &rt.config.sources {
        cache.store(name, &fingerprint(source), vec![], at(0));
    }
    assert!(due_sources(&rt, &cache, at(10)).is_empty());
    assert!(!due(&rt, &cache, "a", at(10)));
    assert!(due(&rt, &cache, "a", at(3601)));
}

#[test]
fn a_changed_source_is_due_at_once() {
    let rt = runtime(
        r#"
sources:
  a: { type: static, media_type: movie, items: ["tmdb:1"] }
lists: {}
"#,
    );
    let mut cache = CacheStore::new("/nonexistent".into(), false);
    cache.store("a", "an older configuration", vec![], at(0));
    assert!(due(&rt, &cache, "a", at(1)));
}

#[test]
fn remote_sources_are_restorable_under_their_fingerprint() {
    let rt = runtime(
        r#"
sources:
  a: { type: static, media_type: movie, items: ["tmdb:1"] }
  feed: { type: json, url: "http://feed.example/list.json" }
lists: {}
"#,
    );
    let r = restorable(&rt);
    assert_eq!(r.len(), 1);
    assert_eq!(r[0].0, "feed");
    assert_eq!(r[0].1, fingerprint(rt.source("feed").unwrap()));
}

#[test]
fn an_unknown_list_is_a_404() {
    let runtime = runtime(CHAIN);
    let cache = fetched(&runtime, at(0));
    let meta = MetaStore::new("/nonexistent".into(), false);
    for format in ["json", "radarr", "sonarr", "kometa"] {
        let params = vec![("format".to_string(), format.to_string())];
        let query = ListQuery::from_params(&params).expect("a known format");
        assert_eq!(Some(query.format), OutputFormat::parse(format));
        match evaluate_at(&runtime, &cache, &meta, "ghost", at(100)) {
            Err(e) => {
                assert_eq!(e.status_code(), 404, "{format}");
                assert!(e.message().contains("ghost"), "{}", e.message());
            }
            Ok(_) => panic!("an unknown list evaluates"),
        }
    }
}
