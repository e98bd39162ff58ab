use repsetarr::cache::{file_stem, short_hash, snapshot_path, CacheStore, Snapshot};
use repsetarr::clock::Stamp;
use repsetarr::config::model::{SourceConfig, Span, StaticSource};
use repsetarr::config::render::render_source;
use repsetarr::model::{Item, MediaType};

fn item(tmdb: u32) -> Item {
    let mut it = Item::new(MediaType::Movie);
    it.ids.tmdb = Some(tmdb);
    it
}

fn at(secs: i64) -> Stamp {
    Stamp { secs, nanos: 0 }
}

#[test]
fn an_unfetched_source_is_stale_and_empty() {
    let store = CacheStore::new("/nonexistent".to_string(), false);
    let status = store.status("never-fetched");
    assert!(status.is_stale_at(Span::from_secs(3600), at(1_700_000_000)));
    assert_eq!(status.item_count(), None);
}

#[test]
fn file_names_are_safe_and_unique() {
    assert_ne!(file_stem("a/b"), file_stem("a_b"));
    assert!(file_stem("a/b").starts_with("a_b-"));
}

#[test]
fn a_restored_snapshot_serves_its_items() {
    let mut store = CacheStore::new("/tmp/cache".to_string(), true);
    store.store("trending", "fp1", vec![item(550)], at(100));
    assert_eq!(store.items("trending").unwrap().len(), 1);

    let mut reopened = CacheStore::new("/tmp/cache".to_string(), true);
    let snapshot = Snapshot { fetched_at: at(100), fingerprint: "fp1".to_string(), items: vec![item(550)] };
    assert!(reopened.restore("trending", "fp1", snapshot));
    assert_eq!(reopened.items("trending").unwrap()[0].ids.tmdb, Some(550));
    assert_eq!(reopened.status("trending").fetched_at, Some(at(100)));
}

#[test]
fn a_changed_configuration_invalidates_the_snapshot() {
    let mut reopened = CacheStore::new("/tmp/cache".to_string(), true);
    let snapshot = Snapshot { fetched_at: at(100), fingerprint: "fp1".to_string(), items: vec![item(550)] };
    assert!(!reopened.restore("trending", "fp2", snapshot));
    assert!(reopened.items("trending").is_none());
}

#[test]
fn without_persistence_no_snapshot_is_restored() {
    let mut store = CacheStore::new("/tmp/cache".to_string(), false);
    let snapshot = Snapshot { fetched_at: at(100), fingerprint: "fp1".to_string(), items: vec![item(550)] };
    assert!(!store.restore("trending", "fp1", snapshot));
    assert!(store.items("trending").is_none());
}

#[test]
fn a_failure_keeps_the_previous_data_and_records_the_error() {
    let mut store = CacheStore::new("/nonexistent".to_string(), false);
    store.store("trending", "fp1", vec![item(550)], at(100));
    store.record_failure("trending", "connection refused", at(200));

    let status = store.status("trending");
    assert_eq!(status.item_count(), Some(1));
    assert_eq!(status.last_error.as_deref(), Some("connection refused"));
    assert_eq!(status.fetched_at, Some(at(100)));
    assert_eq!(status.last_attempt, Some(at(200)));
}

#[test]
fn a_failure_before_any_success_leaves_no_items() {
    let mut store = CacheStore::new("/nonexistent".to_string(), false);
    store.record_failure("trending", "timeout", at(200));
    let status = store.status("trending");
    assert_eq!(status.item_count(), None);
    assert!(status.fetched_at.is_none());
    assert_eq!(status.last_error.as_deref(), Some("timeout"));
}

#[test]
fn a_fresh_snapshot_is_not_stale_until_its_ttl_passes() {
    let mut store = CacheStore::new("/nonexistent".to_string(), false);
    store.store("trending", "fp1", vec![item(550)], at(1000));
    let status = store.status("trending");
    assert!(!status.is_stale_at(Span::from_secs(3600), at(1000 + 3600)));
    assert!(status.is_stale_at(Span::from_secs(3600), at(1000 + 3601)));
    let age = status.age_at(at(1060)).unwrap();
    assert_eq!((age.secs, age.nanos), (60, 0));
    assert!(status.age_at(at(10)).is_none());
}

#[test]
fn retain_forgets_sources_that_are_gone() {
    let mut store = CacheStore::new("/nonexistent".to_string(), false);
    store.store("kept", "fp1", vec![item(1)], at(100));
    store.store("gone", "fp1", vec![item(2)], at(100));
    store.retain(&vec!["kept".to_string()]);
    assert_eq!(store.items("kept").unwrap()[0].ids.tmdb, Some(1));
    assert!(store.items("gone").is_none());
    assert_eq!(store.statuses().len(), 1);
}

#[test]
fn statuses_come_out_sorted_by_name() {
    let mut store = CacheStore::new("/nonexistent".to_string(), false);
    store.store("zeta", "fp", vec![], at(1));
    store.store("alpha", "fp", vec![], at(1));
    store.store("mid", "fp", vec![], at(1));
    let names: Vec<String> = store.statuses().into_iter().map(|(n, _)| n).collect();
    assert_eq!(names, vec!["alpha", "mid", "zeta"]);
}

#[test]
fn snapshot_paths_sit_in_the_cache_directory() {
    let store = CacheStore::new("/var/cache".to_string(), true);
    let path = store.path_for("a/b");
    assert_eq!(path, format!("/var/cache/{}.json", file_stem("a/b")));
    assert_eq!(path, snapshot_path("/var/cache", "a/b"));
    assert_eq!(store.dir(), "/var/cache");
    assert!(store.persist());
}

#[test]
fn short_hashes_are_eight_hex_digits_and_tell_names_apart() {
    let a = short_hash("a/b");
    let b = short_hash("a_b");
    assert_eq!(a.len(), 8);
    assert!(a.chars().all(|c| c.is_ascii_hexdigit() && !c.is_ascii_uppercase()));
    assert_ne!(a, b);
    assert_eq!(a, short_hash("a/b"));
}

#[test]
fn a_leap_second_carries_into_the_next_second() {
    let s = repsetarr::clock::carry_leap(10, 1_500_000_000);
    assert_eq!((s.secs, s.nanos), (11, 500_000_000));
    let t = repsetarr::clock::carry_leap(10, 250);
    assert_eq!((t.secs, t.nanos), (10, 250));
}

#[test]
fn the_fingerprint_follows_every_option() {
    let a = SourceConfig::Static(StaticSource {
        items: vec!["tmdb:1".to_string()],
        media_type: MediaType::Movie,
        extra: vec![],
    });
    let b = SourceConfig::Static(StaticSource {
        items: vec!["tmdb:2".to_string()],
        media_type: MediaType::Movie,
        extra: vec![],
    });
    assert_eq!(render_source(&a), "static items=[\"tmdb:1\"] media_type=movie extra=[]");
    assert_ne!(repsetarr::cache::fingerprint(&a), repsetarr::cache::fingerprint(&b));
}
