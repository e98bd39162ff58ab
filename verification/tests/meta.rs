use repsetarr::clock::Stamp;
use repsetarr::config::model::Span;
use repsetarr::meta::{MetaRecord, MetaStore};
use repsetarr::model::{Attrs, Item, ItemKey, MediaType, Provider};

fn key(id: &str) -> ItemKey {
    ItemKey { media_type: MediaType::Movie, provider: Provider::Tmdb, value: id.into() }
}

fn russian() -> Attrs {
    let mut attrs = Attrs::empty();
    attrs.country = Some("su".into());
    attrs.original_language = Some("ru".into());
    attrs
}

fn at(secs: i64) -> Stamp {
    Stamp { secs, nanos: 0 }
}

const LONG: u64 = 30 * 24 * 60 * 60;
const SHORT: u64 = 7 * 24 * 60 * 60;

fn movie_by_tmdb(tmdb: u32) -> Item {
    let mut item = Item::new(MediaType::Movie);
    item.ids.tmdb = Some(tmdb);
    item
}

#[test]
fn entries_round_trip_through_their_records() {
    let mut store = MetaStore::new("/tmp/meta".into(), true);
    store.record(&[key("25237")], Some(russian()), at(1000));
    store.record(&[key("999")], None, at(1000));
    let records = store.records();
    assert_eq!(records.len(), 2);

    let mut reopened = MetaStore::new("/tmp/meta".into(), true);
    let kept = reopened.restore_records(records, Span::from_secs(LONG), Span::from_secs(SHORT), at(2000));
    assert_eq!(kept, 2);
    assert_eq!(reopened.lookup(&movie_by_tmdb(25237)).unwrap().country.as_deref(), Some("su"));
    assert!(reopened.is_fresh(&key("999"), Span::from_secs(LONG), Span::from_secs(SHORT), at(2000)));
    assert!(!reopened.is_fresh(&key("nobody"), Span::from_secs(LONG), Span::from_secs(SHORT), at(2000)));
}

#[test]
fn expired_entries_are_dropped_on_restore() {
    let mut store = MetaStore::new("/tmp/meta".into(), true);
    store.record(&[key("1")], Some(russian()), at(1000));
    let records = store.records();
    let mut reopened = MetaStore::new("/tmp/meta".into(), true);
    let expired = Span::from_secs(0);
    assert_eq!(reopened.restore_records(records, expired, expired, at(1001)), 0);
    assert!(reopened.is_empty());
}

#[test]
fn a_negative_answer_expires_sooner_than_a_positive_one() {
    let mut store = MetaStore::new("/tmp/meta".into(), false);
    store.record(&[key("1")], Some(russian()), at(0));
    store.record(&[key("2")], None, at(0));
    let later = at(SHORT as i64 + 1);
    assert!(store.is_fresh(&key("1"), Span::from_secs(LONG), Span::from_secs(SHORT), later));
    assert!(!store.is_fresh(&key("2"), Span::from_secs(LONG), Span::from_secs(SHORT), later));
}

#[test]
fn lookup_finds_a_title_by_any_of_its_ids() {
    let mut store = MetaStore::new("/tmp/meta".into(), false);
    let imdb = ItemKey { media_type: MediaType::Movie, provider: Provider::Imdb, value: "tt0091251".into() };
    store.record(&[key("25237"), imdb], Some(russian()), at(0));
    assert_eq!(store.len(), 2);

    let mut by_imdb = Item::new(MediaType::Movie);
    by_imdb.ids.imdb = Some("tt0091251".into());
    assert_eq!(store.lookup(&by_imdb).unwrap().original_language.as_deref(), Some("ru"));

    let mut as_show = Item::new(MediaType::Show);
    as_show.ids.tmdb = Some(25237);
    assert!(store.lookup(&as_show).is_none());
}

#[test]
fn a_later_record_replaces_an_earlier_one() {
    let mut store = MetaStore::new("/tmp/meta".into(), false);
    store.record(&[key("7")], None, at(0));
    store.record(&[key("7")], Some(russian()), at(10));
    assert_eq!(store.len(), 1);
    assert_eq!(store.lookup(&movie_by_tmdb(7)).unwrap().country.as_deref(), Some("su"));
}

#[test]
fn the_store_lives_in_one_file_of_its_directory() {
    let store = MetaStore::new("/var/cache".into(), true);
    assert!(store.path().starts_with("/var/cache/"));
    assert_eq!(store.dir(), "/var/cache");
    assert!(store.persist());
}

#[test]
fn a_record_carries_its_key() {
    let mut store = MetaStore::new("/tmp/meta".into(), false);
    store.record(&[key("42")], None, at(5));
    let records: Vec<MetaRecord> = store.records();
    assert_eq!(records[0].id, "42");
    assert_eq!(records[0].provider, Provider::Tmdb);
    assert_eq!(records[0].media_type, MediaType::Movie);
    assert_eq!(records[0].checked_at, at(5));
    assert!(records[0].attrs.is_none());
}
