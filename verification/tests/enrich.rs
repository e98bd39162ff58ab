use repsetarr::cache::CacheStore;
use repsetarr::clock::Stamp;
use repsetarr::config::compile::{compile, Runtime};
use repsetarr::config::model::SourceConfig;
use repsetarr::config::parse_str_with;
use repsetarr::doc::read_json;
use repsetarr::enrich::{
    absorb, batch_ids, batch_url, bucketize, keys_from_response, needed_per_source, preferred_key,
    read_batch, start_pass, PassStart,
};
use repsetarr::filter::Attribute;
use repsetarr::lists::evaluate_at;
use repsetarr::meta::MetaStore;
use repsetarr::model::{Item, ItemKey, MediaType, Provider};
use repsetarr::sources::static_list;

fn no_env(_: &str) -> Option<String> {
    None
}

fn runtime(raw: &str) -> Runtime {
    compile(parse_str_with(raw, &no_env).expect("parses"), "test.yml".into()).expect("compiles")
}

fn at(secs: i64) -> Stamp {
    Stamp { secs, nanos: 0 }
}

fn fetched(runtime: &Runtime) -> CacheStore {
    let mut cache = CacheStore::new("/nonexistent".into(), false);
    for (name, source) in &runtime.config.sources {
        if let SourceConfig::Static(s) = source {
            cache.store(name, "fp", static_list::fetch(s).unwrap(), at(0));
        }
    }
    cache
}

fn config(ids: &[u32], apikey: bool) -> String {
    let items: Vec<String> = ids.iter().map(|id| format!("\"tmdb:{id}\"")).collect();
    let providers = if apikey {
        "providers:\n  mdblist:\n    apikey: test-key\n    base_url: http://mdb.test/\n"
    } else {
        ""
    };
    format!(
        r#"
{providers}sources:
  feed:
    type: static
    media_type: movie
    items: [{}]
filters:
  russian:
    country: ru, su
lists:
  russian_only:
    list_formula: "feed"
    filter: "russian"
  everything:
    list_formula: "feed"
"#,
        items.join(", ")
    )
}

fn media(id: u32, country: &str) -> String {
    format!(
        r#"{{"id": {id}, "title": "Movie {id}", "type": "movie",
            "ids": {{"tmdb": {id}, "imdb": "tt{id:07}", "trakt": {}, "tvdb": null}},
            "country": "{country}", "language": "ru", "runtime": 100}}"#,
        id + 1000
    )
}

#[test]
fn a_config_with_no_filters_never_asks_for_metadata() {
    let rt = runtime(
        r#"
providers:
  mdblist: { apikey: k }
sources:
  feed: { type: static, media_type: movie, items: ["tmdb:1"] }
lists:
  plain: { list_formula: "feed" }
"#,
    );
    let cache = fetched(&rt);
    let meta = MetaStore::new("/nonexistent".into(), false);
    assert!(matches!(start_pass(&rt, &cache, &meta, at(0)), PassStart::NothingToDo));
    assert!(needed_per_source(&rt).is_empty());
}

#[test]
fn switched_off_enrichment_does_nothing() {
    let raw = config(&[1], true) + "metadata:\n  enabled: false\n";
    let rt = runtime(&raw);
    let cache = fetched(&rt);
    let meta = MetaStore::new("/nonexistent".into(), false);
    assert!(matches!(start_pass(&rt, &cache, &meta, at(0)), PassStart::Disabled));
}

#[test]
fn without_a_key_the_pass_says_how_many_titles_wait() {
    let rt = runtime(&config(&[1, 2, 3], false));
    let cache = fetched(&rt);
    let meta = MetaStore::new("/nonexistent".into(), false);
    assert!(matches!(start_pass(&rt, &cache, &meta, at(0)), PassStart::NoApiKey(3)));
}

#[test]
fn ids_are_looked_up_once_and_unknown_ones_are_remembered() {
    let rt = runtime(&config(&[1, 2, 3], true));
    let cache = fetched(&rt);
    let mut meta = MetaStore::new("/nonexistent".into(), false);
    let needs = needed_per_source(&rt);
    assert_eq!(needs.len(), 1);
    assert_eq!(needs[0].0, "feed");
    assert_eq!(needs[0].1, vec![Attribute::Country]);

    let mut pass = match start_pass(&rt, &cache, &meta, at(0)) {
        PassStart::Run(p) => p,
        other => panic!("expected a pass, got {other:?}"),
    };
    assert_eq!(pass.apikey, "test-key");
    let request = pass.next_request().expect("one batch");
    assert_eq!(request.keys.len(), 3, "one batch covers every id");
    assert_eq!(request.url, "http://mdb.test/tmdb/movie");
    let body = format!("[{}, {}]", media(1, "su"), media(2, "fr"));
    let batch = read_batch(200, "OK", None, Some("99999"), &request.url, &body).unwrap();
    assert!(pass.on_answer(&mut meta, &batch, at(0)));
    assert_eq!(pass.requests(), 1);
    assert_eq!(pass.learned(), 2);
    assert_eq!(pass.unknown(), 1);
    assert!(pass.next_request().is_none());

    // Nothing is asked for twice: id 3 is remembered as unknown.
    assert!(matches!(start_pass(&rt, &cache, &meta, at(10)), PassStart::NothingToDo));

    let evaluation = evaluate_at(&rt, &cache, &meta, "russian_only", at(10)).unwrap();
    let ids: Vec<Option<u32>> = evaluation.items.iter().map(|i| i.ids.tmdb).collect();
    assert_eq!(ids, vec![Some(1)]);
    let everything = evaluate_at(&rt, &cache, &meta, "everything", at(10)).unwrap();
    assert_eq!(everything.items.len(), 3);
}

#[test]
fn large_libraries_are_batched_two_hundred_at_a_time() {
    let ids: Vec<u32> = (1..=450).collect();
    let rt = runtime(&config(&ids, true));
    let cache = fetched(&rt);
    let mut meta = MetaStore::new("/nonexistent".into(), false);
    let mut pass = match start_pass(&rt, &cache, &meta, at(0)) {
        PassStart::Run(p) => p,
        other => panic!("expected a pass, got {other:?}"),
    };
    let mut sizes = Vec::new();
    while let Some(request) = pass.next_request() {
        sizes.push(request.keys.len());
        let batch = read_batch(200, "OK", None, None, &request.url, "[]").unwrap();
        pass.on_answer(&mut meta, &batch, at(0));
    }
    assert_eq!(sizes, vec![200, 200, 50], "450 ids in three requests");
    assert_eq!(pass.unknown(), 450);
}

#[test]
fn a_quota_error_stops_the_pass() {
    let rt = runtime(&config(&[1, 2], true));
    let cache = fetched(&rt);
    let meta = MetaStore::new("/nonexistent".into(), false);
    let mut pass = match start_pass(&rt, &cache, &meta, at(0)) {
        PassStart::Run(p) => p,
        other => panic!("expected a pass, got {other:?}"),
    };
    let request = pass.next_request().unwrap();
    let error = read_batch(429, "Too Many Requests", Some("3600"), None, &request.url, "").unwrap_err();
    assert_eq!(error, "MDBList daily quota exhausted, resets in 3600s");
    pass.on_failure();
    assert!(pass.next_request().is_none());
    assert_eq!(pass.requests(), 1);
}

#[test]
fn a_low_allowance_stops_the_pass_before_the_reserve() {
    let ids: Vec<u32> = (1..=300).collect();
    let raw = config(&ids, true) + "metadata:\n  reserve: 100\n";
    let rt = runtime(&raw);
    let cache = fetched(&rt);
    let mut meta = MetaStore::new("/nonexistent".into(), false);
    let mut pass = match start_pass(&rt, &cache, &meta, at(0)) {
        PassStart::Run(p) => p,
        other => panic!("expected a pass, got {other:?}"),
    };
    let request = pass.next_request().unwrap();
    let batch = read_batch(200, "OK", None, Some("50"), &request.url, "[]").unwrap();
    assert!(!pass.on_answer(&mut meta, &batch, at(0)));
    assert!(pass.next_request().is_none());
    assert!(!pass.budget_reached());
}

#[test]
fn a_batch_answer_is_checked_before_it_is_read() {
    assert!(read_batch(500, "500 Internal Server Error", None, None, "u", "oops").unwrap_err().contains("500"));
    let error = read_batch(200, "OK", None, None, "u", r#"{"error": "API Key Not Valid"}"#).unwrap_err();
    assert_eq!(error, "MDBList returned an error: API Key Not Valid");
    assert!(read_batch(200, "OK", None, None, "u", "{}").unwrap_err().starts_with("expected a JSON array from u"));
    assert!(read_batch(200, "OK", None, None, "u", "not json").unwrap_err().starts_with("parsing MDBList response: "));
    let batch = read_batch(200, "OK", None, Some(" 12 "), "u", "[]").unwrap();
    assert_eq!(batch.remaining, Some(12));
}

fn key(provider: Provider, media_type: MediaType, value: &str) -> ItemKey {
    ItemKey { media_type, provider, value: value.into() }
}

#[test]
fn keys_are_grouped_by_provider_and_media_type() {
    let keys = vec![
        key(Provider::Tmdb, MediaType::Movie, "1"),
        key(Provider::Imdb, MediaType::Movie, "tt0000002"),
        key(Provider::Tmdb, MediaType::Movie, "3"),
        key(Provider::Tmdb, MediaType::Show, "4"),
    ];
    let buckets = bucketize(&keys);
    assert_eq!(buckets.len(), 3);
    assert_eq!(buckets[0].provider, Provider::Tmdb);
    assert_eq!(buckets[0].media_type, MediaType::Movie);
    assert_eq!(batch_ids(&buckets[0].keys), vec!["1", "3"]);
    assert_eq!(batch_ids(&buckets[1].keys), vec!["tt0000002"]);
    assert_eq!(batch_ids(&buckets[2].keys), vec!["4"]);
}

#[test]
fn an_answer_teaches_every_id_it_carries() {
    let mut meta = MetaStore::new("/nonexistent".into(), false);
    let asked = vec![key(Provider::Tmdb, MediaType::Movie, "5"), key(Provider::Tmdb, MediaType::Movie, "6")];
    let returned = vec![read_json(&media(5, "su")).unwrap()];
    let (learned, unknown) = absorb(&mut meta, MediaType::Movie, &asked, &returned, at(0));
    assert_eq!((learned, unknown), (1, 1));
    let mut by_imdb = Item::new(MediaType::Movie);
    by_imdb.ids.imdb = Some("tt0000005".into());
    assert_eq!(meta.lookup(&by_imdb).unwrap().country.as_deref(), Some("su"));
    let keys = keys_from_response(&returned[0], MediaType::Movie);
    assert_eq!(keys.len(), 3, "tmdb, trakt and imdb; the null tvdb is skipped");
}

#[test]
fn the_preferred_key_is_tmdb_then_imdb() {
    let mut item = Item::new(MediaType::Movie);
    assert!(preferred_key(&item).is_none());
    item.ids.imdb = Some("tt0000007".into());
    assert_eq!(preferred_key(&item).unwrap().provider, Provider::Imdb);
    item.ids.tmdb = Some(7);
    let k = preferred_key(&item).unwrap();
    assert_eq!((k.provider, k.value.as_str()), (Provider::Tmdb, "7"));
}

#[test]
fn batch_urls_name_the_provider_and_the_media_type() {
    assert_eq!(batch_url("http://mdb.test//", Provider::Imdb, MediaType::Show), "http://mdb.test/imdb/show");
}
