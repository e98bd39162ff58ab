use repsetarr::api::{
    endpoints, kometa_json, kometa_text, narrow, radarr_payload, render, response_headers,
    sonarr_payload, Body, KometaEntry, ListQuery, OutputFormat, VERSION,
};
use repsetarr::clock::Stamp;
use repsetarr::doc::Doc;
use repsetarr::config::model::{KometaConfig, MediaTypeFilter};
use repsetarr::lists::{EvalError, Evaluation};
use repsetarr::model::{Item, MediaType};

fn movie(tmdb: Option<u32>, imdb: Option<&str>, title: &str, year: i32) -> Item {
    let mut item = Item::new(MediaType::Movie);
    item.ids.tmdb = tmdb;
    item.ids.imdb = imdb.map(str::to_string);
    item.title = Some(title.to_string());
    item.year = Some(year);
    item
}

fn show(tvdb: Option<u32>, tmdb: Option<u32>, title: &str) -> Item {
    let mut item = Item::new(MediaType::Show);
    item.ids.tmdb = tmdb;
    item.ids.tvdb = tvdb;
    item.ids.imdb = Some("tt0903747".into());
    item.title = Some(title.to_string());
    item
}

fn bare_show(tvdb: Option<u32>, tmdb: Option<u32>, imdb: Option<&str>) -> Item {
    let mut item = Item::new(MediaType::Show);
    item.ids.tmdb = tmdb;
    item.ids.tvdb = tvdb;
    item.ids.imdb = imdb.map(str::to_string);
    item.title = Some("Some Show".into());
    item
}

#[test]
fn the_radarr_payload_is_what_radarr_parses() {
    let items = vec![
        movie(Some(550), Some("tt0137523"), "Fight Club", 1999),
        movie(None, Some("tt0133093"), "The Matrix", 1999),
        show(Some(81189), Some(1396), "Breaking Bad"),
    ];
    let (payload, skipped) = radarr_payload(&items);
    assert_eq!(skipped, 1, "the movie with no TMDb id is dropped");
    assert_eq!(payload.len(), 1, "shows never appear in a Radarr list");
    assert_eq!(payload[0].id, 550);
    assert_eq!(payload[0].title.as_deref(), Some("Fight Club"));
    assert_eq!(payload[0].imdb_id.as_deref(), Some("tt0137523"));
    assert_eq!(payload[0].year, Some(1999));
}

#[test]
fn the_sonarr_payload_is_what_sonarr_parses() {
    let items = vec![
        show(Some(81189), Some(1396), "Breaking Bad"),
        show(None, Some(1399), "Game of Thrones"),
        movie(Some(550), None, "Fight Club", 1999),
    ];
    let (payload, without_tvdb) = sonarr_payload(&items);
    assert_eq!(without_tvdb, 1);
    assert_eq!(payload.len(), 2, "movies are excluded");
    assert_eq!(payload[0].title.as_deref(), Some("Breaking Bad"));
    assert_eq!(payload[0].tvdb_id, Some(81189));
    assert_eq!(payload[0].tmdb_id, Some(1396));
    assert_eq!(payload[0].imdb_id.as_deref(), Some("tt0903747"));
    assert_eq!(payload[1].title.as_deref(), Some("Game of Thrones"));
    assert_eq!(payload[1].tvdb_id, None, "unknown ids are omitted, not zero");
    assert_eq!(payload[1].tmdb_id, Some(1399));
}

#[test]
fn the_kometa_text_file_prefixes_every_id() {
    let items = vec![
        movie(Some(550), Some("tt0137523"), "Fight Club", 1999),
        movie(None, Some("tt0133093"), "The Matrix", 1999),
        show(Some(81189), Some(1396), "Breaking Bad"),
    ];
    let (body, skipped) = kometa_text("wanted", &items);
    assert_eq!(skipped, 0);
    assert_eq!(
        body.lines().skip(1).collect::<Vec<_>>(),
        vec![
            "tmdb:550       # Fight Club (1999)",
            "imdb:tt0133093 # The Matrix (1999)",
            "tvdb:81189     # Breaking Bad",
        ],
        "ids are prefixed and the comments line up"
    );
    assert!(body.starts_with("# Generated by Repsetarr"), "{body}");
}

#[test]
fn the_kometa_json_list_uses_the_documented_keys_where_there_are_any() {
    let items = vec![
        movie(Some(550), Some("tt0137523"), "Fight Club", 1999),
        movie(None, Some("tt0133093"), "The Matrix", 1999),
        show(Some(81189), Some(1396), "Breaking Bad"),
    ];
    let (payload, skipped) = kometa_json(&items);
    assert_eq!(skipped, 0);
    assert_eq!(payload.len(), 3);
    assert!(matches!(payload[0], KometaEntry::TmdbId(550)));
    assert!(matches!(&payload[1], KometaEntry::ImdbId(s) if s == "tt0133093"));
    assert!(matches!(payload[2], KometaEntry::Typed("tvdb", 81189)));
}

#[test]
fn a_show_falls_back_tvdb_then_imdb_then_tmdb() {
    let cases = [
        (bare_show(Some(1), Some(2), Some("tt3")), "tvdb:1"),
        (bare_show(None, Some(2), Some("tt3")), "imdb:tt3"),
        (bare_show(None, Some(2), None), "tmdb:2"),
    ];
    for (item, expected) in cases {
        let (body, skipped) = kometa_text("wanted", &vec![item]);
        assert_eq!(skipped, 0);
        assert!(
            body.lines().nth(1).expect("one line").starts_with(expected),
            "{expected}: {body}"
        );
    }
}

#[test]
fn an_item_kometa_could_not_look_up_is_skipped_and_counted() {
    let items = vec![movie(Some(550), None, "Fight Club", 1999), bare_show(None, None, None)];
    let (body, skipped) = kometa_text("wanted", &items);
    assert_eq!(skipped, 1);
    assert_eq!(body.lines().count(), 2, "the header and one id: {body}");
    assert!(body.contains("1 item(s)"), "{body}");

    let (payload, skipped) = kometa_json(&items);
    assert_eq!(skipped, 1);
    assert_eq!(payload.len(), 1);
}

#[test]
fn an_empty_list_is_just_the_header() {
    let (body, skipped) = kometa_text("wanted", &vec![]);
    assert_eq!(skipped, 0);
    assert_eq!(body, format!("# Generated by Repsetarr {VERSION} - list `wanted` - 0 item(s)\n"));
    let (payload, skipped) = kometa_json(&vec![]);
    assert!(payload.is_empty());
    assert_eq!(skipped, 0);
}

#[test]
fn a_show_known_only_by_tmdb_goes_through_the_typed_escape_hatch() {
    let (payload, _) = kometa_json(&vec![bare_show(None, Some(1399), None)]);
    assert!(matches!(payload[0], KometaEntry::Typed("tmdb_show", 1399)));
}

// ----- query parameters -----

fn params(pairs: &[(&str, &str)]) -> Vec<(String, String)> {
    pairs.iter().map(|(k, v)| (k.to_string(), v.to_string())).collect()
}

#[test]
fn no_parameters_mean_json_of_any_media_type() {
    let query = ListQuery::from_params(&params(&[])).unwrap();
    assert_eq!(query.format, OutputFormat::Json);
    assert_eq!(query.media_type, MediaTypeFilter::Any);
}

#[test]
fn formats_accept_either_separator() {
    let query = ListQuery::from_params(&params(&[("format", "Kometa_Text")])).unwrap();
    assert_eq!(query.format, OutputFormat::KometaText);
    let query = ListQuery::from_params(&params(&[("format", "kometa-json")])).unwrap();
    assert_eq!(query.format, OutputFormat::KometaJson);
}

#[test]
fn media_type_accepts_the_spellings_a_human_types() {
    for spelling in ["movies", "movie"] {
        let query = ListQuery::from_params(&params(&[("media_type", spelling)])).unwrap();
        assert_eq!(query.media_type, MediaTypeFilter::Movie, "{spelling}");
    }
    let query = ListQuery::from_params(&params(&[("media_type", "any")])).unwrap();
    assert_eq!(query.media_type, MediaTypeFilter::Any);
}

#[test]
fn a_media_type_the_format_cannot_serve_is_refused() {
    let error = ListQuery::from_params(&params(&[("format", "radarr"), ("media_type", "shows")]))
        .unwrap_err();
    assert!(
        error.contains("serves movies only, but media_type `shows` was requested"),
        "{error}"
    );
    assert!(ListQuery::from_params(&params(&[("format", "radarr"), ("media_type", "movies")])).is_ok());
}

#[test]
fn an_unusable_query_names_what_is_wrong() {
    let error = ListQuery::from_params(&params(&[("format", "bogus")])).unwrap_err();
    assert!(error.contains("unknown format"), "{error}");
    let error = ListQuery::from_params(&params(&[("media_type", "anime")])).unwrap_err();
    assert!(error.contains("unknown media_type"), "{error}");
    let error = ListQuery::from_params(&params(&[("fomat", "radarr")])).unwrap_err();
    assert!(error.contains("unknown parameter"), "{error}");
}

#[test]
fn of_two_mistakes_the_first_by_name_is_reported() {
    let error = ListQuery::from_params(&params(&[("zzz", "1"), ("format", "bogus")])).unwrap_err();
    assert!(error.contains("unknown format"), "{error}");
}

#[test]
fn each_format_names_itself() {
    for format in [
        OutputFormat::Json,
        OutputFormat::Radarr,
        OutputFormat::Sonarr,
        OutputFormat::Kometa,
        OutputFormat::KometaText,
        OutputFormat::KometaJson,
    ] {
        assert_eq!(OutputFormat::parse(format.as_str()), Some(format));
    }
    assert_eq!(OutputFormat::Radarr.media_type(), Some(MediaType::Movie));
    assert_eq!(OutputFormat::Sonarr.media_type(), Some(MediaType::Show));
    assert_eq!(OutputFormat::Json.media_type(), None);
}

// ----- response metadata -----

fn evaluation(stale: &[&str], unenriched: usize) -> Evaluation {
    Evaluation {
        name: "wanted".into(),
        items: Vec::new(),
        stale_sources: stale.iter().map(|s| s.to_string()).collect(),
        unenriched,
        evaluated_at: Stamp { secs: 0, nanos: 0 },
    }
}

#[test]
fn headers_report_counts_and_stale_sources() {
    let headers = response_headers(&evaluation(&["a", "b"], 3), 10, 2);
    let pairs: Vec<(&str, &str)> = headers.iter().map(|(k, v)| (*k, v.as_str())).collect();
    assert_eq!(
        pairs,
        vec![
            ("X-Repsetarr-Count", "10"),
            ("X-Repsetarr-Skipped", "2"),
            ("X-Repsetarr-Unenriched", "3"),
            ("X-Repsetarr-Stale", "a,b"),
        ]
    );
}

#[test]
fn quiet_headers_are_left_out() {
    let headers = response_headers(&evaluation(&[], 0), 4, 0);
    assert_eq!(headers.len(), 1);
    assert_eq!(headers[0].0, "X-Repsetarr-Count");
    assert_eq!(headers[0].1, "4");
}

#[test]
fn every_format_has_an_endpoint() {
    let urls = endpoints("wanted");
    assert_eq!(urls.len(), 6);
    assert_eq!(urls[0], ("json", "/api/lists/wanted".to_string()));
    assert_eq!(urls[1], ("radarr", "/api/lists/wanted?format=radarr".to_string()));
    assert_eq!(urls[3], ("kometa", "/api/lists/wanted?format=kometa".to_string()));
    assert_eq!(urls[5], ("kometa-json", "/api/lists/wanted?format=kometa-json".to_string()));
}

// ----- one list response -----

fn evaluation_of(items: Vec<Item>) -> Evaluation {
    Evaluation {
        name: "everything".into(),
        items,
        stale_sources: Vec::new(),
        unenriched: 0,
        evaluated_at: Stamp { secs: 0, nanos: 0 },
    }
}

fn mixed() -> Vec<Item> {
    vec![
        movie(Some(550), Some("tt0137523"), "Fight Club", 1999),
        show(Some(81189), Some(1396), "Breaking Bad"),
        movie(None, Some("tt0133093"), "The Matrix", 1999),
    ]
}

fn query(format: OutputFormat, media_type: MediaTypeFilter) -> ListQuery {
    ListQuery { format, media_type }
}

#[test]
fn media_type_narrows_a_mixed_list() {
    let narrowed = narrow(&mixed(), MediaTypeFilter::Movie);
    let ids: Vec<Option<u32>> = narrowed.iter().map(|i| i.ids.tmdb).collect();
    assert_eq!(ids, vec![Some(550), None]);
    assert_eq!(narrow(&mixed(), MediaTypeFilter::Any).len(), 3);
    assert_eq!(narrow(&mixed(), MediaTypeFilter::Show).len(), 1);
}

#[test]
fn the_radarr_format_counts_what_it_could_not_serve() {
    let rendered = render("everything", &KometaConfig::default_value(), query(OutputFormat::Radarr, MediaTypeFilter::Any), &evaluation_of(mixed()));
    match rendered.body {
        Body::Radarr(payload) => assert_eq!(payload.iter().map(|m| m.id).collect::<Vec<_>>(), vec![550]),
        other => panic!("expected a Radarr body, got {other:?}"),
    }
    assert_eq!(rendered.content_type, "application/json");
    let headers: Vec<(&str, &str)> = rendered.headers.iter().map(|(k, v)| (*k, v.as_str())).collect();
    assert_eq!(headers, vec![("X-Repsetarr-Count", "1"), ("X-Repsetarr-Skipped", "1")]);
}

#[test]
fn the_kometa_text_format_is_plain_text() {
    let rendered = render(
        "everything",
        &KometaConfig::default_value(),
        query(OutputFormat::KometaText, MediaTypeFilter::Show),
        &evaluation_of(mixed()),
    );
    assert_eq!(rendered.content_type, "text/plain; charset=utf-8");
    match rendered.body {
        Body::KometaText(text) => {
            assert!(text.starts_with("# Generated by Repsetarr"), "{text}");
            assert_eq!(text.lines().nth(1), Some("tvdb:81189 # Breaking Bad"));
        }
        other => panic!("expected text, got {other:?}"),
    }
}

#[test]
fn the_json_format_serves_the_items_themselves() {
    let rendered = render("everything", &KometaConfig::default_value(), query(OutputFormat::Json, MediaTypeFilter::Any), &evaluation_of(mixed()));
    match rendered.body {
        Body::Items(items) => assert_eq!(items.len(), 3),
        other => panic!("expected items, got {other:?}"),
    }
    assert_eq!(rendered.headers.len(), 1);
}

#[test]
fn an_error_answers_with_its_status() {
    assert_eq!(EvalError::UnknownList("x".into()).status_code(), 404);
    assert_eq!(EvalError::NoData(vec!["a".into()]).status_code(), 503);
    assert_eq!(EvalError::Other("boom".into()).status_code(), 500);
    assert_eq!(
        EvalError::NoData(vec!["a".into(), "b".into()]).message(),
        "no data has been fetched yet for source(s): a, b"
    );
}

// ----- the Kometa collection file -----

fn api_sample() -> Vec<Item> {
    vec![
        movie(Some(550), None, "Fight Club", 1999),
        movie(Some(13), None, "Forrest Gump", 1994),
        bare_show(Some(81189), None, None),
        bare_show(None, Some(1399), None),
    ]
}

#[test]
fn the_kometa_format_serves_a_collection_file() {
    assert_eq!(OutputFormat::parse("kometa"), Some(OutputFormat::Kometa));
    assert_eq!(OutputFormat::parse(" Kometa "), Some(OutputFormat::Kometa));
    let rendered = render(
        "everything",
        &KometaConfig::default_value(),
        query(OutputFormat::Kometa, MediaTypeFilter::Any),
        &evaluation_of(api_sample()),
    );
    assert_eq!(rendered.content_type, "application/yaml; charset=utf-8");
    match rendered.body {
        Body::Kometa(text) => {
            assert!(text.contains("tmdb_movie: 550, 13"), "{text}");
            assert!(text.contains("tvdb_show: '81189'"), "{text}");
            assert!(text.contains("tmdb_show: '1399'"), "{text}");
            assert_eq!(
                text,
                "collections:\n  \"everything\":\n    tmdb_movie: 550, 13\n    tvdb_show: '81189'\n    tmdb_show: '1399'\n    sync_mode: \"sync\"\n    collection_order: \"custom\"\n"
            );
        }
        other => panic!("expected a collection file, got {other:?}"),
    }
    let headers: Vec<(&str, &str)> = rendered.headers.iter().map(|(k, v)| (*k, v.as_str())).collect();
    assert_eq!(headers, vec![("X-Repsetarr-Count", "4")]);
}

#[test]
fn the_kometa_format_narrows_by_media_type() {
    let movies = render(
        "everything",
        &KometaConfig::default_value(),
        query(OutputFormat::Kometa, MediaTypeFilter::Movie),
        &evaluation_of(api_sample()),
    );
    match movies.body {
        Body::Kometa(text) => {
            assert!(text.contains("tmdb_movie: 550, 13"), "{text}");
            assert!(!text.contains("_show"), "{text}");
        }
        other => panic!("expected a collection file, got {other:?}"),
    }
    assert_eq!(movies.headers[0], ("X-Repsetarr-Count", "2".to_string()));
    let shows = render(
        "everything",
        &KometaConfig::default_value(),
        query(OutputFormat::Kometa, MediaTypeFilter::Show),
        &evaluation_of(api_sample()),
    );
    match shows.body {
        Body::Kometa(text) => {
            assert!(text.contains("tvdb_show: '81189'"), "{text}");
            assert!(!text.contains("tmdb_movie"), "{text}");
        }
        other => panic!("expected a collection file, got {other:?}"),
    }
    assert_eq!(shows.headers[0], ("X-Repsetarr-Count", "2".to_string()));
}

#[test]
fn the_collection_file_names_imdb_ids_and_skips_items_without_ids() {
    let items = vec![
        movie(None, Some("tt0133093"), "The Matrix", 1999),
        bare_show(None, None, None),
    ];
    let rendered = render(
        "it's",
        &KometaConfig::default_value(),
        query(OutputFormat::Kometa, MediaTypeFilter::Any),
        &evaluation_of(items),
    );
    match rendered.body {
        Body::Kometa(text) => {
            assert!(text.contains("  \"it's\":\n"), "{text}");
            assert!(text.contains("    imdb_id: 'tt0133093'\n"), "{text}");
        }
        other => panic!("expected a collection file, got {other:?}"),
    }
    let headers: Vec<(&str, &str)> = rendered.headers.iter().map(|(k, v)| (*k, v.as_str())).collect();
    assert_eq!(headers, vec![("X-Repsetarr-Count", "1"), ("X-Repsetarr-Skipped", "1")]);
}

#[test]
fn the_index_offers_the_collection_file() {
    let urls = endpoints("everything");
    assert!(urls.contains(&("kometa", "/api/lists/everything?format=kometa".to_string())), "{urls:?}");
}

#[test]
fn the_collection_file_carries_the_kometa_settings() {
    let kometa = KometaConfig {
        collection: Some("Wanted \"Movies\"".to_string()),
        sync_mode: "append".to_string(),
        collection_order: "release".to_string(),
        extra: vec![
            ("visible_home".to_string(), Doc::Bool(true)),
            ("labels".to_string(), Doc::List(vec![Doc::Text("a".into()), Doc::Null])),
        ],
    };
    let rendered = render(
        "wanted",
        &kometa,
        query(OutputFormat::Kometa, MediaTypeFilter::Any),
        &evaluation_of(vec![movie(Some(550), None, "Fight Club", 1999)]),
    );
    match rendered.body {
        Body::Kometa(text) => assert_eq!(
            text,
            "collections:\n  \"Wanted \\\"Movies\\\"\":\n    tmdb_movie: '550'\n    sync_mode: \"append\"\n    collection_order: \"release\"\n    \"visible_home\": true\n    \"labels\": [\"a\", null]\n"
        ),
        other => panic!("expected a collection file, got {other:?}"),
    }
}
