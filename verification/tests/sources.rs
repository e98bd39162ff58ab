use repsetarr::config::model::{
    ArrSource, FieldMap, JsonSource, MdblistSource, MediaTypeFilter, StaticSource,
};
use repsetarr::doc::{read_json, Doc};
use repsetarr::model::{Date, MediaType};
use repsetarr::sources::json_value::{as_date, as_genres, as_i32, as_u32, dig, first_present};
use repsetarr::sources::mdblist::{address, convert, into_items, list_url, Pager};
use repsetarr::sources::{arr, json_url, mdblist, static_list};

fn json(text: &str) -> Doc {
    read_json(text).expect("valid JSON")
}

// ----- loose JSON values -----

#[test]
fn numbers_parse_from_both_json_shapes() {
    assert_eq!(as_u32(Some(&json("550"))), Some(550));
    assert_eq!(as_u32(Some(&json("\"550\""))), Some(550));
    assert_eq!(as_u32(Some(&json("null"))), None);
    assert_eq!(as_u32(Some(&json("-1"))), None);
    assert_eq!(as_i32(Some(&json("-1"))), Some(-1));
}

#[test]
fn dates_tolerate_trailing_timestamps() {
    assert_eq!(
        as_date(Some(&json("\"1999-10-15T00:00:00Z\""))),
        Some(Date { year: 1999, month: 10, day: 15 })
    );
    assert_eq!(as_date(Some(&json("\"not a date\""))), None);
}

#[test]
fn genres_normalize_from_both_shapes() {
    assert_eq!(
        as_genres(Some(&json(r#"["Drama", "War"]"#))),
        vec!["drama".to_string(), "war".to_string()]
    );
    assert_eq!(
        as_genres(Some(&json(r#"[{"id": 6, "title": "Drama"}, {"title": "drama"}]"#))),
        vec!["drama".to_string()]
    );
    assert!(as_genres(Some(&json("null"))).is_empty());
    assert!(as_genres(None).is_empty());
}

#[test]
fn key_candidates_are_tried_in_order() {
    let object = json(r#"{"tmdb_id": 550, "tmdb": 1}"#);
    let keys = vec!["tmdbId".to_string(), "tmdb_id".to_string(), "tmdb".to_string()];
    assert_eq!(as_u32(first_present(&object, &keys)), Some(550));
    assert!(first_present(&object, &vec!["nope".to_string()]).is_none());
}

#[test]
fn dotted_paths_navigate_nested_objects() {
    let object = json(r#"{"data": {"items": [1, 2]}}"#);
    match dig(&object, "data.items") {
        Some(Doc::List(items)) => assert_eq!(items.len(), 2),
        other => panic!("expected a list, got {other:?}"),
    }
    assert!(dig(&object, "data.missing").is_none());
    assert!(dig(&object, "").is_some());
}

// ----- JSON feeds -----

fn feed_source() -> JsonSource {
    JsonSource {
        url: "http://example.test/list.json".into(),
        headers: Vec::new(),
        path: None,
        fields: FieldMap::default_value(),
        media_type: MediaType::Movie,
        ttl: None,
        extra: Vec::new(),
    }
}

#[test]
fn a_stevenlu_style_feed_parses_with_the_default_field_names() {
    let document = json(
        r#"[
        {"title": "Fight Club", "imdb_id": "tt0137523"},
        {"title": "The Matrix", "imdb_id": "tt0133093"}
    ]"#,
    );
    let items = json_url::parse(&document, &feed_source()).unwrap();
    assert_eq!(items.len(), 2);
    assert_eq!(items[0].ids.imdb.as_deref(), Some("tt0137523"));
    assert_eq!(items[0].media_type, MediaType::Movie);
    assert_eq!(items[1].rank, Some(2));
}

#[test]
fn a_nested_array_is_reachable_by_path() {
    let document = json(r#"{"data": {"items": [{"tmdbId": 550}]}}"#);
    let source = JsonSource { path: Some("data.items".into()), ..feed_source() };
    assert_eq!(json_url::parse(&document, &source).unwrap()[0].ids.tmdb, Some(550));
}

#[test]
fn field_names_can_be_remapped() {
    let document = json(r#"[{"movie_db_id": 550, "label": "Fight Club", "kind": "show"}]"#);
    let mut source = feed_source();
    source.fields.tmdb = vec!["movie_db_id".into()];
    source.fields.title = vec!["label".into()];
    source.fields.media_type = vec!["kind".into()];
    let items = json_url::parse(&document, &source).unwrap();
    assert_eq!(items[0].ids.tmdb, Some(550));
    assert_eq!(items[0].title.as_deref(), Some("Fight Club"));
    assert_eq!(items[0].media_type, MediaType::Show);
}

#[test]
fn entries_without_ids_are_skipped_and_bad_shapes_error() {
    let document = json(r#"[{"title": "Nameless"}, {"tmdb": 1}]"#);
    assert_eq!(json_url::parse(&document, &feed_source()).unwrap().len(), 1);

    let error = json_url::parse(&json(r#"{"not": "an array"}"#), &feed_source()).unwrap_err();
    assert!(error.contains("expected a JSON array"), "{error}");

    let source = JsonSource { path: Some("missing".into()), ..feed_source() };
    assert!(json_url::parse(&json("{}"), &source).is_err());
}

// ----- Radarr and Sonarr -----

fn arr_source(monitored_only: bool) -> ArrSource {
    ArrSource {
        url: "http://radarr:7878".into(),
        api_key: "key".into(),
        monitored_only,
        ttl: None,
        extra: Vec::new(),
    }
}

#[test]
fn radarr_movies_parse() {
    let document = json(
        r#"[
        {"title": "Fight Club", "year": 1999, "tmdbId": 550, "imdbId": "tt0137523",
         "monitored": true, "inCinemas": "1999-09-10T00:00:00Z"},
        {"title": "Untracked", "year": 2020, "tmdbId": 1, "monitored": false}
    ]"#,
    );
    let items = arr::parse(&document, &arr_source(false), MediaType::Movie).unwrap();
    assert_eq!(items.len(), 2);
    assert_eq!(items[0].ids.tmdb, Some(550));
    assert_eq!(items[0].ids.imdb.as_deref(), Some("tt0137523"));
    assert_eq!(items[0].released.unwrap().to_text(), "1999-09-10");
}

#[test]
fn monitored_only_filters() {
    let document = json(
        r#"[
        {"tmdbId": 550, "monitored": true},
        {"tmdbId": 1, "monitored": false}
    ]"#,
    );
    let items = arr::parse(&document, &arr_source(true), MediaType::Movie).unwrap();
    assert_eq!(items.len(), 1);
    assert_eq!(items[0].ids.tmdb, Some(550));
}

#[test]
fn sonarr_series_carry_tvdb_ids() {
    let document = json(
        r#"[
        {"title": "Breaking Bad", "year": 2008, "tvdbId": 81189, "tmdbId": 1396,
         "imdbId": "tt0903747", "monitored": true, "firstAired": "2008-01-20T00:00:00Z"}
    ]"#,
    );
    let items = arr::parse(&document, &arr_source(false), MediaType::Show).unwrap();
    assert_eq!(items[0].media_type, MediaType::Show);
    assert_eq!(items[0].ids.tvdb, Some(81189));
    assert_eq!(items[0].released.unwrap().to_text(), "2008-01-20");
}

#[test]
fn the_arr_endpoint_depends_on_the_media_type() {
    let source = ArrSource { url: "http://radarr:7878//".into(), ..arr_source(false) };
    assert_eq!(arr::arr_url(&source, MediaType::Movie), "http://radarr:7878/api/v3/movie");
    assert_eq!(arr::arr_url(&source, MediaType::Show), "http://radarr:7878/api/v3/series");
}

#[test]
fn an_arr_body_that_is_not_json_is_an_error() {
    let source = arr_source(false);
    assert!(arr::read_response("<html>", "http://radarr:7878/api/v3/movie", &source, MediaType::Movie).is_err());
    let items = arr::read_response(r#"[{"tmdbId": 7}]"#, "u", &source, MediaType::Movie).unwrap();
    assert_eq!(items[0].ids.tmdb, Some(7));
}

// ----- MDBList -----

fn mdb_source() -> MdblistSource {
    MdblistSource {
        list: None,
        list_id: None,
        url: None,
        apikey: None,
        media_type: MediaTypeFilter::Any,
        limit: None,
        ttl: None,
        extra: Vec::new(),
    }
}

#[test]
fn lists_are_addressed_by_name_id_or_url() {
    let named = MdblistSource { list: Some("garycrawfordgc/latest-tv-shows".into()), ..mdb_source() };
    assert_eq!(address(&named).unwrap().path(), "lists/garycrawfordgc/latest-tv-shows/items");

    let by_id = MdblistSource { list_id: Some(4321), ..mdb_source() };
    assert_eq!(address(&by_id).unwrap().path(), "lists/4321/items");

    for url in [
        "https://mdblist.com/lists/user/my-list",
        "https://mdblist.com/lists/user/my-list/",
        "https://mdblist.com/lists/user/my-list/json",
        "https://mdblist.com/lists/user/my-list?sort=rank",
    ] {
        let from_url = MdblistSource { url: Some(url.into()), ..mdb_source() };
        assert_eq!(address(&from_url).unwrap().path(), "lists/user/my-list/items", "{url}");
    }

    let bad = MdblistSource { url: Some("https://example.com/nope".into()), ..mdb_source() };
    assert!(address(&bad).is_err());
}

#[test]
fn items_prefer_the_nested_id_block() {
    let raw = json(
        r#"{
        "id": 999,
        "title": "Fight Club",
        "imdb_id": "tt0137523",
        "release_year": 1999,
        "released": "1999-10-15",
        "rank": 7,
        "ids": {"tmdb": 550, "imdb": "tt0137523", "tvdb": null}
    }"#,
    );
    let item = convert(Some(MediaType::Movie), &raw, 0).unwrap();
    assert_eq!(item.ids.tmdb, Some(550));
    assert_eq!(item.ids.imdb.as_deref(), Some("tt0137523"));
    assert_eq!(item.ids.tvdb, None);
    assert_eq!(item.year, Some(1999));
    assert_eq!(item.rank, Some(7));
    assert_eq!(item.media_type, MediaType::Movie);
}

#[test]
fn a_flat_id_is_used_when_there_is_no_nested_block() {
    let raw = json(r#"{"id": 550, "title": "Fight Club"}"#);
    assert_eq!(convert(Some(MediaType::Movie), &raw, 0).unwrap().ids.tmdb, Some(550));
}

#[test]
fn an_explicit_mediatype_overrides_the_array_it_came_from() {
    let raw = json(r#"{"id": 1396, "mediatype": "show"}"#);
    let item = convert(Some(MediaType::Movie), &raw, 0).unwrap();
    assert_eq!(item.media_type, MediaType::Show);
}

#[test]
fn items_without_any_id_are_dropped() {
    assert!(convert(Some(MediaType::Movie), &json(r#"{"title": "Nameless"}"#), 0).is_none());
}

#[test]
fn both_response_shapes_parse_and_errors_surface() {
    let split = json(r#"{"movies": [{"id": 1}], "shows": [{"id": 2}]}"#);
    let items = into_items(&split).unwrap();
    assert_eq!(items.len(), 2);
    assert_eq!(items[0].0, Some(MediaType::Movie));
    assert_eq!(items[1].0, Some(MediaType::Show));

    let flat = json(r#"[{"id": 1}]"#);
    assert_eq!(into_items(&flat).unwrap().len(), 1);

    let error = json(r#"{"error": "API Key Not Valid"}"#);
    let message = into_items(&error).unwrap_err();
    assert!(message.contains("API Key Not Valid"), "{message}");
}

#[test]
fn a_list_url_joins_the_base_and_the_address() {
    let named = MdblistSource { list: Some("user/list".into()), ..mdb_source() };
    let url = list_url("https://api.mdblist.com", &address(&named).unwrap());
    assert_eq!(url, "https://api.mdblist.com/lists/user/list/items");
}

#[test]
fn pages_are_asked_for_until_the_server_says_stop() {
    let mut pager = Pager::new(None);
    let (size, offset) = pager.next_request().unwrap();
    assert_eq!(offset, 0);
    let page = json(r#"{"movies": [{"id": 1}, {"id": 2}]}"#);
    let entries = into_items(&page).unwrap();
    pager.absorb(&entries, 2, Some(true));
    let (_, offset) = pager.next_request().unwrap();
    assert_eq!(offset, 2);
    let page = json(r#"{"movies": [{"id": 3}]}"#);
    let entries = into_items(&page).unwrap();
    pager.absorb(&entries, size, Some(false));
    assert!(pager.next_request().is_none());
    let items = pager.finish(MediaTypeFilter::Any);
    let ids: Vec<Option<u32>> = items.iter().map(|i| i.ids.tmdb).collect();
    assert_eq!(ids, vec![Some(1), Some(2), Some(3)]);
}

#[test]
fn a_limit_stops_paging_and_cuts_the_list() {
    let mut pager = Pager::new(Some(2));
    let (size, _) = pager.next_request().unwrap();
    assert_eq!(size, 2);
    let page = json(r#"{"movies": [{"id": 1}], "shows": [{"id": 2}]}"#);
    let entries = into_items(&page).unwrap();
    pager.absorb(&entries, size, Some(true));
    assert!(pager.next_request().is_none());
    let shows = pager.finish(MediaTypeFilter::Show);
    assert_eq!(shows.len(), 1);
    assert_eq!(shows[0].ids.tmdb, Some(2));
}

#[test]
fn an_mdblist_error_page_is_reported() {
    assert!(mdblist::read_page("not json").is_err());
    let page = mdblist::read_page(r#"{"error": "API Key Not Valid"}"#).unwrap();
    assert!(into_items(&page).is_err());
}

// ----- static lists -----

#[test]
fn specs_become_ranked_items() {
    let source = StaticSource {
        items: vec!["tmdb:550".into(), "imdb:tt0133093".into()],
        media_type: MediaType::Movie,
        extra: Vec::new(),
    };
    let items = static_list::fetch(&source).unwrap();
    assert_eq!(items.len(), 2);
    assert_eq!(items[0].ids.tmdb, Some(550));
    assert_eq!(items[0].rank, Some(1));
    assert_eq!(items[1].ids.imdb.as_deref(), Some("tt0133093"));
    assert_eq!(items[1].media_type, MediaType::Movie);
}

#[test]
fn a_bad_static_spec_names_its_position() {
    let source = StaticSource {
        items: vec!["tmdb:550".into(), "550".into()],
        media_type: MediaType::Movie,
        extra: Vec::new(),
    };
    let error = static_list::fetch(&source).unwrap_err();
    assert!(error.starts_with("static item #2"), "{error}");
}

#[test]
fn the_has_more_header_is_read_in_any_case() {
    assert_eq!(mdblist::has_more(Some("TRUE")), Some(true));
    assert_eq!(mdblist::has_more(Some("false")), Some(false));
    assert_eq!(mdblist::has_more(Some("yes")), Some(false));
    assert_eq!(mdblist::has_more(None), None);
}

#[test]
fn an_instance_that_refuses_the_key_says_so() {
    let url = "http://radarr:7878/api/v3/movie";
    assert_eq!(
        arr::check_status(401, "401 Unauthorized", url).unwrap_err(),
        "http://radarr:7878/api/v3/movie rejected the API key"
    );
    assert_eq!(
        arr::check_status(500, "500 Internal Server Error", url).unwrap_err(),
        "http://radarr:7878/api/v3/movie returned 500 Internal Server Error"
    );
    assert!(arr::check_status(200, "200 OK", url).is_ok());
}

#[test]
fn a_feed_answer_is_checked_then_read() {
    let source = feed_source();
    assert_eq!(
        json_url::read_response(404, "404 Not Found", "", &source).unwrap_err(),
        "http://example.test/list.json returned 404 Not Found"
    );
    assert!(json_url::read_response(200, "200 OK", "<html>", &source)
        .unwrap_err()
        .starts_with("parsing JSON from http://example.test/list.json: "));
    let items = json_url::read_response(200, "200 OK", r#"[{"tmdb": 5}]"#, &source).unwrap();
    assert_eq!(items[0].ids.tmdb, Some(5));
}

#[test]
fn text_that_is_not_json_is_refused_with_the_parsers_message() {
    assert!(read_json("{").unwrap_err().starts_with("parsing JSON: "));
    assert!(repsetarr::doc::read_yaml("a: [").unwrap_err().starts_with("parsing YAML: "));
}

#[test]
fn an_mdblist_page_that_is_not_2xx_is_an_error() {
    assert!(mdblist::check_status(200, "200 OK", "u", "").is_ok());
    let e = mdblist::check_status(404, "404 Not Found", "u", "gone").unwrap_err();
    assert_eq!(e, "MDBList returned 404 Not Found for u: gone");
}
