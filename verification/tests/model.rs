use repsetarr::model::{normalize_imdb, parse_id_spec, Item, MediaType};

#[test]
fn imdb_ids_normalize_to_a_canonical_form() {
    assert_eq!(normalize_imdb("tt0137523").as_deref(), Some("tt0137523"));
    assert_eq!(normalize_imdb("TT0137523").as_deref(), Some("tt0137523"));
    assert_eq!(normalize_imdb("137523").as_deref(), Some("tt0137523"));
    assert_eq!(normalize_imdb(" tt12345678 ").as_deref(), Some("tt12345678"));
    assert_eq!(normalize_imdb("nope"), None);
    assert_eq!(normalize_imdb(""), None);
}

#[test]
fn keys_are_scoped_by_media_type() {
    let mut movie = Item::new(MediaType::Movie);
    movie.ids.tmdb = Some(550);
    let mut show = Item::new(MediaType::Show);
    show.ids.tmdb = Some(550);
    let movie_keys = movie.keys();
    let show_keys = show.keys();
    assert_eq!(movie_keys.len(), show_keys.len());
    let all_same = movie_keys
        .iter()
        .zip(show_keys.iter())
        .all(|(a, b)| a.same(b));
    assert!(!all_same);
}

#[test]
fn merge_keeps_existing_values_and_fills_the_gaps() {
    let mut a = Item::new(MediaType::Movie);
    a.ids.tmdb = Some(550);
    a.title = Some("Fight Club".into());
    let mut b = Item::new(MediaType::Movie);
    b.ids.imdb = Some("tt0137523".into());
    b.title = Some("Le Cercle des combattants".into());
    b.year = Some(1999);
    a.merge_from(&b);
    assert_eq!(a.ids.tmdb, Some(550));
    assert_eq!(a.ids.imdb.as_deref(), Some("tt0137523"));
    assert_eq!(a.title.as_deref(), Some("Fight Club"));
    assert_eq!(a.year, Some(1999));
}

#[test]
fn id_specs_parse_and_reject() {
    assert_eq!(parse_id_spec("tmdb:550").unwrap().tmdb, Some(550));
    assert_eq!(
        parse_id_spec("imdb:137523").unwrap().imdb.as_deref(),
        Some("tt0137523")
    );
    assert!(parse_id_spec("550").is_err());
    assert!(parse_id_spec("nope:550").is_err());
    assert!(parse_id_spec("tmdb:abc").is_err());
}

#[test]
fn a_movie_and_a_show_parse_from_their_spellings() {
    assert_eq!(MediaType::parse("movie"), Some(MediaType::Movie));
    assert_eq!(MediaType::parse("show"), Some(MediaType::Show));
    assert_eq!(MediaType::parse(" Film "), Some(MediaType::Movie));
    assert_eq!(MediaType::parse("TV"), Some(MediaType::Show));
    assert_eq!(MediaType::parse("anime"), None);
    assert_eq!(MediaType::Movie.as_str(), "movie");
}

#[test]
fn normalizing_an_imdb_id_twice_changes_nothing() {
    for raw in ["tt0137523", "TT137523", " 42 ", "tt12345678"] {
        let once = normalize_imdb(raw).expect("an IMDb id");
        assert_eq!(normalize_imdb(&once).as_deref(), Some(once.as_str()), "{raw}");
    }
}
