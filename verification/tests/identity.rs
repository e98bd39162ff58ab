use repsetarr::identity::Interner;
use repsetarr::model::{Item, MediaType};

fn item(media_type: MediaType, tmdb: Option<u32>, imdb: Option<&str>, tvdb: Option<u32>) -> Item {
    let mut it = Item::new(media_type);
    it.ids.tmdb = tmdb;
    it.ids.imdb = imdb.map(str::to_string);
    it.ids.tvdb = tvdb;
    it
}

#[test]
fn a_shared_id_merges_two_items() {
    let mut interner = Interner::new();
    let a = interner
        .insert(&item(MediaType::Movie, Some(550), None, None))
        .unwrap();
    let b = interner
        .insert(&item(MediaType::Movie, Some(550), Some("tt0137523"), None))
        .unwrap();
    let ga = interner.resolve(a);
    let gb = interner.resolve(b);
    assert_eq!(ga, gb);
    let group = interner.resolve(a);
    assert_eq!(interner.item(group).ids.imdb.as_deref(), Some("tt0137523"));
}

#[test]
fn matching_is_transitive_across_disjoint_id_sets() {
    let mut interner = Interner::new();
    let a = interner
        .insert(&item(MediaType::Show, Some(1396), None, None))
        .unwrap();
    let c = interner
        .insert(&item(MediaType::Show, None, None, Some(81189)))
        .unwrap();
    let ga = interner.resolve(a);
    let gc = interner.resolve(c);
    assert_ne!(ga, gc);
    let b = interner
        .insert(&item(MediaType::Show, Some(1396), Some("tt0903747"), Some(81189)))
        .unwrap();
    let ga = interner.resolve(a);
    let gb = interner.resolve(b);
    let gc = interner.resolve(c);
    assert_eq!(ga, gc);
    assert_eq!(ga, gb);
    assert_eq!(interner.len(), 2, "two slots exist, but they resolve to one group");
}

#[test]
fn the_same_tmdb_id_on_different_media_types_stays_separate() {
    let mut interner = Interner::new();
    let movie = interner
        .insert(&item(MediaType::Movie, Some(550), None, None))
        .unwrap();
    let show = interner
        .insert(&item(MediaType::Show, Some(550), None, None))
        .unwrap();
    let gm = interner.resolve(movie);
    let gs = interner.resolve(show);
    assert_ne!(gm, gs);
}

#[test]
fn items_without_any_id_are_rejected() {
    let mut interner = Interner::new();
    assert!(interner.insert(&Item::new(MediaType::Movie)).is_none());
}

#[test]
fn the_first_item_wins_on_conflicting_metadata() {
    let mut interner = Interner::new();
    let mut first = item(MediaType::Movie, Some(550), None, None);
    first.title = Some("Fight Club".into());
    let mut second = item(MediaType::Movie, Some(550), None, None);
    second.title = Some("Bojovy Klub".into());
    second.year = Some(1999);
    let a = interner.insert(&first).unwrap();
    interner.insert(&second).unwrap();
    let group = interner.resolve(a);
    assert_eq!(interner.item(group).title.as_deref(), Some("Fight Club"));
    assert_eq!(interner.item(group).year, Some(1999));
}

#[test]
fn an_empty_interner_has_no_slots() {
    let interner = Interner::new();
    assert_eq!(interner.len(), 0);
    assert!(interner.is_empty());
}

#[test]
fn items_share_a_group_exactly_when_a_chain_of_shared_ids_joins_them() {
    let mut interner = Interner::new();
    let a = interner.insert(&item(MediaType::Movie, Some(1), None, None)).unwrap();
    let b = interner.insert(&item(MediaType::Movie, None, Some("tt0000002"), None)).unwrap();
    let c = interner.insert(&item(MediaType::Movie, Some(3), None, None)).unwrap();
    let ga = interner.resolve(a);
    let gb = interner.resolve(b);
    let gc = interner.resolve(c);
    assert_ne!(ga, gb);
    assert_ne!(gb, gc);
    // One item carrying both the first id and the second joins those two,
    // and leaves the third alone.
    let d = interner.insert(&item(MediaType::Movie, Some(1), Some("tt0000002"), None)).unwrap();
    let ga = interner.resolve(a);
    let gb = interner.resolve(b);
    let gc = interner.resolve(c);
    let gd = interner.resolve(d);
    assert_eq!(ga, gb);
    assert_eq!(gb, gd);
    assert_ne!(gc, ga);
}

#[test]
fn adding_items_can_lower_the_count_of_distinct_items_but_never_raise_it() {
    let mut interner = Interner::new();
    let a = interner.insert(&item(MediaType::Movie, Some(550), None, None)).unwrap();
    let c = interner.insert(&item(MediaType::Movie, None, Some("tt0137523"), None)).unwrap();
    let d = interner.insert(&item(MediaType::Movie, Some(13), None, None)).unwrap();
    let count = |i: &mut Interner| {
        let mut groups = vec![i.resolve(a), i.resolve(c), i.resolve(d)];
        groups.sort();
        groups.dedup();
        groups.len()
    };
    assert_eq!(count(&mut interner), 3);
    interner.insert(&item(MediaType::Movie, None, None, Some(99))).unwrap();
    assert_eq!(count(&mut interner), 3);
    let slots = interner.len();
    interner.insert(&item(MediaType::Movie, Some(550), Some("tt0137523"), None)).unwrap();
    assert_eq!(count(&mut interner), 2);
    assert_eq!(interner.len(), slots, "a bridging item opens no new slot");
}
