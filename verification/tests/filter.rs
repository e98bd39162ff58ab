use repsetarr::doc::{read_yaml, Doc};
use repsetarr::filter::attr::known_attribute_names;
use repsetarr::filter::{parse, Attribute, BoolExpr, Condition, FilterDef, Program, UnknownPolicy};
use repsetarr::model::{Attrs, Date, Item, MediaType};

fn yaml(raw: &str) -> Doc {
    read_yaml(raw).expect("value parses")
}

fn condition(key: &str, raw: &str) -> Condition {
    Condition::parse(key, &yaml(raw)).expect("condition parses")
}

fn come_and_see() -> Item {
    let mut item = Item::new(MediaType::Movie);
    item.title = Some("Come and See".into());
    item.year = Some(1985);
    item.attrs = Attrs {
        country: Some("su".into()),
        original_language: Some("ru".into()),
        spoken_language: Some("ru".into()),
        genres: vec!["drama".into(), "war".into()],
        runtime: Some(142),
        content_rating: Some("M".into()),
        status: Some("released".into()),
    };
    item
}

fn bare() -> Item {
    let mut item = Item::new(MediaType::Movie);
    item.title = Some("Unknown Quantity".into());
    item
}

#[test]
fn commas_and_lists_both_mean_any_of() {
    for spelling in ["ru, su", "[ru, su]", "[\"ru\", \"su\"]"] {
        let condition = condition("country", spelling);
        assert!(condition.matches(&come_and_see(), UnknownPolicy::Exclude), "{spelling}");
    }
    assert!(!condition("country", "ru, fr").matches(&come_and_see(), UnknownPolicy::Exclude));
}

#[test]
fn codes_compare_case_insensitively() {
    assert!(condition("country", "SU").matches(&come_and_see(), UnknownPolicy::Exclude));
    assert!(condition("content_rating", "m").matches(&come_and_see(), UnknownPolicy::Exclude));
}

#[test]
fn not_inverts_a_known_value() {
    assert!(condition("country.not", "us").matches(&come_and_see(), UnknownPolicy::Exclude));
    assert!(!condition("country.not", "su").matches(&come_and_see(), UnknownPolicy::Exclude));
}

#[test]
fn genres_support_any_of_and_all_of() {
    let item = come_and_see();
    assert!(condition("genre", "war, comedy").matches(&item, UnknownPolicy::Exclude));
    assert!(condition("genre.all", "drama, war").matches(&item, UnknownPolicy::Exclude));
    assert!(!condition("genre.all", "drama, comedy").matches(&item, UnknownPolicy::Exclude));
}

#[test]
fn numbers_compare_with_the_expected_modifiers() {
    let item = come_and_see();
    assert!(condition("runtime.lte", "150").matches(&item, UnknownPolicy::Exclude));
    assert!(!condition("runtime.lte", "100").matches(&item, UnknownPolicy::Exclude));
    assert!(condition("runtime.gt", "141").matches(&item, UnknownPolicy::Exclude));
    assert!(condition("year.gte", "1980").matches(&item, UnknownPolicy::Exclude));
    assert!(condition("year", "1985").matches(&item, UnknownPolicy::Exclude));
}

#[test]
fn dates_say_which_side_they_mean() {
    let mut item = come_and_see();
    item.released = Some(Date { year: 1985, month: 10, day: 17 });
    assert!(condition("release.after", "1980-01-01").matches(&item, UnknownPolicy::Exclude));
    assert!(condition("release.before", "1990-01-01").matches(&item, UnknownPolicy::Exclude));
    assert!(condition("release", "1980-01-01").matches(&item, UnknownPolicy::Exclude));
}

#[test]
fn text_matching_is_case_insensitive() {
    let item = come_and_see();
    assert!(condition("title", "and see").matches(&item, UnknownPolicy::Exclude));
    assert!(condition("title.begins", "come").matches(&item, UnknownPolicy::Exclude));
    assert!(condition("title.ends", "SEE").matches(&item, UnknownPolicy::Exclude));
    assert!(condition("title.regex", "^come .* see$").matches(&item, UnknownPolicy::Exclude));
    assert!(!condition("title.regex", "^see").matches(&item, UnknownPolicy::Exclude));
}

#[test]
fn media_type_is_always_known() {
    let item = bare();
    assert!(condition("type", "movie").matches(&item, UnknownPolicy::Exclude));
    assert!(!condition("type", "show").matches(&item, UnknownPolicy::Exclude));
}

#[test]
fn an_unknown_attribute_answers_to_the_policy_not_to_negation() {
    let item = bare();
    assert!(!condition("country", "ru").matches(&item, UnknownPolicy::Exclude));
    assert!(!condition("country.not", "ru").matches(&item, UnknownPolicy::Exclude));
    assert!(condition("country", "ru").matches(&item, UnknownPolicy::Include));
    assert!(condition("country.not", "ru").matches(&item, UnknownPolicy::Include));
}

#[test]
fn every_condition_in_a_block_must_hold() {
    let filter = FilterDef {
        name: "russian_war_film".into(),
        conditions: vec![
            condition("country", "ru, su"),
            condition("genre", "war"),
            condition("runtime.gte", "120"),
        ],
        unknown: UnknownPolicy::Exclude,
    };
    assert!(filter.matches(&come_and_see()));

    let mut short = come_and_see();
    short.attrs.runtime = Some(90);
    assert!(!filter.matches(&short));
}

#[test]
fn aliases_resolve_to_the_same_attribute() {
    for (alias, canonical) in [
        ("language", Attribute::OriginalLanguage),
        ("genres", Attribute::Genre),
        ("certification", Attribute::ContentRating),
        ("media_type", Attribute::Type),
        ("released", Attribute::Release),
    ] {
        let key = if canonical == Attribute::Release {
            format!("{alias}.after")
        } else {
            alias.to_string()
        };
        let value = if canonical == Attribute::Release { "1980-01-01" } else { "x" };
        assert_eq!(condition(&key, value).attribute, canonical);
    }
}

#[test]
fn bad_spellings_are_rejected_with_the_alternatives() {
    let error = Condition::parse("countryy", &yaml("ru")).unwrap_err();
    assert!(error.contains("unknown filter attribute"), "{error}");
    assert!(error.contains("country"), "{error}");

    let error = Condition::parse("country.nto", &yaml("ru")).unwrap_err();
    assert!(error.contains("unknown modifier"), "{error}");

    let error = Condition::parse("country.gte", &yaml("ru")).unwrap_err();
    assert!(error.contains("does not apply"), "{error}");
    assert!(error.contains(".not"), "{error}");

    let error = Condition::parse("release.after", &yaml("last tuesday")).unwrap_err();
    assert!(error.contains("YYYY-MM-DD"), "{error}");

    let error = Condition::parse("runtime.lte", &yaml("ninety")).unwrap_err();
    assert!(error.contains("whole number"), "{error}");

    let error = Condition::parse("title.regex", &yaml("\"[unclosed\"")).unwrap_err();
    assert!(error.contains("invalid regex"), "{error}");

    assert!(Condition::parse("country", &yaml("[]")).is_err());
}

// ----- the boolean language -----

fn canonical(input: &str) -> String {
    parse(input).expect("parses").to_canonical_string()
}

#[test]
fn parser_a_bare_name_parses() {
    assert_eq!(canonical("russian"), "russian");
}

#[test]
fn and_binds_tighter_than_or() {
    assert_eq!(canonical("a or b and c"), "(a or (b and c))");
    assert_eq!(canonical("a and b or c"), "((a and b) or c)");
}

#[test]
fn parser_operators_are_left_associative() {
    assert_eq!(canonical("a and b and c"), "((a and b) and c)");
    assert_eq!(canonical("a or b or c"), "((a or b) or c)");
}

#[test]
fn not_is_prefix_and_binds_tightest() {
    assert_eq!(canonical("not a and b"), "((not a) and b)");
    assert_eq!(canonical("not (a and b)"), "(not (a and b))");
    assert_eq!(canonical("not not a"), "(not (not a))");
}

#[test]
fn parser_brackets_override_precedence() {
    assert_eq!(canonical("(a or b) and c"), "((a or b) and c)");
    assert_eq!(canonical("((a))"), "a");
}

#[test]
fn keywords_are_case_insensitive_and_symbols_are_accepted() {
    assert_eq!(canonical("a AND b"), "(a and b)");
    assert_eq!(canonical("a && b || c"), "((a and b) or c)");
    assert_eq!(canonical("!a"), "(not a)");
}

#[test]
fn names_may_contain_dashes_and_be_quoted() {
    assert_eq!(canonical("kids-safe or animation"), "(kids-safe or animation)");
    assert_eq!(canonical("'not' and a"), "(not and a)");
}

#[test]
fn a_single_set_operator_explains_itself() {
    let err = parse("a & b").unwrap_err();
    assert_eq!(err.pos, 2);
    assert!(err.message.contains("`and`"), "{}", err.message);

    let err = parse("a | b").unwrap_err();
    assert!(err.message.contains("`or`"), "{}", err.message);
}

#[test]
fn parser_errors_point_at_the_offending_column() {
    let err = parse("a and ").unwrap_err();
    assert_eq!(err.pos, 6);
    assert!(err.message.contains("unexpected end"), "{}", err.message);

    assert!(parse("(a or b").unwrap_err().message.contains("unbalanced"));
    assert_eq!(parse("a or b)").unwrap_err().pos, 6);
    assert_eq!(parse("a b").unwrap_err().pos, 2);
    assert!(parse("").is_err());
    assert!(parse("   ").is_err());
}

#[test]
fn parser_names_are_collected_in_order_without_duplicates() {
    let expr = parse("(a or b) and not a and c").unwrap();
    assert_eq!(expr.names(), vec!["a", "b", "c"]);
}

// ----- programs -----

fn block(name: &str, key: &str, raw: &str) -> FilterDef {
    FilterDef {
        name: name.to_string(),
        conditions: vec![condition(key, raw)],
        unknown: UnknownPolicy::Exclude,
    }
}

fn program(formula: &str) -> Program {
    let blocks = vec![
        block("russian", "country", "ru, su"),
        block("long", "runtime.gte", "150"),
        block("war", "genre", "war"),
    ];
    let expr: BoolExpr = parse(formula).unwrap();
    Program::compile(&expr, &blocks).unwrap()
}

#[test]
fn a_program_combines_blocks_with_boolean_algebra() {
    let item = come_and_see();
    assert!(program("russian and war").matches(&item));
    assert!(!program("russian and long").matches(&item));
    assert!(program("russian and not long").matches(&item));
    assert!(program("long or war").matches(&item));
}

#[test]
fn a_program_names_an_unknown_block() {
    let blocks = vec![block("russian", "country", "ru")];
    let err = Program::compile(&parse("russian and ghost").unwrap(), &blocks).unwrap_err();
    assert!(err.message().contains("ghost"), "{}", err.message());
}

#[test]
fn a_program_reports_the_attributes_it_reads() {
    let attrs = program("war or russian").attributes();
    assert!(attrs.contains(&Attribute::Genre));
    assert!(attrs.contains(&Attribute::Country));
    assert!(!attrs.contains(&Attribute::Runtime));
}

#[test]
fn each_attribute_is_written_with_its_first_spelling() {
    let table = Attribute::all();
    for (spelling, attribute) in &table {
        let first = table.iter().find(|(_, a)| a == attribute).unwrap().0;
        assert_eq!(attribute.as_str(), first, "{spelling}");
        assert_eq!(Attribute::parse(spelling), Some(*attribute));
    }
    assert_eq!(Attribute::OriginalLanguage.as_str(), "original_language");
}

#[test]
fn the_known_names_are_the_table_sorted() {
    let names = known_attribute_names();
    let mut table: Vec<&str> = Attribute::all().into_iter().map(|(s, _)| s).collect();
    table.sort();
    assert_eq!(names, table);
    assert!(names.windows(2).all(|w| w[0] < w[1]));
    assert!(names.iter().all(|n| Attribute::parse(n).is_some()));
}

#[test]
fn a_canonical_attribute_name_parses_through_spacing_and_case() {
    for (_, attribute) in Attribute::all() {
        let text = attribute.as_str();
        assert_eq!(Attribute::parse(text), Some(attribute));
        let shouted = format!("  {}\t", text.to_uppercase());
        assert_eq!(Attribute::parse(&shouted), Some(attribute));
    }
}
