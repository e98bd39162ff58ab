use repsetarr::config::compile::{compile, Runtime};
use repsetarr::config::{interpolate_document, is_plain, parse_str_with};
use repsetarr::doc::{read_yaml, Doc};
use repsetarr::config::template::interpolate_with;

fn no_env(_: &str) -> Option<String> {
    None
}

fn compile_str(raw: &str) -> Result<Runtime, String> {
    let config = parse_str_with(raw, &no_env)?;
    compile(config, "test.yml".to_string())
}

fn compile_err(raw: &str) -> String {
    match compile_str(raw) {
        Ok(_) => panic!("expected an error"),
        Err(e) => e,
    }
}

const SAMPLE: &str = r#"
sources:
  trending:
    type: static
    media_type: movie
    items: ["tmdb:1", "tmdb:2", "tmdb:3"]
  owned:
    type: static
    media_type: movie
    items: ["tmdb:2"]
lists:
  wanted:
    expr: "trending - owned"
  wanted_top:
    expr: "wanted & trending"
    limit: 10
"#;

#[test]
fn a_valid_config_compiles_with_dependencies_resolved() {
    let runtime = compile_str(SAMPLE).expect("compiles");
    assert_eq!(runtime.list_order, vec!["wanted", "wanted_top"]);
    let top = runtime.list("wanted_top").unwrap();
    assert_eq!(top.list_deps, vec!["wanted"]);
    assert_eq!(top.source_deps, vec!["trending", "owned"]);
    assert_eq!(runtime.config.server.port, 9797);
    assert_eq!(runtime.ttl_for("trending"), runtime.config.cache.default_ttl);
}

#[test]
fn environment_variables_are_interpolated() {
    let expanded = interpolate_with("Bearer ${TOKEN}", |name: &str| {
        if name == "TOKEN" {
            Some("secret".to_string())
        } else {
            None
        }
    })
    .unwrap();
    assert_eq!(expanded, "Bearer secret");
}

#[test]
fn interpolation_supports_fallbacks_and_escaping() {
    assert_eq!(interpolate_with("${PORT:-9797}", no_env).unwrap(), "9797");
    assert_eq!(interpolate_with("$${NOT_A_VAR}", no_env).unwrap(), "${NOT_A_VAR}");
}

#[test]
fn a_missing_environment_variable_is_an_error() {
    let error = interpolate_with("${NOPE}", no_env).unwrap_err();
    assert!(error.contains("NOPE"), "{error}");
    assert!(interpolate_with("${UNCLOSED", no_env).is_err());
}

#[test]
fn comments_are_never_interpolated() {
    let runtime = compile_str(
        r#"
# Values may contain ${SOME_VAR_THAT_IS_NOT_SET}.
sources:
  a: { type: static, items: ["tmdb:1"] }  # and ${NOR_IS_THIS}
lists: {}
"#,
    );
    assert!(runtime.is_ok(), "{:#}", runtime.unwrap_err());
}

#[test]
fn an_expanded_scalar_keeps_the_type_it_expands_to() {
    let lookup = |name: &str| {
        if name == "REPSETARR_TEST_PORT" {
            Some("8123".to_string())
        } else {
            None
        }
    };
    let config = parse_str_with("server:\n  port: ${REPSETARR_TEST_PORT}\n", &lookup).unwrap();
    assert_eq!(config.server.port, 8123);
}

#[test]
fn an_empty_expansion_stays_an_empty_string() {
    let config = parse_str_with(
        "providers:\n  mdblist:\n    apikey: ${REPSETARR_UNSET_KEY:-}\n",
        &no_env,
    )
    .expect("parses");
    assert_eq!(config.providers.mdblist.unwrap().apikey, "");
}

#[test]
fn a_config_of_only_comments_is_an_empty_config() {
    let runtime = compile_str("# nothing here\n").unwrap();
    assert!(runtime.config.sources.is_empty());
    assert!(runtime.config.lists.is_empty());
}

#[test]
fn unknown_names_are_reported() {
    let error = compile_err(
        r#"
sources:
  a: { type: static, items: ["tmdb:1"] }
lists:
  bad: { expr: "a - ghost" }
"#,
    );
    assert!(error.contains("`ghost`"), "{error}");
}

#[test]
fn a_dashed_name_gets_a_quoting_hint() {
    let error = compile_err(
        r#"
sources:
  top-250: { type: static, items: ["tmdb:1"] }
lists:
  bad: { expr: "top-250" }
"#,
    );
    assert!(error.contains("quote it as"), "{error}");
}

#[test]
fn cycles_between_lists_are_reported() {
    let error = compile_err(
        r#"
sources:
  a: { type: static, items: ["tmdb:1"] }
lists:
  one: { expr: "a | two" }
  two: { expr: "a | one" }
"#,
    );
    assert!(error.contains("cycle"), "{error}");
}

#[test]
fn a_list_may_not_share_a_name_with_a_source() {
    let error = compile_err(
        r#"
sources:
  same: { type: static, items: ["tmdb:1"] }
lists:
  same: { expr: "same" }
"#,
    );
    assert!(error.contains("names must be unique"), "{error}");
}

#[test]
fn syntax_errors_name_the_list_and_the_column() {
    let error = compile_err(
        r#"
sources:
  a: { type: static, items: ["tmdb:1"] }
lists:
  bad: { expr: "a - " }
"#,
    );
    assert!(error.contains("list `bad`"), "{error}");
    assert!(error.contains("column"), "{error}");
}

#[test]
fn unknown_source_options_are_rejected() {
    let error = compile_err(
        r#"
sources:
  a: { type: static, items: ["tmdb:1"], mediatype: movie }
lists: {}
"#,
    );
    assert!(error.contains("`mediatype`"), "{error}");
}

#[test]
fn unknown_top_level_options_are_rejected() {
    let error = compile_err("serverr:\n  port: 1\n");
    assert!(error.contains("serverr"), "{error}");
}

#[test]
fn bad_static_ids_fail_at_load_not_at_request_time() {
    let error = compile_err(
        r#"
sources:
  a: { type: static, items: ["550"] }
lists: {}
"#,
    );
    assert!(error.contains("provider:id"), "{error}");
}

#[test]
fn mdblist_sources_need_an_api_key_and_exactly_one_address() {
    let error = compile_err(
        r#"
sources:
  a: { type: mdblist, list: "user/list" }
lists: {}
"#,
    );
    assert!(error.contains("API key"), "{error}");

    let error = compile_err(
        r#"
providers:
  mdblist: { apikey: "k" }
sources:
  a: { type: mdblist, list: "user/list", list_id: 5 }
lists: {}
"#,
    );
    assert!(error.contains("only one"), "{error}");
}

#[test]
fn every_problem_is_reported_at_once() {
    let error = compile_err(
        r#"
sources:
  a: { type: static, items: [] }
lists:
  one: { expr: "ghost" }
  two: { expr: "a - " }
"#,
    );
    assert!(error.contains("3 problem(s)"), "{error}");
}

#[test]
fn list_option_ranges_are_checked() {
    let error = compile_err(
        r#"
sources:
  a: { type: static, items: ["tmdb:1"] }
lists:
  bad: { expr: "a", min_year: 2020, max_year: 2000, limit: 0 }
"#,
    );
    assert!(error.contains("min_year"), "{error}");
    assert!(error.contains("limit: 0"), "{error}");
}

#[test]
fn a_wildcard_matching_nothing_is_refused_at_load() {
    let error = compile_err(
        r#"
sources:
  a: { type: static, items: ["tmdb:1"] }
lists:
  bad: { list_formula: "ghost.*" }
"#,
    );
    assert!(error.contains("matches no source or list"), "{error}");
}

#[test]
fn a_source_without_its_own_ttl_uses_the_default() {
    let runtime = compile_str(
        r#"
cache:
  default_ttl: 2h
sources:
  a: { type: static, items: ["tmdb:1"] }
  b: { type: json, url: "http://feed.example/x.json", ttl: 30m }
lists: {}
"#,
    )
    .unwrap();
    assert_eq!(runtime.ttl_for("a").secs, 7200);
    assert_eq!(runtime.ttl_for("b").secs, 1800);
    assert!(runtime.source("a").is_some());
    assert!(runtime.source("zzz").is_none());
    assert!(runtime.list("zzz").is_none());
}

#[test]
fn dependencies_are_transitive_in_the_order_they_are_met() {
    let runtime = compile_str(
        r#"
sources:
  s1: { type: static, items: ["tmdb:1"] }
  s2: { type: static, items: ["tmdb:2"] }
  s3: { type: static, items: ["tmdb:3"] }
lists:
  c: { expr: "s3 | b" }
  a: { expr: "s1" }
  b: { expr: "a | s2 | s1" }
"#,
    )
    .expect("compiles");
    assert_eq!(runtime.list_order, vec!["a", "b", "c"]);
    let c = runtime.list("c").unwrap();
    assert_eq!(c.list_deps, vec!["a", "b"]);
    assert_eq!(c.source_deps, vec!["s3", "s1", "s2"]);
    let a = runtime.list("a").unwrap();
    assert!(a.list_deps.is_empty());
    assert_eq!(a.source_deps, vec!["s1"]);
}

#[test]
fn a_duration_is_read_unless_it_holds_too_many_digits() {
    let config = |ttl: &str| format!("cache:\n  default_ttl: \"{ttl}\"\nsources: {{}}\nlists: {{}}\n");
    let runtime = compile_str(&config("2d 12h 30m 15s 250ms")).expect("an ordinary duration");
    assert_eq!(runtime.config.cache.default_ttl.secs, 2 * 86400 + 12 * 3600 + 30 * 60 + 15);
    assert_eq!(runtime.config.cache.default_ttl.nanos, 250_000_000);
    assert!(compile_str(&config("18446744073709551615s 1000ms")).is_err());
    assert!(compile_str(&config("1 8 4 4 6 7 4 4 0 7 3 7 0 9 5 5 1 6 1 5s 1000ms")).is_err());
}

#[test]
fn references_are_expanded_in_keys_list_items_and_nested_tables() {
    let lookup = |name: &str| match name {
        "KEY" => Some("renamed".to_string()),
        "ITEM" => Some("tmdb:7".to_string()),
        _ => None,
    };
    let document = read_yaml("outer:\n  \"${KEY}\": [\"a\", \"${ITEM}\"]\n").unwrap();
    let expanded = interpolate_document(&document, &lookup).unwrap();
    let expected = read_yaml("outer:\n  renamed: [\"a\", \"tmdb:7\"]\n").unwrap();
    assert!(expanded.same(&expected));
    assert!(!expanded.same(&document));
    match interpolate_document(&read_yaml("a: [\"${MISSING}\"]\n").unwrap(), &lookup) {
        Ok(_) => panic!("expected an error"),
        Err(e) => assert!(e.contains("MISSING"), "{e}"),
    }
    match interpolate_document(&read_yaml("a: \"${\"\n").unwrap(), &lookup) {
        Ok(_) => panic!("expected an error"),
        Err(e) => assert_eq!(e, "unterminated `${` in config"),
    }
}

#[test]
fn a_key_expanding_to_an_earlier_key_replaces_its_value_in_place() {
    let lookup = |name: &str| if name == "N" { Some("2".to_string()) } else { None };
    let document = read_yaml("2: first\nx: middle\n\"${N}\": second\n").unwrap();
    let expanded = interpolate_document(&document, &lookup).unwrap();
    match expanded {
        Doc::Table(entries) => {
            assert_eq!(entries.len(), 2);
            match (&entries[0].0, &entries[0].1) {
                (Doc::Number(n), Doc::Text(v)) => {
                    assert_eq!(n.text, "2");
                    assert_eq!(v, "second");
                }
                other => panic!("unexpected entry {:?}", other),
            }
        }
        other => panic!("expected a table, got {:?}", other),
    }
}

#[test]
fn a_document_without_references_comes_back_unchanged() {
    let document = read_yaml(SAMPLE).unwrap();
    assert!(is_plain(&document));
    let never_asked = |name: &str| -> Option<String> { panic!("asked for {name}") };
    let expanded = interpolate_document(&document, &never_asked).unwrap();
    assert!(expanded.same(&document));
    let config = parse_str_with(SAMPLE, &never_asked).unwrap();
    assert_eq!(config.lists.len(), 2);
    assert!(!is_plain(&read_yaml("a: \"${X:-1}\"\n").unwrap()));
}
