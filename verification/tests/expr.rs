use repsetarr::expr::eval::{set_from_vec, set_to_vec};
use repsetarr::expr::lexer::{lex, Token};
use repsetarr::expr::wildcard::expand_expr;
use repsetarr::expr::{eval, parse, GroupSet};

fn canonical(input: &str) -> String {
    parse(input).expect("parses").to_canonical_string()
}

#[test]
fn a_bare_name_parses() {
    assert_eq!(canonical("trending"), "trending");
}

#[test]
fn operators_are_left_associative() {
    assert_eq!(canonical("a - b - c"), "((a - b) - c)");
    assert_eq!(canonical("a | b | c"), "((a | b) | c)");
}

#[test]
fn precedence_follows_pythons_set_operators() {
    assert_eq!(canonical("a | b - c"), "(a | (b - c))");
    assert_eq!(canonical("a | b & c"), "(a | (b & c))");
    assert_eq!(canonical("a ^ b & c"), "(a ^ (b & c))");
    assert_eq!(canonical("a | b ^ c"), "(a | (b ^ c))");
    assert_eq!(canonical("a & b - c"), "(a & (b - c))");
    assert_eq!(canonical("a + b - c"), "((a + b) - c)".replace('+', "|"));
}

#[test]
fn brackets_override_precedence() {
    assert_eq!(canonical("(a | b) - c"), "((a | b) - c)");
    assert_eq!(canonical("((a))"), "a");
    assert_eq!(canonical("(a | b) & (c - d)"), "((a | b) & (c - d))");
}

#[test]
fn names_may_be_quoted_when_they_contain_a_dash() {
    assert_eq!(canonical("\"top-250\" - seen"), "(top-250 - seen)");
    assert_eq!(canonical("'my list' | b"), "(my list | b)");
}

#[test]
fn dotted_colonned_and_slashed_names_are_bare() {
    assert_eq!(canonical("mdb:user/list_1.v2"), "mdb:user/list_1.v2");
}

#[test]
fn names_are_collected_in_order_without_duplicates() {
    let expr = parse("(a | b) - a & c").unwrap();
    assert_eq!(expr.names(), vec!["a", "b", "c"]);
}

#[test]
fn errors_point_at_the_offending_column() {
    let err = parse("a - ").unwrap_err();
    assert_eq!(err.pos, 4);
    assert!(err.message.contains("unexpected end"), "{}", err.message);

    let err = parse("(a | b").unwrap_err();
    assert!(err.message.contains("unbalanced"), "{}", err.message);

    let err = parse("a | b)").unwrap_err();
    assert_eq!(err.pos, 5);

    let err = parse("a b").unwrap_err();
    assert_eq!(err.pos, 2);

    let err = parse("a $ b").unwrap_err();
    assert_eq!(err.pos, 2);
    assert!(err.message.contains('$'), "{}", err.message);

    assert!(parse("").is_err());
    assert!(parse("   ").is_err());
}

// ----- evaluation -----

fn set(ids: &[usize]) -> GroupSet {
    set_from_vec(&ids.to_vec())
}

fn universe() -> Vec<(String, GroupSet)> {
    vec![
        ("a".to_string(), set(&[1, 2, 3])),
        ("b".to_string(), set(&[3, 4])),
        ("c".to_string(), set(&[2, 4, 5])),
        ("empty".to_string(), set(&[])),
    ]
}

fn run(expr: &str) -> Vec<usize> {
    set_to_vec(&eval(&parse(expr).unwrap(), &universe()).unwrap())
}

#[test]
fn each_operator_does_what_it_says() {
    assert_eq!(run("a | b"), vec![1, 2, 3, 4]);
    assert_eq!(run("a + b"), vec![1, 2, 3, 4]);
    assert_eq!(run("a - b"), vec![1, 2]);
    assert_eq!(run("a & c"), vec![2]);
    assert_eq!(run("a ^ c"), vec![1, 3, 4, 5]);
}

#[test]
fn union_keeps_the_left_order_and_appends_what_is_new() {
    assert_eq!(run("b | a"), vec![3, 4, 1, 2]);
}

#[test]
fn multiple_operations_and_brackets_compose() {
    assert_eq!(run("(a | b) - c"), vec![1, 3]);
    assert_eq!(run("a | b - c"), vec![1, 2, 3]);
    assert_eq!(run("(a | b | c) - (a & c)"), vec![1, 3, 4, 5]);
}

#[test]
fn empty_sides_behave() {
    assert_eq!(run("a - empty"), vec![1, 2, 3]);
    assert_eq!(run("empty | a"), vec![1, 2, 3]);
    assert_eq!(run("a & empty"), Vec::<usize>::new());
}

#[test]
fn an_unknown_name_is_reported() {
    let err = eval(&parse("a | nope").unwrap(), &universe()).unwrap_err();
    assert_eq!(err.0, "nope");
    assert_eq!(
        err.message(),
        "expression references `nope`, which is not a known source or list"
    );
}

// ----- wildcards -----

fn universe_names() -> Vec<String> {
    vec![
        "animation.studios.ghibli".to_string(),
        "animation.studios.disney".to_string(),
        "animation.studios.pixar".to_string(),
        "animation.studios.ghibli.classics".to_string(),
        "live_action.nolan".to_string(),
    ]
}

fn expanded(formula: &str, defining: &str) -> (String, Vec<String>) {
    let (expr, unmatched) = expand_expr(&parse(formula).unwrap(), &universe_names(), defining);
    (expr.to_canonical_string(), unmatched)
}

#[test]
fn a_star_stands_for_any_run_of_characters() {
    assert!(repsetarr::expr::wildcard::matches("a.*", "a.b"));
    assert!(repsetarr::expr::wildcard::matches("a.*", "a."));
    assert!(repsetarr::expr::wildcard::matches("a.*", "a.bbb"));
    assert!(!repsetarr::expr::wildcard::matches("a.*", "b.x"));
    assert!(!repsetarr::expr::wildcard::matches("a.*", "a"));
}

#[test]
fn a_star_crosses_dots() {
    assert!(repsetarr::expr::wildcard::matches("animation.*", "animation.studios.ghibli"));
    assert!(repsetarr::expr::wildcard::matches("*", "anything.at.all"));
}

#[test]
fn a_star_may_appear_anywhere_and_more_than_once() {
    assert!(repsetarr::expr::wildcard::matches("*.ghibli", "animation.studios.ghibli"));
    assert!(repsetarr::expr::wildcard::matches("animation.*.pixar", "animation.studios.pixar"));
    assert!(repsetarr::expr::wildcard::matches("*studios*", "animation.studios.ghibli"));
    assert!(repsetarr::expr::wildcard::matches("a**b", "ab"));
    assert!(!repsetarr::expr::wildcard::matches("*.ghibli", "animation.studios.ghibli.classics"));
}

#[test]
fn everything_but_the_star_is_literal() {
    assert!(!repsetarr::expr::wildcard::matches("a.b", "axb"));
    assert!(!repsetarr::expr::wildcard::matches("a.*", "axb"));
}

#[test]
fn a_pattern_expands_to_a_left_nested_union_in_candidate_order() {
    let (expr, unmatched) = expanded("animation.studios.*", "all");
    assert_eq!(
        expr,
        "(((animation.studios.ghibli | animation.studios.disney) \
         | animation.studios.pixar) | animation.studios.ghibli.classics)"
    );
    assert!(unmatched.is_empty());
}

#[test]
fn a_single_match_needs_no_union() {
    assert_eq!(expanded("*.nolan", "all").0, "live_action.nolan");
}

#[test]
fn a_pattern_never_includes_the_list_that_defines_it() {
    let (expr, unmatched) = expanded("*.nolan", "live_action.nolan");
    assert_eq!(expr, "*.nolan");
    assert_eq!(unmatched, vec!["*.nolan".to_string()]);
}

#[test]
fn expansion_happens_wherever_the_pattern_sits() {
    let (expr, _) = expanded("live_action.nolan - (*.pixar | *.disney)", "all");
    assert_eq!(
        expr,
        "(live_action.nolan - (animation.studios.pixar | animation.studios.disney))"
    );
}

#[test]
fn an_unmatched_pattern_is_reported_once_and_left_in_place() {
    let (expr, unmatched) = expanded("ghost.* | ghost.*", "all");
    assert_eq!(expr, "(ghost.* | ghost.*)");
    assert_eq!(unmatched, vec!["ghost.*".to_string()]);
}

#[test]
fn a_name_the_pattern_also_matches_is_harmless() {
    let (expr, _) = expanded("*.pixar | animation.studios.pixar", "all");
    assert_eq!(expr, "(animation.studios.pixar | animation.studios.pixar)");
}

#[test]
fn a_canonical_form_parses_back_to_the_same_tree() {
    for input in ["a", "a | b - c", "(a | b) & c ^ d", "x.y:z/w - studio.*", "a + (b - (c & d))"] {
        let first = parse(input).expect("parses");
        let text = first.to_canonical_string();
        let again = parse(&text).expect("the canonical form parses");
        assert_eq!(again.to_canonical_string(), text, "{input}");
    }
}

#[test]
fn a_bare_name_takes_every_name_character_and_white_space_yields_nothing() {
    let tokens = lex("  abc.d|e  ").expect("lexes");
    assert_eq!(tokens.len(), 3);
    match &tokens[0].token {
        Token::Name(n) => assert_eq!(n, "abc.d"),
        other => panic!("expected a name, got {other:?}"),
    }
    assert_eq!(tokens[0].pos, 2);
    assert!(matches!(tokens[1].token, Token::Pipe));
    assert_eq!(tokens[1].pos, 7);
    assert_eq!(tokens[2].pos, 8);
}

#[test]
fn a_pattern_matches_what_filling_its_stars_spells() {
    assert!(repsetarr::expr::wildcard::matches("a*c*", "abcd"));
    assert!(repsetarr::expr::wildcard::matches("a*c*", "ac"));
    assert!(repsetarr::expr::wildcard::matches("*.*", "studio.ghibli"));
    assert!(!repsetarr::expr::wildcard::matches("a*c", "abd"));
    assert!(!repsetarr::expr::wildcard::matches("*.*", "studio"));
    assert!(repsetarr::expr::wildcard::matches("plain", "plain"));
    assert!(!repsetarr::expr::wildcard::matches("plain", "plains"));
}

#[test]
fn evaluation_succeeds_exactly_when_every_name_is_bound() {
    let sets = universe();
    assert!(eval(&parse("a | b").unwrap(), &sets).is_ok());
    match eval(&parse("a | nope - other").unwrap(), &sets) {
        Err(e) => assert_eq!(e.0, "nope"),
        Ok(_) => panic!("an unbound name evaluates"),
    }
}
