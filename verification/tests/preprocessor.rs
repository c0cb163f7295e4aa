use circuit_analysis::component_walk::{bracketify_hashes, find_call_target, hashify_brackets};
use circuit_analysis::pretty::{pretty_print_smt, smt_parses};
use circuit_analysis::resolve::{equality_groups, ResolvedVar};

#[test]
fn one_call_is_the_root_macro() {
    assert_eq!(
        find_call_target("(@IsZero_0 v_0 v_1 v_2)").unwrap(),
        "@IsZero_0"
    );
    // No arguments: the closing paren sticks to the token.
    assert_eq!(find_call_target("(@Foo)").unwrap(), "@Foo");
}

#[test]
fn no_call_is_refused() {
    let err = find_call_target("true").unwrap_err();
    assert!(err.contains("no '@...' call found"), "{}", err);
}

#[test]
fn more_than_one_call_is_refused() {
    let err = find_call_target("(and (@A v_0) (@B v_1))").unwrap_err();
    assert!(err.contains("makes 2 '@...' calls"), "{}", err);
    assert!(err.contains("@A, @B"), "{}", err);
}

#[test]
fn the_name_inside_a_meta_data_string_is_not_a_second_call() {
    let formula = r#" (and  (! (@GreaterThan_2 v_0 v_1) :meta-data "call @GreaterThan_2 (%arg0) to out") (= v_236 v_2) ) "#;
    assert_eq!(find_call_target(formula).unwrap(), "@GreaterThan_2");
}

#[test]
fn two_real_calls_are_still_refused_when_one_is_annotated() {
    let formula = r#"(and (! (@A v_0) :meta-data "call @A to out") (@B v_1))"#;
    let err = find_call_target(formula).unwrap_err();
    assert!(err.contains("makes 2 '@...' calls"), "{}", err);
    assert!(err.contains("@A, @B"), "{}", err);
}

#[test]
fn hashify_brackets_converts_each_bracket_group() {
    assert_eq!(hashify_brackets("Foo[0]"), "Foo#0");
    assert_eq!(hashify_brackets("Foo[0][1]"), "Foo#0#1");
    assert_eq!(hashify_brackets("isz"), "isz");
}

#[test]
fn keeps_short_expressions_on_one_line() {
    let formatted = pretty_print_smt("(= v_1 (ff.mul v_0 1))", 80, false);
    assert_eq!(formatted, "(= v_1 (ff.mul v_0 1))");
}

#[test]
fn breaks_long_and_into_one_child_per_line() {
    let source = r#"(and (! true :meta-data "a") (and (! true :meta-data "b") (! true :meta-data "c")))"#;
    let formatted = pretty_print_smt(source, 30, false);
    let expected = "(and\n  (! true :meta-data \"a\")\n  (and\n    (! true :meta-data \"b\")\n    (! true :meta-data \"c\")))";
    assert_eq!(formatted, expected);
}

#[test]
fn round_trips_escaped_quotes_in_meta_data() {
    let source = r#"(! true :meta-data "say ""hi""")"#;
    let formatted = pretty_print_smt(source, 80, false);
    assert_eq!(formatted, source);
}

#[test]
fn hides_trivial_true_tags_by_default_when_requested() {
    let source = r#"(and (! true :meta-data "a") (and (! (= v_1 v_0) :meta-data "b") (! true :meta-data "c")))"#;
    let formatted = pretty_print_smt(source, 30, true);
    let expected = "(! (= v_1 v_0) :meta-data \"b\")";
    assert_eq!(formatted, expected);
}

#[test]
fn keeps_true_tags_when_hide_trivial_true_is_false() {
    let source = r#"(and (! true :meta-data "a") (! (= v_1 v_0) :meta-data "b"))"#;
    let formatted = pretty_print_smt(source, 80, false);
    assert_eq!(formatted, source);
}

#[test]
fn does_not_touch_true_outside_an_and() {
    let source = r#"(ite (= v_0 1) true (= v_1 v_2))"#;
    let formatted = pretty_print_smt(source, 80, true);
    assert_eq!(formatted, source);
}

#[test]
fn and_of_only_trivial_tags_collapses_to_true() {
    let source = r#"(and (! true :meta-data "a") (! true :meta-data "b"))"#;
    let formatted = pretty_print_smt(source, 80, true);
    assert_eq!(formatted, "true");
}

#[test]
fn bracketify_hashes_converts_each_hash_group() {
    assert_eq!(bracketify_hashes("Num2Bits_16_325#0"), "Num2Bits_16_325[0]");
    assert_eq!(bracketify_hashes("Num2Bits_16_325#0.in"), "Num2Bits_16_325[0].in");
    assert_eq!(bracketify_hashes("isz.in"), "isz.in");
}

#[test]
fn equality_groups_ignores_singletons_and_dedupes_repeats() {
    let items = vec![
        ResolvedVar::Signal(vec![1]),
        ResolvedVar::Signal(vec![3, 20]),
        ResolvedVar::Signal(vec![3, 20]),
        ResolvedVar::Unresolved("v_9".to_string()),
    ];
    assert_eq!(equality_groups(&items), vec![vec![3, 20]]);
}

#[test]
fn smt_parses_accepts_balanced_formulas_only() {
    assert!(smt_parses("(and (= v_1 v_0) (! true :meta-data \"a\"))"));
    assert!(smt_parses(""));
    assert!(smt_parses("v_0 (= v_1 \"(\")"));
    assert!(!smt_parses("(and (= v_1 v_0)"));
    assert!(!smt_parses("(("));
}
