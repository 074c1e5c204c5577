use instar_core::lint::syntax::quote_non_finite;

#[test]
fn bare_non_finite_numbers_are_quoted() {
    assert_eq!(
        quote_non_finite(r#"{"a":-Infinity,"b":[NaN,Infinity,1]}"#),
        r#"{"a":"-Infinity","b":["NaN","Infinity",1]}"#
    );
}

#[test]
fn strings_and_escaped_quotes_are_kept() {
    let text = r#"{"NaN":"Infinity \" NaN","c":"\\","d":NaN}"#;
    assert_eq!(
        quote_non_finite(text),
        r#"{"NaN":"Infinity \" NaN","c":"\\","d":"NaN"}"#
    );
}

#[test]
fn quoted_text_parses_as_json() {
    let quoted = quote_non_finite(r#"{"value":-Infinity,"other":"ü"}"#);
    let parsed: serde_json::Value = serde_json::from_str(&quoted).expect("valid JSON");
    assert_eq!(parsed["value"], "-Infinity");
    assert_eq!(parsed["other"], "ü");
}

#[test]
fn text_without_non_finite_numbers_is_unchanged() {
    assert_eq!(quote_non_finite(""), "");
    assert_eq!(quote_non_finite("[1, 2.5, -3]"), "[1, 2.5, -3]");
}

use instar_core::lint::syntax::{suppression, Suppression};

fn file(comment: &str) -> Vec<String> {
    match suppression(comment) {
        Suppression::File(rules) => rules,
        other => panic!("expected a file suppression, got {other:?}"),
    }
}

fn lines(comment: &str) -> Vec<String> {
    match suppression(comment) {
        Suppression::Lines(rules) => rules,
        other => panic!("expected a line suppression, got {other:?}"),
    }
}

#[test]
fn nolint_without_names_suppresses_every_rule_in_the_file() {
    assert_eq!(file("--!nolint"), vec!["*"]);
    assert_eq!(file("--!nolint  \t"), vec!["*"]);
}

#[test]
fn nolint_names_map_upstream_warnings_and_drop_others() {
    assert_eq!(
        file("--!nolint LocalUnused  UnknownGlobal Nope"),
        vec!["unused_variable", "undefined_variable"]
    );
    assert!(file("--!nolint Nope").is_empty());
}

#[test]
fn allow_directives_name_rules_for_two_lines() {
    assert_eq!(
        lines("-- instar: allow(unused_variable, shadowed_binding )"),
        vec!["unused_variable", "shadowed_binding"]
    );
    assert_eq!(lines("--instar:allow(*)"), vec!["*"]);
    assert_eq!(lines("--   instar:  allow(graft/rule)  "), vec!["graft/rule"]);
}

#[test]
fn malformed_and_unknown_directives_are_reported() {
    let malformed = suppression("-- instar: deny(unused_variable)");
    assert!(matches!(malformed, Suppression::Malformed));
    assert_eq!(malformed.message(), Some("Expected -- instar: allow(rule, ...)"));
    let unknown = suppression("-- instar: allow(unused_variable, nope)");
    assert!(matches!(unknown, Suppression::Unknown));
    assert_eq!(unknown.message(), Some("Unknown rule in suppression"));
    assert!(matches!(suppression("-- instar: allow()"), Suppression::Unknown));
    assert!(matches!(suppression("-- instar: allow(x"), Suppression::Malformed));
}

#[test]
fn other_comments_are_not_suppressions() {
    assert!(matches!(suppression("-- a comment"), Suppression::Ignored));
    assert!(matches!(suppression("--[[ instar: allow(*) ]]"), Suppression::Ignored));
    assert!(matches!(suppression("// instar: allow(*)"), Suppression::Ignored));
    assert_eq!(suppression("-- a comment").message(), None);
}
