use instar_core::format::configuration::{Grouping, Requires};
use instar_core::format::sorting::{require_order, rewrite_requires, sorted_requires, RequireStatement, Written};

fn keys(items: &[Option<&str>]) -> Vec<Option<String>> {
    items.iter().map(|k| k.map(str::to_owned)).collect()
}

#[test]
fn runs_of_requires_sort_stably_by_path() {
    let keys = keys(&[
        Some("./b"),
        Some("@pkg/a"),
        Some("c"),
        Some("./b"),
        None,
        Some("z"),
        Some("a"),
    ]);
    let blanks = vec![false; 7];
    let (order, out) = require_order(&keys, &blanks, false);
    assert_eq!(order, vec![0, 3, 1, 2, 4, 6, 5]);
    assert_eq!(out, vec![false; 7]);
}

#[test]
fn grouping_by_kind_orders_aliases_plain_then_relative_and_separates_groups() {
    let keys = keys(&[Some("./b"), Some("c"), Some("@pkg/a"), Some("a")]);
    let blanks = vec![true, false, false, false];
    let (order, out) = require_order(&keys, &blanks, true);
    assert_eq!(order, vec![2, 3, 1, 0]);
    assert_eq!(out, vec![true, true, false, true]);
}

#[test]
fn blank_lines_break_runs() {
    let keys = keys(&[Some("b"), Some("a"), Some("d"), Some("c")]);
    let blanks = vec![false, false, true, false];
    let (order, out) = require_order(&keys, &blanks, false);
    assert_eq!(order, vec![1, 0, 3, 2]);
    assert_eq!(out, vec![false, false, true, false]);
}

#[test]
fn statements_of_a_block_sort_by_the_configured_grouping() {
    let block: Vec<RequireStatement> = [Some("./b"), Some("c"), Some("@pkg/a"), None]
        .iter()
        .map(|k| RequireStatement { key: k.map(str::to_owned), blank: false })
        .collect();
    let (order, blanks) = sorted_requires(&block, &Requires { enabled: true, grouping: Grouping::ByKind });
    assert_eq!(order, vec![2, 1, 0, 3]);
    assert_eq!(blanks, vec![false, true, true, false]);
    let (order, blanks) = sorted_requires(&block, &Requires { enabled: true, grouping: Grouping::Flat });
    assert_eq!(order, vec![0, 2, 1, 3]);
    assert_eq!(blanks, vec![false; 4]);
}

fn written(source: &str, statements: &[(&str, Option<&str>)]) -> Vec<Written> {
    let mut from = 0;
    statements
        .iter()
        .map(|(text, key)| {
            let start = from + source[from..].find(text).unwrap();
            from = start + text.len();
            Written { start, end: from, text: text.to_string(), key: key.map(str::to_owned) }
        })
        .collect()
}

fn rewritten(source: &str, statements: &[(&str, Option<&str>)], grouping: Grouping) -> String {
    let chars: Vec<char> = source.chars().collect();
    let children = written(source, statements);
    rewrite_requires(&chars, 0, chars.len(), &children, &Requires { enabled: true, grouping }).into_iter().collect()
}

#[test]
fn blocks_are_written_back_with_requires_grouped() {
    let source = "local b = require(\"./b\")\nlocal a = require(\"@pkg/a\")\nprint(a, b)\n";
    let statements = [
        ("local b = require(\"./b\")", Some("./b")),
        ("local a = require(\"@pkg/a\")", Some("@pkg/a")),
        ("print(a, b)", None),
    ];
    assert_eq!(
        rewritten(source, &statements, Grouping::ByKind),
        "local a = require(\"@pkg/a\")\n\nlocal b = require(\"./b\")\nprint(a, b)\n"
    );
    assert_eq!(rewritten(source, &statements, Grouping::Flat), source);
}

#[test]
fn directives_stay_ahead_and_comments_travel_with_their_statement() {
    let source = "--!strict\nlocal z = require(\"z\") -- zed\nlocal y = require(\"y\")\n";
    let statements = [("local z = require(\"z\")", Some("z")), ("local y = require(\"y\")", Some("y"))];
    assert_eq!(
        rewritten(source, &statements, Grouping::Flat),
        "--!strict\nlocal y = require(\"y\")\nlocal z = require(\"z\") -- zed\n"
    );
    let chars: Vec<char> = "abc".chars().collect();
    assert_eq!(rewrite_requires(&chars, 1, 3, &vec![], &Requires { enabled: true, grouping: Grouping::Flat }), vec!['b', 'c']);
}
