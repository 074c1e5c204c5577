use instar_core::format::regions::held;
use instar_core::format::scope::{Token, TokenKind};

fn comment(source: &str, text: &str) -> Token {
    let start = source.find(text).unwrap();
    let start = source[..start].chars().count();
    Token { start, end: start + text.chars().count(), kind: TokenKind::Comment }
}

fn chars(s: &str) -> Vec<char> {
    s.chars().collect()
}

#[test]
fn off_and_on_hold_the_lines_between() {
    let source = "a = 1\n-- instar: format off\nb  =  2\n-- instar: format on\nc = 3";
    let tokens = vec![comment(source, "-- instar: format off"), comment(source, "-- instar: format on")];
    let on_end = source.find("on").unwrap() + 2;
    assert_eq!(held(&chars(source), &tokens), vec![(6, on_end)]);
}

#[test]
fn an_unclosed_off_holds_to_the_end() {
    let source = "a = 1\n  --instar:format   off\nb = 2";
    let tokens = vec![comment(source, "--instar:format   off")];
    assert_eq!(held(&chars(source), &tokens), vec![(6, source.len())]);
}

#[test]
fn off_with_a_count_holds_that_many_more_lines() {
    let source = "-- instar: format off(1)\nb  =  2\nc  =  3\nd = 4";
    let tokens = vec![comment(source, "-- instar: format off(1)")];
    assert_eq!(held(&chars(source), &tokens), vec![(0, 33)]);
    let none = "-- instar: format off(0)\nb = 2";
    let tokens = vec![comment(none, "-- instar: format off(0)")];
    assert_eq!(held(&chars(none), &tokens), vec![(0, 25)]);
    let last = "x = 1 -- instar: format off( 5 )";
    let tokens = vec![comment(last, "-- instar: format off( 5 )")];
    assert_eq!(held(&chars(last), &tokens), vec![(0, last.len())]);
}

#[test]
fn other_comments_and_bad_counts_hold_nothing() {
    let source = "-- note\n-- instar: format off(x)\n-- instar: lint off\n-- instar: format on";
    let tokens = vec![
        comment(source, "-- note"),
        comment(source, "-- instar: format off(x)"),
        comment(source, "-- instar: lint off"),
        comment(source, "-- instar: format on"),
    ];
    assert!(held(&chars(source), &tokens).is_empty());
}
