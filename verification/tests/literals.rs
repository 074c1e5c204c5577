use instar_core::format::configuration::{Quotes, Zero};
use instar_core::format::literals::{number, quote};
use instar_core::literal::{long_string, string_value, LiteralError};

#[test]
fn quoted_strings_decode_escapes() {
    assert_eq!(string_value(b"'abc'").unwrap(), "abc");
    assert_eq!(string_value(b"\"a\\nb\\tc\"").unwrap(), "a\nb\tc");
    assert_eq!(string_value(b"'\\65\\066\\0677'").unwrap(), "ABC7");
    assert_eq!(string_value(b"'\\x41\\x7a'").unwrap(), "Az");
    assert_eq!(string_value(b"'\\u{48}\\u{e9}\\u{1F600}'").unwrap(), "H\u{e9}\u{1F600}");
    assert_eq!(string_value(b"'a\\z  \n\t b'").unwrap(), "ab");
    assert_eq!(string_value(b"'a\\\r\nb'").unwrap(), "a\nb");
    assert_eq!(string_value(b"'\\a\\b\\f\\v\\\\\\'\\\"'").unwrap(), "\u{7}\u{8}\u{c}\u{b}\\'\"");
}

#[test]
fn malformed_strings_report_their_error() {
    assert_eq!(string_value(b"abc").unwrap_err(), LiteralError::NotStringLiteral);
    assert_eq!(string_value(b"'abc\"").unwrap_err(), LiteralError::NotStringLiteral);
    assert_eq!(string_value(b"'").unwrap_err(), LiteralError::NotStringLiteral);
    assert_eq!(string_value(b"'\\q'").unwrap_err(), LiteralError::UnknownEscape);
    assert_eq!(string_value(b"'\\256'").unwrap_err(), LiteralError::DecimalEscape);
    assert_eq!(string_value(b"'\\xZZ'").unwrap_err(), LiteralError::HexadecimalEscape);
    assert_eq!(string_value(b"'\\x4'").unwrap_err(), LiteralError::HexadecimalEscape);
    assert_eq!(string_value(b"'\\u48'").unwrap_err(), LiteralError::UnicodeEscape);
    assert_eq!(string_value(b"'\\u{48'").unwrap_err(), LiteralError::UnicodeEscape);
    assert_eq!(string_value(b"'\\u{D800}'").unwrap_err(), LiteralError::UnicodeCodepoint);
    assert_eq!(string_value(b"'\\u{110000}'").unwrap_err(), LiteralError::UnicodeCodepoint);
    assert_eq!(string_value(b"'\\u{}'").unwrap_err(), LiteralError::UnicodeCodepoint);
    assert_eq!(string_value(b"'\\xff'").unwrap_err(), LiteralError::InvalidUtf8);
}

#[test]
fn hexadecimal_escapes_accept_a_plus_sign() {
    assert_eq!(string_value(b"'\\x+9'").unwrap(), "\t");
    assert_eq!(string_value(b"'\\u{+41}'").unwrap(), "A");
}

#[test]
fn long_strings_drop_the_first_newline_and_normalize_breaks() {
    assert_eq!(string_value(b"[[abc]]").unwrap(), "abc");
    assert_eq!(long_string(b"[==[\r\nline]]\r\nnext\n\r]==]").unwrap(), "line]]\nnext\n");
    assert_eq!(long_string(b"[[\n\nx]]").unwrap(), "\nx");
    assert_eq!(long_string(b"[=[a]]").unwrap_err(), LiteralError::LongStringDelimiter);
    assert_eq!(long_string(b"[=a]=]").unwrap_err(), LiteralError::LongString);
    assert_eq!(long_string(b"[[").unwrap_err(), LiteralError::LongString);
    assert_eq!(long_string(b"").unwrap_err(), LiteralError::LongString);
}

#[test]
fn quotes_follow_the_configured_delimiter() {
    assert_eq!(quote("'abc'", Quotes::PreferDouble), "\"abc\"");
    assert_eq!(quote("'say \"hi\"'", Quotes::PreferDouble), "'say \"hi\"'");
    assert_eq!(quote("\"it's\"", Quotes::Single), "'it\\'s'");
    assert_eq!(quote("'it\\'s'", Quotes::Double), "\"it's\"");
    assert_eq!(quote("'a\\nb'", Quotes::Double), "\"a\\nb\"");
    assert_eq!(quote("\"x\"", Quotes::PreferSingle), "'x'");
    assert_eq!(quote("'x'", Quotes::Preserve), "'x'");
    assert_eq!(quote("[[x]]", Quotes::Double), "[[x]]");
}

#[test]
fn numbers_gain_or_lose_their_leading_zero() {
    assert_eq!(number(".5", Zero::Add), "0.5");
    assert_eq!(number("0.5", Zero::Strip), ".5");
    assert_eq!(number("0.5", Zero::Add), "0.5");
    assert_eq!(number(".x", Zero::Add), ".x");
    assert_eq!(number(".5", Zero::Preserve), ".5");
    assert_eq!(number("0.", Zero::Strip), "0.");
}

#[test]
fn requoting_keeps_the_value_of_literals() {
    let cases = [
        ("'it\\'s \"here\"\\n'", Quotes::Double),
        ("\"say \\\"hi\\\"\\t'\"", Quotes::Single),
        ("'tab\\tnew\\\\line'", Quotes::Double),
        ("\"héllo 'wörld'\"", Quotes::Single),
        ("'\\65\\x41\\u{42} \\z  \"q\"'", Quotes::Double),
    ];
    for (text, style) in cases {
        let requoted = quote(text, style);
        assert_ne!(requoted, text);
        assert_eq!(string_value(requoted.as_bytes()), string_value(text.as_bytes()));
        assert!(string_value(text.as_bytes()).is_ok());
    }
}

#[test]
fn a_backslash_that_pairs_with_the_closing_quote_changes_the_value() {
    let text = "'a\\'";
    let requoted = quote(text, Quotes::Double);
    assert_ne!(string_value(requoted.as_bytes()), string_value(text.as_bytes()));
}
