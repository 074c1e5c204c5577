//! Reading the analyzer's output: its JSON syntax dump, which writes
//! non-finite numbers bare, and the suppression comments in the source.

use vstd::prelude::*;
use crate::lint::registry::{find, rule_named, upstream, upstream_rule};
use crate::text::{
    chars_of, copy_range, find_char, matches_at, occurs_at, pieces, push_all, same,
    split_at_char, split_words, starts_with, string_of, texts, trim, trim_start, trimmed,
    trimmed_start, words,
};

verus! {

/// `Infinity`.
pub open spec fn infinity() -> Seq<char> {
    seq!['I', 'n', 'f', 'i', 'n', 'i', 't', 'y']
}

/// The length of the non-finite number that starts at index `i` of `s`:
/// `-Infinity`, `Infinity` or `NaN`, or zero where none does.
pub open spec fn non_finite_at(s: Seq<char>, i: int) -> nat {
    if occurs_at(s, seq!['-'] + infinity(), i) {
        9
    } else if occurs_at(s, infinity(), i) {
        8
    } else if occurs_at(s, seq!['N', 'a', 'N'], i) {
        3
    } else {
        0
    }
}

/// The text of `s` from index `i` on, read with the given string state:
/// outside strings each non-finite number is put in double quotes; all other
/// characters are kept, and track whether a string is open and whether its
/// last character was an unescaped backslash.
pub open spec fn quoted_from(s: Seq<char>, i: int, quoted: bool, escaped: bool) -> Seq<char>
    decreases s.len() - i,
{
    if i < 0 || i >= s.len() {
        Seq::empty()
    } else if !quoted && non_finite_at(s, i) > 0 {
        let n = non_finite_at(s, i) as int;
        seq!['"'] + s.subrange(i, i + n) + seq!['"'] + quoted_from(s, i + n, quoted, escaped)
    } else {
        let c = s[i];
        if escaped {
            seq![c] + quoted_from(s, i + 1, quoted, false)
        } else if quoted && c == '\\' {
            seq![c] + quoted_from(s, i + 1, quoted, true)
        } else if c == '"' {
            seq![c] + quoted_from(s, i + 1, !quoted, false)
        } else {
            seq![c] + quoted_from(s, i + 1, quoted, false)
        }
    }
}

/// The length of the non-finite number at index `i` of `s`, or zero.
fn non_finite_len(s: &Vec<char>, i: usize) -> (n: usize)
    requires
        i < s.len(),
    ensures
        n == non_finite_at(s@, i as int),
{
    let mut word: Vec<char> = Vec::new();
    word.push('I');
    word.push('n');
    word.push('f');
    word.push('i');
    word.push('n');
    word.push('i');
    word.push('t');
    word.push('y');
    assert(word@ =~= infinity());
    let mut signed: Vec<char> = Vec::new();
    signed.push('-');
    let mut k: usize = 0;
    while k < word.len()
        invariant
            k <= word.len(),
            word@ == infinity(),
            signed@ == seq!['-'] + word@.take(k as int),
        decreases word.len() - k,
    {
        signed.push(word[k]);
        k += 1;
        assert(signed@ =~= seq!['-'] + word@.take(k as int));
    }
    assert(word@.take(8) =~= word@);
    let mut nan: Vec<char> = Vec::new();
    nan.push('N');
    nan.push('a');
    nan.push('N');
    assert(nan@ =~= seq!['N', 'a', 'N']);
    if matches_at(s.as_slice(), signed.as_slice(), i) {
        9
    } else if matches_at(s.as_slice(), word.as_slice(), i) {
        8
    } else if matches_at(s.as_slice(), nan.as_slice(), i) {
        3
    } else {
        0
    }
}

/// The analyzer's JSON text with every `-Infinity`, `Infinity` and `NaN`
/// outside strings put in double quotes, ready for a standard JSON parser.
pub fn quote_non_finite(text: &str) -> (json: String)
    ensures
        json@ == quoted_from(text@, 0, false, false),
{
    let s = chars_of(text);
    let mut output: Vec<char> = Vec::new();
    let mut quoted = false;
    let mut escaped = false;
    let mut i: usize = 0;
    assert(output@ + quoted_from(s@, 0, false, false) =~= quoted_from(s@, 0, false, false));
    while i < s.len()
        invariant
            i <= s@.len(),
            s@ == text@,
            escaped ==> quoted,
            output@ + quoted_from(s@, i as int, quoted, escaped) == quoted_from(s@, 0, false, false),
        decreases s@.len() - i,
    {
        let ghost before = output@;
        let ghost rest = quoted_from(s@, i as int, quoted, escaped);
        let n = if quoted {
            0
        } else {
            non_finite_len(&s, i)
        };
        if n > 0 {
            assert(i + n <= s@.len());
            let word = copy_range(s.as_slice(), i, i + n);
            output.push('"');
            push_all(&mut output, word.as_slice());
            output.push('"');
            i = i + n;
            assert(rest == seq!['"'] + s@.subrange(i - n, i as int) + seq!['"'] + quoted_from(
                s@,
                i as int,
                quoted,
                escaped,
            ));
            assert(output@ + quoted_from(s@, i as int, quoted, escaped) =~= before + rest);
        } else {
            let c = s[i];
            output.push(c);
            if escaped {
                escaped = false;
            } else if quoted && c == '\\' {
                escaped = true;
            } else if c == '"' {
                quoted = !quoted;
            }
            i = i + 1;
            assert(rest == seq![c] + quoted_from(s@, i as int, quoted, escaped));
            assert(output@ + quoted_from(s@, i as int, quoted, escaped) =~= before + rest);
        }
    }
    assert(output@ =~= quoted_from(s@, 0, false, false));
    string_of(output.as_slice())
}

/// What a comment says about suppressing findings.
#[derive(Debug)]
pub enum Suppression {
    /// The comment is no suppression.
    Ignored,
    /// `--!nolint`: these rules, or `*` for all, are off in the whole file.
    File(Vec<String>),
    /// `-- instar: allow(..)`: these rules, or `*` for all, are off on the
    /// comment's line and the next.
    Lines(Vec<String>),
    /// An `instar:` directive that does not read `allow(..)`.
    Malformed,
    /// An `allow(..)` directive naming a rule that is neither built in nor
    /// qualified by a graft.
    Unknown,
}

pub enum SuppressionView {
    Ignored,
    File(Seq<Seq<char>>),
    Lines(Seq<Seq<char>>),
    Malformed,
    Unknown,
}

/// The characters of each string.
pub open spec fn string_texts(v: Seq<String>) -> Seq<Seq<char>> {
    v.map_values(|s: String| s@)
}

impl View for Suppression {
    type V = SuppressionView;

    open spec fn view(&self) -> SuppressionView {
        match self {
            Suppression::Ignored => SuppressionView::Ignored,
            Suppression::File(rules) => SuppressionView::File(string_texts(rules@)),
            Suppression::Lines(rules) => SuppressionView::Lines(string_texts(rules@)),
            Suppression::Malformed => SuppressionView::Malformed,
            Suppression::Unknown => SuppressionView::Unknown,
        }
    }
}

/// `--!nolint`.
pub open spec fn nolint() -> Seq<char> {
    seq!['-', '-', '!', 'n', 'o', 'l', 'i', 'n', 't']
}

/// `instar:`.
pub open spec fn instar() -> Seq<char> {
    seq!['i', 'n', 's', 't', 'a', 'r', ':']
}

/// `allow(`.
pub open spec fn allow() -> Seq<char> {
    seq!['a', 'l', 'l', 'o', 'w', '(']
}

/// The built-in rules that the upstream warning names in `names` stand for,
/// in their order; names of no such warning are dropped.
pub open spec fn upstream_rules(names: Seq<Seq<char>>) -> Seq<Seq<char>>
    decreases names.len(),
{
    if names.len() == 0 {
        Seq::empty()
    } else {
        let rules = upstream_rules(names.drop_last());
        match upstream_rule(names.last()) {
            Some(rule) => rules.push(rule),
            None => rules,
        }
    }
}

/// `name` is neither `*`, nor a built-in rule, nor qualified by a graft.
pub open spec fn unknown(name: Seq<char>) -> bool {
    name != seq!['*'] && rule_named(name) is None && !name.contains('/')
}

/// The suppression that a comment's text states.
pub open spec fn suppression_of(comment: Seq<char>) -> SuppressionView {
    if starts_with(comment, nolint()) {
        let names = comment.skip(9);
        if trim(names).len() == 0 {
            SuppressionView::File(seq![seq!['*']])
        } else {
            SuppressionView::File(upstream_rules(words(names)))
        }
    } else if !starts_with(comment, seq!['-', '-']) {
        SuppressionView::Ignored
    } else {
        let rest = trim_start(comment.skip(2));
        if !starts_with(rest, instar()) {
            SuppressionView::Ignored
        } else {
            let directive = trim(rest.skip(7));
            if !(starts_with(directive, allow()) && directive.len() > 6 && directive.last() == ')') {
                SuppressionView::Malformed
            } else {
                let names = pieces(directive.subrange(6, directive.len() - 1), ',').map_values(
                    |piece: Seq<char>| trim(piece),
                );
                if exists|i: int| 0 <= i < names.len() && #[trigger] unknown(names[i]) {
                    SuppressionView::Unknown
                } else {
                    SuppressionView::Lines(names)
                }
            }
        }
    }
}

/// The characters of `--!nolint`.
fn nolint_chars() -> (r: Vec<char>)
    ensures
        r@ == nolint(),
{
    let mut r: Vec<char> = Vec::new();
    r.push('-');
    r.push('-');
    r.push('!');
    r.push('n');
    r.push('o');
    r.push('l');
    r.push('i');
    r.push('n');
    r.push('t');
    assert(r@ =~= nolint());
    r
}

/// The characters of `instar:`.
fn instar_chars() -> (r: Vec<char>)
    ensures
        r@ == instar(),
{
    let mut r: Vec<char> = Vec::new();
    r.push('i');
    r.push('n');
    r.push('s');
    r.push('t');
    r.push('a');
    r.push('r');
    r.push(':');
    assert(r@ =~= instar());
    r
}

/// The characters of `allow(`.
fn allow_chars() -> (r: Vec<char>)
    ensures
        r@ == allow(),
{
    let mut r: Vec<char> = Vec::new();
    r.push('a');
    r.push('l');
    r.push('l');
    r.push('o');
    r.push('w');
    r.push('(');
    assert(r@ =~= allow());
    r
}

/// The string `*`.
fn star() -> (r: String)
    ensures
        r@ == seq!['*'],
{
    let mut v: Vec<char> = Vec::new();
    v.push('*');
    string_of(v.as_slice())
}

/// Whether `name` is unknown to a suppression.
fn is_unknown(name: &Vec<char>) -> (r: bool)
    ensures
        r == unknown(name@),
{
    let mut asterisk: Vec<char> = Vec::new();
    asterisk.push('*');
    assert(asterisk@ =~= seq!['*']);
    if same(name.as_slice(), asterisk.as_slice()) {
        return false;
    }
    let text = string_of(name.as_slice());
    if find(text.as_str()).is_some() {
        return false;
    }
    match find_char(name.as_slice(), 0, '/') {
        Some(i) => {
            proof {
                crate::text::lemma_char_from(name@, 0, '/');
            }
            assert(name@[i as int] == '/');
            false
        },
        None => {
            proof {
                crate::text::lemma_char_from(name@, 0, '/');
            }
            true
        },
    }
}

/// The built-in rules that the upstream warning names in `names` stand for.
fn upstream_names(names: &Vec<Vec<char>>) -> (rules: Vec<String>)
    ensures
        string_texts(rules@) == upstream_rules(texts(names@)),
{
    let mut rules: Vec<String> = Vec::new();
    let mut i: usize = 0;
    while i < names.len()
        invariant
            i <= names@.len(),
            string_texts(rules@) == upstream_rules(texts(names@).take(i as int)),
        decreases names@.len() - i,
    {
        let ghost before = string_texts(rules@);
        assert(texts(names@).take(i + 1).drop_last() =~= texts(names@).take(i as int));
        let name = string_of(names[i].as_slice());
        match upstream(name.as_str()) {
            Some(rule) => {
                rules.push(string_of(chars_of(rule).as_slice()));
                assert(string_texts(rules@) =~= before.push(rule@));
            },
            None => {},
        }
        i += 1;
    }
    assert(texts(names@).take(i as int) =~= texts(names@));
    rules
}

/// The suppression that a comment's text states.
pub fn suppression(comment: &str) -> (r: Suppression)
    ensures
        r@ == suppression_of(comment@),
{
    let s = chars_of(comment);
    if matches_at(s.as_slice(), nolint_chars().as_slice(), 0) {
        let names = copy_range(s.as_slice(), 9, s.len());
        assert(names@ =~= comment@.skip(9));
        if trimmed(names.as_slice()).len() == 0 {
            let mut all: Vec<String> = Vec::new();
            all.push(star());
            assert(string_texts(all@) =~= seq![seq!['*']]);
            return Suppression::File(all);
        }
        return Suppression::File(upstream_names(&split_words(names.as_slice())));
    }
    let mut dashes: Vec<char> = Vec::new();
    dashes.push('-');
    dashes.push('-');
    assert(dashes@ =~= seq!['-', '-']);
    if !matches_at(s.as_slice(), dashes.as_slice(), 0) {
        return Suppression::Ignored;
    }
    let rest = trimmed_start(copy_range(s.as_slice(), 2, s.len()).as_slice());
    assert(comment@.skip(2) =~= s@.subrange(2, s@.len() as int));
    if !matches_at(rest.as_slice(), instar_chars().as_slice(), 0) {
        return Suppression::Ignored;
    }
    let directive = trimmed(copy_range(rest.as_slice(), 7, rest.len()).as_slice());
    assert(rest@.skip(7) =~= rest@.subrange(7, rest@.len() as int));
    if !(matches_at(directive.as_slice(), allow_chars().as_slice(), 0) && directive.len() > 6
        && directive[directive.len() - 1] == ')') {
        return Suppression::Malformed;
    }
    let inner = copy_range(directive.as_slice(), 6, directive.len() - 1);
    let split = split_at_char(inner.as_slice(), ',');
    let ghost names = pieces(inner@, ',').map_values(|piece: Seq<char>| trim(piece));
    assert(suppression_of(comment@) == if exists|j: int|
        0 <= j < names.len() && #[trigger] unknown(names[j]) {
        SuppressionView::Unknown
    } else {
        SuppressionView::Lines(names)
    });
    let mut rules: Vec<String> = Vec::new();
    let mut i: usize = 0;
    while i < split.len()
        invariant
            i <= split@.len(),
            texts(split@) == pieces(inner@, ','),
            names == pieces(inner@, ',').map_values(|piece: Seq<char>| trim(piece)),
            string_texts(rules@) == names.take(i as int),
            forall|j: int| 0 <= j < i ==> !unknown(#[trigger] names[j]),
            suppression_of(comment@) == if exists|j: int|
                0 <= j < names.len() && #[trigger] unknown(names[j]) {
                SuppressionView::Unknown
            } else {
                SuppressionView::Lines(names)
            },
        decreases split@.len() - i,
    {
        let name = trimmed(split[i].as_slice());
        assert(name@ == names[i as int]);
        if is_unknown(&name) {
            assert(texts(split@).len() == split@.len());
            assert(0 <= i < names.len() && unknown(names[i as int]));
            return Suppression::Unknown;
        }
        let ghost before = string_texts(rules@);
        rules.push(string_of(name.as_slice()));
        assert(string_texts(rules@) =~= before.push(name@));
        assert(names.take(i + 1) =~= names.take(i as int).push(name@));
        i += 1;
    }
    assert(names.take(i as int) =~= names);
    Suppression::Lines(rules)
}

impl Suppression {
    /// The message of the invalid-directive finding that a malformed or
    /// unknown directive gives.
    pub fn message(&self) -> (r: Option<&'static str>)
        ensures
            match self {
                Suppression::Malformed => r matches Some(m) && m@
                    == "Expected -- instar: allow(rule, ...)"@,
                Suppression::Unknown => r matches Some(m) && m@ == "Unknown rule in suppression"@,
                _ => r is None,
            },
    {
        match self {
            Suppression::Malformed => Some("Expected -- instar: allow(rule, ...)"),
            Suppression::Unknown => Some("Unknown rule in suppression"),
            _ => None,
        }
    }
}

} // verus!
