//! Rewriting of string delimiters and leading zeros of numbers.

use vstd::prelude::*;
use crate::format::configuration::{Quotes, Zero};
use crate::text::{chars_of, copy_range, string_of};
use crate::literal::{escape, is_digit, is_hex, is_space, literal_bytes, position_from, quoted_body, radix16, skip_spaces, LiteralError};
use vstd::utf8::{encode_scalar, encode_utf8};

verus! {

pub open spec fn is_quote(c: char) -> bool {
    c == '\'' || c == '"'
}

/// Unescaped double and single quotes in `s`, the first character escaped or not.
pub open spec fn delimiter_counts(s: Seq<char>, escaped: bool) -> (nat, nat)
    decreases s.len(),
{
    if s.len() == 0 {
        (0, 0)
    } else {
        let rest = delimiter_counts(s.drop_first(), !escaped && s[0] == '\\');
        if escaped || s[0] == '\\' {
            rest
        } else if s[0] == '"' {
            (rest.0 + 1, rest.1)
        } else if s[0] == '\'' {
            (rest.0, rest.1 + 1)
        } else {
            rest
        }
    }
}

/// The delimiter a style asks for, given the unescaped quotes of the contents.
pub open spec fn target_quote(style: Quotes, doubles: nat, singles: nat) -> char {
    match style {
        Quotes::Single => '\'',
        Quotes::PreferDouble => if doubles > singles {
            '\''
        } else {
            '"'
        },
        Quotes::PreferSingle => if singles <= doubles {
            '\''
        } else {
            '"'
        },
        _ => '"',
    }
}

pub open spec fn other_quote(target: char) -> char {
    if target == '"' {
        '\''
    } else {
        '"'
    }
}

/// String contents for the `target` delimiter: escapes of the other delimiter
/// are dropped and bare target delimiters are escaped.
pub open spec fn requote(s: Seq<char>, target: char) -> Seq<char>
    decreases s.len(),
{
    if s.len() == 0 {
        seq![]
    } else if s[0] == '\\' {
        if s.len() == 1 {
            seq!['\\']
        } else if s[1] == other_quote(target) {
            seq![other_quote(target)] + requote(s.skip(2), target)
        } else {
            seq!['\\', s[1]] + requote(s.skip(2), target)
        }
    } else if s[0] == target {
        seq!['\\', target] + requote(s.drop_first(), target)
    } else {
        seq![s[0]] + requote(s.drop_first(), target)
    }
}

/// Whether `quote` can slice the contents out of `text`: a quoted literal
/// has at least its two delimiters, the closing one a single byte.
pub open spec fn quotable(text: Seq<char>, style: Quotes) -> bool {
    (text.len() > 0 && is_quote(text[0]) && style != Quotes::Preserve) ==> text.len() >= 2 && (
    text.last() as u32) < 0x80
}

/// A string literal with the delimiter the style asks for; other text unchanged.
pub open spec fn quoted_text(text: Seq<char>, style: Quotes) -> Seq<char> {
    if !(text.len() > 0 && is_quote(text[0])) || style == Quotes::Preserve {
        text
    } else {
        let inner = text.subrange(1, text.len() - 1);
        let counts = delimiter_counts(inner, false);
        let target = target_quote(style, counts.0, counts.1);
        if text[0] == target {
            text
        } else {
            seq![target] + requote(inner, target) + seq![target]
        }
    }
}

/// Rewrites the delimiters of a quoted string literal as `style` asks.
pub fn quote(text: &str, style: Quotes) -> (r: String)
    requires
        quotable(text@, style),
    ensures
        r@ == quoted_text(text@, style),
{
    let t = chars_of(text);
    if !(t.len() > 0 && (t[0] == '\'' || t[0] == '"')) || style == Quotes::Preserve {
        return string_of(&t);
    }
    let inner = copy_range(&t, 1, t.len() - 1);
    let mut doubles: usize = 0;
    let mut singles: usize = 0;
    let mut escaped = false;
    let mut i: usize = 0;
    assert(inner@.skip(0) =~= inner@);
    while i < inner.len()
        invariant
            i <= inner@.len(),
            doubles <= i,
            singles <= i,
            delimiter_counts(inner@, false) == ((doubles + delimiter_counts(
                inner@.skip(i as int),
                escaped,
            ).0) as nat, (singles + delimiter_counts(inner@.skip(i as int), escaped).1) as nat),
        decreases inner@.len() - i,
    {
        let c = inner[i];
        assert(inner@.skip(i as int).drop_first() =~= inner@.skip(i + 1));
        if escaped {
            escaped = false;
        } else if c == '\\' {
            escaped = true;
        } else if c == '"' {
            doubles = doubles + 1;
        } else if c == '\'' {
            singles = singles + 1;
        }
        i = i + 1;
    }
    assert(inner@.skip(i as int) =~= Seq::<char>::empty());
    let target = match style {
        Quotes::Single => '\'',
        Quotes::PreferDouble => if doubles > singles {
            '\''
        } else {
            '"'
        },
        Quotes::PreferSingle => if singles <= doubles {
            '\''
        } else {
            '"'
        },
        _ => '"',
    };
    if t[0] == target {
        return string_of(&t);
    }
    let other = if target == '"' {
        '\''
    } else {
        '"'
    };
    let mut output: Vec<char> = Vec::new();
    output.push(target);
    let mut k: usize = 0;
    assert(inner@.skip(0) =~= inner@);
    while k < inner.len()
        invariant
            k <= inner@.len(),
            other == other_quote(target),
            seq![target] + requote(inner@, target) == output@ + requote(
                inner@.skip(k as int),
                target,
            ),
        decreases inner@.len() - k,
    {
        let ghost rest = inner@.skip(k as int);
        let ghost before = output@;
        let c = inner[k];
        if c == '\\' {
            if k + 1 == inner.len() {
                output.push('\\');
                k = k + 1;
                assert(inner@.skip(k as int) =~= Seq::<char>::empty());
            } else {
                let next = inner[k + 1];
                if next == other {
                    output.push(other);
                } else {
                    output.push('\\');
                    output.push(next);
                }
                assert(rest.skip(2) =~= inner@.skip(k + 2));
                k = k + 2;
            }
        } else if c == target {
            output.push('\\');
            output.push(target);
            assert(rest.drop_first() =~= inner@.skip(k + 1));
            k = k + 1;
        } else {
            output.push(c);
            assert(rest.drop_first() =~= inner@.skip(k + 1));
            k = k + 1;
        }
        assert(before + requote(rest, target) =~= output@ + requote(
            inner@.skip(k as int),
            target,
        ));
    }
    assert(inner@.skip(k as int) =~= Seq::<char>::empty());
    output.push(target);
    assert(output@ =~= seq![target] + requote(inner@, target) + seq![target]);
    string_of(&output)
}

pub open spec fn is_ascii_digit(c: char) -> bool {
    '0' <= c <= '9'
}

/// A number with its zero before the decimal point added or stripped as `style` asks.
pub open spec fn numbered_text(text: Seq<char>, style: Zero) -> Seq<char> {
    match style {
        Zero::Add => if text.len() >= 2 && text[0] == '.' && is_ascii_digit(text[1]) {
            seq!['0'] + text
        } else {
            text
        },
        Zero::Strip => if text.len() >= 3 && text[0] == '0' && text[1] == '.' && is_ascii_digit(
            text[2],
        ) {
            text.drop_first()
        } else {
            text
        },
        Zero::Preserve => text,
    }
}

/// Adds or strips the zero before the decimal point of a fractional number.
pub fn number(text: &str, style: Zero) -> (r: String)
    ensures
        r@ == numbered_text(text@, style),
{
    let t = chars_of(text);
    match style {
        Zero::Add => {
            if t.len() >= 2 && t[0] == '.' && '0' <= t[1] && t[1] <= '9' {
                let mut out: Vec<char> = Vec::new();
                out.push('0');
                crate::text::push_all(&mut out, &t);
                string_of(&out)
            } else {
                string_of(&t)
            }
        },
        Zero::Strip => {
            if t.len() >= 3 && t[0] == '0' && t[1] == '.' && '0' <= t[2] && t[2] <= '9' {
                let out = copy_range(&t, 1, t.len());
                assert(t@.subrange(1, t@.len() as int) =~= t@.drop_first());
                string_of(&out)
            } else {
                string_of(&t)
            }
        },
        Zero::Preserve => string_of(&t),
    }
}


/// A backslash followed by this letter stands for one byte: a bell,
/// backspace, form feed, line feed, carriage return, tab, vertical tab,
/// backslash or quote.
pub open spec fn simple_letter(c: char) -> bool {
    c == 'a' || c == 'b' || c == 'f' || c == 'n' || c == 'r' || c == 't' || c == 'v' || c == '\\' || c == '\''
        || c == '"'
}

/// The byte that a backslash and the letter `c` stand for.
pub open spec fn letter_value(c: char) -> u8 {
    if c == 'a' {
        7
    } else if c == 'b' {
        8
    } else if c == 'f' {
        12
    } else if c == 'n' {
        10
    } else if c == 'r' {
        13
    } else if c == 't' {
        9
    } else if c == 'v' {
        11
    } else if c == '\\' {
        0x5c
    } else if c == '\'' {
        0x27
    } else {
        0x22
    }
}

/// `p` ahead of a decoded result.
pub open spec fn prepend(p: Seq<u8>, r: Result<Seq<u8>, LiteralError>) -> Result<Seq<u8>, LiteralError> {
    match r {
        Ok(y) => Ok(p + y),
        Err(e) => Err(e),
    }
}

proof fn lemma_encode_concat(a: Seq<char>, b: Seq<char>)
    ensures
        encode_utf8(a + b) == encode_utf8(a) + encode_utf8(b),
    decreases a.len(),
{
    if a.len() == 0 {
        assert(a + b =~= b);
        assert(encode_utf8(a) =~= Seq::<u8>::empty());
        assert(encode_utf8(a) + encode_utf8(b) =~= encode_utf8(b));
    } else {
        lemma_encode_concat(a.drop_first(), b);
        assert((a + b).drop_first() =~= a.drop_first() + b);
        assert((a + b)[0] == a[0]);
        assert(encode_utf8(a + b) =~= encode_scalar(a[0] as u32) + (encode_utf8(a.drop_first()) + encode_utf8(b)));
    }
}

proof fn lemma_one(c: char)
    ensures
        encode_utf8(seq![c]) == encode_scalar(c as u32),
{
    assert(seq![c].drop_first() =~= Seq::<char>::empty());
    assert(encode_utf8(seq![c].drop_first()) =~= Seq::<u8>::empty());
    assert(encode_utf8(seq![c]) =~= encode_scalar(c as u32) + Seq::<u8>::empty());
    assert(encode_scalar(c as u32) + Seq::<u8>::empty() =~= encode_scalar(c as u32));
}

proof fn lemma_high(y: u8)
    by (bit_vector)
    ensures
        (0x80u8 | y) >= 0x80u8,
        (0xC0u8 | y) >= 0x80u8,
        (0xE0u8 | y) >= 0x80u8,
        (0xF0u8 | y) >= 0x80u8,
        (0x80u8 | y) != 0x5cu8,
        (0xC0u8 | y) != 0x5cu8,
        (0xE0u8 | y) != 0x5cu8,
        (0xF0u8 | y) != 0x5cu8,
{
}

proof fn lemma_low(v: u32)
    by (bit_vector)
    requires
        v <= 0x7f,
    ensures
        ((v & 0x7f) as u8) as u32 == v,
{
}

spec fn has_width_1(v: u32) -> bool {
    v <= 0x7f
}

proof fn lemma_plain_char(c: char)
    requires
        c != '\\',
    ensures
        encode_scalar(c as u32).len() >= 1,
        forall|k: int| 0 <= k < encode_scalar(c as u32).len() ==> #[trigger] encode_scalar(c as u32)[k] != 0x5cu8,
{
    let v = c as u32;
    vstd::utf8::char_is_scalar(c);
    if has_width_1(v) {
        lemma_low(v);
        assert(encode_scalar(v)[0] as u32 == v);
        assert(v != 0x5c) by {
            vstd::utf8::char_u32_cast(c, v);
        }
    } else {
        lemma_high(((v >> 6) & 0x1F) as u8);
        lemma_high(((v >> 12) & 0x0F) as u8);
        lemma_high(((v >> 18) & 0x7) as u8);
        lemma_high((v & 0x3F) as u8);
        lemma_high(((v >> 6) & 0x3F) as u8);
        lemma_high(((v >> 12) & 0x3F) as u8);
    }
}

proof fn lemma_ascii(c: char, b: u8)
    requires
        c as u32 == b as u32,
        b <= 0x7f,
    ensures
        encode_scalar(c as u32) == seq![b],
{
    lemma_low(c as u32);
}

/// The byte of a one-letter escape's letter.
spec fn letter_byte(c: char) -> u8 {
    if c == 'a' {
        0x61
    } else if c == 'b' {
        0x62
    } else if c == 'f' {
        0x66
    } else if c == 'n' {
        0x6e
    } else if c == 'r' {
        0x72
    } else if c == 't' {
        0x74
    } else if c == 'v' {
        0x76
    } else if c == '\\' {
        0x5c
    } else if c == '\'' {
        0x27
    } else {
        0x22
    }
}

proof fn lemma_plain_bytes(b: Seq<u8>, i: int, w: Seq<u8>)
    requires
        0 <= i,
        i + w.len() <= b.len() - 1,
        b.subrange(i, i + w.len()) == w,
        forall|k: int| 0 <= k < w.len() ==> #[trigger] w[k] != 0x5cu8,
    ensures
        quoted_body(b, i) == prepend(w, quoted_body(b, i + w.len())),
    decreases w.len(),
{
    if w.len() == 0 {
        assert(prepend(w, quoted_body(b, i)) == quoted_body(b, i)) by {
            match quoted_body(b, i) {
                Ok(y) => {
                    assert(w + y =~= y);
                },
                Err(_) => {},
            }
        }
    } else {
        assert(b[i] == w[0]);
        assert(b.subrange(i + 1, i + 1 + w.drop_first().len()) =~= w.drop_first());
        lemma_plain_bytes(b, i + 1, w.drop_first());
        match quoted_body(b, i + w.len()) {
            Ok(y) => {
                assert(seq![w[0]] + (w.drop_first() + y) =~= w + y);
            },
            Err(_) => {},
        }
    }
}

/// A one-letter escape at `i`: its two bytes decode to the letter's value.
proof fn lemma_letter_escape(b: Seq<u8>, i: int, c: char)
    requires
        0 <= i,
        i + 2 <= b.len() - 1,
        b[i] == 0x5cu8,
        b[i + 1] == letter_byte(c),
        simple_letter(c),
    ensures
        quoted_body(b, i) == prepend(seq![letter_value(c)], quoted_body(b, i + 2)),
{
    assert(crate::literal::escape(b, i + 1) == Ok::<(Seq<u8>, int), LiteralError>((seq![letter_value(c)], i + 2)));
}

proof fn lemma_split_two(s: Seq<char>)
    requires
        s.len() >= 2,
    ensures
        encode_utf8(s) == encode_utf8(seq![s[0], s[1]]) + encode_utf8(s.skip(2)),
        encode_utf8(seq![s[0], s[1]]) == encode_scalar(s[0] as u32) + encode_scalar(s[1] as u32),
{
    assert(s =~= seq![s[0], s[1]] + s.skip(2));
    lemma_encode_concat(seq![s[0], s[1]], s.skip(2));
    assert(seq![s[0], s[1]] =~= seq![s[0]] + seq![s[1]]);
    lemma_encode_concat(seq![s[0]], seq![s[1]]);
    lemma_one(s[0]);
    lemma_one(s[1]);
}

/// A byte that an escape may read past its letter: whitespace, a hexadecimal
/// digit, `+` or a brace.
pub open spec fn tame(b: u8) -> bool {
    is_space(b) || is_hex(b) || b == 0x2bu8 || b == 0x7bu8 || b == 0x7du8
}

/// `A` from `ia` and `B` from `ib` hold the same `m` bytes, tame after the
/// first, and then a byte that is not tame.
pub open spec fn agree(a: Seq<u8>, ia: int, b: Seq<u8>, ib: int, m: int) -> bool {
    &&& 0 <= ia && 0 <= ib && 1 <= m
    &&& ia + m < a.len() && ib + m < b.len()
    &&& forall|k: int| 0 <= k < m ==> #[trigger] a[ia + k] == b[ib + k]
    &&& forall|k: int| 1 <= k < m ==> tame(#[trigger] a[ia + k])
    &&& !tame(a[ia + m]) && !tame(b[ib + m])
}

proof fn lemma_skip_agree(a: Seq<u8>, ia: int, b: Seq<u8>, ib: int, m: int, k: int)
    requires
        agree(a, ia, b, ib, m),
        1 <= k <= m,
    ensures
        skip_spaces(a, ia + k) - ia == skip_spaces(b, ib + k) - ib,
        skip_spaces(a, ia + k) <= ia + m,
    decreases m - k,
{
    if k < m {
        assert(a[ia + k] == b[ib + k]);
        if is_space(a[ia + k]) {
            lemma_skip_agree(a, ia, b, ib, m, k + 1);
        }
    }
}

proof fn lemma_position_agree(a: Seq<u8>, ia: int, b: Seq<u8>, ib: int, m: int, k: int, e: int)
    requires
        agree(a, ia, b, ib, m),
        1 <= k <= e < m,
        position_from(a, ia + k, 0x7du8) == Some(ia + e),
    ensures
        position_from(b, ib + k, 0x7du8) == Some(ib + e),
    decreases e - k,
{
    crate::literal::lemma_position_from(a, ia + k, 0x7du8);
    assert(a[ia + k] == b[ib + k]);
    if k < e {
        assert(a[ia + k] != 0x7du8);
        lemma_position_agree(a, ia, b, ib, m, k + 1, e);
    } else {
        assert(b[ib + k] == 0x7du8);
    }
}

proof fn lemma_position_bound(a: Seq<u8>, ia: int, m: int, k: int)
    requires
        0 <= ia,
        1 <= k <= m,
        ia + m < a.len(),
        forall|j: int| 1 <= j < m ==> tame(#[trigger] a[ia + j]),
        !tame(a[ia + m]),
        position_from(a, ia + k, 0x7du8) matches Some(e) && forall|j: int| ia + k <= j < e ==> (is_hex(#[trigger] a[j]) || a[j] == 0x2bu8),
    ensures
        position_from(a, ia + k, 0x7du8) matches Some(e) && e < ia + m,
    decreases m - k,
{
    crate::literal::lemma_position_from(a, ia + k, 0x7du8);
    if a[ia + k] != 0x7du8 {
        if k == m {
            assert(false);
        } else {
            lemma_position_bound(a, ia, m, k + 1);
        }
    }
}

/// An escape that decodes reads no further than its agreeing bytes, so it
/// decodes alike where the same bytes stand.
proof fn lemma_escape_agree(a: Seq<u8>, ia: int, b: Seq<u8>, ib: int, m: int)
    requires
        agree(a, ia, b, ib, m),
        escape(a, ia) is Ok,
    ensures
        escape(b, ib) is Ok,
        escape(b, ib)->Ok_0.0 == escape(a, ia)->Ok_0.0,
        escape(b, ib)->Ok_0.1 - ib == escape(a, ia)->Ok_0.1 - ia,
        escape(a, ia)->Ok_0.1 <= ia + m,
{
    let c = a[ia];
    assert(a[ia + 0] == b[ib + 0]);
    if c == 0x0au8 || c == 0x0du8 {
        if m > 1 {
            assert(a[ia + 1] == b[ib + 1]);
        }
    } else if c == 0x7au8 {
        lemma_skip_agree(a, ia, b, ib, m, 1);
    } else if c == 0x78u8 {
        if m >= 2 {
            assert(a[ia + 1] == b[ib + 1]);
        }
        if m >= 3 {
            assert(a[ia + 2] == b[ib + 2]);
            assert(a.subrange(ia + 1, ia + 3) =~= b.subrange(ib + 1, ib + 3));
        }
        let sub = a.subrange(ia + 1, ia + 3);
        if m < 3 {
            if m == 1 {
                assert(sub[0] == a[ia + 1]);
            } else {
                assert(sub[1] == a[ia + 2]);
            }
            assert(radix16(sub) is None);
        }
    } else if c == 0x75u8 {
        assert(a[ia + 1] == 0x7bu8);
        if m == 1 {
            assert(false);
        }
        assert(a[ia + 1] == b[ib + 1]);
        let end = position_from(a, ia + 2, 0x7du8)->Some_0;
        crate::literal::lemma_position_from(a, ia + 2, 0x7du8);
        let digits = a.subrange(ia + 2, end);
        assert forall|j: int| ia + 2 <= j < end implies (is_hex(#[trigger] a[j]) || a[j] == 0x2bu8) by {
            let d = crate::literal::radix_digits(digits);
            if digits.len() > 0 && digits[0] == 0x2bu8 {
                if j > ia + 2 {
                    assert(d[j - ia - 3] == a[j]);
                }
            } else {
                assert(d[j - ia - 2] == a[j]);
            }
        }
        if m >= 2 {
            lemma_position_bound(a, ia, m, 2);
        }
        lemma_position_agree(a, ia, b, ib, m, 2, end - ia);
        assert(b.subrange(ib + 2, end - ia + ib) =~= digits) by {
            assert forall|j: int| 0 <= j < digits.len() implies b.subrange(ib + 2, end - ia + ib)[j] == digits[j] by {
                let kk = 2 + j;
                assert(a[ia + kk] == b[ib + kk]);
            }
        }
    } else if is_digit(c) {
        if m >= 2 {
            assert(a[ia + 1] == b[ib + 1]);
        }
        if m >= 3 {
            assert(a[ia + 2] == b[ib + 2]);
        }
    }
}


/// A character that an escape may read past its letter.
pub open spec fn tame_char(c: char) -> bool {
    c == ' ' || c == '\t' || c == '\n' || c == '\x0c' || c == '\r' || ('0' <= c && c <= '9') || ('A' <= c && c <= 'F')
        || ('a' <= c && c <= 'f') || c == '+' || c == '{' || c == '}'
}

/// The number of tame characters that `s` starts with.
pub open spec fn tame_run(s: Seq<char>) -> nat
    decreases s.len(),
{
    if s.len() > 0 && tame_char(s[0]) {
        1 + tame_run(s.drop_first())
    } else {
        0
    }
}

/// A backslash ends the contents with nothing after it to escape.
pub open spec fn lone_backslash(s: Seq<char>) -> bool
    decreases s.len(),
{
    if s.len() == 0 {
        false
    } else if s[0] == '\\' {
        s.len() == 1 || lone_backslash(s.skip(2))
    } else {
        lone_backslash(s.drop_first())
    }
}

proof fn lemma_first_byte(c: char)
    ensures
        encode_scalar(c as u32).len() >= 1,
        tame_char(c) ==> encode_scalar(c as u32) == seq![(c as u32) as u8] && tame((c as u32) as u8),
        !tame_char(c) ==> !tame(encode_scalar(c as u32)[0]),
        c == '\\' ==> encode_scalar(c as u32)[0] == 0x5cu8,
        (c as u32) < 0x80 ==> encode_scalar(c as u32) == seq![(c as u32) as u8],
{
    let v = c as u32;
    vstd::utf8::char_is_scalar(c);
    vstd::utf8::char_u32_cast(c, v);
    if v <= 0x7f {
        lemma_low(v);
        assert(encode_scalar(v) == seq![(v & 0x7f) as u8]);
    } else {
        lemma_high(((v >> 6) & 0x1F) as u8);
        lemma_high(((v >> 12) & 0x0F) as u8);
        lemma_high(((v >> 18) & 0x7) as u8);
    }
}

proof fn lemma_tame_bytes(s: Seq<char>, k: int)
    requires
        0 <= k <= tame_run(s),
    ensures
        k <= s.len(),
        encode_utf8(s.take(k)).len() == k,
        forall|j: int| 0 <= j < k ==> tame(#[trigger] encode_utf8(s.take(k))[j]) && encode_utf8(s.take(k))[j] as u32
            == s[j] as u32,
        forall|j: int| 0 <= j < k ==> tame_char(#[trigger] s[j]),
    decreases k,
{
    if k > 0 {
        lemma_tame_bytes(s.drop_first(), k - 1);
        assert(s.take(k) =~= seq![s[0]] + s.drop_first().take(k - 1));
        lemma_encode_concat(seq![s[0]], s.drop_first().take(k - 1));
        lemma_one(s[0]);
        lemma_first_byte(s[0]);
        vstd::utf8::char_u32_cast(s[0], s[0] as u32);
        assert forall|j: int| 0 <= j < k implies tame_char(#[trigger] s[j]) by {
            if j > 0 {
                assert(s[j] == s.drop_first()[j - 1]);
            }
        }
        assert forall|j: int| 0 <= j < k implies tame(#[trigger] encode_utf8(s.take(k))[j]) && encode_utf8(s.take(k))[j] as u32
            == s[j] as u32 by {
            if j > 0 {
                assert(encode_utf8(s.take(k))[j] == encode_utf8(s.drop_first().take(k - 1))[j - 1]);
                assert(s[j] == s.drop_first()[j - 1]);
            }
        }
    }
}

proof fn lemma_tame_run_bound(s: Seq<char>)
    ensures
        tame_run(s) <= s.len(),
        tame_run(s) < s.len() ==> !tame_char(s[tame_run(s) as int]),
    decreases s.len(),
{
    if s.len() > 0 && tame_char(s[0]) {
        lemma_tame_run_bound(s.drop_first());
    }
}

proof fn lemma_requote_prefix(s: Seq<char>, k: int, target: char)
    requires
        0 <= k <= s.len(),
        is_quote(target),
        forall|j: int| 0 <= j < k ==> tame_char(#[trigger] s[j]),
    ensures
        requote(s, target) == s.take(k) + requote(s.skip(k), target),
        lone_backslash(s) == lone_backslash(s.skip(k)),
    decreases k,
{
    if k == 0 {
        assert(s.skip(0) =~= s);
        assert(s.take(0) + requote(s, target) =~= requote(s, target));
    } else {
        assert(tame_char(s[0]));
        assert forall|j: int| 0 <= j < k - 1 implies tame_char(#[trigger] s.drop_first()[j]) by {
            assert(s.drop_first()[j] == s[j + 1]);
        }
        lemma_requote_prefix(s.drop_first(), k - 1, target);
        assert(s.drop_first().skip(k - 1) =~= s.skip(k));
        assert(s.take(k) =~= seq![s[0]] + s.drop_first().take(k - 1));
        assert(requote(s, target) == seq![s[0]] + requote(s.drop_first(), target));
    }
}

/// The first character of requoted text that starts with an untame
/// character is untame, and requoting keeps text empty or not.
proof fn lemma_requote_head(r: Seq<char>, target: char)
    requires
        is_quote(target),
        r.len() > 0 ==> !tame_char(r[0]),
    ensures
        r.len() == 0 <==> requote(r, target).len() == 0,
        r.len() > 0 ==> !tame_char(requote(r, target)[0]),
{
    if r.len() > 0 {
        if r[0] == '\\' {
            if r.len() > 1 {
                assert(r[1] == other_quote(target) ==> requote(r, target)[0] == other_quote(target));
            }
        }
    }
}

proof fn lemma_encode_head(r: Seq<char>)
    requires
        r.len() > 0,
    ensures
        encode_utf8(r).len() > 0,
        encode_utf8(r)[0] == encode_scalar(r[0] as u32)[0],
{
    lemma_first_byte(r[0]);
}

proof fn lemma_plain_step(pre: Seq<u8>, c: char, rest: Seq<u8>, close: Seq<u8>)
    requires
        c != '\\',
        close.len() == 1,
    ensures
        quoted_body(pre + encode_scalar(c as u32) + rest + close, pre.len() as int) == prepend(
            encode_scalar(c as u32),
            quoted_body((pre + encode_scalar(c as u32)) + rest + close, (pre + encode_scalar(c as u32)).len() as int),
        ),
{
    let w = encode_scalar(c as u32);
    let b = pre + w + rest + close;
    lemma_plain_char(c);
    assert(b =~= (pre + w) + rest + close);
    assert(b.subrange(pre.len() as int, (pre.len() + w.len()) as int) =~= w);
    lemma_plain_bytes(b, pre.len() as int, w);
}

/// Requoting the contents of a literal that decodes keeps what they decode
/// to, from any bytes before them.
proof fn lemma_requote_general(pre_o: Seq<u8>, pre_t: Seq<u8>, s: Seq<char>, target: char, ob: u8, tb: u8)
    requires
        is_quote(target),
        target as u32 == tb as u32,
        other_quote(target) as u32 == ob as u32,
        !lone_backslash(s),
        quoted_body(pre_o + encode_utf8(s) + seq![ob], pre_o.len() as int) is Ok,
    ensures
        quoted_body(pre_t + encode_utf8(requote(s, target)) + seq![tb], pre_t.len() as int) == quoted_body(
            pre_o + encode_utf8(s) + seq![ob],
            pre_o.len() as int,
        ),
    decreases s.len(), 2int,
{
    let o = other_quote(target);
    let bo = pre_o + encode_utf8(s) + seq![ob];
    let bt = pre_t + encode_utf8(requote(s, target)) + seq![tb];
    lemma_ascii(target, tb);
    lemma_ascii(o, ob);
    lemma_ascii('\\', 0x5cu8);
    if s.len() == 0 {
        assert(requote(s, target) =~= Seq::<char>::empty());
        assert(encode_utf8(requote(s, target)) =~= Seq::<u8>::empty());
        assert(encode_utf8(s) =~= Seq::<u8>::empty());
    } else if s[0] != '\\' && s[0] != target {
        let rest = s.drop_first();
        let w = encode_scalar(s[0] as u32);
        assert(encode_utf8(s) == w + encode_utf8(rest));
        assert(requote(s, target) == seq![s[0]] + requote(rest, target));
        lemma_encode_concat(seq![s[0]], requote(rest, target));
        lemma_one(s[0]);
        assert(bo =~= pre_o + w + encode_utf8(rest) + seq![ob]);
        assert(bt =~= pre_t + w + encode_utf8(requote(rest, target)) + seq![tb]);
        lemma_plain_step(pre_o, s[0], encode_utf8(rest), seq![ob]);
        lemma_plain_step(pre_t, s[0], encode_utf8(requote(rest, target)), seq![tb]);
        lemma_requote_general(pre_o + w, pre_t + w, rest, target, ob, tb);
    } else if s[0] == target {
        let rest = s.drop_first();
        assert(encode_utf8(s) == encode_scalar(target as u32) + encode_utf8(rest));
        assert(requote(s, target) == seq!['\\', target] + requote(rest, target));
        lemma_encode_concat(seq!['\\', target], requote(rest, target));
        let e = seq![0x5cu8, tb];
        assert(encode_utf8(seq!['\\', target]) =~= e) by {
            assert(seq!['\\', target] =~= seq!['\\'] + seq![target]);
            lemma_encode_concat(seq!['\\'], seq![target]);
            lemma_one('\\');
            lemma_one(target);
        }
        assert(bo =~= pre_o + seq![tb] + encode_utf8(rest) + seq![ob]);
        assert(target != '\\');
        lemma_plain_step(pre_o, target, encode_utf8(rest), seq![ob]);
        assert(bt =~= (pre_t + e) + encode_utf8(requote(rest, target)) + seq![tb]);
        assert(letter_byte(target) == tb) by {
            vstd::utf8::char_u32_cast(target, target as u32);
        }
        lemma_letter_escape(bt, pre_t.len() as int, target);
        assert(letter_value(target) == tb);
        lemma_requote_general(pre_o + seq![tb], pre_t + e, rest, target, ob, tb);
    } else {
        lemma_requote_backslash(pre_o, pre_t, s, target, ob, tb);
    }
}

/// Requoting contents that start with an escape keeps what they decode to.
#[verifier::spinoff_prover]
#[verifier::rlimit(50)]
proof fn lemma_requote_backslash(pre_o: Seq<u8>, pre_t: Seq<u8>, s: Seq<char>, target: char, ob: u8, tb: u8)
    requires
        is_quote(target),
        target as u32 == tb as u32,
        other_quote(target) as u32 == ob as u32,
        !lone_backslash(s),
        s.len() > 0,
        s[0] == '\\',
        quoted_body(pre_o + encode_utf8(s) + seq![ob], pre_o.len() as int) is Ok,
    ensures
        quoted_body(pre_t + encode_utf8(requote(s, target)) + seq![tb], pre_t.len() as int) == quoted_body(
            pre_o + encode_utf8(s) + seq![ob],
            pre_o.len() as int,
        ),
    decreases s.len(), 1int,
{
    let o = other_quote(target);
    let bo = pre_o + encode_utf8(s) + seq![ob];
    let bt = pre_t + encode_utf8(requote(s, target)) + seq![tb];
    lemma_ascii(target, tb);
    lemma_ascii(o, ob);
    lemma_ascii('\\', 0x5cu8);
    assert(s.len() >= 2);
    let x = s[1];
    let rest = s.skip(2);
    lemma_split_two(s);
    lemma_first_byte(x);
    let io = pre_o.len() as int;
    assert(bo =~= pre_o + (encode_scalar('\\' as u32) + encode_scalar(x as u32)) + encode_utf8(rest) + seq![ob]);
    assert(bo[io] == 0x5cu8);
    if (x as u32) >= 0x80 {
        assert(bo[io + 1] == encode_scalar(x as u32)[0]);
        lemma_high(((x as u32 >> 6) & 0x1F) as u8);
        lemma_high(((x as u32 >> 12) & 0x0F) as u8);
        lemma_high(((x as u32 >> 18) & 0x7) as u8);
        vstd::utf8::char_is_scalar(x);
        assert(escape(bo, io + 1) is Err);
        assert(false);
    }
    let xb = (x as u32) as u8;
    assert(encode_scalar(x as u32) == seq![xb]);
    let head = seq![0x5cu8, xb];
    assert(bo =~= (pre_o + head) + encode_utf8(rest) + seq![ob]);
    if x == o {
        assert(requote(s, target) == seq![o] + requote(rest, target));
        lemma_encode_concat(seq![o], requote(rest, target));
        lemma_one(o);
        assert(bt =~= pre_t + seq![ob] + encode_utf8(requote(rest, target)) + seq![tb]);
        assert(o != '\\');
        lemma_plain_step(pre_t, o, encode_utf8(requote(rest, target)), seq![tb]);
        assert(simple_letter(o));
        assert(letter_byte(o) == xb) by {
            vstd::utf8::char_u32_cast(o, o as u32);
        }
        lemma_letter_escape(bo, io, o);
        assert(letter_value(o) == ob);
        lemma_requote_general(pre_o + head, pre_t + seq![ob], rest, target, ob, tb);
    } else {
        lemma_requote_agreeing(pre_o, pre_t, s, target, ob, tb);
    }
}

/// The head of contents that start with an escape of `x`, as bytes.
spec fn escape_head(x: char) -> Seq<u8> {
    seq![0x5cu8, (x as u32) as u8]
}

proof fn lemma_head_bytes(s: Seq<char>, target: char, rr: int)
    requires
        is_quote(target),
        s.len() >= 2,
        s[0] == '\\',
        s[1] != other_quote(target),
        (s[1] as u32) < 0x80,
        0 <= rr <= tame_run(s.skip(2)),
    ensures
        encode_utf8(s) == escape_head(s[1]) + encode_utf8(s.skip(2).take(rr)) + encode_utf8(s.skip(2).skip(rr)),
        encode_utf8(requote(s, target)) == escape_head(s[1]) + encode_utf8(s.skip(2).take(rr)) + encode_utf8(
            requote(s.skip(2).skip(rr), target),
        ),
        lone_backslash(s) == lone_backslash(s.skip(2).skip(rr)),
        rr <= s.skip(2).len(),
{
    let x = s[1];
    let rest = s.skip(2);
    lemma_split_two(s);
    lemma_first_byte(x);
    lemma_first_byte('\\');
    lemma_ascii('\\', 0x5cu8);
    assert(encode_scalar('\\' as u32) + encode_scalar(x as u32) =~= escape_head(x));
    lemma_tame_run_bound(rest);
    lemma_tame_bytes(rest, rr);
    lemma_requote_prefix(rest, rr, target);
    assert(rest =~= rest.take(rr) + rest.skip(rr));
    lemma_encode_concat(rest.take(rr), rest.skip(rr));
    lemma_encode_concat(rest.take(rr), requote(rest.skip(rr), target));
    assert(requote(s, target) == seq!['\\', x] + requote(rest, target));
    lemma_encode_concat(seq!['\\', x], requote(rest, target));
    assert(encode_utf8(seq!['\\', x]) =~= escape_head(x)) by {
        assert(seq!['\\', x] =~= seq!['\\'] + seq![x]);
        lemma_encode_concat(seq!['\\'], seq![x]);
        lemma_one('\\');
        lemma_one(x);
    }
}

proof fn lemma_setup_agree(pre_o: Seq<u8>, pre_t: Seq<u8>, s: Seq<char>, target: char, ob: u8, tb: u8)
    requires
        is_quote(target),
        target as u32 == tb as u32,
        other_quote(target) as u32 == ob as u32,
        s.len() >= 2,
        s[0] == '\\',
        s[1] != other_quote(target),
        (s[1] as u32) < 0x80,
    ensures
        agree(
            pre_o + encode_utf8(s) + seq![ob],
            (pre_o.len() + 1) as int,
            pre_t + encode_utf8(requote(s, target)) + seq![tb],
            (pre_t.len() + 1) as int,
            (1 + tame_run(s.skip(2))) as int,
        ),
{
    let rest = s.skip(2);
    let p = tame_run(rest) as int;
    lemma_head_bytes(s, target, p);
    lemma_tame_run_bound(rest);
    lemma_tame_bytes(rest, p);
    lemma_ascii(target, tb);
    lemma_ascii(other_quote(target), ob);
    let r2 = rest.skip(p);
    lemma_requote_head(r2, target);
    let tail_t = requote(r2, target);
    let tp = encode_utf8(rest.take(p));
    let head = escape_head(s[1]);
    let bo = pre_o + encode_utf8(s) + seq![ob];
    let bt = pre_t + encode_utf8(requote(s, target)) + seq![tb];
    assert(bo =~= pre_o + head + tp + encode_utf8(r2) + seq![ob]);
    assert(bt =~= pre_t + head + tp + encode_utf8(tail_t) + seq![tb]);
    let ia = (pre_o.len() + 1) as int;
    let ib = (pre_t.len() + 1) as int;
    let m = 1 + p;
    if r2.len() > 0 {
        assert(r2[0] == rest[p]);
        lemma_encode_head(r2);
        lemma_first_byte(r2[0]);
        lemma_encode_head(tail_t);
        lemma_first_byte(tail_t[0]);
        assert(bo[ia + m] == encode_utf8(r2)[0]);
        assert(bt[ib + m] == encode_utf8(tail_t)[0]);
    } else {
        assert(encode_utf8(r2) =~= Seq::<u8>::empty());
        assert(encode_utf8(tail_t) =~= Seq::<u8>::empty());
        assert(bo[ia + m] == ob);
        assert(bt[ib + m] == tb);
    }
    assert forall|k: int| 0 <= k < m implies #[trigger] bo[ia + k] == bt[ib + k] by {
        if k > 0 {
            assert(bo[ia + k] == tp[k - 1]);
            assert(bt[ib + k] == tp[k - 1]);
        }
    }
    assert forall|k: int| 1 <= k < m implies tame(#[trigger] bo[ia + k]) by {
        assert(bo[ia + k] == tp[k - 1]);
    }
}

/// Requoting contents that start with an escape other than of the other
/// quote keeps what they decode to: the escape reads the same bytes.
#[verifier::spinoff_prover]
#[verifier::rlimit(50)]
proof fn lemma_requote_agreeing(pre_o: Seq<u8>, pre_t: Seq<u8>, s: Seq<char>, target: char, ob: u8, tb: u8)
    requires
        is_quote(target),
        target as u32 == tb as u32,
        other_quote(target) as u32 == ob as u32,
        !lone_backslash(s),
        s.len() >= 2,
        s[0] == '\\',
        s[1] != other_quote(target),
        (s[1] as u32) < 0x80,
        quoted_body(pre_o + encode_utf8(s) + seq![ob], pre_o.len() as int) is Ok,
    ensures
        quoted_body(pre_t + encode_utf8(requote(s, target)) + seq![tb], pre_t.len() as int) == quoted_body(
            pre_o + encode_utf8(s) + seq![ob],
            pre_o.len() as int,
        ),
    decreases s.len(), 0int,
{
    let bo = pre_o + encode_utf8(s) + seq![ob];
    let bt = pre_t + encode_utf8(requote(s, target)) + seq![tb];
    let io = pre_o.len() as int;
    let ia = io + 1;
    let ib = pre_t.len() as int + 1;
    let p = tame_run(s.skip(2)) as int;
    lemma_setup_agree(pre_o, pre_t, s, target, ob, tb);
    lemma_head_bytes(s, target, 0);
    assert(bo[io] == 0x5cu8) by {
        assert(bo[io] == escape_head(s[1])[0]);
    }
    assert(bt[ib - 1] == 0x5cu8) by {
        assert(bt[ib - 1] == escape_head(s[1])[0]);
    }
    assert(escape(bo, ia) is Ok);
    lemma_escape_agree(bo, ia, bt, ib, 1 + p);
    let na = escape(bo, ia)->Ok_0.1;
    crate::literal::lemma_escape_advances(bo, ia);
    let rr = na - ia - 1;
    lemma_head_bytes(s, target, rr);
    let tr = encode_utf8(s.skip(2).take(rr));
    let head = escape_head(s[1]);
    assert(bo =~= (pre_o + head + tr) + encode_utf8(s.skip(2).skip(rr)) + seq![ob]);
    assert(bt =~= (pre_t + head + tr) + encode_utf8(requote(s.skip(2).skip(rr), target)) + seq![tb]);
    lemma_tame_bytes(s.skip(2), rr);
    assert((pre_o + head + tr).len() == na);
    assert((pre_t + head + tr).len() == na - ia + ib);
    lemma_requote_general(pre_o + head + tr, pre_t + head + tr, s.skip(2).skip(rr), target, ob, tb);
}

/// Rewriting the delimiters of a quoted string literal keeps the bytes it
/// decodes to, whenever it decodes and its contents do not end in a
/// backslash that pairs with the closing quote.
pub proof fn law_requote_keeps_value(t: Seq<char>, style: Quotes)
    requires
        t.len() >= 2,
        is_quote(t[0]),
        t.last() == t[0],
        literal_bytes(encode_utf8(t)) is Ok,
        !lone_backslash(t.subrange(1, t.len() - 1)),
    ensures
        literal_bytes(encode_utf8(quoted_text(t, style))) == literal_bytes(encode_utf8(t)),
{
    let inner = t.subrange(1, t.len() - 1);
    let q = t[0];
    let qb: u8 = if q == '"' { 0x22u8 } else { 0x27u8 };
    assert(q as u32 == qb as u32) by {
        vstd::utf8::char_u32_cast(q, q as u32);
    }
    lemma_ascii(q, qb);
    lemma_one(q);
    assert(t =~= seq![q] + inner + seq![q]);
    lemma_encode_concat(seq![q] + inner, seq![q]);
    lemma_encode_concat(seq![q], inner);
    let bt = encode_utf8(t);
    assert(bt =~= seq![qb] + encode_utf8(inner) + seq![qb]);
    assert(bt[0] == qb && bt.last() == qb);
    assert(literal_bytes(bt) == quoted_body(bt, 1));
    if !(style == Quotes::Preserve) {
        let counts = delimiter_counts(inner, false);
        let target = target_quote(style, counts.0, counts.1);
        if target != q {
            let tb: u8 = if target == '"' { 0x22u8 } else { 0x27u8 };
            assert(target as u32 == tb as u32) by {
                vstd::utf8::char_u32_cast(target, target as u32);
            }
            assert(other_quote(target) == q);
            lemma_ascii(target, tb);
            lemma_one(target);
            let out = seq![target] + requote(inner, target) + seq![target];
            assert(quoted_text(t, style) == out);
            lemma_encode_concat(seq![target] + requote(inner, target), seq![target]);
            lemma_encode_concat(seq![target], requote(inner, target));
            let bo = encode_utf8(out);
            assert(bo =~= seq![tb] + encode_utf8(requote(inner, target)) + seq![tb]);
            assert(bo[0] == tb && bo.last() == tb);
            lemma_requote_general(seq![qb], seq![tb], inner, target, qb, tb);
        }
    }
}

} // verus!
