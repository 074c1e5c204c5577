//! Decoding of Luau string literals: quoted strings with escapes, and long
//! bracket strings with their newline rules.

use vstd::prelude::*;
use vstd::utf8::*;

verus! {

/// Why a Luau string literal could not be decoded.
#[derive(Debug, Clone, Copy, PartialEq, Eq, Structural)]
pub enum LiteralError {
    /// The text is neither quoted nor a long bracket string.
    NotStringLiteral,
    /// A backslash ends the literal.
    IncompleteEscape,
    /// `\x` is not followed by a two-digit hexadecimal value.
    HexadecimalEscape,
    /// `\u` is not followed by a braced value.
    UnicodeEscape,
    /// The braced value of `\u` is not a Unicode scalar.
    UnicodeCodepoint,
    /// A decimal escape exceeds 255.
    DecimalEscape,
    /// A backslash precedes a character with no escape meaning.
    UnknownEscape,
    /// The opening bracket of a long string is malformed or too long.
    LongString,
    /// The closing bracket of a long string does not match its opening.
    LongStringDelimiter,
    /// The decoded bytes are not UTF-8.
    InvalidUtf8,
}

/// ASCII whitespace as Rust's `u8::is_ascii_whitespace` defines it.
pub open spec fn is_space(b: u8) -> bool {
    b == 0x20 || b == 0x09 || b == 0x0a || b == 0x0c || b == 0x0d
}

pub open spec fn is_digit(b: u8) -> bool {
    0x30 <= b <= 0x39
}

pub open spec fn is_hex(b: u8) -> bool {
    is_digit(b) || 0x41 <= b <= 0x46 || 0x61 <= b <= 0x66
}

pub open spec fn hex_digit(b: u8) -> int {
    if is_digit(b) {
        b - 0x30
    } else if 0x41 <= b <= 0x46 {
        b - 0x41 + 10
    } else {
        b - 0x61 + 10
    }
}

/// The value of a sequence of hexadecimal digits, most significant first.
pub open spec fn hex_number(s: Seq<u8>) -> int
    decreases s.len(),
{
    if s.len() == 0 {
        0
    } else {
        16 * hex_number(s.drop_last()) + hex_digit(s.last())
    }
}

/// The digits of a number read in base sixteen: the text after an optional `+`.
pub open spec fn radix_digits(s: Seq<u8>) -> Seq<u8> {
    if s.len() > 0 && s[0] == 0x2b {
        s.drop_first()
    } else {
        s
    }
}

pub open spec fn all_hex(d: Seq<u8>) -> bool {
    forall|k: int| 0 <= k < d.len() ==> is_hex(#[trigger] d[k])
}

/// An unsigned hexadecimal number as Rust's `from_str_radix(_, 16)` reads it:
/// an optional `+` followed by at least one hexadecimal digit.
pub open spec fn radix16(s: Seq<u8>) -> Option<int> {
    if radix_digits(s).len() > 0 && all_hex(radix_digits(s)) {
        Some(hex_number(radix_digits(s)))
    } else {
        None
    }
}

/// The first index at or after `start` that holds `b`.
pub open spec fn position_from(s: Seq<u8>, start: int, b: u8) -> Option<int>
    decreases s.len() - start,
{
    if start < 0 || start >= s.len() {
        None
    } else if s[start] == b {
        Some(start)
    } else {
        position_from(s, start + 1, b)
    }
}

/// The first index at or after `start` that does not hold ASCII whitespace.
pub open spec fn skip_spaces(s: Seq<u8>, start: int) -> int
    decreases s.len() - start,
{
    if start < 0 || start >= s.len() || !is_space(s[start]) {
        start
    } else {
        skip_spaces(s, start + 1)
    }
}

/// The bytes that the escape whose letter is at `i` stands for, and the index after it.
pub open spec fn escape(b: Seq<u8>, i: int) -> Result<(Seq<u8>, int), LiteralError> {
    if i < 0 || i >= b.len() {
        Err(LiteralError::IncompleteEscape)
    } else {
        let c = b[i];
        let j = i + 1;
        if c == 0x61 {
            Ok((seq![7u8], j))
        } else if c == 0x62 {
            Ok((seq![8u8], j))
        } else if c == 0x66 {
            Ok((seq![12u8], j))
        } else if c == 0x6e {
            Ok((seq![10u8], j))
        } else if c == 0x72 {
            Ok((seq![13u8], j))
        } else if c == 0x74 {
            Ok((seq![9u8], j))
        } else if c == 0x76 {
            Ok((seq![11u8], j))
        } else if c == 0x5c || c == 0x27 || c == 0x22 {
            Ok((seq![c], j))
        } else if c == 0x0a || c == 0x0d {
            let pair = j < b.len() && (b[j] == 0x0a || b[j] == 0x0d) && b[j] != c;
            Ok((seq![10u8], if pair { j + 1 } else { j }))
        } else if c == 0x7a {
            Ok((seq![], skip_spaces(b, j)))
        } else if c == 0x78 {
            if j + 2 <= b.len() {
                match radix16(b.subrange(j, j + 2)) {
                    Some(v) => Ok((seq![v as u8], j + 2)),
                    None => Err(LiteralError::HexadecimalEscape),
                }
            } else {
                Err(LiteralError::HexadecimalEscape)
            }
        } else if c == 0x75 {
            if j < b.len() && b[j] == 0x7b {
                match position_from(b, j + 1, 0x7d) {
                    None => Err(LiteralError::UnicodeEscape),
                    Some(end) => match radix16(b.subrange(j + 1, end)) {
                        Some(v) => if v <= 0x10ffff && is_scalar(v as u32) {
                            Ok((encode_scalar(v as u32), end + 1))
                        } else {
                            Err(LiteralError::UnicodeCodepoint)
                        },
                        None => Err(LiteralError::UnicodeCodepoint),
                    },
                }
            } else {
                Err(LiteralError::UnicodeEscape)
            }
        } else if is_digit(c) {
            let two = j < b.len() && is_digit(b[j]);
            let v2 = if two { (c - 0x30) * 10 + (b[j] - 0x30) } else { c - 0x30 };
            let k = if two { j + 1 } else { j };
            let three = two && k < b.len() && is_digit(b[k]);
            let v3 = if three { v2 * 10 + (b[k] - 0x30) } else { v2 };
            let next = if three { k + 1 } else { k };
            if v3 <= 255 {
                Ok((seq![v3 as u8], next))
            } else {
                Err(LiteralError::DecimalEscape)
            }
        } else {
            Err(LiteralError::UnknownEscape)
        }
    }
}

pub proof fn lemma_position_from(s: Seq<u8>, start: int, b: u8)
    ensures
        position_from(s, start, b) matches Some(p) ==> start <= p < s.len() && s[p] == b,
    decreases s.len() - start,
{
    if 0 <= start < s.len() && s[start] != b {
        lemma_position_from(s, start + 1, b);
    }
}

pub proof fn lemma_skip_spaces(s: Seq<u8>, start: int)
    ensures
        skip_spaces(s, start) >= start,
        0 <= start <= s.len() ==> skip_spaces(s, start) <= s.len(),
    decreases s.len() - start,
{
    if 0 <= start < s.len() && is_space(s[start]) {
        lemma_skip_spaces(s, start + 1);
    }
}

/// An escape always consumes its letter.
pub proof fn lemma_escape_advances(b: Seq<u8>, i: int)
    ensures
        escape(b, i) is Ok ==> i < escape(b, i)->Ok_0.1 <= b.len(),
{
    lemma_skip_spaces(b, i + 1);
    lemma_position_from(b, i + 2, 0x7d);
}

/// The bytes that a quoted literal's contents from index `i` decode to; the
/// last byte of `b` is the closing quote.
pub open spec fn quoted_body(b: Seq<u8>, i: int) -> Result<Seq<u8>, LiteralError>
    decreases b.len() - i,
{
    if i < 0 || i >= b.len() - 1 {
        Ok(seq![])
    } else if b[i] != 0x5c {
        match quoted_body(b, i + 1) {
            Ok(rest) => Ok(seq![b[i]] + rest),
            Err(e) => Err(e),
        }
    } else {
        proof {
            lemma_escape_advances(b, i + 1);
        }
        match escape(b, i + 1) {
            Err(e) => Err(e),
            Ok((bytes, next)) => match quoted_body(b, next) {
                Ok(rest) => Ok(bytes + rest),
                Err(e) => Err(e),
            },
        }
    }
}

/// Number of `=` bytes starting at index `i`.
pub open spec fn equals_from(b: Seq<u8>, i: int) -> int
    decreases b.len() - i,
{
    if i < 0 || i >= b.len() || b[i] != 0x3d {
        0
    } else {
        1 + equals_from(b, i + 1)
    }
}

/// A long string body without the newline that directly follows its opening bracket.
pub open spec fn strip_opening_newline(s: Seq<u8>) -> Seq<u8> {
    if s.len() >= 2 && ((s[0] == 0x0d && s[1] == 0x0a) || (s[0] == 0x0a && s[1] == 0x0d)) {
        s.skip(2)
    } else if s.len() >= 1 && (s[0] == 0x0a || s[0] == 0x0d) {
        s.skip(1)
    } else {
        s
    }
}

/// Each line break (`\n`, `\r`, `\r\n` or `\n\r`) replaced by a single `\n`.
pub open spec fn normalize_newlines(s: Seq<u8>) -> Seq<u8>
    decreases s.len(),
{
    if s.len() == 0 {
        seq![]
    } else if s[0] == 0x0a || s[0] == 0x0d {
        if s.len() >= 2 && (s[1] == 0x0a || s[1] == 0x0d) && s[1] != s[0] {
            seq![0x0au8] + normalize_newlines(s.skip(2))
        } else {
            seq![0x0au8] + normalize_newlines(s.skip(1))
        }
    } else {
        seq![s[0]] + normalize_newlines(s.skip(1))
    }
}

/// The bytes a long bracket string `[==[ ... ]==]` decodes to.
pub open spec fn long_bytes(b: Seq<u8>) -> Result<Seq<u8>, LiteralError> {
    let width = equals_from(b, 1) + 2;
    if !(width - 1 < b.len() && b[width - 1] == 0x5b) || b.len() < 2 * width {
        Err(LiteralError::LongString)
    } else if b[b.len() - width] != 0x5d || b[b.len() - 1] != 0x5d || !(forall|k: int|
        b.len() - width < k < b.len() - 1 ==> #[trigger] b[k] == 0x3d) {
        Err(LiteralError::LongStringDelimiter)
    } else {
        Ok(normalize_newlines(strip_opening_newline(b.subrange(width, b.len() - width))))
    }
}

/// The bytes a Luau string literal decodes to.
pub open spec fn literal_bytes(b: Seq<u8>) -> Result<Seq<u8>, LiteralError> {
    if b.len() > 0 && b[0] == 0x5b {
        long_bytes(b)
    } else if b.len() < 2 || !(b[0] == 0x27 || b[0] == 0x22) || b.last() != b[0] {
        Err(LiteralError::NotStringLiteral)
    } else {
        quoted_body(b, 1)
    }
}

/// The text that decoded bytes stand for, once they are checked to be UTF-8.
pub open spec fn as_text(decoded: Result<Seq<u8>, LiteralError>) -> Result<Seq<char>, LiteralError> {
    match decoded {
        Err(e) => Err(e),
        Ok(bytes) => if valid_utf8(bytes) {
            Ok(decode_utf8(bytes))
        } else {
            Err(LiteralError::InvalidUtf8)
        },
    }
}

pub open spec fn text_view(r: Result<String, LiteralError>) -> Result<Seq<char>, LiteralError> {
    match r {
        Ok(s) => Ok(s@),
        Err(e) => Err(e),
    }
}

/// `String::from_utf8`: succeeds exactly on valid UTF-8, whose characters it returns.
#[verifier::external_body]
pub(crate) fn utf8_string(bytes: Vec<u8>) -> (res: Option<String>)
    ensures
        res is Some <==> valid_utf8(bytes@),
        res matches Some(s) ==> s@ == decode_utf8(bytes@),
{
    String::from_utf8(bytes).ok()
}

fn utf8_result(bytes: Vec<u8>) -> (res: Result<String, LiteralError>)
    ensures
        text_view(res) == as_text(Ok(bytes@)),
{
    match utf8_string(bytes) {
        Some(s) => Ok(s),
        None => Err(LiteralError::InvalidUtf8),
    }
}

fn byte_is_space(b: u8) -> (r: bool)
    ensures
        r == is_space(b),
{
    b == 0x20 || b == 0x09 || b == 0x0a || b == 0x0c || b == 0x0d
}

fn byte_is_digit(b: u8) -> (r: bool)
    ensures
        r == is_digit(b),
{
    0x30 <= b && b <= 0x39
}

fn hex_value(b: u8) -> (r: Option<u8>)
    ensures
        r is Some <==> is_hex(b),
        r matches Some(v) ==> v == hex_digit(b) && v < 16,
{
    if 0x30 <= b && b <= 0x39 {
        Some(b - 0x30)
    } else if 0x41 <= b && b <= 0x46 {
        Some(b - 0x41 + 10)
    } else if 0x61 <= b && b <= 0x66 {
        Some(b - 0x61 + 10)
    } else {
        None
    }
}

/// Reads `b[start..end]` as `from_str_radix(_, 16)` would, capping the value
/// just above the largest Unicode scalar.
pub(crate) fn capped_radix16(b: &[u8], start: usize, end: usize) -> (res: Option<u32>)
    requires
        start <= end <= b@.len(),
    ensures
        res is Some <==> radix16(b@.subrange(start as int, end as int)) is Some,
        res matches Some(v) ==> {
            let n = radix16(b@.subrange(start as int, end as int))->0;
            v == if n > 0x10ffff { 0x110000 } else { n }
        },
{
    let ghost s = b@.subrange(start as int, end as int);
    let mut i = start;
    if i < end && b[i] == 0x2b {
        i = i + 1;
    }
    let ghost digits = b@.subrange(i as int, end as int);
    assert(digits =~= radix_digits(s));
    if i == end {
        assert(digits.len() == 0);
        return None;
    }
    let first = i;
    let mut value: u32 = 0;
    while i < end
        invariant
            first <= i <= end <= b@.len(),
            digits == b@.subrange(first as int, end as int),
            s == b@.subrange(start as int, end as int),
            radix_digits(s) == digits,
            forall|k: int| first <= k < i ==> is_hex(#[trigger] b@[k]),
            value == if hex_number(b@.subrange(first as int, i as int)) > 0x10ffff {
                0x110000
            } else {
                hex_number(b@.subrange(first as int, i as int))
            },
        decreases end - i,
    {
        match hex_value(b[i]) {
            None => {
                assert(!is_hex(digits[i - first]));
                assert(!all_hex(digits));
                return None;
            },
            Some(d) => {
                let ghost before = b@.subrange(first as int, i as int);
                let ghost after = b@.subrange(first as int, i + 1);
                assert(after.drop_last() =~= before);
                assert(hex_number(before) >= 0) by {
                    assert forall|k: int| 0 <= k < before.len() implies is_hex(#[trigger] before[k]) by {
                        assert(before[k] == b@[first + k]);
                    }
                    lemma_hex_number_nonneg(before);
                }
                if value <= 0x10ffff {
                    value = value * 16 + d as u32;
                    if value > 0x10ffff {
                        value = 0x110000;
                    }
                }
                i = i + 1;
            },
        }
    }
    assert(b@.subrange(first as int, end as int) =~= digits);
    assert(all_hex(digits));
    Some(value)
}

/// Two bytes read in base sixteen give at most 255.
pub proof fn lemma_two_hex(s: Seq<u8>)
    requires
        s.len() == 2,
    ensures
        radix16(s) matches Some(v) ==> 0 <= v <= 255,
{
    if radix16(s) is Some {
        let d = radix_digits(s);
        assert(all_hex(d));
        assert(is_hex(d[0]));
        if s[0] == 0x2b {
            assert(d.len() == 1);
            assert(d.drop_last() =~= Seq::<u8>::empty());
            assert(hex_number(d.drop_last()) == 0);
            assert(hex_number(d) == hex_digit(d[0]));
        } else {
            assert(is_hex(d[1]));
            assert(d.drop_last() =~= seq![d[0]]);
            assert(d.drop_last().drop_last() =~= Seq::<u8>::empty());
            assert(hex_number(d.drop_last().drop_last()) == 0);
            assert(hex_number(d.drop_last()) == hex_digit(d[0]));
            assert(hex_number(d) == 16 * hex_digit(d[0]) + hex_digit(d[1]));
        }
    }
}

proof fn lemma_hex_number_nonneg(s: Seq<u8>)
    requires
        all_hex(s),
    ensures
        hex_number(s) >= 0,
    decreases s.len(),
{
    if s.len() > 0 {
        assert(all_hex(s.drop_last()));
        lemma_hex_number_nonneg(s.drop_last());
    }
}

fn one(b: u8) -> (v: Vec<u8>)
    ensures
        v@ == seq![b],
{
    let mut v = Vec::new();
    v.push(b);
    v
}

/// The UTF-8 encoding of a Unicode scalar.
fn encode(v: u32) -> (res: Vec<u8>)
    requires
        is_scalar(v),
    ensures
        res@ == encode_scalar(v),
{
    if v <= 0x7f {
        vec![(v & 0x7F) as u8]
    } else if v <= 0x7ff {
        vec![0xC0 | ((v >> 6) & 0x1F) as u8, 0x80 | (v & 0x3F) as u8]
    } else if v <= 0xffff {
        vec![
            0xE0 | ((v >> 12) & 0x0F) as u8,
            0x80 | ((v >> 6) & 0x3F) as u8,
            0x80 | (v & 0x3F) as u8,
        ]
    } else {
        vec![
            0xF0 | ((v >> 18) & 0x7) as u8,
            0x80 | ((v >> 12) & 0x3F) as u8,
            0x80 | ((v >> 6) & 0x3F) as u8,
            0x80 | (v & 0x3F) as u8,
        ]
    }
}

pub open spec fn escape_view(r: Result<(Vec<u8>, usize), LiteralError>) -> Result<
    (Seq<u8>, int),
    LiteralError,
> {
    match r {
        Ok((bytes, next)) => Ok((bytes@, next as int)),
        Err(e) => Err(e),
    }
}

/// Decodes the escape whose letter is at `i`.
fn decode_escape(b: &[u8], i: usize) -> (res: Result<(Vec<u8>, usize), LiteralError>)
    requires
        i < b@.len(),
    ensures
        escape_view(res) == escape(b@, i as int),
{
    let c = b[i];
    let j = i + 1;
    if c == 0x61 {
        Ok((one(7u8), j))
    } else if c == 0x62 {
        Ok((one(8u8), j))
    } else if c == 0x66 {
        Ok((one(12u8), j))
    } else if c == 0x6e {
        Ok((one(10u8), j))
    } else if c == 0x72 {
        Ok((one(13u8), j))
    } else if c == 0x74 {
        Ok((one(9u8), j))
    } else if c == 0x76 {
        Ok((one(11u8), j))
    } else if c == 0x5c || c == 0x27 || c == 0x22 {
        Ok((one(c), j))
    } else if c == 0x0a || c == 0x0d {
        if j < b.len() && (b[j] == 0x0a || b[j] == 0x0d) && b[j] != c {
            Ok((one(10u8), j + 1))
        } else {
            Ok((one(10u8), j))
        }
    } else if c == 0x7a {
        let mut k = j;
        while k < b.len() && byte_is_space(b[k])
            invariant
                j <= k <= b@.len(),
                skip_spaces(b@, j as int) == skip_spaces(b@, k as int),
            decreases b@.len() - k,
        {
            k = k + 1;
        }
        let v: Vec<u8> = Vec::new();
        assert(v@ =~= seq![]);
        Ok((v, k))
    } else if c == 0x78 {
        if j < b.len() && b.len() - j >= 2 {
            match capped_radix16(b, j, j + 2) {
                Some(v) => {
                    proof {
                        lemma_two_hex(b@.subrange(j as int, j + 2));
                    }
                    Ok((one(v as u8), j + 2))
                },
                None => Err(LiteralError::HexadecimalEscape),
            }
        } else {
            Err(LiteralError::HexadecimalEscape)
        }
    } else if c == 0x75 {
        if j < b.len() && b[j] == 0x7b {
            let mut end = j + 1;
            while end < b.len() && b[end] != 0x7d
                invariant
                    j + 1 <= end <= b@.len(),
                    position_from(b@, (j + 1) as int, 0x7d) == position_from(
                        b@,
                        end as int,
                        0x7d,
                    ),
                decreases b@.len() - end,
            {
                end = end + 1;
            }
            if end == b.len() {
                return Err(LiteralError::UnicodeEscape);
            }
            match capped_radix16(b, j + 1, end) {
                Some(v) => {
                    if v <= 0x10ffff && (v < 0xd800 || v > 0xdfff) {
                        Ok((encode(v), end + 1))
                    } else {
                        Err(LiteralError::UnicodeCodepoint)
                    }
                },
                None => Err(LiteralError::UnicodeCodepoint),
            }
        } else {
            Err(LiteralError::UnicodeEscape)
        }
    } else if byte_is_digit(c) {
        let mut value: u16 = (c - 0x30) as u16;
        let mut k = j;
        if k < b.len() && byte_is_digit(b[k]) {
            value = value * 10 + (b[k] - 0x30) as u16;
            k = k + 1;
            if k < b.len() && byte_is_digit(b[k]) {
                value = value * 10 + (b[k] - 0x30) as u16;
                k = k + 1;
            }
        }
        if value <= 255 {
            Ok((one(value as u8), k))
        } else {
            Err(LiteralError::DecimalEscape)
        }
    } else {
        Err(LiteralError::UnknownEscape)
    }
}

/// Decodes a Luau string literal, quoted or long, to its bytes.
pub fn literal_value(bytes: &[u8]) -> (res: Result<Vec<u8>, LiteralError>)
    ensures
        match res {
            Ok(v) => literal_bytes(bytes@) == Ok::<Seq<u8>, LiteralError>(v@),
            Err(e) => literal_bytes(bytes@) == Err::<Seq<u8>, LiteralError>(e),
        },
{
    if bytes.len() > 0 && bytes[0] == 0x5b {
        return long_value(bytes);
    }
    let n = bytes.len();
    if n < 2 || !(bytes[0] == 0x27 || bytes[0] == 0x22) || bytes[n - 1] != bytes[0] {
        return Err(LiteralError::NotStringLiteral);
    }
    let mut output: Vec<u8> = Vec::new();
    let mut index: usize = 1;
    while index < n - 1
        invariant
            n == bytes@.len(),
            n >= 2,
            1 <= index <= n,
            literal_bytes(bytes@) == quoted_body(bytes@, 1),
            match quoted_body(bytes@, index as int) {
                Ok(rest) => quoted_body(bytes@, 1) == Ok::<Seq<u8>, LiteralError>(output@ + rest),
                Err(e) => quoted_body(bytes@, 1) == Err::<Seq<u8>, LiteralError>(e),
            },
        decreases n - index,
    {
        let byte = bytes[index];
        if byte != 0x5c {
            let ghost before = output@;
            output.push(byte);
            proof {
                match quoted_body(bytes@, index + 1) {
                    Ok(rest) => {
                        assert(before + (seq![byte] + rest) =~= output@ + rest);
                    },
                    Err(e) => {},
                }
            }
            index = index + 1;
        } else {
            proof {
                lemma_escape_advances(bytes@, index + 1);
            }
            match decode_escape(bytes, index + 1) {
                Err(e) => {
                    assert(escape(bytes@, index + 1) == Err::<(Seq<u8>, int), LiteralError>(e));
                    assert(bytes@[index as int] == 0x5c);
                    assert(quoted_body(bytes@, index as int) == Err::<Seq<u8>, LiteralError>(e));
                    return Err(e);
                },
                Ok((mut produced, next)) => {
                    let ghost before = output@;
                    let ghost p = produced@;
                    output.append(&mut produced);
                    proof {
                        match quoted_body(bytes@, next as int) {
                            Ok(rest) => {
                                assert(before + (p + rest) =~= output@ + rest);
                            },
                            Err(e) => {},
                        }
                    }
                    index = next;
                },
            }
        }
    }
    proof {
        assert(output@ + seq![] =~= output@);
    }
    Ok(output)
}

/// Decodes a long bracket string `[==[ ... ]==]` to its bytes.
pub fn long_value(bytes: &[u8]) -> (res: Result<Vec<u8>, LiteralError>)
    ensures
        match res {
            Ok(v) => long_bytes(bytes@) == Ok::<Seq<u8>, LiteralError>(v@),
            Err(e) => long_bytes(bytes@) == Err::<Seq<u8>, LiteralError>(e),
        },
{
    let n = bytes.len();
    let mut equals: usize = 0;
    while 1 + equals < n && bytes[1 + equals] == 0x3d
        invariant
            equals < n || n == 0 || equals + 1 >= n,
            1 + equals <= n || n == 0,
            equals_from(bytes@, 1) == equals + equals_from(bytes@, 1 + equals),
            n == bytes@.len(),
        decreases n - equals,
    {
        equals = equals + 1;
    }
    if n == 0 {
        return Err(LiteralError::LongString);
    }
    assert(equals_from(bytes@, 1 + equals) == 0);
    // the index of the second opening bracket, one less than the delimiter width
    let last_open = equals + 1;
    if !(last_open < n && bytes[last_open] == 0x5b) || n / 2 < last_open + 1 {
        return Err(LiteralError::LongString);
    }
    let width = last_open + 1;
    assert(n >= 2 * width) by (nonlinear_arith)
        requires
            n / 2 >= width,
    ;
    let close = n - width;
    if bytes[close] != 0x5d || bytes[n - 1] != 0x5d {
        return Err(LiteralError::LongStringDelimiter);
    }
    let mut k = close + 1;
    while k < n - 1
        invariant
            close + 1 <= k <= n - 1,
            width == equals_from(bytes@, 1) + 2,
            width - 1 < n,
            bytes@[width - 1] == 0x5b,
            n >= 2 * width,
            bytes@[close as int] == 0x5d,
            bytes@[n - 1] == 0x5d,
            n == bytes@.len(),
            close == n - width,
            forall|m: int| close < m < k ==> bytes@[m] == 0x3d,
        decreases n - k,
    {
        if bytes[k] != 0x3d {
            assert(bytes@[k as int] != 0x3d);
            return Err(LiteralError::LongStringDelimiter);
        }
        k = k + 1;
    }
    let ghost body = bytes@.subrange(width as int, close as int);
    let mut start = width;
    if close - start >= 2 && ((bytes[start] == 0x0d && bytes[start + 1] == 0x0a) || (bytes[start]
        == 0x0a && bytes[start + 1] == 0x0d)) {
        start = start + 2;
    } else if close - start >= 1 && (bytes[start] == 0x0a || bytes[start] == 0x0d) {
        start = start + 1;
    }
    let ghost stripped = bytes@.subrange(start as int, close as int);
    assert(stripped =~= strip_opening_newline(body));
    let mut output: Vec<u8> = Vec::new();
    let mut index = start;
    while index < close
        invariant
            start <= index <= close,
            close < n,
            n == bytes@.len(),
            stripped == bytes@.subrange(start as int, close as int),
            normalize_newlines(stripped) == output@ + normalize_newlines(
                bytes@.subrange(index as int, close as int),
            ),
        decreases close - index,
    {
        let ghost rest = bytes@.subrange(index as int, close as int);
        let byte = bytes[index];
        let ghost before = output@;
        if byte == 0x0a || byte == 0x0d {
            output.push(0x0a);
            if index + 1 < close && (bytes[index + 1] == 0x0a || bytes[index + 1] == 0x0d)
                && bytes[index + 1] != byte {
                assert(rest.skip(2) =~= bytes@.subrange(index + 2, close as int));
                index = index + 2;
            } else {
                assert(rest.skip(1) =~= bytes@.subrange(index + 1, close as int));
                index = index + 1;
            }
        } else {
            output.push(byte);
            assert(rest.skip(1) =~= bytes@.subrange(index + 1, close as int));
            index = index + 1;
        }
        assert(before + normalize_newlines(rest) =~= output@ + normalize_newlines(
            bytes@.subrange(index as int, close as int),
        ));
    }
    assert(output@ + normalize_newlines(bytes@.subrange(index as int, close as int)) =~= output@);
    Ok(output)
}

/// Decodes a Luau string literal, quoted or long, to its text.
pub fn string_value(bytes: &[u8]) -> (res: Result<String, LiteralError>)
    ensures
        text_view(res) == as_text(literal_bytes(bytes@)),
{
    match literal_value(bytes) {
        Ok(v) => utf8_result(v),
        Err(e) => Err(e),
    }
}

/// Decodes a long bracket string `[==[ ... ]==]` to its text.
pub fn long_string(bytes: &[u8]) -> (res: Result<String, LiteralError>)
    ensures
        text_view(res) == as_text(long_bytes(bytes@)),
{
    match long_value(bytes) {
        Ok(v) => utf8_result(v),
        Err(e) => Err(e),
    }
}

} // verus!
