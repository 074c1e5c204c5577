//! Luau source for configuration values handed to Luau grafts.

use vstd::prelude::*;
use crate::configuration::{entries_of, value_of, values_of, Json, JsonValue};
use vstd::string::StringSliceAdditionalSpecFns;
use crate::literal::{escape, is_digit, literal_bytes, quoted_body, LiteralError};
use crate::text::{chars_of, push_all, string_of};
use vstd::utf8::{encode_scalar, encode_utf8};

verus! {

/// The three decimal digits of a byte.
pub open spec fn decimal3(b: u8) -> Seq<char> {
    seq![
        ((0x30 + b / 100) as u8) as char,
        ((0x30 + (b / 10) % 10) as u8) as char,
        ((0x30 + b % 10) as u8) as char
    ]
}

/// Each byte of `bytes` as a backslash and its three decimal digits.
pub open spec fn escaped_bytes(bytes: Seq<u8>) -> Seq<char>
    decreases bytes.len(),
{
    if bytes.len() == 0 {
        seq![]
    } else {
        escaped_bytes(bytes.drop_last()) + seq!['\\'] + decimal3(bytes.last())
    }
}

/// A Luau string literal for text whose UTF-8 bytes are `bytes`: every byte
/// escaped in decimal, between double quotes.
pub open spec fn string_literal(bytes: Seq<u8>) -> Seq<char> {
    seq!['"'] + escaped_bytes(bytes) + seq!['"']
}

/// The Luau literal of a configuration value: `nil`, `true` or `false`,
/// the number's text, a string literal, or a table constructor whose items
/// and `[key]=value` entries each end with a comma.
pub open spec fn luau_literal(v: JsonValue) -> Seq<char>
    decreases v,
{
    match v {
        JsonValue::Null => seq!['n', 'i', 'l'],
        JsonValue::Bool(b) => if b {
            seq!['t', 'r', 'u', 'e']
        } else {
            seq!['f', 'a', 'l', 's', 'e']
        },
        JsonValue::Number(n) => n,
        JsonValue::Text(t) => string_literal(vstd::utf8::encode_utf8(t)),
        JsonValue::Array(items) => seq!['{'] + items_literal(items) + seq!['}'],
        JsonValue::Object(entries) => seq!['{'] + entries_literal(entries) + seq!['}'],
    }
}

/// Each item's literal followed by a comma.
pub open spec fn items_literal(items: Seq<JsonValue>) -> Seq<char>
    decreases items,
{
    if items.len() == 0 {
        seq![]
    } else {
        items_literal(items.drop_last()) + luau_literal(items.last()) + seq![',']
    }
}

/// Each entry as `[key]=value` followed by a comma.
pub open spec fn entries_literal(entries: Seq<(Seq<char>, JsonValue)>) -> Seq<char>
    decreases entries,
{
    if entries.len() == 0 {
        seq![]
    } else {
        entries_literal(entries.drop_last()) + seq!['['] + string_literal(
            vstd::utf8::encode_utf8(entries.last().0),
        ) + seq![']', '='] + luau_literal(entries.last().1) + seq![',']
    }
}

fn digit(d: u8) -> (c: char)
    requires
        d < 10,
    ensures
        c == ((0x30 + d) as u8) as char,
{
    (0x30 + d) as char
}

/// Appends the Luau string literal of `value` to `output`.
pub fn string(value: &str, output: &mut Vec<char>)
    ensures
        final(output)@ == old(output)@ + string_literal(value.spec_bytes()),
{
    let bytes = value.as_bytes();
    let ghost start = output@;
    output.push('"');
    let mut i: usize = 0;
    while i < bytes.len()
        invariant
            i <= bytes@.len(),
            output@ == start + seq!['"'] + escaped_bytes(bytes@.take(i as int)),
        decreases bytes@.len() - i,
    {
        let b = bytes[i];
        output.push('\\');
        output.push(digit(b / 100));
        output.push(digit((b / 10) % 10));
        output.push(digit(b % 10));
        assert(bytes@.take(i + 1).drop_last() =~= bytes@.take(i as int));
        i = i + 1;
        assert(output@ =~= start + seq!['"'] + escaped_bytes(bytes@.take(i as int)));
    }
    assert(bytes@.take(i as int) =~= bytes@);
    output.push('"');
    assert(output@ =~= start + string_literal(value.spec_bytes()));
}

/// Appends the Luau literal of `value` to `output`.
pub fn literal(value: &Json, output: &mut Vec<char>)
    ensures
        final(output)@ == old(output)@ + luau_literal(value_of(*value)),
    decreases value,
{
    let ghost start = output@;
    match value {
        Json::Null => {
            output.push('n');
            output.push('i');
            output.push('l');
        },
        Json::Bool(b) => {
            if *b {
                push_all(output, &['t', 'r', 'u', 'e']);
            } else {
                push_all(output, &['f', 'a', 'l', 's', 'e']);
            }
        },
        Json::Number(n) => {
            push_all(output, &chars_of(n.as_str()));
        },
        Json::Text(t) => {
            string(t.as_str(), output);
        },
        Json::Array(items) => {
            output.push('{');
            let mut i: usize = 0;
            while i < items.len()
                invariant
                    i <= items@.len(),
                    *value == Json::Array(*items),
                    output@ == start + seq!['{'] + items_literal(values_of(items@.take(i as int))),
                decreases items@.len() - i,
            {
                assert(decreases_to!(*items => items@));
                assert(decreases_to!(items@ => items@[i as int]));
                assert((*value)->Array_0 == *items);
                assert(decreases_to!(*value => (*value)->Array_0));
                literal(&items[i], output);
                output.push(',');
                proof {
                    let t = items@.take(i + 1);
                    assert(t.drop_last() =~= items@.take(i as int));
                    assert(t.last() == items@[i as int]);
                    let vs = values_of(t);
                    assert(vs == values_of(t.drop_last()).push(value_of(t.last())));
                    assert(vs.drop_last() =~= values_of(items@.take(i as int)));
                    assert(vs.last() == value_of(items@[i as int]));
                    assert(items_literal(vs) == items_literal(vs.drop_last()) + luau_literal(vs.last()) + seq![',']);
                }
                i = i + 1;
                assert(output@ =~= start + seq!['{'] + items_literal(values_of(items@.take(i as int))));
            }
            assert(items@.take(i as int) =~= items@);
            output.push('}');
        },
        Json::Object(entries) => {
            output.push('{');
            let mut i: usize = 0;
            while i < entries.len()
                invariant
                    i <= entries@.len(),
                    *value == Json::Object(*entries),
                    output@ == start + seq!['{'] + entries_literal(entries_of(entries@.take(i as int))),
                decreases entries@.len() - i,
            {
                assert(decreases_to!(*entries => entries@));
                assert(decreases_to!(entries@ => entries@[i as int]));
                assert(decreases_to!(entries@[i as int] => entries@[i as int].1));
                assert((*value)->Object_0 == *entries);
                assert(decreases_to!(*value => (*value)->Object_0));
                output.push('[');
                string(entries[i].0.as_str(), output);
                output.push(']');
                output.push('=');
                literal(&entries[i].1, output);
                output.push(',');
                proof {
                    let t = entries@.take(i + 1);
                    assert(t.drop_last() =~= entries@.take(i as int));
                    assert(t.last() == entries@[i as int]);
                    let es = entries_of(t);
                    assert(es == entries_of(t.drop_last()).push((t.last().0@, value_of(t.last().1))));
                    assert(es.drop_last() =~= entries_of(entries@.take(i as int)));
                    assert(es.last() == (entries@[i as int].0@, value_of(entries@[i as int].1)));
                }
                i = i + 1;
                assert(output@ =~= start + seq!['{'] + entries_literal(entries_of(entries@.take(i as int))));
            }
            assert(entries@.take(i as int) =~= entries@);
            output.push('}');
        },
    }
    assert(output@ =~= start + luau_literal(value_of(*value)));
}

/// The Luau literal of a configuration value.
pub fn luau_value(value: &Json) -> (r: String)
    ensures
        r@ == luau_literal(value_of(*value)),
{
    let mut out: Vec<char> = Vec::new();
    literal(value, &mut out);
    string_of(&out)
}

/// Characters below U+0080, which UTF-8 writes as one byte each.
pub open spec fn ascii(s: Seq<char>) -> bool {
    forall|i: int| 0 <= i < s.len() ==> (#[trigger] s[i] as u32) < 0x80
}

proof fn lemma_ascii_encode(s: Seq<char>)
    requires
        ascii(s),
    ensures
        encode_utf8(s).len() == s.len(),
        forall|i: int| 0 <= i < s.len() ==> #[trigger] encode_utf8(s)[i] == (s[i] as u32) as u8,
    decreases s.len(),
{
    if s.len() > 0 {
        let rest = s.drop_first();
        assert(ascii(rest)) by {
            assert forall|i: int| 0 <= i < rest.len() implies (#[trigger] rest[i] as u32) < 0x80 by {
                assert(rest[i] == s[i + 1]);
            }
        }
        lemma_ascii_encode(rest);
        let v = s[0] as u32;
        assert(v < 0x80);
        assert((v & 0x7f) as u8 == v as u8) by (bit_vector)
            requires
                v < 0x80,
        ;
        assert(encode_scalar(v) == seq![(v & 0x7f) as u8]);
        assert(encode_utf8(s) == encode_scalar(v) + encode_utf8(rest));
        assert forall|i: int| 0 <= i < s.len() implies #[trigger] encode_utf8(s)[i] == (s[i] as u32) as u8 by {
            if i > 0 {
                assert(encode_utf8(s)[i] == encode_utf8(rest)[i - 1]);
                assert(rest[i - 1] == s[i]);
            }
        }
    }
}

proof fn lemma_escaped_shape(bytes: Seq<u8>)
    ensures
        escaped_bytes(bytes).len() == 4 * bytes.len(),
        forall|k: int| 0 <= k < bytes.len() ==> escaped_bytes(bytes).subrange(4 * k, 4 * k + 4) == seq!['\\'] + decimal3(#[trigger] bytes[k]),
    decreases bytes.len(),
{
    if bytes.len() > 0 {
        let front = bytes.drop_last();
        lemma_escaped_shape(front);
        let e = escaped_bytes(bytes);
        assert(e == escaped_bytes(front) + seq!['\\'] + decimal3(bytes.last()));
        assert forall|k: int| 0 <= k < bytes.len() implies e.subrange(4 * k, 4 * k + 4) == seq!['\\'] + decimal3(#[trigger] bytes[k]) by {
            if k < front.len() {
                assert(front[k] == bytes[k]);
                assert(e.subrange(4 * k, 4 * k + 4) =~= escaped_bytes(front).subrange(4 * k, 4 * k + 4));
            } else {
                assert(e.subrange(4 * k, 4 * k + 4) =~= seq!['\\'] + decimal3(bytes.last()));
            }
        }
    }
}

proof fn lemma_digits(b: u8)
    ensures
        0 <= b / 100 <= 2,
        (b / 100) * 100 + ((b / 10) % 10) * 10 + b % 10 == b,
{
    assert((b / 100) * 100 + ((b / 10) % 10) * 10 + b % 10 == b) by (nonlinear_arith);
    assert(b / 100 <= 2) by (nonlinear_arith);
}

/// Bytes `1 + 4j` to `4 + 4j` of `e` are a backslash and the three decimal
/// digits of byte `j` of `bytes`.
pub open spec fn escaped_at(e: Seq<u8>, bytes: Seq<u8>, j: int) -> bool {
    &&& e[1 + 4 * j] == 0x5c
    &&& e[2 + 4 * j] == 0x30 + bytes[j] / 100
    &&& e[3 + 4 * j] == 0x30 + (bytes[j] / 10) % 10
    &&& e[4 + 4 * j] == 0x30 + bytes[j] % 10
}

proof fn lemma_body(e: Seq<u8>, bytes: Seq<u8>, k: int)
    requires
        0 <= k <= bytes.len(),
        e.len() == 4 * bytes.len() + 2,
        forall|j: int| 0 <= j < bytes.len() ==> #[trigger] escaped_at(e, bytes, j),
    ensures
        quoted_body(e, 1 + 4 * k) == Ok::<Seq<u8>, LiteralError>(bytes.skip(k)),
    decreases bytes.len() - k,
{
    if k < bytes.len() {
        lemma_body(e, bytes, k + 1);
        let b = bytes[k];
        lemma_digits(b);
        assert(escaped_at(e, bytes, k));
        let i = 1 + 4 * k;
        assert(e[i] == 0x5c);
        assert(is_digit(e[i + 1]) && is_digit(e[i + 2]) && is_digit(e[i + 3]));
        assert((e[i + 1] - 0x30) * 10 + (e[i + 2] - 0x30) == (b / 100) * 10 + (b / 10) % 10);
        assert(((b / 100) * 10 + (b / 10) % 10) * 10 + b % 10 == (b / 100) * 100 + ((b / 10) % 10) * 10 + b % 10) by (nonlinear_arith);
        assert(escape(e, i + 1) == Ok::<(Seq<u8>, int), LiteralError>((seq![b], i + 4)));
        assert(seq![b] + bytes.skip(k + 1) =~= bytes.skip(k));
    } else {
        assert(bytes.skip(k) =~= Seq::<u8>::empty());
    }
}

/// Characters `1 + 4j` to `4 + 4j` of `chars` spell byte `j` of `bytes`.
pub open spec fn spelled_at(chars: Seq<char>, bytes: Seq<u8>, j: int) -> bool {
    &&& chars[1 + 4 * j] == '\\'
    &&& chars[2 + 4 * j] == ((0x30 + bytes[j] / 100) as u8) as char
    &&& chars[3 + 4 * j] == ((0x30 + (bytes[j] / 10) % 10) as u8) as char
    &&& chars[4 + 4 * j] == ((0x30 + bytes[j] % 10) as u8) as char
}

/// The Luau string literal of some bytes reads back, by the library's own
/// decoder of Luau string literals, as those bytes.
pub proof fn law_string_literal_round_trip(bytes: Seq<u8>)
    ensures
        literal_bytes(encode_utf8(string_literal(bytes))) == Ok::<Seq<u8>, LiteralError>(bytes),
{
    let chars = string_literal(bytes);
    lemma_escaped_shape(bytes);
    let body = escaped_bytes(bytes);
    assert(chars == seq!['"'] + body + seq!['"']);
    assert forall|j: int| 0 <= j < bytes.len() implies #[trigger] spelled_at(chars, bytes, j) by {
        let b = bytes[j];
        let piece = body.subrange(4 * j, 4 * j + 4);
        assert(piece == seq!['\\'] + decimal3(b));
        assert(chars[1 + 4 * j] == piece[0]);
        assert(chars[2 + 4 * j] == piece[1]);
        assert(chars[3 + 4 * j] == piece[2]);
        assert(chars[4 + 4 * j] == piece[3]);
    }
    assert(ascii(chars)) by {
        assert forall|i: int| 0 <= i < chars.len() implies (#[trigger] chars[i] as u32) < 0x80 by {
            if 1 <= i < chars.len() - 1 {
                let j = (i - 1) / 4;
                assert(0 <= j < bytes.len());
                assert(spelled_at(chars, bytes, j));
                lemma_digits(bytes[j]);
                assert(i == 1 + 4 * j || i == 2 + 4 * j || i == 3 + 4 * j || i == 4 + 4 * j);
            }
        }
    }
    lemma_ascii_encode(chars);
    let e = encode_utf8(chars);
    assert forall|j: int| 0 <= j < bytes.len() implies #[trigger] escaped_at(e, bytes, j) by {
        assert(spelled_at(chars, bytes, j));
        lemma_digits(bytes[j]);
        assert(e[1 + 4 * j] == (chars[1 + 4 * j] as u32) as u8);
        assert(e[2 + 4 * j] == (chars[2 + 4 * j] as u32) as u8);
        assert(e[3 + 4 * j] == (chars[3 + 4 * j] as u32) as u8);
        assert(e[4 + 4 * j] == (chars[4 + 4 * j] as u32) as u8);
    }
    lemma_body(e, bytes, 0);
    assert(bytes.skip(0) =~= bytes);
    assert(e[0] == (chars[0] as u32) as u8);
    assert(e[e.len() - 1] == (chars[chars.len() - 1] as u32) as u8);
}

} // verus!
