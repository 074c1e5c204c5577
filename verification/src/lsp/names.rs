//! Luau names and string literals produced for editor edits: identifiers,
//! bindings derived from module names, quoted strings and member accesses.

use vstd::prelude::*;
use crate::text::{chars_of, push_all, same, string_of};

verus! {

/// ASCII letters.
pub open spec fn ascii_alpha(c: char) -> bool {
    ('a' <= c <= 'z') || ('A' <= c <= 'Z')
}

/// ASCII letters and digits.
pub open spec fn ascii_alnum(c: char) -> bool {
    ascii_alpha(c) || ('0' <= c <= '9')
}

/// The reserved words of Luau that cannot name a binding.
pub open spec fn keywords() -> Seq<Seq<char>> {
    seq![
        seq!['a', 'n', 'd'], seq!['b', 'r', 'e', 'a', 'k'], seq!['c', 'o', 'n', 't', 'i', 'n', 'u', 'e'],
        seq!['d', 'o'], seq!['e', 'l', 's', 'e'], seq!['e', 'l', 's', 'e', 'i', 'f'], seq!['e', 'n', 'd'],
        seq!['f', 'a', 'l', 's', 'e'], seq!['f', 'o', 'r'], seq!['f', 'u', 'n', 'c', 't', 'i', 'o', 'n'],
        seq!['i', 'f'], seq!['i', 'n'], seq!['l', 'o', 'c', 'a', 'l'], seq!['n', 'i', 'l'],
        seq!['n', 'o', 't'], seq!['o', 'r'], seq!['r', 'e', 'p', 'e', 'a', 't'],
        seq!['r', 'e', 't', 'u', 'r', 'n'], seq!['t', 'h', 'e', 'n'], seq!['t', 'r', 'u', 'e'],
        seq!['u', 'n', 't', 'i', 'l'], seq!['w', 'h', 'i', 'l', 'e'], seq!['c', 'o', 'n', 's', 't']
    ]
}

/// A name Luau accepts as an identifier: a letter or `_`, then letters,
/// digits or `_`, and not a reserved word.
pub open spec fn is_identifier(name: Seq<char>) -> bool {
    &&& name.len() > 0
    &&& (name[0] == '_' || ascii_alpha(name[0]))
    &&& forall|i: int| 1 <= i < name.len() ==> (#[trigger] name[i] == '_' || ascii_alnum(name[i]))
    &&& !keywords().contains(name)
}

fn keyword_list() -> (r: Vec<Vec<char>>)
    ensures
        r@.len() == keywords().len(),
        forall|i: int| 0 <= i < r@.len() ==> #[trigger] r@[i]@ == keywords()[i],
{
    let mut r: Vec<Vec<char>> = Vec::new();
    r.push(chars_of("and"));
    r.push(chars_of("break"));
    r.push(chars_of("continue"));
    r.push(chars_of("do"));
    r.push(chars_of("else"));
    r.push(chars_of("elseif"));
    r.push(chars_of("end"));
    r.push(chars_of("false"));
    r.push(chars_of("for"));
    r.push(chars_of("function"));
    r.push(chars_of("if"));
    r.push(chars_of("in"));
    r.push(chars_of("local"));
    r.push(chars_of("nil"));
    r.push(chars_of("not"));
    r.push(chars_of("or"));
    r.push(chars_of("repeat"));
    r.push(chars_of("return"));
    r.push(chars_of("then"));
    r.push(chars_of("true"));
    r.push(chars_of("until"));
    r.push(chars_of("while"));
    r.push(chars_of("const"));
    proof {
        reveal_strlit("and");
        reveal_strlit("break");
        reveal_strlit("continue");
        reveal_strlit("do");
        reveal_strlit("else");
        reveal_strlit("elseif");
        reveal_strlit("end");
        reveal_strlit("false");
        reveal_strlit("for");
        reveal_strlit("function");
        reveal_strlit("if");
        reveal_strlit("in");
        reveal_strlit("local");
        reveal_strlit("nil");
        reveal_strlit("not");
        reveal_strlit("or");
        reveal_strlit("repeat");
        reveal_strlit("return");
        reveal_strlit("then");
        reveal_strlit("true");
        reveal_strlit("until");
        reveal_strlit("while");
        reveal_strlit("const");
        assert forall|i: int| 0 <= i < r@.len() implies #[trigger] r@[i]@ == keywords()[i] by {
            assert(r@[i]@ =~= keywords()[i]);
        }
    }
    r
}

fn reserved_word(name: &[char]) -> (r: bool)
    ensures
        r == keywords().contains(name@),
{
    let words = keyword_list();
    let mut i: usize = 0;
    while i < words.len()
        invariant
            i <= words@.len(),
            words@.len() == keywords().len(),
            forall|k: int| 0 <= k < words@.len() ==> #[trigger] words@[k]@ == keywords()[k],
            forall|k: int| 0 <= k < i ==> keywords()[k] != name@,
        decreases words@.len() - i,
    {
        if same(&words[i], name) {
            assert(keywords()[i as int] == name@);
            return true;
        }
        i = i + 1;
    }
    false
}

fn identifier_chars(v: &[char]) -> (r: bool)
    ensures
        r == is_identifier(v@),
{
    if v.len() == 0 {
        return false;
    }
    let first = v[0];
    if !(first == '_' || ('a' <= first && first <= 'z') || ('A' <= first && first <= 'Z')) {
        return false;
    }
    let mut i: usize = 1;
    while i < v.len()
        invariant
            1 <= i <= v@.len(),
            forall|k: int| 1 <= k < i ==> (#[trigger] v@[k] == '_' || ascii_alnum(v@[k])),
        decreases v@.len() - i,
    {
        let c = v[i];
        if !(c == '_' || ('a' <= c && c <= 'z') || ('A' <= c && c <= 'Z') || ('0' <= c && c <= '9')) {
            assert(!(v@[i as int] == '_' || ascii_alnum(v@[i as int])));
            return false;
        }
        i = i + 1;
    }
    !reserved_word(v)
}

/// Whether `name` is a Luau identifier.
pub fn identifier(name: &str) -> (r: bool)
    ensures
        r == is_identifier(name@),
{
    identifier_chars(&chars_of(name))
}

/// A character kept in a binding name; any other becomes `_`.
pub open spec fn binding_char(c: char) -> char {
    if ascii_alnum(c) || c == '_' {
        c
    } else {
        '_'
    }
}

/// The binding a module named `name` is required into: its characters with
/// each one that no identifier holds made `_`, and `_` in front when that is
/// still no identifier.
pub open spec fn binding_of(name: Seq<char>) -> Seq<char> {
    let mapped = name.map_values(|c: char| binding_char(c));
    if is_identifier(mapped) {
        mapped
    } else {
        seq!['_'] + mapped
    }
}

/// The binding name for a module named `name`.
pub fn binding(name: &str) -> (r: String)
    ensures
        r@ == binding_of(name@),
{
    let v = chars_of(name);
    let mut mapped: Vec<char> = Vec::new();
    let mut i: usize = 0;
    while i < v.len()
        invariant
            i <= v@.len(),
            v@ == name@,
            mapped@ == v@.take(i as int).map_values(|c: char| binding_char(c)),
        decreases v@.len() - i,
    {
        let c = v[i];
        let kept = if ('a' <= c && c <= 'z') || ('A' <= c && c <= 'Z') || ('0' <= c && c <= '9') || c == '_' {
            c
        } else {
            '_'
        };
        mapped.push(kept);
        i = i + 1;
        assert(mapped@ =~= v@.take(i as int).map_values(|c: char| binding_char(c)));
    }
    assert(v@.take(i as int) =~= v@);
    if identifier_chars(&mapped) {
        string_of(&mapped)
    } else {
        let mut r: Vec<char> = Vec::new();
        r.push('_');
        push_all(&mut r, &mapped);
        string_of(&r)
    }
}

/// Every binding name is an identifier.
pub proof fn law_binding_is_identifier(name: Seq<char>)
    ensures
        is_identifier(binding_of(name)),
{
    let mapped = name.map_values(|c: char| binding_char(c));
    if !is_identifier(mapped) {
        let b = seq!['_'] + mapped;
        assert forall|i: int| 1 <= i < b.len() implies (#[trigger] b[i] == '_' || ascii_alnum(b[i])) by {
            assert(b[i] == mapped[i - 1]);
        }
        assert(!keywords().contains(b)) by {
            if keywords().contains(b) {
                let k = choose|k: int| 0 <= k < keywords().len() && keywords()[k] == b;
                assert(keywords()[k][0] != '_');
            }
        }
    }
}

/// Lower-case hexadecimal digits of `n`, without leading zeros.
pub open spec fn hex_digits(n: nat) -> Seq<char>
    decreases n,
{
    if n < 16 {
        seq![hex_char(n)]
    } else {
        hex_digits(n / 16) + seq![hex_char(n % 16)]
    }
}

pub open spec fn hex_char(d: nat) -> char {
    if d < 10 {
        ((0x30 + d) as u8) as char
    } else {
        ((0x61 + d - 10) as u8) as char
    }
}

/// `char::escape_default`: tab, carriage return and line feed as `\t`, `\r`
/// and `\n`; a backslash or quote behind a backslash; printable ASCII as it
/// is; anything else as `\u{` and its hexadecimal code `}`.
pub open spec fn escape_default(c: char) -> Seq<char> {
    if c == '\t' {
        seq!['\\', 't']
    } else if c == '\r' {
        seq!['\\', 'r']
    } else if c == '\n' {
        seq!['\\', 'n']
    } else if c == '\\' || c == '\'' || c == '"' {
        seq!['\\', c]
    } else if 0x20 <= (c as u32) <= 0x7e {
        seq![c]
    } else {
        seq!['\\', 'u', '{'] + hex_digits(c as nat) + seq!['}']
    }
}

/// Unicode control characters: U+0000 to U+001F and U+007F to U+009F.
pub open spec fn is_control(c: char) -> bool {
    (c as u32) <= 0x1f || (0x7f <= (c as u32) <= 0x9f)
}

/// How `quoted` writes one character.
pub open spec fn quoted_char(c: char, quote: char) -> Seq<char> {
    if c == quote || c == '\\' || is_control(c) {
        escape_default(c)
    } else {
        seq![c]
    }
}

/// The characters of `s`, each written by `f`, one after another.
pub open spec fn concat_map(s: Seq<char>, quote: char) -> Seq<char>
    decreases s.len(),
{
    if s.len() == 0 {
        seq![]
    } else {
        concat_map(s.drop_last(), quote) + quoted_char(s.last(), quote)
    }
}

/// `value` between two `quote` characters, with the quote, backslashes and
/// control characters escaped.
pub open spec fn quoted_text(value: Seq<char>, quote: char) -> Seq<char> {
    seq![quote] + concat_map(value, quote) + seq![quote]
}

fn push_hex(out: &mut Vec<char>, n: u32)
    ensures
        final(out)@ == old(out)@ + hex_digits(n as nat),
    decreases n,
{
    if n >= 16 {
        push_hex(out, n / 16);
    }
    let d = (n % 16) as u8;
    let c = if d < 10 {
        (0x30 + d) as char
    } else {
        (0x61 + d - 10) as char
    };
    proof {
        assert(c == hex_char((n % 16) as nat));
    }
    out.push(c);
    proof {
        if n >= 16 {
            assert(hex_digits(n as nat) == hex_digits((n / 16) as nat) + seq![hex_char((n % 16) as nat)]);
        }
    }
}

fn push_escaped(out: &mut Vec<char>, c: char)
    ensures
        final(out)@ == old(out)@ + escape_default(c),
{
    let ghost start = out@;
    if c == '\t' {
        out.push('\\');
        out.push('t');
    } else if c == '\r' {
        out.push('\\');
        out.push('r');
    } else if c == '\n' {
        out.push('\\');
        out.push('n');
    } else if c == '\\' || c == '\'' || c == '"' {
        out.push('\\');
        out.push(c);
    } else if 0x20 <= (c as u32) && (c as u32) <= 0x7e {
        out.push(c);
    } else {
        out.push('\\');
        out.push('u');
        out.push('{');
        push_hex(out, c as u32);
        out.push('}');
    }
    assert(out@ =~= start + escape_default(c));
}

/// `value` in `quote` characters, escaped as a Luau string literal.
pub fn quoted(value: &str, quote: char) -> (r: String)
    ensures
        r@ == quoted_text(value@, quote),
{
    let v = chars_of(value);
    let mut out: Vec<char> = Vec::new();
    out.push(quote);
    let mut i: usize = 0;
    while i < v.len()
        invariant
            i <= v@.len(),
            v@ == value@,
            out@ == seq![quote] + concat_map(v@.take(i as int), quote),
        decreases v@.len() - i,
    {
        let c = v[i];
        let u = c as u32;
        if c == quote || c == '\\' || u <= 0x1f || (0x7f <= u && u <= 0x9f) {
            push_escaped(&mut out, c);
        } else {
            out.push(c);
        }
        proof {
            assert(v@.take(i + 1).drop_last() =~= v@.take(i as int));
        }
        i = i + 1;
        assert(out@ =~= seq![quote] + concat_map(v@.take(i as int), quote));
    }
    assert(v@.take(i as int) =~= v@);
    out.push(quote);
    string_of(&out)
}

/// `Parent`, a name that a member access cannot write with a dot.
pub open spec fn parent_name() -> Seq<char> {
    seq!['P', 'a', 'r', 'e', 'n', 't']
}

/// How `member` writes the access of child `name`: `.name` for an
/// identifier other than `Parent`, `:WaitForChild("Parent")` for `Parent`,
/// and a quoted index otherwise.
pub open spec fn member_access(name: Seq<char>) -> Seq<char> {
    if is_identifier(name) && name != parent_name() {
        seq!['.'] + name
    } else if name == parent_name() {
        ":WaitForChild(\"Parent\")"@
    } else {
        seq!['['] + quoted_text(name, '"') + seq![']']
    }
}

/// Appends the access of child `name` to `expression`.
pub fn member(expression: &mut String, name: &str)
    ensures
        final(expression)@ == old(expression)@ + member_access(name@),
{
    let v = chars_of(name);
    let parent = chars_of("Parent");
    proof {
        reveal_strlit("Parent");
        assert(parent@ =~= parent_name());
    }
    let mut out = chars_of(expression.as_str());
    if identifier_chars(&v) && !same(&v, &parent) {
        out.push('.');
        push_all(&mut out, &v);
    } else if same(&v, &parent) {
        push_all(&mut out, &chars_of(":WaitForChild(\"Parent\")"));
    } else {
        out.push('[');
        push_all(&mut out, &chars_of(quoted(name, '"').as_str()));
        out.push(']');
    }
    assert(out@ =~= old(expression)@ + member_access(name@));
    *expression = string_of(&out);
}

} // verus!
