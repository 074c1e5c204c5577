//! Held regions: the parts of a source that comments ask the formatter to
//! leave as they stand.

use vstd::prelude::*;
use crate::format::scope::{Token, TokenKind};
use crate::text::{
    chars_of, copy_range, find, find_from, lemma_find_from, matches_at, occurs_at, starts_with, trim, trimmed,
};

verus! {

/// The instruction of a comment: what follows `instar:` and then `format`,
/// without surrounding whitespace.
pub open spec fn instruction(text: Seq<char>) -> Option<Seq<char>> {
    match find_from(text, "instar:"@, 0) {
        Some(i) => {
            let rest = trim(text.skip(i + "instar:"@.len()));
            if starts_with(rest, "format"@) {
                Some(trim(rest.skip("format"@.len() as int)))
            } else {
                None
            }
        },
        None => None,
    }
}

/// Where the line that holds position `pos` starts.
pub open spec fn line_start(s: Seq<char>, pos: int) -> int
    decreases pos,
{
    if pos <= 0 || pos > s.len() {
        0
    } else if s[pos - 1] == '\n' {
        pos
    } else {
        line_start(s, pos - 1)
    }
}

pub open spec fn is_digit(c: char) -> bool {
    '0' <= c <= '9'
}

/// The value of a run of decimal digits.
pub open spec fn digits_value(s: Seq<char>) -> int
    decreases s.len(),
{
    if s.len() == 0 {
        0
    } else {
        digits_value(s.drop_last()) * 10 + (s.last() as int - '0' as int)
    }
}

/// Text without one leading `+`.
pub open spec fn plus_stripped(s: Seq<char>) -> Seq<char> {
    if s.len() > 0 && s[0] == '+' {
        s.drop_first()
    } else {
        s
    }
}

/// At least one digit, of a value that fits in `usize`.
pub open spec fn digits_number(d: Seq<char>) -> Option<int> {
    if d.len() > 0 && (forall|i: int| 0 <= i < d.len() ==> #[trigger] is_digit(d[i])) && digits_value(d)
        <= usize::MAX {
        Some(digits_value(d))
    } else {
        None
    }
}

/// `usize::from_str`: an optional `+`, then at least one digit, of a value
/// that fits in `usize`.
pub open spec fn decimal(s: Seq<char>) -> Option<int> {
    digits_number(plus_stripped(s))
}

/// The count of `off(count)`.
pub open spec fn off_count(i: Seq<char>) -> Option<int> {
    if starts_with(i, "off("@) && i.len() > "off("@.len() && i.last() == ')' {
        decimal(trim(i.subrange("off("@.len() as int, i.len() - 1)))
    } else {
        None
    }
}

/// Where `n` more lines end after `end`: each time just after the next line
/// feed, or at the end of the source when there is none.
pub open spec fn skip_lines(s: Seq<char>, end: int, n: nat) -> int
    decreases n,
{
    if n == 0 {
        end
    } else {
        match crate::text::newline_from(s, end) {
            None => s.len() as int,
            Some(p) => skip_lines(s, p + 1, (n - 1) as nat),
        }
    }
}

/// The text of a token; nothing when it is no range of the source.
pub open spec fn token_text(s: Seq<char>, t: Token) -> Seq<char> {
    if t.start <= t.end <= s.len() {
        s.subrange(t.start as int, t.end as int)
    } else {
        seq![]
    }
}

/// The ranges held so far and where an open `off` region starts, after one
/// more token.
pub open spec fn held_step(s: Seq<char>, t: Token, ranges: Seq<(int, int)>, open: Option<int>) -> (
    Seq<(int, int)>,
    Option<int>,
) {
    if t.kind != TokenKind::Comment {
        (ranges, open)
    } else {
        let start = line_start(s, t.start as int);
        match instruction(token_text(s, t)) {
            Some(i) => if i == "off"@ && open is None {
                (ranges, Some(start))
            } else if i == "on"@ {
                match open {
                    Some(o) => (ranges.push((o, t.end as int)), None),
                    None => (ranges, None),
                }
            } else {
                match off_count(i) {
                    Some(c) => (ranges.push((start, skip_lines(s, t.end as int, (c + 1) as nat))), open),
                    None => (ranges, open),
                }
            },
            None => (ranges, open),
        }
    }
}

/// The state after the first `n` tokens.
pub open spec fn held_scan(s: Seq<char>, tokens: Seq<Token>, n: int) -> (Seq<(int, int)>, Option<int>)
    decreases n,
{
    if n <= 0 || n > tokens.len() {
        (seq![], None)
    } else {
        let (r, o) = held_scan(s, tokens, n - 1);
        held_step(s, tokens[n - 1], r, o)
    }
}

/// The held regions of a source: from a comment's line that turns
/// formatting off to the end of the comment that turns it on again, or to
/// the end of the source; and `off(n)` holds the comment's line and `n` more.
pub open spec fn held_ranges(s: Seq<char>, tokens: Seq<Token>) -> Seq<(int, int)> {
    let (r, o) = held_scan(s, tokens, tokens.len() as int);
    match o {
        Some(start) => r.push((start, s.len() as int)),
        None => r,
    }
}

/// The ranges as plain integers.
pub open spec fn ranges_of(v: Seq<(usize, usize)>) -> Seq<(int, int)> {
    Seq::new(v.len(), |i: int| (v[i].0 as int, v[i].1 as int))
}

fn instruction_of(text: &Vec<char>) -> (r: Option<Vec<char>>)
    ensures
        match r {
            Some(v) => instruction(text@) == Some(v@),
            None => instruction(text@) is None,
        },
{
    let marker = chars_of("instar:");
    match find(text.as_slice(), marker.as_slice()) {
        Some(i) => {
            proof {
                lemma_find_from(text@, "instar:"@, 0);
                assert(marker@ == "instar:"@);
                assert(occurs_at(text@, "instar:"@, i as int));
            }
            let m = marker.len();
            let total = text.len();
            assert(i + m <= total);
            let tail = copy_range(text.as_slice(), i + m, total);
            assert(tail@ =~= text@.skip(i + "instar:"@.len()));
            let rest = trimmed(tail.as_slice());
            let word = chars_of("format");
            if matches_at(rest.as_slice(), word.as_slice(), 0) {
                let after = copy_range(rest.as_slice(), word.len(), rest.len());
                assert(after@ =~= rest@.skip("format"@.len() as int));
                Some(trimmed(after.as_slice()))
            } else {
                None
            }
        },
        None => None,
    }
}

fn line_start_of(s: &Vec<char>, pos: usize) -> (r: usize)
    ensures
        r == line_start(s@, pos as int),
        r <= pos,
{
    if pos > s.len() {
        return 0;
    }
    let mut p = pos;
    while p > 0
        invariant
            p <= pos <= s@.len(),
            line_start(s@, pos as int) == line_start(s@, p as int),
        decreases p,
    {
        if s[p - 1] == '\n' {
            return p;
        }
        p = p - 1;
    }
    0
}

fn decimal_of(s: &Vec<char>) -> (r: Option<usize>)
    ensures
        match r {
            Some(v) => decimal(s@) == Some(v as int),
            None => decimal(s@) is None,
        },
{
    let from: usize = if s.len() > 0 && s[0] == '+' {
        1
    } else {
        0
    };
    let ghost d = plus_stripped(s@);
    assert(d =~= s@.skip(from as int));
    if from >= s.len() {
        return None;
    }
    let mut value: usize = 0;
    let mut i = from;
    while i < s.len()
        invariant
            from <= i <= s@.len(),
            from < s@.len(),
            d == plus_stripped(s@),
            d =~= s@.skip(from as int),
            value == digits_value(s@.subrange(from as int, i as int)),
            forall|k: int| from <= k < i ==> #[trigger] is_digit(s@[k]),
        decreases s@.len() - i,
    {
        let c = s[i];
        if !('0' <= c && c <= '9') {
            proof {
                let j = i - from;
                assert(d[j] == s@[i as int]);
                assert(!is_digit(d[j]));
                assert(digits_number(d) is None);
            }
            return None;
        }
        assert(s@.subrange(from as int, i + 1).drop_last() =~= s@.subrange(from as int, i as int));
        let digit = (c as u32 - '0' as u32) as usize;
        assert(is_digit(s@[i as int]));
        assert(digits_value(s@.subrange(from as int, i + 1)) == value * 10 + digit);
        match value.checked_mul(10) {
            None => {
                proof {
                    lemma_overflow(s@, d, from as int, i as int);
                }
                return None;
            },
            Some(m) => match m.checked_add(digit) {
                None => {
                    proof {
                        lemma_overflow(s@, d, from as int, i as int);
                    }
                    return None;
                },
                Some(v) => {
                    value = v;
                },
            },
        }
        i = i + 1;
    }
    assert(s@.subrange(from as int, i as int) =~= d);
    assert(forall|k: int| 0 <= k < d.len() ==> #[trigger] is_digit(d[k])) by {
        assert forall|k: int| 0 <= k < d.len() implies #[trigger] is_digit(d[k]) by {
            assert(d[k] == s@[k + from]);
        }
    }
    Some(value)
}

proof fn lemma_digits_nonnegative(s: Seq<char>)
    requires
        forall|i: int| 0 <= i < s.len() ==> #[trigger] is_digit(s[i]),
    ensures
        digits_value(s) >= 0,
    decreases s.len(),
{
    if s.len() > 0 {
        assert(is_digit(s[s.len() - 1]));
        assert forall|i: int| 0 <= i < s.drop_last().len() implies #[trigger] is_digit(s.drop_last()[i]) by {
            assert(is_digit(s[i]));
        }
        lemma_digits_nonnegative(s.drop_last());
    }
}

/// A prefix of a run of digits is worth no more than the whole run.
proof fn lemma_digits_prefix(s: Seq<char>, n: int)
    requires
        0 <= n <= s.len(),
        forall|i: int| 0 <= i < s.len() ==> #[trigger] is_digit(s[i]),
    ensures
        digits_value(s.take(n)) <= digits_value(s),
    decreases s.len(),
{
    if n == s.len() {
        assert(s.take(n) =~= s);
    } else {
        assert(is_digit(s[s.len() - 1]));
        assert forall|i: int| 0 <= i < s.drop_last().len() implies #[trigger] is_digit(s.drop_last()[i]) by {
            assert(is_digit(s[i]));
        }
        lemma_digits_prefix(s.drop_last(), n);
        assert(s.drop_last().take(n) =~= s.take(n));
        lemma_digits_nonnegative(s.drop_last());
    }
}

/// Digits whose value so far exceeds `usize` make no `usize`.
proof fn lemma_overflow(s: Seq<char>, d: Seq<char>, from: int, i: int)
    requires
        0 <= from <= i < s.len(),
        d =~= s.skip(from),
        forall|k: int| from <= k <= i ==> #[trigger] is_digit(s[k]),
        digits_value(s.subrange(from, i + 1)) > usize::MAX,
    ensures
        digits_number(d) is None,
{
    if forall|k: int| 0 <= k < d.len() ==> #[trigger] is_digit(d[k]) {
        lemma_digits_prefix(d, i + 1 - from);
        assert(d.take(i + 1 - from) =~= s.subrange(from, i + 1));
    }
}

fn off_count_of(i: &Vec<char>) -> (r: Option<usize>)
    ensures
        match r {
            Some(v) => off_count(i@) == Some(v as int),
            None => off_count(i@) is None,
        },
{
    let p = chars_of("off(");
    if matches_at(i.as_slice(), p.as_slice(), 0) && i.len() > p.len() && i[i.len() - 1] == ')' {
        let middle = copy_range(i.as_slice(), p.len(), i.len() - 1);
        decimal_of(&trimmed(middle.as_slice()))
    } else {
        None
    }
}

fn skip_lines_of(s: &Vec<char>, end: usize, n: usize) -> (r: usize)
    ensures
        r == skip_lines(s@, end as int, (n + 1) as nat),
{
    let mut e = end;
    let mut k: usize = 0;
    let ghost total = (n + 1) as nat;
    loop
        invariant
            total == (n + 1) as nat,
            k <= n + 1,
            k <= e,
            skip_lines(s@, end as int, total) == skip_lines(s@, e as int, (total - k) as nat),
        decreases s@.len() - e + (if e <= s@.len() { 0int } else { 1int }), n + 1 - k,
    {
        if k > n {
            return e;
        }
        let mut p = e;
        while p < s.len() && s[p] != '\n'
            invariant
                total == (n + 1) as nat,
                k <= n,
                k <= e,
                skip_lines(s@, end as int, total) == skip_lines(s@, e as int, (total - k) as nat),
                e <= p,
                crate::text::newline_from(s@, e as int) == crate::text::newline_from(s@, p as int),
            decreases s@.len() - p,
        {
            p = p + 1;
        }
        if p >= s.len() {
            return s.len();
        }
        e = p + 1;
        k = k + 1;
    }
}

/// The held regions of a source, from its comment tokens.
pub fn held(source: &Vec<char>, tokens: &Vec<Token>) -> (r: Vec<(usize, usize)>)
    ensures
        ranges_of(r@) == held_ranges(source@, tokens@),
{
    let mut ranges: Vec<(usize, usize)> = Vec::new();
    let mut open: Option<usize> = None;
    let mut k: usize = 0;
    while k < tokens.len()
        invariant
            k <= tokens@.len(),
            (ranges_of(ranges@), match open {
                Some(o) => Some(o as int),
                None => None::<int>,
            }) == held_scan(source@, tokens@, k as int),
        decreases tokens@.len() - k,
    {
        let t = tokens[k];
        let ghost before = ranges_of(ranges@);
        if t.kind == TokenKind::Comment {
            let text = if t.start <= t.end && t.end <= source.len() {
                copy_range(source.as_slice(), t.start, t.end)
            } else {
                Vec::new()
            };
            let start = line_start_of(source, t.start);
            match instruction_of(&text) {
                Some(i) => {
                    if crate::format::emitting::is_text(&i, "off") && open.is_none() {
                        open = Some(start);
                    } else if crate::format::emitting::is_text(&i, "on") {
                        match open {
                            Some(o) => {
                                ranges.push((o, t.end));
                                assert(ranges_of(ranges@) =~= before.push((o as int, t.end as int)));
                            },
                            None => {},
                        }
                        open = None;
                    } else {
                        match off_count_of(&i) {
                            Some(c) => {
                                let e = skip_lines_of(source, t.end, c);
                                ranges.push((start, e));
                                assert(ranges_of(ranges@) =~= before.push((start as int, e as int)));
                            },
                            None => {},
                        }
                    }
                },
                None => {},
            }
        }
        k = k + 1;
    }
    match open {
        Some(o) => {
            let ghost before = ranges_of(ranges@);
            ranges.push((o, source.len()));
            assert(ranges_of(ranges@) =~= before.push((o as int, source@.len() as int)));
        },
        None => {},
    }
    ranges
}

} // verus!
