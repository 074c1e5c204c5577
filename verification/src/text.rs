//! Character-level text operations with the meaning std gives them:
//! whitespace, trimming, splitting, searching, lines and joining.

use vstd::prelude::*;

verus! {

/// Unicode `White_Space`, which `char::is_whitespace` tests.
pub open spec fn is_white(c: char) -> bool {
    let v = c as u32;
    (0x09 <= v <= 0x0d) || v == 0x20 || v == 0x85 || v == 0xa0 || v == 0x1680 || (0x2000 <= v
        <= 0x200a) || v == 0x2028 || v == 0x2029 || v == 0x202f || v == 0x205f || v == 0x3000
}

pub fn white(c: char) -> (r: bool)
    ensures
        r == is_white(c),
{
    let v = c as u32;
    (0x09 <= v && v <= 0x0d) || v == 0x20 || v == 0x85 || v == 0xa0 || v == 0x1680 || (0x2000
        <= v && v <= 0x200a) || v == 0x2028 || v == 0x2029 || v == 0x202f || v == 0x205f || v
        == 0x3000
}

/// Number of whitespace characters that begin `s`.
pub open spec fn leading_white(s: Seq<char>) -> nat
    decreases s.len(),
{
    if s.len() == 0 || !is_white(s[0]) {
        0
    } else {
        1 + leading_white(s.drop_first())
    }
}

/// Number of whitespace characters that end `s`.
pub open spec fn trailing_white(s: Seq<char>) -> nat
    decreases s.len(),
{
    if s.len() == 0 || !is_white(s.last()) {
        0
    } else {
        1 + trailing_white(s.drop_last())
    }
}

pub open spec fn trim_start(s: Seq<char>) -> Seq<char> {
    s.skip(leading_white(s) as int)
}

pub open spec fn trim_end(s: Seq<char>) -> Seq<char> {
    s.take(s.len() - trailing_white(s))
}

/// `str::trim`: both ends without whitespace.
pub open spec fn trim(s: Seq<char>) -> Seq<char> {
    trim_end(trim_start(s))
}

/// The index of the first whitespace character at or after `i`.
pub open spec fn white_from(s: Seq<char>, i: int) -> Option<int>
    decreases s.len() - i,
{
    if i < 0 || i >= s.len() {
        None
    } else if is_white(s[i]) {
        Some(i)
    } else {
        white_from(s, i + 1)
    }
}

/// `str::split_once(char::is_whitespace)`: the text around the first whitespace character.
pub open spec fn split_white(s: Seq<char>) -> Option<(Seq<char>, Seq<char>)> {
    match white_from(s, 0) {
        Some(i) => Some((s.take(i), s.skip(i + 1))),
        None => None,
    }
}

/// Whether `needle` occurs in `hay` at index `i`.
pub open spec fn occurs_at(hay: Seq<char>, needle: Seq<char>, i: int) -> bool {
    0 <= i && i + needle.len() <= hay.len() && hay.subrange(i, i + needle.len()) == needle
}

/// The first index at or after `i` where `needle` occurs in `hay`.
pub open spec fn find_from(hay: Seq<char>, needle: Seq<char>, i: int) -> Option<int>
    decreases hay.len() - i,
{
    if i < 0 || i + needle.len() > hay.len() {
        None
    } else if occurs_at(hay, needle, i) {
        Some(i)
    } else if i >= hay.len() {
        None
    } else {
        find_from(hay, needle, i + 1)
    }
}

pub open spec fn starts_with(s: Seq<char>, prefix: Seq<char>) -> bool {
    occurs_at(s, prefix, 0)
}

/// A line without the carriage return that precedes its line feed.
pub open spec fn strip_cr(line: Seq<char>) -> Seq<char> {
    if line.len() > 0 && line.last() == '\r' {
        line.drop_last()
    } else {
        line
    }
}

/// The index of the first line feed at or after `i`.
pub open spec fn newline_from(s: Seq<char>, i: int) -> Option<int>
    decreases s.len() - i,
{
    if i < 0 || i >= s.len() {
        None
    } else if s[i] == '\n' {
        Some(i)
    } else {
        newline_from(s, i + 1)
    }
}

/// `str::lines`: the text split at `\n` and `\r\n`; a final line ending adds no line.
pub open spec fn lines(s: Seq<char>) -> Seq<Seq<char>>
    decreases s.len(),
{
    if s.len() == 0 {
        seq![]
    } else {
        match newline_from(s, 0) {
            None => seq![s],
            Some(i) => {
                proof {
                    lemma_newline_from(s, 0);
                }
                seq![strip_cr(s.take(i))] + lines(s.skip(i + 1))
            },
        }
    }
}

/// `[T]::join`: the parts with `sep` between neighbours.
pub open spec fn join(parts: Seq<Seq<char>>, sep: Seq<char>) -> Seq<char>
    decreases parts.len(),
{
    if parts.len() == 0 {
        seq![]
    } else if parts.len() == 1 {
        parts[0]
    } else {
        join(parts.drop_last(), sep) + sep + parts.last()
    }
}

pub proof fn lemma_newline_from(s: Seq<char>, i: int)
    ensures
        newline_from(s, i) matches Some(p) ==> i <= p < s.len() && s[p] == '\n',
        newline_from(s, i) is None && 0 <= i ==> forall|k: int| i <= k < s.len() ==> s[k] != '\n',
    decreases s.len() - i,
{
    if 0 <= i < s.len() && s[i] != '\n' {
        lemma_newline_from(s, i + 1);
    }
}

pub proof fn lemma_white_from(s: Seq<char>, i: int)
    ensures
        white_from(s, i) matches Some(p) ==> i <= p < s.len() && is_white(s[p]),
    decreases s.len() - i,
{
    if 0 <= i < s.len() && !is_white(s[i]) {
        lemma_white_from(s, i + 1);
    }
}

pub proof fn lemma_leading_white(s: Seq<char>)
    ensures
        leading_white(s) <= s.len(),
    decreases s.len(),
{
    if s.len() > 0 && is_white(s[0]) {
        lemma_leading_white(s.drop_first());
    }
}

pub proof fn lemma_trailing_white(s: Seq<char>)
    ensures
        trailing_white(s) <= s.len(),
    decreases s.len(),
{
    if s.len() > 0 && is_white(s.last()) {
        lemma_trailing_white(s.drop_last());
    }
}

/// The characters of a string slice (`str::chars`).
#[verifier::external_body]
pub(crate) fn chars_of(s: &str) -> (v: Vec<char>)
    ensures
        v@ == s@,
{
    s.chars().collect()
}

/// A string made of the given characters (`String::from_iter`).
#[verifier::external_body]
pub(crate) fn string_of(v: &[char]) -> (s: String)
    ensures
        s@ == v@,
{
    String::from_iter(v)
}

/// A copy of `v[from..to]`.
pub fn copy_range(v: &[char], from: usize, to: usize) -> (r: Vec<char>)
    requires
        from <= to <= v@.len(),
    ensures
        r@ == v@.subrange(from as int, to as int),
{
    let mut r: Vec<char> = Vec::new();
    let mut i = from;
    while i < to
        invariant
            from <= i <= to <= v@.len(),
            r@ == v@.subrange(from as int, i as int),
        decreases to - i,
    {
        r.push(v[i]);
        i = i + 1;
        assert(r@ =~= v@.subrange(from as int, i as int));
    }
    r
}

/// Appends `extra` to `out`.
pub fn push_all(out: &mut Vec<char>, extra: &[char])
    ensures
        final(out)@ == old(out)@ + extra@,
{
    let mut i: usize = 0;
    let ghost start = out@;
    while i < extra.len()
        invariant
            i <= extra@.len(),
            out@ == start + extra@.take(i as int),
        decreases extra@.len() - i,
    {
        out.push(extra[i]);
        i = i + 1;
        assert(out@ =~= start + extra@.take(i as int));
    }
    assert(extra@.take(i as int) =~= extra@);
}

/// Whether `a` and `b` hold the same characters.
pub fn same(a: &[char], b: &[char]) -> (r: bool)
    ensures
        r == (a@ == b@),
{
    if a.len() != b.len() {
        return false;
    }
    let mut i: usize = 0;
    while i < a.len()
        invariant
            a@.len() == b@.len(),
            i <= a@.len(),
            forall|k: int| 0 <= k < i ==> a@[k] == b@[k],
        decreases a@.len() - i,
    {
        if a[i] != b[i] {
            return false;
        }
        i = i + 1;
    }
    assert(a@ =~= b@);
    true
}

/// Whether `needle` occurs in `hay` at index `i`.
pub fn matches_at(hay: &[char], needle: &[char], i: usize) -> (r: bool)
    ensures
        r == occurs_at(hay@, needle@, i as int),
{
    if i > hay.len() || hay.len() - i < needle.len() {
        return false;
    }
    let mut k: usize = 0;
    while k < needle.len()
        invariant
            i + needle@.len() <= hay@.len(),
            k <= needle@.len(),
            forall|m: int| 0 <= m < k ==> hay@[i + m] == needle@[m],
        decreases needle@.len() - k,
    {
        assert(hay@.len() == hay.len());
        if hay[i + k] != needle[k] {
            assert(hay@.subrange(i as int, i + needle@.len())[k as int] != needle@[k as int]);
            return false;
        }
        k = k + 1;
    }
    assert(hay@.subrange(i as int, i + needle@.len()) =~= needle@);
    true
}

/// The first index where `needle` occurs in `hay`.
pub fn find(hay: &[char], needle: &[char]) -> (r: Option<usize>)
    ensures
        r matches Some(i) ==> find_from(hay@, needle@, 0) == Some(i as int),
        r is None ==> find_from(hay@, needle@, 0) is None,
{
    let mut i: usize = 0;
    while i <= hay.len()
        invariant
            find_from(hay@, needle@, 0) == find_from(hay@, needle@, i as int),
        decreases hay@.len() + 1 - i,
    {
        if hay.len() - i < needle.len() {
            return None;
        }
        if matches_at(hay, needle, i) {
            return Some(i);
        }
        if i == hay.len() {
            return None;
        }
        i = i + 1;
    }
    None
}

/// `str::trim` on characters.
pub fn trimmed(s: &[char]) -> (r: Vec<char>)
    ensures
        r@ == trim(s@),
{
    let mut start: usize = 0;
    assert(s@.skip(0) =~= s@);
    while start < s.len() && white(s[start])
        invariant
            start <= s@.len(),
            leading_white(s@) == start + leading_white(s@.skip(start as int)),
        decreases s@.len() - start,
    {
        assert(s@.skip(start as int).drop_first() =~= s@.skip(start + 1));
        start = start + 1;
    }
    let ghost t = s@.skip(start as int);
    assert(t == trim_start(s@));
    let mut end: usize = s.len();
    while end > start && white(s[end - 1])
        invariant
            start <= end <= s@.len(),
            trailing_white(t) == (s@.len() - end) + trailing_white(s@.subrange(start as int, end as int)),
            t == s@.skip(start as int),
        decreases end,
    {
        assert(s@.subrange(start as int, end as int).drop_last() =~= s@.subrange(
            start as int,
            end - 1,
        ));
        end = end - 1;
    }
    assert(s@.subrange(start as int, end as int) =~= t.take(t.len() - trailing_white(t)));
    copy_range(s, start, end)
}

/// `str::trim_start` on characters.
pub fn trimmed_start(s: &[char]) -> (r: Vec<char>)
    ensures
        r@ == trim_start(s@),
{
    let mut start: usize = 0;
    assert(s@.skip(0) =~= s@);
    while start < s.len() && white(s[start])
        invariant
            start <= s@.len(),
            leading_white(s@) == start + leading_white(s@.skip(start as int)),
        decreases s@.len() - start,
    {
        assert(s@.skip(start as int).drop_first() =~= s@.skip(start + 1));
        start = start + 1;
    }
    assert(s@.subrange(start as int, s@.len() as int) =~= s@.skip(start as int));
    copy_range(s, start, s.len())
}

/// The whitespace-separated words of `s[i..]`, where `word` holds the part
/// of a word already read.
pub open spec fn words_from(s: Seq<char>, i: int, word: Seq<char>) -> Seq<Seq<char>>
    decreases s.len() - i,
{
    let done = if word.len() > 0 {
        seq![word]
    } else {
        Seq::empty()
    };
    if i < 0 || i >= s.len() {
        done
    } else if is_white(s[i]) {
        done + words_from(s, i + 1, Seq::empty())
    } else {
        words_from(s, i + 1, word.push(s[i]))
    }
}

/// `str::split_whitespace`: the nonempty runs of non-whitespace characters.
pub open spec fn words(s: Seq<char>) -> Seq<Seq<char>> {
    words_from(s, 0, Seq::empty())
}

/// The pieces of `s[i..]` when split at `c`, where `piece` holds the part of
/// a piece already read.
pub open spec fn pieces_from(s: Seq<char>, i: int, piece: Seq<char>, c: char) -> Seq<Seq<char>>
    decreases s.len() - i,
{
    if i < 0 || i >= s.len() {
        seq![piece]
    } else if s[i] == c {
        seq![piece] + pieces_from(s, i + 1, Seq::empty(), c)
    } else {
        pieces_from(s, i + 1, piece.push(s[i]), c)
    }
}

/// `str::split(c)`: the pieces between occurrences of `c`, empty ones kept.
pub open spec fn pieces(s: Seq<char>, c: char) -> Seq<Seq<char>> {
    pieces_from(s, 0, Seq::empty(), c)
}

/// The characters of each vector.
pub open spec fn texts(v: Seq<Vec<char>>) -> Seq<Seq<char>> {
    v.map_values(|w: Vec<char>| w@)
}

/// `str::split_whitespace` on characters.
pub fn split_words(s: &[char]) -> (r: Vec<Vec<char>>)
    ensures
        texts(r@) == words(s@),
{
    let mut r: Vec<Vec<char>> = Vec::new();
    let mut word: Vec<char> = Vec::new();
    let mut i: usize = 0;
    assert(texts(r@) + words_from(s@, 0, word@) =~= words(s@));
    while i < s.len()
        invariant
            i <= s@.len(),
            texts(r@) + words_from(s@, i as int, word@) == words(s@),
        decreases s@.len() - i,
    {
        let ghost before = texts(r@);
        let ghost rest = words_from(s@, i as int, word@);
        if white(s[i]) {
            if word.len() > 0 {
                let ghost w = word@;
                r.push(word);
                word = Vec::new();
                assert(texts(r@) =~= before.push(w));
                assert(texts(r@) + words_from(s@, i + 1, word@) =~= before + rest);
            } else {
                assert(word@ =~= Seq::<char>::empty());
                assert(rest =~= words_from(s@, i + 1, word@));
            }
        } else {
            word.push(s[i]);
        }
        i = i + 1;
    }
    if word.len() > 0 {
        let ghost before = texts(r@);
        let ghost w = word@;
        r.push(word);
        assert(texts(r@) =~= before.push(w));
        assert(texts(r@) =~= words(s@));
    } else {
        assert(texts(r@) =~= words(s@));
    }
    r
}

/// `str::split(c)` on characters.
pub fn split_at_char(s: &[char], c: char) -> (r: Vec<Vec<char>>)
    ensures
        texts(r@) == pieces(s@, c),
{
    let mut r: Vec<Vec<char>> = Vec::new();
    let mut piece: Vec<char> = Vec::new();
    let mut i: usize = 0;
    assert(texts(r@) + pieces_from(s@, 0, piece@, c) =~= pieces(s@, c));
    while i < s.len()
        invariant
            i <= s@.len(),
            texts(r@) + pieces_from(s@, i as int, piece@, c) == pieces(s@, c),
        decreases s@.len() - i,
    {
        let ghost before = texts(r@);
        let ghost rest = pieces_from(s@, i as int, piece@, c);
        if s[i] == c {
            let ghost p = piece@;
            r.push(piece);
            piece = Vec::new();
            assert(texts(r@) =~= before.push(p));
            assert(texts(r@) + pieces_from(s@, i + 1, piece@, c) =~= before + rest);
        } else {
            piece.push(s[i]);
        }
        i = i + 1;
    }
    let ghost before = texts(r@);
    let ghost p = piece@;
    r.push(piece);
    assert(texts(r@) =~= before.push(p));
    assert(texts(r@) =~= pieces(s@, c));
    r
}

/// `str::trim_end` on characters.
pub fn trimmed_end(s: &[char]) -> (r: Vec<char>)
    ensures
        r@ == trim_end(s@),
{
    let mut end: usize = s.len();
    assert(s@.take(end as int) =~= s@);
    while end > 0 && white(s[end - 1])
        invariant
            end <= s@.len(),
            trailing_white(s@) == (s@.len() - end) + trailing_white(s@.take(end as int)),
        decreases end,
    {
        assert(s@.take(end as int).drop_last() =~= s@.take(end - 1));
        end = end - 1;
    }
    assert(s@.take(end as int) =~= s@.take(s@.len() - trailing_white(s@)));
    copy_range(s, 0, end)
}

/// `str::split_once(char::is_whitespace)` on characters.
pub fn split_at_white(s: &[char]) -> (r: Option<(Vec<char>, Vec<char>)>)
    ensures
        match r {
            Some((a, b)) => split_white(s@) == Some((a@, b@)),
            None => split_white(s@) is None,
        },
{
    let mut i: usize = 0;
    while i < s.len()
        invariant
            i <= s@.len(),
            white_from(s@, 0) == white_from(s@, i as int),
        decreases s@.len() - i,
    {
        if white(s[i]) {
            return Some((copy_range(s, 0, i), copy_range(s, i + 1, s.len())));
        }
        i = i + 1;
    }
    None
}

/// `str::lines` on characters.
pub fn split_lines(s: &[char]) -> (r: Vec<Vec<char>>)
    ensures
        r@.len() == lines(s@).len(),
        forall|k: int| 0 <= k < r@.len() ==> #[trigger] r@[k]@ == lines(s@)[k],
{
    let mut r: Vec<Vec<char>> = Vec::new();
    let mut start: usize = 0;
    assert(s@.skip(0) =~= s@);
    assert(r@.map_values(|l: Vec<char>| l@) + lines(s@) =~= lines(s@));
    while start < s.len()
        invariant
            start <= s@.len(),
            lines(s@) == r@.map_values(|l: Vec<char>| l@) + lines(s@.skip(start as int)),
        decreases s@.len() - start,
    {
        let ghost rest = s@.skip(start as int);
        let mut end = start;
        while end < s.len() && s[end] != '\n'
            invariant
                start <= end <= s@.len(),
                rest == s@.skip(start as int),
                newline_from(rest, 0) == newline_from(rest, end - start),
            decreases s@.len() - end,
        {
            end = end + 1;
        }
        let ghost before = r@.map_values(|l: Vec<char>| l@);
        if end == s.len() {
            proof {
                lemma_newline_from(rest, 0);
            }
            assert(rest =~= s@.subrange(start as int, end as int));
            r.push(copy_range(s, start, end));
            assert(r@.map_values(|l: Vec<char>| l@) =~= before + seq![rest]);
            assert(s@.skip(end as int) =~= Seq::<char>::empty());
            start = end;
        } else {
            let line_end = if end > start && s[end - 1] == '\r' {
                end - 1
            } else {
                end
            };
            assert(rest.take(end - start) =~= s@.subrange(start as int, end as int));
            assert(strip_cr(rest.take(end - start)) =~= s@.subrange(start as int, line_end as int));
            r.push(copy_range(s, start, line_end));
            assert(rest.skip(end - start + 1) =~= s@.skip(end + 1));
            assert(r@.map_values(|l: Vec<char>| l@) =~= before + seq![
                strip_cr(rest.take(end - start)),
            ]);
            start = end + 1;
        }
    }
    assert(s@.skip(start as int) =~= Seq::<char>::empty());
    assert(lines(s@) =~= r@.map_values(|l: Vec<char>| l@));
    r
}

/// `[T]::join` on lines of characters.
pub fn joined(parts: &Vec<Vec<char>>, sep: &[char]) -> (r: Vec<char>)
    ensures
        r@ == join(parts@.map_values(|l: Vec<char>| l@), sep@),
{
    let ghost all = parts@.map_values(|l: Vec<char>| l@);
    let mut r: Vec<char> = Vec::new();
    let mut i: usize = 0;
    while i < parts.len()
        invariant
            i <= parts@.len(),
            all == parts@.map_values(|l: Vec<char>| l@),
            r@ == join(all.take(i as int), sep@),
        decreases parts@.len() - i,
    {
        if i > 0 {
            push_all(&mut r, sep);
        }
        push_all(&mut r, &parts[i]);
        assert(all.take(i + 1).drop_last() =~= all.take(i as int));
        if i == 0 {
            assert(all.take(1) =~= seq![parts@[0]@]);
        }
        i = i + 1;
    }
    assert(all.take(i as int) =~= all);
    r
}

/// The first index at or after `i` that holds `c`.
pub open spec fn char_from(s: Seq<char>, i: int, c: char) -> Option<int>
    decreases s.len() - i,
{
    if i < 0 || i >= s.len() {
        None
    } else if s[i] == c {
        Some(i)
    } else {
        char_from(s, i + 1, c)
    }
}

/// The end of the piece of `s` that starts at `i`, when `s` is split at `c`.
pub open spec fn piece_end(s: Seq<char>, i: int, c: char) -> int {
    match char_from(s, i, c) {
        Some(e) => e,
        None => s.len() as int,
    }
}

pub proof fn lemma_char_from(s: Seq<char>, i: int, c: char)
    requires
        0 <= i,
    ensures
        char_from(s, i, c) matches Some(e) ==> i <= e < s.len() && s[e] == c && forall|k: int|
            i <= k < e ==> s[k] != c,
        char_from(s, i, c) is None ==> forall|k: int| i <= k < s.len() ==> s[k] != c,
    decreases s.len() - i,
{
    if i < s.len() && s[i] != c {
        lemma_char_from(s, i + 1, c);
    }
}

/// The first index at or after `from` that holds `c`.
pub fn find_char(s: &[char], from: usize, c: char) -> (r: Option<usize>)
    ensures
        match r {
            Some(i) => char_from(s@, from as int, c) == Some(i as int),
            None => char_from(s@, from as int, c) is None,
        },
{
    let mut i = from;
    if i > s.len() {
        return None;
    }
    while i < s.len()
        invariant
            from <= i <= s@.len(),
            char_from(s@, from as int, c) == char_from(s@, i as int, c),
        decreases s@.len() - i,
    {
        if s[i] == c {
            return Some(i);
        }
        i = i + 1;
    }
    None
}

/// The end of the piece of `s` that starts at `from`, when `s` is split at `c`.
pub fn piece_end_at(s: &[char], from: usize, c: char) -> (r: usize)
    requires
        from <= s@.len(),
    ensures
        r == piece_end(s@, from as int, c),
        from <= r <= s@.len(),
        r < s@.len() ==> s@[r as int] == c,
        forall|k: int| from <= k < r ==> s@[k] != c,
{
    proof {
        lemma_char_from(s@, from as int, c);
    }
    match find_char(s, from, c) {
        Some(e) => e,
        None => s.len(),
    }
}

pub proof fn lemma_find_from(hay: Seq<char>, needle: Seq<char>, i: int)
    requires
        0 <= i,
    ensures
        find_from(hay, needle, i) matches Some(k) ==> i <= k && occurs_at(hay, needle, k),
    decreases hay.len() - i,
{
    if i + needle.len() <= hay.len() && !occurs_at(hay, needle, i) && i < hay.len() {
        lemma_find_from(hay, needle, i + 1);
    }
}

} // verus!
