//! Sorting of require bindings: the group of a require path, and the order
//! and separation of the require statements of a block.

use vstd::prelude::*;
use crate::lint::findings::{lemma_text_irreflexive, lemma_text_total, lemma_text_transitive, text_before, text_lt};
use crate::text::{char_from, chars_of, copy_range, find_char, lemma_char_from, matches_at, push_all, starts_with, string_of, trim, trim_start, trimmed, trimmed_start};
use crate::format::configuration::{Grouping, Requires};
use crate::format::scope::{later, lemma_forward, Shape, Tree};

verus! {

/// The group of a require path: aliases (`@`) first, then plain paths,
/// then relative paths (`.`).
pub open spec fn kind_of(path: Seq<char>) -> usize {
    if path.len() > 0 && path[0] == '@' {
        0
    } else if path.len() > 0 && path[0] == '.' {
        2
    } else {
        1
    }
}

/// The group of a require path.
pub fn kind(path: &str) -> (r: usize)
    ensures
        r == kind_of(path@),
{
    let v = chars_of(path);
    if v.len() > 0 && v[0] == '@' {
        0
    } else if v.len() > 0 && v[0] == '.' {
        2
    } else {
        1
    }
}

/// The text of each key.
pub open spec fn key_texts(keys: Seq<Option<String>>) -> Seq<Option<Seq<char>>> {
    keys.map_values(|k: Option<String>| match k {
        Some(t) => Some(t@),
        None => None,
    })
}

/// Statement `i` starts a run of requires: it is a require, and the one
/// before it is not, or a blank line separates them.
pub open spec fn starts_run(keys: Seq<Option<Seq<char>>>, blanks: Seq<bool>, i: int) -> bool {
    keys[i] is Some && (i == 0 || keys[i - 1] is None || blanks[i])
}

/// The first statement of the run that holds require `i`.
pub open spec fn run_start(keys: Seq<Option<Seq<char>>>, blanks: Seq<bool>, i: int) -> int
    decreases i,
{
    if i <= 0 || starts_run(keys, blanks, i) {
        i
    } else {
        run_start(keys, blanks, i - 1)
    }
}

/// The rank a require is sorted by: its group when grouping by kind, then
/// its path.
pub open spec fn rank_lt(by_kind: bool, a: Seq<char>, b: Seq<char>) -> bool {
    let ka = if by_kind { kind_of(a) } else { 0 };
    let kb = if by_kind { kind_of(b) } else { 0 };
    ka < kb || (ka == kb && text_lt(a, b))
}

/// Statement `x` comes before statement `y` in a sorted run: a lower rank,
/// or the same rank and the earlier position (the sort is stable).
pub open spec fn before(by_kind: bool, keys: Seq<Option<Seq<char>>>, x: int, y: int) -> bool {
    rank_lt(by_kind, keys[x]->0, keys[y]->0) || (keys[x] == keys[y] && x < y)
}

/// `order` sorts each run of requires, stably by rank, and leaves every other
/// statement where it is.
pub open spec fn sorted_runs(keys: Seq<Option<Seq<char>>>, blanks: Seq<bool>, by_kind: bool, order: Seq<usize>) -> bool {
    &&& order.len() == keys.len()
    &&& forall|i: int| 0 <= i < keys.len() ==> #[trigger] order[i] < keys.len()
    &&& forall|i: int| 0 <= i < keys.len() && keys[i] is None ==> #[trigger] order[i] == i
    &&& forall|i: int| 0 <= i < keys.len() && keys[i] is Some ==> {
        &&& keys[#[trigger] order[i] as int] is Some
        &&& run_start(keys, blanks, order[i] as int) == run_start(keys, blanks, i)
    }
    &&& forall|i: int, j: int| 0 <= i < j < keys.len() ==> #[trigger] order[i] != #[trigger] order[j]
    &&& forall|i: int, j: int|
        0 <= i < j < keys.len() && keys[i] is Some && keys[j] is Some && run_start(keys, blanks, i)
            == run_start(keys, blanks, j) ==> before(by_kind, keys, #[trigger] order[i] as int, #[trigger] order[j] as int)
}

/// The blank lines after sorting: the first require of a run keeps its own,
/// the others have none, except that grouping by kind separates groups.
pub open spec fn sorted_blanks(
    keys: Seq<Option<Seq<char>>>,
    blanks: Seq<bool>,
    by_kind: bool,
    order: Seq<usize>,
    out: Seq<bool>,
) -> bool {
    &&& out.len() == keys.len()
    &&& forall|i: int| 0 <= i < keys.len() ==> #[trigger] out[i] == if keys[i] is None || starts_run(keys, blanks, i) {
        blanks[i]
    } else {
        by_kind && kind_of(keys[order[i - 1] as int]->0) != kind_of(keys[order[i] as int]->0)
    }
}

proof fn lemma_rank_order(by_kind: bool, a: Seq<char>, b: Seq<char>, c: Seq<char>)
    ensures
        !rank_lt(by_kind, a, a),
        rank_lt(by_kind, a, b) && rank_lt(by_kind, b, c) ==> rank_lt(by_kind, a, c),
        a == b || rank_lt(by_kind, a, b) || rank_lt(by_kind, b, a),
        rank_lt(by_kind, a, b) ==> !rank_lt(by_kind, b, a),
{
    lemma_text_irreflexive(a);
    lemma_text_total(a, b);
    if text_lt(a, b) && text_lt(b, c) {
        lemma_text_transitive(a, b, c);
    }
    if text_lt(a, b) && text_lt(b, a) {
        lemma_text_transitive(a, b, a);
    }
}

fn rank_less(by_kind: bool, a: &String, b: &String) -> (r: bool)
    ensures
        r == rank_lt(by_kind, a@, b@),
{
    let ka = if by_kind { kind(a.as_str()) } else { 0 };
    let kb = if by_kind { kind(b.as_str()) } else { 0 };
    ka < kb || (ka == kb && text_before(chars_of(a.as_str()).as_slice(), chars_of(b.as_str()).as_slice()))
}

proof fn lemma_run_start_le(keys: Seq<Option<Seq<char>>>, blanks: Seq<bool>, i: int)
    requires
        0 <= i,
    ensures
        run_start(keys, blanks, i) <= i,
    decreases i,
{
    if i > 0 && !starts_run(keys, blanks, i) {
        lemma_run_start_le(keys, blanks, i - 1);
    }
}

/// Inside a run that starts at `s`, every statement's run starts at `s`.
proof fn lemma_run_start(keys: Seq<Option<Seq<char>>>, blanks: Seq<bool>, s: int, j: int)
    requires
        0 <= s <= j < keys.len(),
        blanks.len() == keys.len(),
        starts_run(keys, blanks, s),
        forall|q: int| s < q <= j ==> #[trigger] keys[q] is Some && !blanks[q],
    ensures
        run_start(keys, blanks, j) == s,
    decreases j - s,
{
    if j > s {
        assert(keys[j] is Some && !blanks[j]);
        assert(keys[j - 1] is Some) by {
            if j - 1 > s {
                assert(keys[j - 1] is Some);
            }
        }
        assert(!starts_run(keys, blanks, j));
        lemma_run_start(keys, blanks, s, j - 1);
    }
}

/// The path of require `j`.
fn key_at(keys: &Vec<Option<String>>, j: usize) -> (k: &String)
    requires
        j < keys@.len(),
        key_texts(keys@)[j as int] is Some,
    ensures
        key_texts(keys@)[j as int] == Some(k@),
{
    match &keys[j] {
        Some(k) => k,
        None => {
            assert(key_texts(keys@)[j as int] is None);
            &keys[j].as_ref().unwrap()
        },
    }
}

/// The statements `s..e`, all requires, in stable rank order.
fn sort_run(keys: &Vec<Option<String>>, s: usize, e: usize, by_kind: bool) -> (buf: Vec<usize>)
    requires
        s <= e <= keys@.len(),
        forall|q: int| s <= q < e ==> key_texts(keys@)[q] is Some,
    ensures
        buf@.len() == e - s,
        forall|a: int| 0 <= a < buf@.len() ==> s <= #[trigger] buf@[a] < e,
        forall|a: int, b: int| 0 <= a < b < buf@.len() ==> #[trigger] buf@[a] != #[trigger] buf@[b],
        forall|m: int| s <= m < e ==> #[trigger] buf@.contains(m as usize),
        forall|a: int, b: int|
            0 <= a < b < buf@.len() ==> before(by_kind, key_texts(keys@), #[trigger] buf@[a] as int, #[trigger] buf@[b] as int),
{
    let ghost ks = key_texts(keys@);
    let mut buf: Vec<usize> = Vec::new();
    let mut idx = s;
    while idx < e
        invariant
            s <= idx <= e <= keys@.len(),
            ks == key_texts(keys@),
            ks.len() == keys@.len(),
            forall|q: int| s <= q < e ==> ks[q] is Some,
            buf@.len() == idx - s,
            forall|a: int| 0 <= a < buf@.len() ==> s <= #[trigger] buf@[a] < idx,
            forall|a: int, b: int| 0 <= a < b < buf@.len() ==> #[trigger] buf@[a] != #[trigger] buf@[b],
            forall|m: int| s <= m < idx ==> #[trigger] buf@.contains(m as usize),
            forall|a: int, b: int|
                0 <= a < b < buf@.len() ==> before(by_kind, ks, #[trigger] buf@[a] as int, #[trigger] buf@[b] as int),
        decreases e - idx,
    {
        let key = match &keys[idx] {
            Some(k) => k,
            None => {
                assert(ks[idx as int] is Some);
                return buf;
            },
        };
        assert(ks[idx as int] == Some(key@));
        let mut p: usize = 0;
        while p < buf.len() && !rank_less(by_kind, key, key_at(keys, buf[p]))
            invariant
                p <= buf@.len(),
                ks == key_texts(keys@),
                ks[idx as int] == Some(key@),
                forall|a: int| 0 <= a < buf@.len() ==> s <= #[trigger] buf@[a] < idx,
                forall|q: int| s <= q < e ==> ks[q] is Some,
                idx < e <= keys@.len(),
                ks.len() == keys@.len(),
                forall|a: int| 0 <= a < p ==> !rank_lt(by_kind, key@, ks[#[trigger] buf@[a] as int]->0),
            decreases buf@.len() - p,
        {
            assert(ks[buf@[p as int] as int] is Some);
            p = p + 1;
        }
        if p < buf.len() {
            assert(ks[buf@[p as int] as int] is Some);
            assert(rank_lt(by_kind, key@, ks[buf@[p as int] as int]->0));
        }
        let ghost old_buf = buf@;
        buf.insert(p, idx);
        proof {
            assert forall|a: int| 0 <= a < buf@.len() implies s <= #[trigger] buf@[a] < idx + 1 by {
                if a < p {
                    assert(buf@[a] == old_buf[a]);
                } else if a > p {
                    assert(buf@[a] == old_buf[a - 1]);
                }
            }
            assert forall|a: int, b: int| 0 <= a < b < buf@.len() implies #[trigger] buf@[a] != #[trigger] buf@[b] by {
                if a < p {
                    assert(buf@[a] == old_buf[a]);
                } else if a > p {
                    assert(buf@[a] == old_buf[a - 1]);
                }
                if b < p {
                    assert(buf@[b] == old_buf[b]);
                } else if b > p {
                    assert(buf@[b] == old_buf[b - 1]);
                }
            }
            assert forall|m: int| s <= m < idx + 1 implies #[trigger] buf@.contains(m as usize) by {
                if m == idx {
                    assert(buf@[p as int] == idx);
                } else {
                    assert(old_buf.contains(m as usize));
                    let a = choose|a: int| 0 <= a < old_buf.len() && old_buf[a] == m as usize;
                    if a < p {
                        assert(buf@[a] == old_buf[a]);
                    } else {
                        assert(buf@[a + 1] == old_buf[a]);
                    }
                }
            }
            assert forall|a: int, b: int|
                0 <= a < b < buf@.len() implies before(by_kind, ks, #[trigger] buf@[a] as int, #[trigger] buf@[b] as int) by {
                let x = buf@[a] as int;
                let y = buf@[b] as int;
                assert(ks[x] is Some && ks[y] is Some);
                if a != p && b != p {
                    let oa = if a < p { a } else { a - 1 };
                    let ob = if b < p { b } else { b - 1 };
                    assert(buf@[a] == old_buf[oa] && buf@[b] == old_buf[ob]);
                } else if b == p {
                    // an earlier element: not ranked above the new one, and earlier
                    assert(buf@[a] == old_buf[a]);
                    assert(!rank_lt(by_kind, key@, ks[x]->0));
                    lemma_rank_order(by_kind, ks[x]->0, key@, key@);
                    assert(x < idx);
                    if !rank_lt(by_kind, ks[x]->0, key@) {
                        assert(ks[x]->0 == key@);
                        assert(ks[x] == ks[y]);
                    }
                } else {
                    // a later element: ranked above the new one
                    assert(a == p);
                    assert(buf@[b] == old_buf[b - 1]);
                    let z = old_buf[p as int] as int;
                    assert(rank_lt(by_kind, key@, ks[z]->0));
                    if b - 1 > p {
                        assert(before(by_kind, ks, z, y));
                        lemma_rank_order(by_kind, key@, ks[z]->0, ks[y]->0);
                        if ks[z] == ks[y] {
                            assert(rank_lt(by_kind, key@, ks[y]->0));
                        }
                    }
                }
            }
        }
        idx = idx + 1;
    }
    buf
}

/// The order in which the statements of a block are written when the
/// formatter sorts requires, and whether a blank line precedes each: each run
/// of require statements, not broken by a blank line, is sorted stably by
/// group (when grouping by kind) and path; `keys` holds each statement's
/// require path, if it is a require, and `blanks` whether a blank line
/// preceded it.
pub fn require_order(keys: &Vec<Option<String>>, blanks: &Vec<bool>, by_kind: bool) -> (r: (Vec<usize>, Vec<bool>))
    requires
        blanks@.len() == keys@.len(),
    ensures
        sorted_runs(key_texts(keys@), blanks@, by_kind, r.0@),
        sorted_blanks(key_texts(keys@), blanks@, by_kind, r.0@, r.1@),
{
    let ghost ks = key_texts(keys@);
    let n = keys.len();
    let mut order: Vec<usize> = Vec::new();
    let mut i: usize = 0;
    while i < n
        invariant
            i <= n == keys@.len() == blanks@.len(),
            ks == key_texts(keys@),
            ks.len() == n,
            order@.len() == i,
            i < n && ks[i as int] is Some ==> starts_run(ks, blanks@, i as int),
            forall|p: int| 0 <= p < i ==> #[trigger] order@[p] < i,
            forall|p: int| 0 <= p < i && ks[p] is None ==> #[trigger] order@[p] == p,
            forall|p: int| 0 <= p < i && ks[p] is Some ==> {
                &&& ks[#[trigger] order@[p] as int] is Some
                &&& run_start(ks, blanks@, order@[p] as int) == run_start(ks, blanks@, p)
            },
            forall|p: int, q: int| 0 <= p < q < i ==> #[trigger] order@[p] != #[trigger] order@[q],
            forall|p: int, q: int|
                0 <= p < q < i && ks[p] is Some && ks[q] is Some && run_start(ks, blanks@, p) == run_start(ks, blanks@, q)
                    ==> before(by_kind, ks, #[trigger] order@[p] as int, #[trigger] order@[q] as int),
            forall|p: int| 0 <= p < i ==> run_start(ks, blanks@, p) <= p,
        decreases n - i,
    {
        if keys[i].is_none() {
            assert(ks[i as int] is None);
            order.push(i);
            proof {
                lemma_run_start_le(ks, blanks@, i as int);
                if i + 1 < n && ks[i + 1] is Some {
                    assert(starts_run(ks, blanks@, i + 1));
                }
            }
            i = i + 1;
        } else {
            let start = i;
            assert(ks[start as int] is Some);
            let mut e = i + 1;
            while e < n && keys[e].is_some() && !blanks[e]
                invariant
                    start < e <= n == keys@.len() == blanks@.len(),
                    ks == key_texts(keys@),
                    ks.len() == n,
                    ks[start as int] is Some,
                    forall|q: int| start < q < e ==> #[trigger] ks[q] is Some && !blanks@[q],
                decreases n - e,
            {
                assert(ks[e as int] is Some);
                e = e + 1;
            }
            let buf = sort_run(keys, start, e, by_kind);
            let ghost before_order = order@;
            let mut k: usize = 0;
            while k < buf.len()
                invariant
                    k <= buf@.len() == e - start,
                    order@.len() == start + k,
                    forall|p: int| 0 <= p < start ==> #[trigger] order@[p] == before_order[p],
                    forall|p: int| start <= p < start + k ==> #[trigger] order@[p] == buf@[p - start],
                    before_order.len() == start,
                decreases buf@.len() - k,
            {
                order.push(buf[k]);
                k = k + 1;
            }
            proof {
                assert forall|q: int| start <= q < e implies run_start(ks, blanks@, q) == start by {
                    lemma_run_start(ks, blanks@, start as int, q);
                }
                assert forall|p: int| 0 <= p < e implies #[trigger] order@[p] < e by {
                    if p >= start {
                        assert(order@[p] == buf@[p - start]);
                    } else {
                        assert(order@[p] == before_order[p]);
                    }
                }
                assert forall|p: int| 0 <= p < e && ks[p] is None implies #[trigger] order@[p] == p by {
                    assert(p < start);
                    assert(order@[p] == before_order[p]);
                }
                assert forall|p: int| 0 <= p < e && ks[p] is Some implies {
                    &&& ks[#[trigger] order@[p] as int] is Some
                    &&& run_start(ks, blanks@, order@[p] as int) == run_start(ks, blanks@, p)
                } by {
                    if p >= start {
                        assert(order@[p] == buf@[p - start]);
                        assert(run_start(ks, blanks@, buf@[p - start] as int) == start);
                    } else {
                        assert(order@[p] == before_order[p]);
                    }
                }
                assert forall|p: int, q: int| 0 <= p < q < e implies #[trigger] order@[p] != #[trigger] order@[q] by {
                    if p >= start {
                        assert(order@[p] == buf@[p - start] && order@[q] == buf@[q - start]);
                    } else if q >= start {
                        assert(order@[p] == before_order[p] && order@[q] == buf@[q - start]);
                    } else {
                        assert(order@[p] == before_order[p] && order@[q] == before_order[q]);
                    }
                }
                assert forall|p: int, q: int|
                    0 <= p < q < e && ks[p] is Some && ks[q] is Some && run_start(ks, blanks@, p) == run_start(ks, blanks@, q)
                        implies before(by_kind, ks, #[trigger] order@[p] as int, #[trigger] order@[q] as int) by {
                    if p >= start {
                        assert(order@[p] == buf@[p - start] && order@[q] == buf@[q - start]);
                    } else if q >= start {
                        assert(run_start(ks, blanks@, p) <= p);
                        assert(run_start(ks, blanks@, q) == start);
                    } else {
                        assert(order@[p] == before_order[p] && order@[q] == before_order[q]);
                    }
                }
                assert forall|p: int| 0 <= p < e implies run_start(ks, blanks@, p) <= p by {
                    if p >= start {
                        assert(run_start(ks, blanks@, p) == start);
                    }
                }
                if e < n && ks[e as int] is Some {
                    assert(blanks@[e as int]);
                }
            }
            i = e;
        }
    }
    let mut out: Vec<bool> = Vec::new();
    let mut j: usize = 0;
    while j < n
        invariant
            j <= n == keys@.len() == blanks@.len(),
            ks == key_texts(keys@),
            ks.len() == n,
            sorted_runs(ks, blanks@, by_kind, order@),
            out@.len() == j,
            forall|p: int| 0 <= p < j ==> #[trigger] out@[p] == if ks[p] is None || starts_run(ks, blanks@, p) {
                blanks@[p]
            } else {
                by_kind && kind_of(ks[order@[p - 1] as int]->0) != kind_of(ks[order@[p] as int]->0)
            },
        decreases n - j,
    {
        let first = keys[j].is_none() || j == 0 || keys[j - 1].is_none() || blanks[j];
        if first {
            out.push(blanks[j]);
        } else {
            let a = key_at(keys, order[j - 1]);
            let b = key_at(keys, order[j]);
            out.push(by_kind && kind(a.as_str()) != kind(b.as_str()));
        }
        j = j + 1;
    }
    (order, out)
}


/// A statement of a block, as the require sorter sees it: its require path,
/// when it binds one local to `require` of a string, and whether a blank
/// line precedes it.
pub struct RequireStatement {
    pub key: Option<String>,
    pub blank: bool,
}

/// The require path of each statement.
pub open spec fn statement_keys(block: Seq<RequireStatement>) -> Seq<Option<Seq<char>>> {
    block.map_values(|s: RequireStatement| match s.key {
        Some(t) => Some(t@),
        None => None,
    })
}

/// Whether a blank line precedes each statement.
pub open spec fn statement_blanks(block: Seq<RequireStatement>) -> Seq<bool> {
    block.map_values(|s: RequireStatement| s.blank)
}

/// The order of the statements of a block after the requires are sorted,
/// and the blank line before each: each run of requires not broken by a blank
/// line is sorted stably by group (when `sorting` groups by kind) and path,
/// every other statement stays where it is.
pub fn sorted_requires(block: &Vec<RequireStatement>, sorting: &Requires) -> (r: (Vec<usize>, Vec<bool>))
    ensures
        sorted_runs(statement_keys(block@), statement_blanks(block@), sorting.grouping == Grouping::ByKind, r.0@),
        sorted_blanks(statement_keys(block@), statement_blanks(block@), sorting.grouping == Grouping::ByKind, r.0@, r.1@),
{
    let mut keys: Vec<Option<String>> = Vec::new();
    let mut blanks: Vec<bool> = Vec::new();
    let mut i: usize = 0;
    while i < block.len()
        invariant
            i <= block@.len(),
            keys@.len() == i,
            blanks@.len() == i,
            forall|p: int| 0 <= p < i ==> #[trigger] key_texts(keys@)[p] == statement_keys(block@)[p],
            forall|p: int| 0 <= p < i ==> #[trigger] blanks@[p] == statement_blanks(block@)[p],
        decreases block@.len() - i,
    {
        let key = match &block[i].key {
            Some(t) => Some(t.clone()),
            None => None,
        };
        let ghost before = keys@;
        keys.push(key);
        blanks.push(block[i].blank);
        proof {
            assert forall|p: int| 0 <= p < i implies #[trigger] key_texts(keys@)[p] == statement_keys(block@)[p] by {
                assert(key_texts(before)[p] == statement_keys(block@)[p]);
                assert(keys@[p] == before[p]);
            }
            assert(key_texts(keys@)[i as int] == statement_keys(block@)[i as int]);
        }
        i = i + 1;
    }
    proof {
        assert(key_texts(keys@) =~= statement_keys(block@));
        assert(blanks@ =~= statement_blanks(block@));
    }
    let by_kind = match sorting.grouping {
        Grouping::ByKind => true,
        Grouping::Flat => false,
    };
    require_order(&keys, &blanks, by_kind)
}


/// The number of quote characters that `s` starts with.
pub open spec fn leading_quotes(s: Seq<char>) -> nat
    decreases s.len(),
{
    if s.len() > 0 && (s[0] == '\'' || s[0] == '"') {
        1 + leading_quotes(s.drop_first())
    } else {
        0
    }
}

/// The number of quote characters that `s` ends with.
pub open spec fn trailing_quotes(s: Seq<char>) -> nat
    decreases s.len(),
{
    if s.len() > 0 && (s.last() == '\'' || s.last() == '"') {
        1 + trailing_quotes(s.drop_last())
    } else {
        0
    }
}

/// `s` without the quote characters at either end.
pub open spec fn unquoted(s: Seq<char>) -> Seq<char> {
    let a = leading_quotes(s);
    if a >= s.len() {
        seq![]
    } else {
        s.subrange(a as int, s.len() - trailing_quotes(s))
    }
}

/// The require path that statement `id` binds: it declares one local with
/// one value, a call of the name `require` with one string argument, and
/// no held range overlaps it; the path is the literal without its quotes.
pub open spec fn require_key(tree: Tree, id: int, held: Seq<(usize, usize)>) -> Option<Seq<char>> {
    let node = tree.nodes@[id];
    if exists|k: int| 0 <= k < held.len() && #[trigger] held[k].0 < node.end && held[k].1 > node.start {
        None
    } else {
        match node.shape {
            Shape::Local { bindings, values, .. } => if bindings@.len() == 1 && values@.len() == 1 {
                match tree.nodes@[values@[0] as int].shape {
                    Shape::Call { callee, arguments } => {
                        let args = tree.nodes@[arguments as int].children@;
                        if tree.nodes@[callee as int].shape is Name && tree.nodes@[callee as int].text@ == "require"@
                            && args.len() == 1 && tree.nodes@[args[0] as int].shape is Literal {
                            Some(unquoted(tree.nodes@[args[0] as int].text@))
                        } else {
                            None
                        }
                    },
                    _ => None,
                }
            } else {
                None
            },
            _ => None,
        }
    }
}

proof fn lemma_leading_step(s: Seq<char>, k: int)
    requires
        0 <= k <= s.len(),
        forall|j: int| 0 <= j < k ==> s[j] == '\'' || s[j] == '"',
    ensures
        leading_quotes(s) == k + leading_quotes(s.subrange(k, s.len() as int)),
    decreases k,
{
    if k > 0 {
        lemma_leading_step(s.drop_first(), k - 1);
        assert(s.drop_first().subrange(k - 1, s.drop_first().len() as int) =~= s.subrange(k, s.len() as int));
    } else {
        assert(s.subrange(0, s.len() as int) =~= s);
    }
}

proof fn lemma_trailing_step(s: Seq<char>, k: int)
    requires
        0 <= k <= s.len(),
        forall|j: int| s.len() - k <= j < s.len() ==> s[j] == '\'' || s[j] == '"',
    ensures
        trailing_quotes(s) == k + trailing_quotes(s.subrange(0, s.len() - k)),
    decreases k,
{
    if k > 0 {
        lemma_trailing_step(s.drop_last(), k - 1);
        assert(s.drop_last().subrange(0, s.drop_last().len() - (k - 1)) =~= s.subrange(0, s.len() - k));
    } else {
        assert(s.subrange(0, s.len() as int) =~= s);
    }
}

fn without_quotes(s: &Vec<char>) -> (r: Vec<char>)
    ensures
        r@ == unquoted(s@),
{
    let n = s.len();
    let mut a: usize = 0;
    while a < n && (s[a] == '\'' || s[a] == '"')
        invariant
            a <= n == s@.len(),
            forall|j: int| 0 <= j < a ==> s@[j] == '\'' || s@[j] == '"',
        decreases n - a,
    {
        a = a + 1;
    }
    proof {
        lemma_leading_step(s@, a as int);
        assert(leading_quotes(s@.subrange(a as int, n as int)) == 0);
    }
    if a >= n {
        return Vec::new();
    }
    let mut b: usize = 0;
    while b < n - a && (s[n - 1 - b] == '\'' || s[n - 1 - b] == '"')
        invariant
            a < n == s@.len(),
            b <= n - a,
            forall|j: int| n - b <= j < n ==> s@[j] == '\'' || s@[j] == '"',
        decreases n - a - b,
    {
        b = b + 1;
    }
    proof {
        lemma_trailing_step(s@, b as int);
        if b < n - a {
            assert(trailing_quotes(s@.subrange(0, n - b)) == 0);
        } else {
            assert(false);
        }
    }
    crate::text::copy_range(s.as_slice(), a, n - b)
}

/// The require path that statement `id` binds, as the sorter reads it:
/// `local name = require("path")` outside the held ranges.
pub fn required_path(tree: &Tree, id: usize, held: &Vec<(usize, usize)>) -> (r: Option<String>)
    requires
        tree.wf(),
        id < tree.len(),
    ensures
        match r {
            Some(k) => require_key(*tree, id as int, held@) == Some(k@),
            None => require_key(*tree, id as int, held@) is None,
        },
{
    proof {
        lemma_forward(*tree, id as int);
    }
    let node = &tree.nodes[id];
    let start = node.start;
    let end = node.end;
    let mut k: usize = 0;
    while k < held.len()
        invariant
            k <= held@.len(),
            id < tree.len(),
            start == tree.nodes@[id as int].start,
            end == tree.nodes@[id as int].end,
            forall|j: int| 0 <= j < k ==> !(#[trigger] held@[j].0 < end && held@[j].1 > start),
        decreases held@.len() - k,
    {
        if held[k].0 < end && held[k].1 > start {
            proof {
                assert(held@[k as int].0 < tree.nodes@[id as int].end && held@[k as int].1 > tree.nodes@[id as int].start);
            }
            return None;
        }
        k = k + 1;
    }
    match &node.shape {
        Shape::Local { bindings, values, .. } => {
            if bindings.len() != 1 || values.len() != 1 {
                return None;
            }
            proof {
                assert(later(id as int, values@[0], tree.len()));
                lemma_forward(*tree, values@[0] as int);
            }
            match &tree.nodes[values[0]].shape {
                Shape::Call { callee, arguments } => {
                    proof {
                        lemma_forward(*tree, *arguments as int);
                    }
                    let args = &tree.nodes[*arguments].children;
                    let named = match tree.nodes[*callee].shape {
                        Shape::Name => true,
                        _ => false,
                    };
                    if !named || !crate::text::same(chars_of(tree.nodes[*callee].text.as_str()).as_slice(), chars_of("require").as_slice())
                        || args.len() != 1 {
                        return None;
                    }
                    proof {
                        assert(later(*arguments as int, args@[0], tree.len()));
                    }
                    match tree.nodes[args[0]].shape {
                        Shape::Literal => {
                            let t = chars_of(tree.nodes[args[0]].text.as_str());
                            Some(crate::text::string_of(without_quotes(&t).as_slice()))
                        },
                        _ => None,
                    }
                },
                _ => None,
            }
        },
        _ => None,
    }
}


/// A statement of a block as the sorter writes it back: where it stands in
/// the source, its formatted text, and its require path, if it is a require.
pub struct Written {
    pub start: usize,
    pub end: usize,
    pub text: String,
    pub key: Option<String>,
}

/// A statement with the source around it: what precedes it on its own lines,
/// its text, what follows it on its last line, its require path, and whether
/// a blank line precedes it.
pub struct Piece {
    pub leading: Seq<char>,
    pub text: Seq<char>,
    pub trailing: Seq<char>,
    pub key: Option<Seq<char>>,
    pub blank: bool,
}

/// The pieces read so far, the lines kept ahead of the first statement, and
/// where reading goes on.
pub struct Gathered {
    pub pieces: Seq<Piece>,
    pub prefix: Seq<char>,
    pub cursor: int,
}

pub open spec fn is_break(c: char) -> bool {
    c == '\n' || c == '\r'
}

/// `s` without the line breaks it starts with.
pub open spec fn strip_breaks(s: Seq<char>) -> Seq<char>
    decreases s.len(),
{
    if s.len() > 0 && is_break(s[0]) {
        strip_breaks(s.drop_first())
    } else {
        s
    }
}

/// The lines before the first statement that stay ahead of the block: a
/// `--!` directive line, and, in a block that is not the file's start, one
/// nonblank line right at the block's start. Gives the kept lines and what
/// is left.
pub open spec fn absorb(prefix: Seq<char>, leading: Seq<char>, at_start: bool) -> (Seq<char>, Seq<char>)
    decreases leading.len(),
{
    match char_from(leading, 0, '\n') {
        None => (prefix, leading),
        Some(p) => {
            proof {
                lemma_char_from(leading, 0, '\n');
            }
            let line = leading.take(p);
            let rest = leading.skip(p + 1);
            if starts_with(trim_start(line), "--!"@) || (trim(line).len() > 0 && char_from(prefix, 0, '\n') is None
                && !at_start && leading[0] != '\n') {
                absorb(prefix + line.push('\n'), rest, at_start)
            } else {
                (prefix, leading)
            }
        },
    }
}

/// A statement read: the gap before it goes to the previous statement's
/// last line and to this statement's leading lines (or, for the first
/// statement, partly to the kept lines).
pub open spec fn gather_step(source: Seq<char>, g: Gathered, w: Written, at_start: bool) -> Gathered {
    let gap = source.subrange(g.cursor, w.start as int);
    let (pieces, leading, prefix) = if g.pieces.len() > 0 {
        let last = g.pieces.last();
        match char_from(gap, 0, '\n') {
            Some(p) => (
                g.pieces.update(g.pieces.len() - 1, Piece { trailing: last.trailing + gap.take(p), ..last }),
                gap.skip(p + 1),
                g.prefix,
            ),
            None => (g.pieces.update(g.pieces.len() - 1, Piece { trailing: last.trailing + gap, ..last }), seq![], g.prefix),
        }
    } else {
        let (kept, rest) = absorb(g.prefix, gap, at_start);
        (g.pieces, rest, kept)
    };
    let key = match w.key {
        Some(k) => Some(k@),
        None => None,
    };
    Gathered {
        pieces: pieces.push(
            Piece {
                leading: strip_breaks(leading),
                text: w.text@,
                trailing: seq![],
                key,
                blank: leading.len() > 0 && is_break(leading[0]),
            },
        ),
        prefix,
        cursor: w.end as int,
    }
}

/// What reading the first `k` statements gives.
pub open spec fn gathered(source: Seq<char>, children: Seq<Written>, start: int, k: int) -> Gathered
    decreases k,
{
    if k <= 0 {
        Gathered { pieces: seq![], prefix: seq![], cursor: start }
    } else {
        gather_step(source, gathered(source, children, start, k - 1), children[k - 1], start == 0)
    }
}

/// The statements lie in order within `start..end` of the source.
pub open spec fn in_order(source: Seq<char>, children: Seq<Written>, start: int, end: int) -> bool {
    &&& 0 <= start <= end <= source.len()
    &&& forall|i: int| 0 <= i < children.len() ==> #[trigger] children[i].start <= children[i].end
    &&& children.len() > 0 ==> start <= children[0].start && children.last().end <= end
    &&& forall|i: int| 0 < i < children.len() ==> children[i - 1].end <= #[trigger] children[i].start
}

/// The pieces once the rest of the last statement's line joins it, and the
/// text after that line.
pub open spec fn finished(source: Seq<char>, children: Seq<Written>, start: int, end: int) -> (Seq<Piece>, Seq<char>) {
    let g = gathered(source, children, start, children.len() as int);
    let tail = source.subrange(g.cursor, end);
    let (trailing, after) = match char_from(tail, 0, '\n') {
        Some(p) => (tail.take(p), tail.skip(p + 1)),
        None => (tail, seq![]),
    };
    let last = g.pieces.last();
    (g.pieces.update(g.pieces.len() - 1, Piece { trailing: last.trailing + trailing, ..last }), after)
}

pub open spec fn piece_keys(pieces: Seq<Piece>) -> Seq<Option<Seq<char>>> {
    pieces.map_values(|p: Piece| p.key)
}

pub open spec fn piece_blanks(pieces: Seq<Piece>) -> Seq<bool> {
    pieces.map_values(|p: Piece| p.blank)
}

/// The first `k` statements written in `order`, each after a blank line
/// where `blanks` asks for one, then its leading lines, text, the rest of
/// its line and a line break.
pub open spec fn laid(pieces: Seq<Piece>, order: Seq<usize>, blanks: Seq<bool>, k: int) -> Seq<char>
    decreases k,
{
    if k <= 0 {
        seq![]
    } else {
        let p = pieces[order[k - 1] as int];
        laid(pieces, order, blanks, k - 1) + (if blanks[k - 1] { seq!['\n'] } else { seq![] }) + p.leading + p.text
            + p.trailing + seq!['\n']
    }
}

/// The block written back with its requires sorted by `order`, and the blank
/// lines `blanks`.
pub open spec fn reassembled(
    source: Seq<char>,
    children: Seq<Written>,
    start: int,
    end: int,
    order: Seq<usize>,
    blanks: Seq<bool>,
) -> Seq<char> {
    let (pieces, after) = finished(source, children, start, end);
    gathered(source, children, start, children.len() as int).prefix + laid(pieces, order, blanks, pieces.len() as int)
        + after
}

/// `out` is the block written back with its requires sorted by `order` and
/// the blank lines `blanks`, and those sort each run of requires.
pub open spec fn sorted_as(
    source: Seq<char>,
    children: Seq<Written>,
    start: int,
    end: int,
    grouping: Grouping,
    order: Seq<usize>,
    blanks: Seq<bool>,
    out: Seq<char>,
) -> bool {
    let by_kind = grouping == Grouping::ByKind;
    let pieces = finished(source, children, start, end).0;
    &&& sorted_runs(piece_keys(pieces), piece_blanks(pieces), by_kind, order)
    &&& sorted_blanks(piece_keys(pieces), piece_blanks(pieces), by_kind, order, blanks)
    &&& out == reassembled(source, children, start, end, order, blanks)
}

struct Part {
    leading: Vec<char>,
    text: Vec<char>,
    trailing: Vec<char>,
    key: Option<String>,
    blank: bool,
}

spec fn part_view(p: Part) -> Piece {
    Piece {
        leading: p.leading@,
        text: p.text@,
        trailing: p.trailing@,
        key: match p.key {
            Some(k) => Some(k@),
            None => None,
        },
        blank: p.blank,
    }
}

spec fn parts_view(ps: Seq<Part>) -> Seq<Piece> {
    ps.map_values(|p: Part| part_view(p))
}

fn absorb_lines(prefix: &mut Vec<char>, input: Vec<char>, at_start: bool) -> (rest: Vec<char>)
    ensures
        (final(prefix)@, rest@) == absorb(old(prefix)@, input@, at_start),
{
    let mut leading = input;
    loop
        invariant
            absorb(prefix@, leading@, at_start) == absorb(old(prefix)@, input@, at_start),
        decreases leading@.len(),
    {
        proof {
            lemma_char_from(leading@, 0, '\n');
        }
        match find_char(leading.as_slice(), 0, '\n') {
            None => {
                return leading;
            },
            Some(p) => {
                let n = leading.len();
                assert(p < n);
                let line = copy_range(leading.as_slice(), 0, p);
                let rest = copy_range(leading.as_slice(), p + 1, n);
                proof {
                    assert(line@ =~= leading@.take(p as int));
                    assert(rest@ =~= leading@.skip(p + 1));
                }
                let directive = matches_at(trimmed_start(line.as_slice()).as_slice(), chars_of("--!").as_slice(), 0);
                let lone = trimmed(line.as_slice()).len() > 0 && find_char(prefix.as_slice(), 0, '\n').is_none() && !at_start
                    && leading[0] != '\n';
                if directive || lone {
                    push_all(prefix, line.as_slice());
                    prefix.push('\n');
                    leading = rest;
                } else {
                    return leading;
                }
            },
        }
    }
}

fn stripped(s: &Vec<char>) -> (r: Vec<char>)
    ensures
        r@ == strip_breaks(s@),
{
    let mut i: usize = 0;
    proof {
        assert(s@.skip(0) =~= s@);
    }
    while i < s.len() && (s[i] == '\n' || s[i] == '\r')
        invariant
            i <= s@.len(),
            strip_breaks(s@) == strip_breaks(s@.skip(i as int)),
        decreases s@.len() - i,
    {
        proof {
            assert(s@.skip(i as int).drop_first() =~= s@.skip(i + 1));
        }
        i = i + 1;
    }
    proof {
        assert(s@.subrange(i as int, s@.len() as int) =~= s@.skip(i as int));
    }
    copy_range(s.as_slice(), i, s.len())
}


fn gather(src: &Vec<char>, children: &Vec<Written>, start: usize, end: usize) -> (r: (Vec<Part>, Vec<char>, usize))
    requires
        in_order(src@, children@, start as int, end as int),
    ensures
        gathered(src@, children@, start as int, children@.len() as int) == (Gathered {
            pieces: parts_view(r.0@),
            prefix: r.1@,
            cursor: r.2 as int,
        }),
        r.0@.len() == children@.len(),
        r.2 <= end,
        children@.len() == 0 ==> r.2 == start,
{
    let mut parts: Vec<Part> = Vec::new();
    let mut prefix: Vec<char> = Vec::new();
    let mut cursor = start;
    let mut k: usize = 0;
    proof {
        assert(parts_view(parts@) =~= Seq::<Piece>::empty());
    }
    while k < children.len()
        invariant
            in_order(src@, children@, start as int, end as int),
            k <= children@.len(),
            parts@.len() == k,
            gathered(src@, children@, start as int, k as int) == (Gathered {
                pieces: parts_view(parts@),
                prefix: prefix@,
                cursor: cursor as int,
            }),
            k == 0 ==> cursor == start,
            k > 0 ==> cursor == children@[k - 1].end,
            cursor <= end,
        decreases children@.len() - k,
    {
        let w = &children[k];
        proof {
            if k > 0 {
                assert(children@[k - 1].end <= children@[k as int].start);
            }
            assert(children@[k as int].start <= children@[k as int].end);
            assert(children@[k as int].end <= children@.last().end) by {
                if k + 1 < children@.len() {
                    assert forall|j: int| k <= j < children@.len() implies children@[k as int].end <= #[trigger] children@[j].end by {
                        lemma_ends_grow(src@, children@, start as int, end as int, k as int, j);
                    }
                }
            }
        }
        let gap = copy_range(src.as_slice(), cursor, w.start);
        let ghost g = gathered(src@, children@, start as int, k as int);
        let leading: Vec<char>;
        if parts.len() > 0 {
            let ghost before = parts@;
            let mut last = parts.pop().unwrap();
            proof {
                assert(before =~= parts@.push(last));
                lemma_char_from(gap@, 0, '\n');
            }
            match find_char(gap.as_slice(), 0, '\n') {
                Some(p) => {
                    let n = gap.len();
                    assert(p < n);
                    push_all(&mut last.trailing, copy_range(gap.as_slice(), 0, p).as_slice());
                    leading = copy_range(gap.as_slice(), p + 1, n);
                    proof {
                        assert(gap@.subrange(0, p as int) =~= gap@.take(p as int));
                        assert(leading@ =~= gap@.skip(p + 1));
                    }
                },
                None => {
                    push_all(&mut last.trailing, gap.as_slice());
                    leading = Vec::new();
                },
            }
            let ghost pre = parts@;
            parts.push(last);
            proof {
                assert(parts_view(parts@) =~= parts_view(before).update(before.len() - 1, part_view(last)));
                assert(part_view(before.last()) == g.pieces.last());
            }
        } else {
            leading = absorb_lines(&mut prefix, gap, start == 0);
        }
        let blank = leading.len() > 0 && (leading[0] == '\n' || leading[0] == '\r');
        let key = match &w.key {
            Some(t) => Some(t.clone()),
            None => None,
        };
        let ghost mid = parts@;
        let part = Part { leading: stripped(&leading), text: chars_of(w.text.as_str()), trailing: Vec::new(), key, blank };
        parts.push(part);
        proof {
            assert(parts_view(parts@) =~= parts_view(mid).push(part_view(part)));
            assert(part_view(part).trailing =~= Seq::<char>::empty());
        }
        cursor = w.end;
        k = k + 1;
    }
    (parts, prefix, cursor)
}

proof fn lemma_ends_grow(source: Seq<char>, children: Seq<Written>, start: int, end: int, i: int, j: int)
    requires
        in_order(source, children, start, end),
        0 <= i <= j < children.len(),
    ensures
        children[i].end <= children[j].end,
    decreases j - i,
{
    if i < j {
        lemma_ends_grow(source, children, start, end, i, j - 1);
        assert(children[j - 1].end <= children[j].start);
        assert(children[j].start <= children[j].end);
    }
}

/// A block of statements written back with its requires sorted: `children`
/// are its statements, in order within `start..end` of `source`; each run of
/// requires not broken by a blank line is sorted stably by group (when
/// `sorting` groups by kind) and path, each statement keeping the source
/// lines before it and the rest of its last line; directive lines ahead of
/// the first statement stay ahead of the block.
pub fn rewrite_requires(source: &Vec<char>, start: usize, end: usize, children: &Vec<Written>, sorting: &Requires) -> (r: Vec<char>)
    requires
        in_order(source@, children@, start as int, end as int),
    ensures
        children@.len() == 0 ==> r@ == source@.subrange(start as int, end as int),
        children@.len() > 0 ==> exists|order: Seq<usize>, blanks: Seq<bool>|
            #[trigger] sorted_as(source@, children@, start as int, end as int, sorting.grouping, order, blanks, r@),
{
    if children.len() == 0 {
        return copy_range(source.as_slice(), start, end);
    }
    let (mut parts, prefix, cursor) = gather(source, children, start, end);
    let ghost g = gathered(source@, children@, start as int, children@.len() as int);
    let tail = copy_range(source.as_slice(), cursor, end);
    let after: Vec<char>;
    let ghost before = parts@;
    let mut last = parts.pop().unwrap();
    proof {
        assert(before =~= parts@.push(last));
        lemma_char_from(tail@, 0, '\n');
    }
    match find_char(tail.as_slice(), 0, '\n') {
        Some(p) => {
            let n = tail.len();
            assert(p < n);
            push_all(&mut last.trailing, copy_range(tail.as_slice(), 0, p).as_slice());
            after = copy_range(tail.as_slice(), p + 1, n);
            proof {
                assert(tail@.subrange(0, p as int) =~= tail@.take(p as int));
                assert(after@ =~= tail@.skip(p + 1));
            }
        },
        None => {
            push_all(&mut last.trailing, tail.as_slice());
            after = Vec::new();
        },
    }
    parts.push(last);
    let ghost pieces = parts_view(parts@);
    proof {
        assert(pieces =~= parts_view(before).update(before.len() - 1, part_view(last)));
        assert(part_view(before.last()) == g.pieces.last());
        assert(pieces == finished(source@, children@, start as int, end as int).0);
        assert(after@ == finished(source@, children@, start as int, end as int).1);
    }
    let mut keys: Vec<Option<String>> = Vec::new();
    let mut blanks: Vec<bool> = Vec::new();
    let mut i: usize = 0;
    while i < parts.len()
        invariant
            i <= parts@.len(),
            pieces == parts_view(parts@),
            keys@.len() == i,
            blanks@.len() == i,
            forall|j: int| 0 <= j < i ==> #[trigger] key_texts(keys@)[j] == piece_keys(pieces)[j],
            forall|j: int| 0 <= j < i ==> #[trigger] blanks@[j] == piece_blanks(pieces)[j],
        decreases parts@.len() - i,
    {
        let key = match &parts[i].key {
            Some(t) => Some(t.clone()),
            None => None,
        };
        let ghost prior = keys@;
        keys.push(key);
        blanks.push(parts[i].blank);
        proof {
            assert forall|j: int| 0 <= j < i + 1 implies #[trigger] key_texts(keys@)[j] == piece_keys(pieces)[j] by {
                if j < i {
                    assert(keys@[j] == prior[j]);
                    assert(key_texts(prior)[j] == piece_keys(pieces)[j]);
                }
            }
        }
        i = i + 1;
    }
    proof {
        assert(key_texts(keys@) =~= piece_keys(pieces));
        assert(blanks@ =~= piece_blanks(pieces));
    }
    let by_kind = match sorting.grouping {
        Grouping::ByKind => true,
        Grouping::Flat => false,
    };
    let (order, out_blanks) = require_order(&keys, &blanks, by_kind);
    let mut out: Vec<char> = Vec::new();
    push_all(&mut out, prefix.as_slice());
    let mut k: usize = 0;
    while k < order.len()
        invariant
            k <= order@.len() == parts@.len() == out_blanks@.len(),
            pieces == parts_view(parts@),
            forall|j: int| 0 <= j < order@.len() ==> #[trigger] order@[j] < parts@.len(),
            out@ == prefix@ + laid(pieces, order@, out_blanks@, k as int),
        decreases order@.len() - k,
    {
        let ghost prior = out@;
        if out_blanks[k] {
            out.push('\n');
        }
        let p = &parts[order[k]];
        push_all(&mut out, p.leading.as_slice());
        push_all(&mut out, p.text.as_slice());
        push_all(&mut out, p.trailing.as_slice());
        out.push('\n');
        proof {
            assert(pieces[order@[k as int] as int] == part_view(parts@[order@[k as int] as int]));
            assert(out@ =~= prefix@ + laid(pieces, order@, out_blanks@, k + 1));
        }
        k = k + 1;
    }
    push_all(&mut out, after.as_slice());
    proof {
        assert(out@ == reassembled(source@, children@, start as int, end as int, order@, out_blanks@));
        assert(sorted_as(source@, children@, start as int, end as int, sorting.grouping, order@, out_blanks@, out@));
    }
    out
}

} // verus!
