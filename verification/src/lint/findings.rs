//! Lint findings, their replacement edits, ordering and fix collection.

use vstd::prelude::*;
use crate::lint::configuration::Level;
use vstd::string::StringSliceAdditionalSpecFns;
use vstd::utf8::{
    encode_scalar, encode_utf8, has_width_1_encoding, has_width_2_encoding, has_width_3_encoding,
};
use crate::text::{chars_of, same};

verus! {

/// Replacement of a half-open byte range in the original source.
#[derive(Debug)]
pub struct Edit {
    /// First byte replaced by this edit.
    pub start: usize,
    /// First byte after the replaced range.
    pub end: usize,
    /// Replacement source text.
    pub text: String,
}

/// A lint finding with its configured severity and optional fixes.
#[derive(Debug)]
pub struct Finding {
    /// Built-in rule name or graft-qualified rule name.
    pub rule: String,
    /// Severity after configuration and suppression processing.
    pub level: Level,
    /// Explanation of the finding.
    pub message: String,
    /// Starting source byte offset.
    pub start: usize,
    /// Exclusive ending source byte offset.
    pub end: usize,
    /// Safe replacement edits offered for this finding.
    pub edits: Vec<Edit>,
}

/// An edit's range and replacement text.
pub struct EditView {
    pub start: usize,
    pub end: usize,
    pub text: Seq<char>,
}

impl View for Edit {
    type V = EditView;

    open spec fn view(&self) -> EditView {
        EditView { start: self.start, end: self.end, text: self.text@ }
    }
}

/// The fields by which findings and edits are ordered: a range, then up to two texts.
pub struct Key {
    pub start: int,
    pub end: int,
    pub first: Seq<char>,
    pub second: Seq<char>,
}

/// Lexicographic order of texts by code point, which is the byte order of their UTF-8.
pub open spec fn text_lt(a: Seq<char>, b: Seq<char>) -> bool
    decreases a.len(),
{
    if a.len() == 0 {
        b.len() > 0
    } else if b.len() == 0 {
        false
    } else if a[0] != b[0] {
        (a[0] as u32) < (b[0] as u32)
    } else {
        text_lt(a.drop_first(), b.drop_first())
    }
}

pub open spec fn key_lt(a: Key, b: Key) -> bool {
    a.start < b.start || (a.start == b.start && (a.end < b.end || (a.end == b.end && (text_lt(
        a.first,
        b.first,
    ) || (a.first == b.first && text_lt(a.second, b.second))))))
}

pub open spec fn edit_key(e: EditView) -> Key {
    Key { start: e.start as int, end: e.end as int, first: e.text, second: seq![] }
}

pub open spec fn finding_key(f: Finding) -> Key {
    Key { start: f.start as int, end: f.end as int, first: f.rule@, second: f.message@ }
}

/// Every key is below every later key.
pub open spec fn ascending(keys: Seq<Key>) -> bool {
    forall|i: int, j: int| 0 <= i < j < keys.len() ==> key_lt(#[trigger] keys[i], #[trigger] keys[j])
}

pub proof fn lemma_text_irreflexive(a: Seq<char>)
    ensures
        !text_lt(a, a),
    decreases a.len(),
{
    if a.len() > 0 {
        lemma_text_irreflexive(a.drop_first());
    }
}

pub proof fn lemma_text_transitive(a: Seq<char>, b: Seq<char>, c: Seq<char>)
    requires
        text_lt(a, b),
        text_lt(b, c),
    ensures
        text_lt(a, c),
    decreases a.len(),
{
    if a.len() > 0 && b.len() > 0 && c.len() > 0 && a[0] == b[0] && b[0] == c[0] {
        lemma_text_transitive(a.drop_first(), b.drop_first(), c.drop_first());
    }
}

pub proof fn lemma_text_total(a: Seq<char>, b: Seq<char>)
    ensures
        a == b || text_lt(a, b) || text_lt(b, a),
    decreases a.len(),
{
    if a.len() > 0 && b.len() > 0 {
        vstd::utf8::char_u32_cast(a[0], a[0] as u32);
        vstd::utf8::char_u32_cast(b[0], b[0] as u32);
        if a[0] == b[0] {
            lemma_text_total(a.drop_first(), b.drop_first());
            if a.drop_first() == b.drop_first() {
                assert(a =~= seq![a[0]] + a.drop_first());
                assert(b =~= seq![b[0]] + b.drop_first());
            }
        }
    } else if a.len() == 0 && b.len() == 0 {
        assert(a =~= b);
    }
}

pub proof fn lemma_key_order(a: Key, b: Key, c: Key)
    ensures
        !key_lt(a, a),
        key_lt(a, b) && key_lt(b, c) ==> key_lt(a, c),
        a == b || key_lt(a, b) || key_lt(b, a),
{
    lemma_text_irreflexive(a.first);
    lemma_text_irreflexive(a.second);
    lemma_text_total(a.first, b.first);
    lemma_text_total(a.second, b.second);
    if key_lt(a, b) && key_lt(b, c) {
        if text_lt(a.first, b.first) && text_lt(b.first, c.first) {
            lemma_text_transitive(a.first, b.first, c.first);
        }
        if text_lt(a.second, b.second) && text_lt(b.second, c.second) {
            lemma_text_transitive(a.second, b.second, c.second);
        }
    }
}

/// Two ascending sequences of the same keys are the same sequence.
pub proof fn lemma_ascending_unique(a: Seq<Key>, b: Seq<Key>)
    requires
        ascending(a),
        ascending(b),
        forall|i: int| 0 <= i < a.len() ==> b.contains(#[trigger] a[i]),
        forall|i: int| 0 <= i < b.len() ==> a.contains(#[trigger] b[i]),
    ensures
        a == b,
    decreases a.len(),
{
    if a.len() == 0 {
        if b.len() > 0 {
            assert(a.contains(b[0]));
        }
        assert(a =~= b);
    } else if b.len() == 0 {
        assert(b.contains(a[0]));
    } else {
        assert(b.contains(a[0]));
        assert(a.contains(b[0]));
        let i = choose|i: int| 0 <= i < b.len() && b[i] == a[0];
        let j = choose|j: int| 0 <= j < a.len() && a[j] == b[0];
        if a[0] != b[0] {
            lemma_key_order(a[0], b[0], a[0]);
            assert(i > 0 && j > 0);
            assert(key_lt(b[0], b[i]));
            assert(key_lt(a[0], a[j]));
            lemma_key_order(a[0], b[0], a[0]);
        }
        let a1 = a.drop_first();
        let b1 = b.drop_first();
        assert forall|k: int| 0 <= k < a1.len() implies b1.contains(#[trigger] a1[k]) by {
            assert(b.contains(a[k + 1]));
            let m = choose|m: int| 0 <= m < b.len() && b[m] == a[k + 1];
            assert(key_lt(a[0], a[k + 1]));
            if m == 0 {
                lemma_key_order(a[0], a[0], a[0]);
            }
            assert(b1[m - 1] == a1[k]);
        }
        assert forall|k: int| 0 <= k < b1.len() implies a1.contains(#[trigger] b1[k]) by {
            assert(a.contains(b[k + 1]));
            let m = choose|m: int| 0 <= m < a.len() && a[m] == b[k + 1];
            assert(key_lt(b[0], b[k + 1]));
            if m == 0 {
                lemma_key_order(b[0], b[0], b[0]);
            }
            assert(a1[m - 1] == b1[k]);
        }
        lemma_ascending_unique(a1, b1);
        assert(a =~= seq![a[0]] + a1);
        assert(b =~= seq![b[0]] + b1);
    }
}

struct SortKey {
    start: usize,
    end: usize,
    first: Vec<char>,
    second: Vec<char>,
}

impl SortKey {
    spec fn key(&self) -> Key {
        Key { start: self.start as int, end: self.end as int, first: self.first@, second: self.second@ }
    }
}

spec fn key_seq(keys: Seq<SortKey>) -> Seq<Key> {
    keys.map_values(|k: SortKey| k.key())
}

pub(crate) fn text_before(a: &[char], b: &[char]) -> (r: bool)
    ensures
        r == text_lt(a@, b@),
{
    let mut i: usize = 0;
    assert(a@.skip(0) =~= a@ && b@.skip(0) =~= b@);
    while i < a.len() && i < b.len() && a[i] == b[i]
        invariant
            i <= a@.len(),
            i <= b@.len(),
            text_lt(a@, b@) == text_lt(a@.skip(i as int), b@.skip(i as int)),
        decreases a@.len() - i,
    {
        assert(a@.skip(i as int).drop_first() =~= a@.skip(i + 1));
        assert(b@.skip(i as int).drop_first() =~= b@.skip(i + 1));
        i = i + 1;
    }
    if i == a.len() {
        i < b.len()
    } else if i == b.len() {
        false
    } else {
        (a[i] as u32) < (b[i] as u32)
    }
}

fn key_before(a: &SortKey, b: &SortKey) -> (r: bool)
    ensures
        r == key_lt(a.key(), b.key()),
{
    a.start < b.start || (a.start == b.start && (a.end < b.end || (a.end == b.end && (text_before(
        &a.first,
        &b.first,
    ) || (same(&a.first, &b.first) && text_before(&a.second, &b.second))))))
}

fn key_same(a: &SortKey, b: &SortKey) -> (r: bool)
    ensures
        r == (a.key() == b.key()),
{
    let r = a.start == b.start && a.end == b.end && same(&a.first, &b.first) && same(
        &a.second,
        &b.second,
    );
    proof {
        if a.key() == b.key() {
            assert(a.first@ == b.first@ && a.second@ == b.second@);
        }
    }
    r
}

/// Where `k` belongs among ascending keys, and whether it is already there.
fn locate(keys: &Vec<SortKey>, k: &SortKey) -> (r: (usize, bool))
    requires
        ascending(key_seq(keys@)),
    ensures
        r.0 <= keys@.len(),
        r.1 ==> r.0 < keys@.len() && keys@[r.0 as int].key() == k.key(),
        !r.1 ==> forall|i: int| 0 <= i < keys@.len() ==> (#[trigger] keys@[i].key() != k.key()),
        forall|i: int| 0 <= i < r.0 ==> key_lt(#[trigger] keys@[i].key(), k.key()),
        !r.1 ==> forall|i: int| r.0 <= i < keys@.len() ==> key_lt(k.key(), #[trigger] keys@[i].key()),
{
    let mut i: usize = 0;
    while i < keys.len() && key_before(&keys[i], k)
        invariant
            i <= keys@.len(),
            forall|m: int| 0 <= m < i ==> key_lt(#[trigger] keys@[m].key(), k.key()),
        decreases keys@.len() - i,
    {
        i = i + 1;
    }
    let found = i < keys.len() && key_same(&keys[i], k);
    proof {
        assert forall|m: int| 0 <= m < i implies (#[trigger] keys@[m].key() != k.key()) by {
            lemma_key_order(k.key(), k.key(), k.key());
        }
        if !found && i < keys@.len() {
            lemma_key_order(keys@[i as int].key(), k.key(), k.key());
            assert forall|m: int| i <= m < keys@.len() implies key_lt(k.key(), #[trigger] keys@[m].key()) by {
                if m > i {
                    assert(key_lt(key_seq(keys@)[i as int], key_seq(keys@)[m]));
                    lemma_key_order(k.key(), keys@[i as int].key(), keys@[m].key());
                }
            }
            assert forall|m: int| 0 <= m < keys@.len() implies (#[trigger] keys@[m].key() != k.key()) by {
                if m >= i {
                    lemma_key_order(k.key(), k.key(), k.key());
                }
            }
        }
    }
    (i, found)
}

pub proof fn lemma_insert_ascending(keys: Seq<Key>, pos: int, k: Key)
    requires
        ascending(keys),
        0 <= pos <= keys.len(),
        forall|i: int| 0 <= i < pos ==> key_lt(#[trigger] keys[i], k),
        forall|i: int| pos <= i < keys.len() ==> key_lt(k, #[trigger] keys[i]),
    ensures
        ascending(keys.insert(pos, k)),
{
    let n = keys.insert(pos, k);
    assert forall|i: int, j: int| 0 <= i < j < n.len() implies key_lt(#[trigger] n[i], #[trigger] n[j]) by {
        if i < pos && j < pos {
            assert(n[i] == keys[i] && n[j] == keys[j]);
        } else if i < pos && j == pos {
        } else if i < pos && j > pos {
            assert(n[i] == keys[i] && n[j] == keys[j - 1]);
        } else if i == pos {
            assert(n[j] == keys[j - 1]);
        } else {
            assert(n[i] == keys[i - 1] && n[j] == keys[j - 1]);
        }
    }
}

fn sort_key(start: usize, end: usize, first: &String, second: &String) -> (k: SortKey)
    ensures
        k.key() == (Key { start: start as int, end: end as int, first: first@, second: second@ }),
{
    SortKey {
        start: start,
        end: end,
        first: chars_of(first.as_str()),
        second: chars_of(second.as_str()),
    }
}

/// The first finding of `s` with key `k`.
pub open spec fn first_keyed(s: Seq<Finding>, k: Key) -> Option<Finding>
    decreases s.len(),
{
    if s.len() == 0 {
        None
    } else if finding_key(s[0]) == k {
        Some(s[0])
    } else {
        first_keyed(s.drop_first(), k)
    }
}

pub proof fn lemma_first_keyed_push(s: Seq<Finding>, x: Finding, k: Key)
    ensures
        first_keyed(s.push(x), k) == match first_keyed(s, k) {
            Some(f) => Some(f),
            None => if finding_key(x) == k {
                Some(x)
            } else {
                None
            },
        },
    decreases s.len(),
{
    if s.len() > 0 {
        assert(s.push(x).drop_first() =~= s.drop_first().push(x));
        assert(s.push(x)[0] == s[0]);
        lemma_first_keyed_push(s.drop_first(), x, k);
        if finding_key(s[0]) == k {
            assert(first_keyed(s.push(x), k) == Some(s[0]));
            assert(first_keyed(s, k) == Some(s[0]));
        } else {
            assert(first_keyed(s.push(x), k) == first_keyed(s.drop_first().push(x), k));
            assert(first_keyed(s, k) == first_keyed(s.drop_first(), k));
        }
    } else {
        assert(s.push(x).drop_first() =~= Seq::<Finding>::empty());
        assert(s.push(x)[0] == x);
        assert(first_keyed(Seq::<Finding>::empty(), k) is None);
    }
}

pub proof fn lemma_first_keyed_none(s: Seq<Finding>, k: Key)
    requires
        forall|j: int| 0 <= j < s.len() ==> finding_key(#[trigger] s[j]) != k,
    ensures
        first_keyed(s, k) is None,
    decreases s.len(),
{
    if s.len() > 0 {
        assert forall|j: int| 0 <= j < s.drop_first().len() implies finding_key(#[trigger] s.drop_first()[j]) != k by {
            assert(s.drop_first()[j] == s[j + 1]);
        }
        lemma_first_keyed_none(s.drop_first(), k);
    }
}

pub open spec fn finding_keys(s: Seq<Finding>) -> Seq<Key> {
    s.map_values(|f: Finding| finding_key(f))
}

/// Orders findings by range, rule and message, keeping only the first finding
/// of each range, rule and message.
pub fn normalize(findings: &mut Vec<Finding>)
    ensures
        ascending(finding_keys(final(findings)@)),
        forall|i: int|
            0 <= i < final(findings)@.len() ==> first_keyed(
                old(findings)@,
                finding_key(#[trigger] final(findings)@[i]),
            ) == Some(final(findings)@[i]),
        forall|j: int|
            0 <= j < old(findings)@.len() ==> exists|i: int|
                0 <= i < final(findings)@.len() && finding_key(#[trigger] final(findings)@[i])
                    == finding_key(#[trigger] old(findings)@[j]),
{
    let ghost original = findings@;
    let mut items: Vec<Finding> = Vec::new();
    std::mem::swap(findings, &mut items);
    let mut keys: Vec<SortKey> = Vec::new();
    assert(original.skip(0) =~= original);
    while items.len() > 0
        invariant
            items@.len() <= original.len(),
            items@ == original.skip(original.len() - items@.len()),
            findings@.len() == keys@.len(),
            forall|i: int| 0 <= i < keys@.len() ==> #[trigger] keys@[i].key() == finding_key(findings@[i]),
            ascending(key_seq(keys@)),
            forall|i: int|
                0 <= i < findings@.len() ==> first_keyed(
                    original.take(original.len() - items@.len()),
                    finding_key(#[trigger] findings@[i]),
                ) == Some(findings@[i]),
            forall|j: int|
                0 <= j < original.len() - items@.len() ==> exists|i: int|
                    0 <= i < findings@.len() && finding_key(#[trigger] findings@[i])
                        == finding_key(#[trigger] original[j]),
        decreases items@.len(),
    {
        let ghost done = original.len() - items@.len();
        let ghost before = findings@;
        let ghost before_keys = key_seq(keys@);
        let f = items.remove(0);
        assert(f == original[done]);
        assert(original.take(done + 1) =~= original.take(done).push(f));
        assert(items@ =~= original.skip(done + 1));
        let k = sort_key(f.start, f.end, &f.rule, &f.message);
        assert(k.key() == finding_key(f));
        let (pos, found) = locate(&keys, &k);
        proof {
            assert forall|i: int| 0 <= i < before.len() implies first_keyed(
                original.take(done + 1),
                finding_key(#[trigger] before[i]),
            ) == Some(before[i]) by {
                lemma_first_keyed_push(original.take(done), f, finding_key(before[i]));
            }
        }
        if !found {
            proof {
                assert forall|j: int| 0 <= j < original.take(done).len() implies finding_key(
                    #[trigger] original.take(done)[j],
                ) != k.key() by {
                    let i = choose|i: int| 0 <= i < before.len() && finding_key(#[trigger] before[i]) == finding_key(#[trigger] original[j]);
                    assert(keys@[i].key() == finding_key(before[i]));
                }
                lemma_first_keyed_none(original.take(done), k.key());
                lemma_first_keyed_push(original.take(done), f, k.key());
                lemma_insert_ascending(before_keys, pos as int, k.key());
            }
            let ghost kk = k.key();
            keys.insert(pos, k);
            findings.insert(pos, f);
            proof {
                assert(key_seq(keys@) =~= before_keys.insert(pos as int, kk));
            }
        }
        proof {
            assert forall|j: int| 0 <= j < done + 1 implies exists|i: int|
                0 <= i < findings@.len() && finding_key(#[trigger] findings@[i])
                    == finding_key(#[trigger] original[j]) by {
                if j == done {
                    assert(finding_key(findings@[pos as int]) == finding_key(original[j]));
                } else {
                    let i = choose|i: int| 0 <= i < before.len() && finding_key(#[trigger] before[i]) == finding_key(#[trigger] original[j]);
                    if !found && i >= pos {
                        assert(findings@[i + 1] == before[i]);
                    } else {
                        assert(findings@[i] == before[i]);
                    }
                }
            }
        }
    }
    assert(original.take(original.len() as int) =~= original);
    assert(finding_keys(findings@) =~= key_seq(keys@));
}

/// Why a set of fixes cannot be applied together.
#[derive(Debug, Clone, Copy, PartialEq, Eq, Structural)]
pub enum FixError {
    /// Two fixes replace overlapping ranges or start at the same byte.
    Overlap,
    /// An edit's range is reversed, overlaps a later edit, or does not lie
    /// on character boundaries of the source.
    Invalid,
    /// The fixed source no longer parses.
    Syntax,
}

pub open spec fn edit_views(es: Seq<Edit>) -> Seq<EditView> {
    es.map_values(|e: Edit| e@)
}

/// The edits of all findings, in finding order.
pub open spec fn all_edits(fs: Seq<Finding>) -> Seq<EditView>
    decreases fs.len(),
{
    if fs.len() == 0 {
        seq![]
    } else {
        all_edits(fs.drop_last()) + edit_views(fs.last().edits@)
    }
}

pub open spec fn edit_keys(v: Seq<EditView>) -> Seq<Key> {
    v.map_values(|e: EditView| edit_key(e))
}

/// `v` holds exactly the distinct edits of `all`, ordered by range and text.
pub open spec fn arranges(v: Seq<EditView>, all: Seq<EditView>) -> bool {
    &&& ascending(edit_keys(v))
    &&& forall|i: int| 0 <= i < v.len() ==> all.contains(#[trigger] v[i])
    &&& forall|j: int| 0 <= j < all.len() ==> v.contains(#[trigger] all[j])
}

/// Each edit ends before the next begins, and no two begin at the same byte.
pub open spec fn separated(v: Seq<EditView>) -> bool {
    forall|i: int|
        0 <= i < v.len() - 1 ==> (#[trigger] v[i]).end <= v[i + 1].start && v[i].start != v[i
            + 1].start
}

/// There is one arrangement of a set of edits.
pub proof fn lemma_arrangement_unique(v: Seq<EditView>, w: Seq<EditView>, all: Seq<EditView>)
    requires
        arranges(v, all),
        arranges(w, all),
    ensures
        v == w,
{
    let kv = edit_keys(v);
    let kw = edit_keys(w);
    assert forall|i: int| 0 <= i < kv.len() implies kw.contains(#[trigger] kv[i]) by {
        assert(all.contains(v[i]));
        let j = choose|j: int| 0 <= j < all.len() && all[j] == v[i];
        assert(w.contains(all[j]));
        let m = choose|m: int| 0 <= m < w.len() && w[m] == all[j];
        assert(kw[m] == kv[i]);
    }
    assert forall|i: int| 0 <= i < kw.len() implies kv.contains(#[trigger] kw[i]) by {
        assert(all.contains(w[i]));
        let j = choose|j: int| 0 <= j < all.len() && all[j] == w[i];
        assert(v.contains(all[j]));
        let m = choose|m: int| 0 <= m < v.len() && v[m] == all[j];
        assert(kv[m] == kw[i]);
    }
    lemma_ascending_unique(kv, kw);
    assert(v.len() == kv.len() && w.len() == kw.len());
    assert forall|i: int| 0 <= i < v.len() implies v[i] == w[i] by {
        assert(kv[i] == kw[i]);
        assert(v[i].text == w[i].text);
        assert(v[i].start == w[i].start && v[i].end == w[i].end);
    }
    assert(v =~= w);
}

fn copy_edit(e: &Edit) -> (r: Edit)
    ensures
        r@ == e@,
{
    Edit { start: e.start, end: e.end, text: e.text.clone() }
}

fn edit_sort_key(e: &Edit) -> (k: SortKey)
    ensures
        k.key() == edit_key(e@),
{
    let k = SortKey { start: e.start, end: e.end, first: chars_of(e.text.as_str()), second: Vec::new() };
    assert(k.second@ =~= Seq::<char>::empty());
    k
}

/// All findings' edits, each once, ordered by range and text; an error when
/// two of them overlap or start at the same byte.
pub fn edits(findings: &[Finding]) -> (r: Result<Vec<Edit>, FixError>)
    ensures
        match r {
            Ok(v) => arranges(edit_views(v@), all_edits(findings@)) && separated(edit_views(v@)),
            Err(_) => forall|v: Seq<EditView>|
                arranges(v, all_edits(findings@)) ==> !separated(v),
        },
{
    let mut flat: Vec<Edit> = Vec::new();
    let mut a: usize = 0;
    while a < findings.len()
        invariant
            a <= findings@.len(),
            edit_views(flat@) == all_edits(findings@.take(a as int)),
        decreases findings@.len() - a,
    {
        let mut b: usize = 0;
        let ghost start = edit_views(flat@);
        assert(findings@[a as int].edits@.take(0) =~= Seq::<Edit>::empty());
        assert(edit_views(flat@) =~= start + edit_views(findings@[a as int].edits@.take(0)));
        while b < findings[a].edits.len()
            invariant
                a < findings@.len(),
                b <= findings@[a as int].edits@.len(),
                edit_views(flat@) == start + edit_views(findings@[a as int].edits@.take(b as int)),
            decreases findings@[a as int].edits@.len() - b,
        {
            let e = copy_edit(&findings[a].edits[b]);
            let ghost prev = flat@;
            let ghost ev = e@;
            flat.push(e);
            assert(edit_views(flat@) =~= edit_views(prev).push(ev));
            assert(findings@[a as int].edits@.take(b + 1) =~= findings@[a as int].edits@.take(
                b as int,
            ).push(findings@[a as int].edits@[b as int]));
            assert(edit_views(flat@) =~= start + edit_views(findings@[a as int].edits@.take(b + 1)));
            b = b + 1;
        }
        assert(findings@[a as int].edits@.take(b as int) =~= findings@[a as int].edits@);
        assert(findings@.take(a + 1).drop_last() =~= findings@.take(a as int));
        a = a + 1;
    }
    assert(findings@.take(a as int) =~= findings@);
    let ghost all = edit_views(flat@);
    let mut out: Vec<Edit> = Vec::new();
    let mut keys: Vec<SortKey> = Vec::new();
    let mut i: usize = 0;
    while i < flat.len()
        invariant
            i <= flat@.len(),
            all == edit_views(flat@),
            edit_keys(edit_views(out@)) == key_seq(keys@),
            ascending(key_seq(keys@)),
            forall|m: int| 0 <= m < out@.len() ==> all.take(i as int).contains(#[trigger] out@[m]@),
            forall|j: int| 0 <= j < i ==> edit_views(out@).contains(#[trigger] all[j]),
        decreases flat@.len() - i,
    {
        let e = copy_edit(&flat[i]);
        let k = edit_sort_key(&e);
        let ghost before = edit_views(out@);
        let ghost before_keys = key_seq(keys@);
        let (pos, found) = locate(&keys, &k);
        assert(all[i as int] == e@);
        if found {
            proof {
                assert(before_keys[pos as int] == edit_key(e@));
                assert(before_keys[pos as int] == edit_key(before[pos as int]));
                assert(before[pos as int].text == e@.text);
                assert(before[pos as int] == e@);
            }
        } else {
            proof {
                lemma_insert_ascending(before_keys, pos as int, edit_key(e@));
            }
            let ghost ek = k.key();
            keys.insert(pos, k);
            out.insert(pos, e);
            proof {
                assert(key_seq(keys@) =~= before_keys.insert(pos as int, ek));
                assert(edit_views(out@) =~= before.insert(pos as int, e@));
                assert(edit_keys(edit_views(out@)) =~= key_seq(keys@));
            }
        }
        proof {
            assert(all.take(i + 1) =~= all.take(i as int).push(e@));
            assert forall|m: int| 0 <= m < out@.len() implies all.take(i + 1).contains(
                #[trigger] out@[m]@,
            ) by {
                if !found && m == pos {
                    assert(all.take(i + 1)[i as int] == e@);
                } else {
                    let old_m = if !found && m > pos { m - 1 } else { m };
                    assert(out@[m]@ == before[old_m]);
                    assert(all.take(i as int).contains(before[old_m]));
                    let w = choose|w: int| 0 <= w < i && all.take(i as int)[w] == before[old_m];
                    assert(all.take(i + 1)[w] == before[old_m]);
                }
            }
            assert forall|j: int| 0 <= j < i + 1 implies edit_views(out@).contains(#[trigger] all[j]) by {
                if j == i {
                    assert(edit_views(out@)[pos as int] == e@);
                } else {
                    assert(before.contains(all[j]));
                    let w = choose|w: int| 0 <= w < before.len() && before[w] == all[j];
                    if !found && w >= pos {
                        assert(edit_views(out@)[w + 1] == all[j]);
                    } else {
                        assert(edit_views(out@)[w] == all[j]);
                    }
                }
            }
        }
        i = i + 1;
    }
    assert(all.take(i as int) =~= all);
    let ghost arranged = edit_views(out@);
    assert(arranges(arranged, all));
    let mut m: usize = 0;
    while out.len() > 0 && m < out.len() - 1
        invariant
            arranged == edit_views(out@),
            arranges(arranged, all),
            all == all_edits(findings@),
            forall|p: int|
                0 <= p < m ==> (#[trigger] arranged[p]).end <= arranged[p + 1].start
                    && arranged[p].start != arranged[p + 1].start,
        decreases out@.len() - m,
    {
        if out[m].end > out[m + 1].start || out[m].start == out[m + 1].start {
            proof {
                assert(arranged[m as int] == out@[m as int]@);
                assert(arranged[m + 1] == out@[m + 1]@);
                assert(!separated(arranged));
                assert forall|v: Seq<EditView>| arranges(v, all) implies !separated(v) by {
                    lemma_arrangement_unique(v, arranged, all);
                }
            }
            return Err(FixError::Overlap);
        }
        m = m + 1;
    }
    Ok(out)
}

/// Whether byte `i` of UTF-8 text starts a character, or is its end: what
/// `str::is_char_boundary` tests.
pub open spec fn char_start(b: Seq<u8>, i: int) -> bool {
    i == 0 || i == b.len() || (0 <= i < b.len() && !(0x80 <= b[i] && b[i] < 0xc0))
}

/// The bytes of `out` with the edits applied from the last one back; each
/// edit must end at or before the start of the one after it, and replace a
/// range between character boundaries.
pub open spec fn applied(out: Seq<u8>, edits: Seq<Edit>, previous: int) -> Result<Seq<u8>, FixError>
    decreases edits.len(),
{
    if edits.len() == 0 {
        Ok(out)
    } else {
        let e = edits.last();
        let s = e.start as int;
        let t = e.end as int;
        if s > t || t > previous || t > out.len() || !char_start(out, s) || !char_start(out, t) {
            Err(FixError::Invalid)
        } else {
            applied(out.take(s) + encode_utf8(e.text@) + out.skip(t), edits.drop_last(), s)
        }
    }
}

fn starts_char(b: &[u8], i: usize) -> (r: bool)
    requires
        i <= b@.len(),
    ensures
        r == char_start(b@, i as int),
{
    i == 0 || i == b.len() || !(0x80 <= b[i] && b[i] < 0xc0)
}

/// The source's bytes with `edits` spliced in, from the last back to the
/// first; an error when an edit's range is reversed, reaches into a later
/// edit, or splits a character. The output's syntax is not checked here:
/// `apply` does that.
pub fn splice(source: &str, edits: &[Edit]) -> (r: Result<Vec<u8>, FixError>)
    ensures
        match applied(source.spec_bytes(), edits@, source.spec_bytes().len() as int) {
            Ok(b) => r matches Ok(v) && v@ == b,
            Err(e) => r == Err::<Vec<u8>, FixError>(e),
        },
{
    let src = source.as_bytes();
    let mut out: Vec<u8> = Vec::new();
    let mut k: usize = 0;
    while k < src.len()
        invariant
            k <= src@.len(),
            out@ == src@.take(k as int),
        decreases src@.len() - k,
    {
        out.push(src[k]);
        k = k + 1;
        assert(out@ =~= src@.take(k as int));
    }
    assert(src@.take(k as int) =~= src@);
    let mut previous: usize = out.len();
    let mut i: usize = edits.len();
    assert(edits@.take(i as int) =~= edits@);
    while i > 0
        invariant
            i <= edits@.len(),
            src@ == source.spec_bytes(),
            applied(src@, edits@, src@.len() as int) == applied(out@, edits@.take(i as int), previous as int),
        decreases i,
    {
        let e = &edits[i - 1];
        let ghost front = edits@.take(i as int);
        assert(front.last() == edits@[i - 1]);
        assert(front.drop_last() =~= edits@.take(i - 1));
        if e.start > e.end || e.end > previous || e.end > out.len() || !starts_char(&out, e.start)
            || !starts_char(&out, e.end) {
            return Err(FixError::Invalid);
        }
        let text = e.text.as_str().as_bytes();
        let mut next: Vec<u8> = Vec::new();
        let mut j: usize = 0;
        while j < e.start
            invariant
                j <= e.start <= e.end <= out@.len(),
                next@ == out@.take(j as int),
            decreases e.start - j,
        {
            next.push(out[j]);
            j = j + 1;
            assert(next@ =~= out@.take(j as int));
        }
        let mut j: usize = 0;
        while j < text.len()
            invariant
                j <= text@.len(),
                next@ == out@.take(e.start as int) + text@.take(j as int),
            decreases text@.len() - j,
        {
            next.push(text[j]);
            j = j + 1;
            assert(next@ =~= out@.take(e.start as int) + text@.take(j as int));
        }
        assert(text@.take(j as int) =~= text@);
        let mut j: usize = e.end;
        while j < out.len()
            invariant
                e.end <= j <= out@.len(),
                next@ == out@.take(e.start as int) + text@ + out@.subrange(e.end as int, j as int),
            decreases out@.len() - j,
        {
            next.push(out[j]);
            j = j + 1;
            assert(next@ =~= out@.take(e.start as int) + text@ + out@.subrange(e.end as int, j as int));
        }
        assert(out@.subrange(e.end as int, j as int) =~= out@.skip(e.end as int));
        previous = e.start;
        out = next;
        i = i - 1;
    }
    Ok(out)
}

/// The first byte of a character's UTF-8 encoding starts a character.
proof fn lemma_leading_byte(c: char)
    ensures
        !(0x80 <= encode_scalar(c as u32)[0] && encode_scalar(c as u32)[0] < 0xc0),
{
    let v = c as u32;
    if has_width_1_encoding(v) {
        assert(v <= 0x7f ==> ((v & 0x7f) as u8) < 0x80) by (bit_vector);
    } else if has_width_2_encoding(v) {
        assert((0xC0u8 | ((v >> 6) & 0x1F) as u8) >= 0xc0) by (bit_vector);
    } else if has_width_3_encoding(v) {
        assert((0xE0u8 | ((v >> 12) & 0x0F) as u8) >= 0xc0) by (bit_vector);
    } else {
        assert((0xF0u8 | ((v >> 18) & 0x7) as u8) >= 0xc0) by (bit_vector);
    }
}

/// An edit that replaces a range of `source` between character boundaries.
pub open spec fn fits(source: Seq<u8>, e: Edit) -> bool {
    &&& e.start <= e.end <= source.len()
    &&& char_start(source, e.start as int)
    &&& char_start(source, e.end as int)
}

proof fn lemma_separated_before(v: Seq<EditView>, i: int, j: int)
    requires
        separated(v),
        forall|k: int| 0 <= k < v.len() ==> (#[trigger] v[k]).start <= v[k].end,
        0 <= i < j < v.len(),
    ensures
        v[i].end <= v[j].start,
    decreases j - i,
{
    if i + 1 < j {
        lemma_separated_before(v, i + 1, j);
        assert(v[i].end <= v[i + 1].start);
    }
}

proof fn lemma_applied_ok(out: Seq<u8>, edits: Seq<Edit>, previous: int)
    requires
        separated(edit_views(edits)),
        previous <= out.len(),
        edits.len() > 0 ==> edits.last().end <= previous,
        forall|k: int| 0 <= k < edits.len() ==> fits(out, #[trigger] edits[k]),
    ensures
        applied(out, edits, previous) is Ok,
    decreases edits.len(),
{
    if edits.len() > 0 {
        let e = edits.last();
        let s = e.start as int;
        let t = e.end as int;
        assert(fits(out, edits[edits.len() - 1]));
        let text = encode_utf8(e.text@);
        let next = out.take(s) + text + out.skip(t);
        let rest = edits.drop_last();
        let v = edit_views(edits);
        assert forall|k: int| 0 <= k < v.len() implies (#[trigger] v[k]).start <= v[k].end by {
            assert(fits(out, edits[k]));
        }
        assert(edit_views(rest) =~= v.drop_last());
        assert forall|k: int| 0 <= k < rest.len() implies fits(next, #[trigger] rest[k]) by {
            assert(fits(out, edits[k]));
            assert(rest[k] == edits[k]);
            lemma_separated_before(v, k, edits.len() - 1);
            let r = rest[k];
            assert(r.end <= s);
            assert forall|x: int| 0 <= x <= s && char_start(out, x) implies char_start(next, x) by {
                if 0 < x < s {
                    assert(next[x] == out[x]);
                } else if x == s && x != 0 {
                    if text.len() > 0 {
                        assert(next[x] == text[0]);
                        lemma_leading_byte(e.text@[0]);
                    } else if t < out.len() {
                        assert(next[x] == out[t]);
                    }
                }
            }
            assert(char_start(next, r.start as int));
            assert(char_start(next, r.end as int));
        }
        if rest.len() > 0 {
            lemma_separated_before(v, rest.len() - 1, edits.len() - 1);
            assert(rest.last() == edits[rest.len() - 1]);
        }
        assert(separated(edit_views(rest)));
        lemma_applied_ok(next, rest, s);
    }
}

/// Separated edits whose ranges each lie between character boundaries of
/// the source apply to it without error.
pub proof fn law_separated_edits_apply(source: Seq<u8>, edits: Seq<Edit>)
    requires
        separated(edit_views(edits)),
        forall|k: int| 0 <= k < edits.len() ==> fits(source, #[trigger] edits[k]),
    ensures
        applied(source, edits, source.len() as int) is Ok,
{
    if edits.len() > 0 {
        assert(fits(source, edits[edits.len() - 1]));
    }
    lemma_applied_ok(source, edits, source.len() as int);
}

/// An edit whose range lies between character boundaries of `source`.
pub open spec fn fits_view(source: Seq<u8>, e: EditView) -> bool {
    &&& e.start <= e.end <= source.len()
    &&& char_start(source, e.start as int)
    &&& char_start(source, e.end as int)
}

/// When every fix of the findings replaces a range between character
/// boundaries of the source, the fixes that `edits` collects apply to it
/// without error.
pub proof fn law_collected_fixes_apply(source: Seq<u8>, findings: Seq<Finding>, collected: Seq<Edit>)
    requires
        arranges(edit_views(collected), all_edits(findings)),
        separated(edit_views(collected)),
        forall|j: int| 0 <= j < all_edits(findings).len() ==> fits_view(source, #[trigger] all_edits(findings)[j]),
    ensures
        applied(source, collected, source.len() as int) is Ok,
{
    let all = all_edits(findings);
    let v = edit_views(collected);
    assert forall|k: int| 0 <= k < collected.len() implies fits(source, #[trigger] collected[k]) by {
        assert(v[k] == collected[k]@);
        assert(all.contains(v[k]));
        let j = choose|j: int| 0 <= j < all.len() && all[j] == v[k];
        assert(fits_view(source, all[j]));
    }
    law_separated_edits_apply(source, collected);
}

/// The source's bytes with `edits` applied, as `splice` gives them, when
/// `parses`, the parser's verdict on the fixed source, accepts them; an error
/// when an edit is invalid, and a syntax error when the fixed source no
/// longer parses.
pub fn apply<F: Fn(&Vec<u8>) -> bool>(source: &str, edits: &[Edit], parses: F) -> (r: Result<
    Vec<u8>,
    FixError,
>)
    requires
        forall|output: &Vec<u8>| call_requires(parses, (output,)),
    ensures
        match applied(source.spec_bytes(), edits@, source.spec_bytes().len() as int) {
            Ok(b) => match r {
                Ok(v) => v@ == b && call_ensures(parses, (&v,), true),
                Err(e) => e == FixError::Syntax && exists|v: Vec<u8>|
                    v@ == b && #[trigger] call_ensures(parses, (&v,), false),
            },
            Err(e) => r == Err::<Vec<u8>, FixError>(e),
        },
{
    let output = splice(source, edits)?;
    if parses(&output) {
        Ok(output)
    } else {
        Err(FixError::Syntax)
    }
}

} // verus!
