//! Configuration values as read from `instar.toml` files, and the layering of
//! the files found from the filesystem root down to a source: nearer files
//! override farther ones key by key, tables merging recursively.

use vstd::prelude::*;
use crate::text::{chars_of, string_of};
use crate::lint::findings::{lemma_text_irreflexive, lemma_text_total, lemma_text_transitive, text_lt};

verus! {

/// A configuration value: what a TOML document holds once it is read as JSON.
#[derive(Debug)]
pub enum Json {
    Null,
    Bool(bool),
    /// A number, as its decimal text.
    Number(String),
    Text(String),
    Array(Vec<Json>),
    /// Keys and values, keys ascending and each once.
    Object(Vec<(String, Json)>),
}

/// A configuration value as plain data.
pub enum JsonValue {
    Null,
    Bool(bool),
    Number(Seq<char>),
    Text(Seq<char>),
    Array(Seq<JsonValue>),
    Object(Seq<(Seq<char>, JsonValue)>),
}

/// The plain data of a value.
pub open spec fn value_of(j: Json) -> JsonValue
    decreases j,
{
    match j {
        Json::Null => JsonValue::Null,
        Json::Bool(b) => JsonValue::Bool(b),
        Json::Number(n) => JsonValue::Number(n@),
        Json::Text(t) => JsonValue::Text(t@),
        Json::Array(items) => JsonValue::Array(values_of(items@)),
        Json::Object(entries) => JsonValue::Object(entries_of(entries@)),
    }
}

/// The plain data of each value.
pub open spec fn values_of(items: Seq<Json>) -> Seq<JsonValue>
    decreases items,
{
    if items.len() == 0 {
        seq![]
    } else {
        values_of(items.drop_last()).push(value_of(items.last()))
    }
}

/// The plain data of each entry.
pub open spec fn entries_of(entries: Seq<(String, Json)>) -> Seq<(Seq<char>, JsonValue)>
    decreases entries,
{
    if entries.len() == 0 {
        seq![]
    } else {
        entries_of(entries.drop_last()).push((entries.last().0@, value_of(entries.last().1)))
    }
}

/// The first index whose key is `k`.
pub open spec fn key_index(entries: Seq<(Seq<char>, JsonValue)>, k: Seq<char>, i: int) -> Option<int>
    decreases entries.len() - i,
{
    if i < 0 || i >= entries.len() {
        None
    } else if entries[i].0 == k {
        Some(i)
    } else {
        key_index(entries, k, i + 1)
    }
}

/// `entries` with `(k, v)` placed before the first key that `k` precedes.
pub open spec fn insert_sorted(entries: Seq<(Seq<char>, JsonValue)>, k: Seq<char>, v: JsonValue) -> Seq<(Seq<char>, JsonValue)>
    decreases entries.len(),
{
    if entries.len() == 0 || text_lt(k, entries[0].0) {
        seq![(k, v)] + entries
    } else {
        seq![entries[0]] + insert_sorted(entries.drop_first(), k, v)
    }
}

/// The entries of `under` overridden by those of `over`, one after another:
/// a key that `under` lacks is added in order; a table over a table merges
/// recursively; any other value replaces the one under it.
pub open spec fn overlay_entries(under: Seq<(Seq<char>, JsonValue)>, over: Seq<(Seq<char>, JsonValue)>) -> Seq<(Seq<char>, JsonValue)>
    decreases over,
{
    if over.len() == 0 {
        under
    } else {
        let acc = overlay_entries(under, over.drop_last());
        let k = over.last().0;
        let v = over.last().1;
        match key_index(acc, k, 0) {
            None => insert_sorted(acc, k, v),
            Some(p) => match (acc[p].1, v) {
                (JsonValue::Object(u), JsonValue::Object(o)) => acc.update(p, (k, JsonValue::Object(overlay_entries(u, o)))),
                _ => acc.update(p, (k, v)),
            },
        }
    }
}

proof fn lemma_key_index(entries: Seq<(Seq<char>, JsonValue)>, k: Seq<char>, i: int)
    requires
        0 <= i,
    ensures
        key_index(entries, k, i) matches Some(p) ==> i <= p < entries.len() && entries[p].0 == k,
    decreases entries.len() - i,
{
    if i < entries.len() && entries[i].0 != k {
        lemma_key_index(entries, k, i + 1);
    }
}

proof fn lemma_entries_of_len(entries: Seq<(String, Json)>)
    ensures
        entries_of(entries).len() == entries.len(),
        forall|i: int| 0 <= i < entries.len() ==> #[trigger] entries_of(entries)[i] == (entries[i].0@, value_of(entries[i].1)),
    decreases entries.len(),
{
    if entries.len() > 0 {
        lemma_entries_of_len(entries.drop_last());
        assert forall|i: int| 0 <= i < entries.len() implies #[trigger] entries_of(entries)[i] == (entries[i].0@, value_of(entries[i].1)) by {
            if i < entries.len() - 1 {
                assert(entries.drop_last()[i] == entries[i]);
            }
        }
    }
}

proof fn lemma_entries_of_take(entries: Seq<(String, Json)>, i: int)
    requires
        0 <= i < entries.len(),
    ensures
        entries_of(entries.take(i + 1)) == entries_of(entries.take(i)).push((entries[i].0@, value_of(entries[i].1))),
{
    assert(entries.take(i + 1).drop_last() =~= entries.take(i));
}

fn find_key(entries: &Vec<(String, Json)>, k: &String) -> (r: Option<usize>)
    ensures
        match r {
            Some(p) => key_index(entries_of(entries@), k@, 0) == Some(p as int),
            None => key_index(entries_of(entries@), k@, 0) is None,
        },
{
    proof {
        lemma_entries_of_len(entries@);
    }
    let mut i: usize = 0;
    while i < entries.len()
        invariant
            i <= entries@.len(),
            entries_of(entries@).len() == entries@.len(),
            forall|j: int| 0 <= j < entries@.len() ==> #[trigger] entries_of(entries@)[j] == (entries@[j].0@, value_of(entries@[j].1)),
            key_index(entries_of(entries@), k@, 0) == key_index(entries_of(entries@), k@, i as int),
        decreases entries@.len() - i,
    {
        if entries[i].0 == *k {
            return Some(i);
        }
        i = i + 1;
    }
    None
}

fn insert_entry(entries: &mut Vec<(String, Json)>, k: String, v: Json)
    ensures
        entries_of(final(entries)@) == insert_sorted(entries_of(old(entries)@), k@, value_of(v)),
{
    proof {
        lemma_entries_of_len(entries@);
    }
    let kc: Vec<char> = crate::text::chars_of(k.as_str());
    let mut i: usize = 0;
    let ghost view = entries_of(entries@);
    assert(view.skip(0) =~= view);
    while i < entries.len() && !crate::lint::findings::text_before(&kc, &crate::text::chars_of(entries[i].0.as_str()))
        invariant
            i <= entries@.len(),
            view == entries_of(entries@),
            view.len() == entries@.len(),
            kc@ == k@,
            forall|j: int| 0 <= j < entries@.len() ==> #[trigger] view[j] == (entries@[j].0@, value_of(entries@[j].1)),
            insert_sorted(view, k@, value_of(v)) == view.take(i as int) + insert_sorted(view.skip(i as int), k@, value_of(v)),
        decreases entries@.len() - i,
    {
        assert(view.skip(i as int)[0] == view[i as int]);
        assert(view.skip(i as int).drop_first() =~= view.skip(i + 1));
        assert(view.take(i + 1) =~= view.take(i as int) + seq![view[i as int]]);
        i = i + 1;
    }
    proof {
        if i < view.len() {
            assert(view.skip(i as int)[0] == view[i as int]);
        }
    }
    let ghost kv = k@;
    let ghost vv = value_of(v);
    entries.insert(i, (k, v));
    proof {
        lemma_entries_of_len(entries@);
        assert(entries_of(entries@) =~= view.take(i as int) + (seq![(kv, vv)] + view.skip(i as int)));
    }
}

/// Overrides the entries of `under` by those of `over`, one after another:
/// a key that `under` lacks is added before the first key it precedes; a
/// table over a table merges recursively; any other value replaces the one
/// under it.
pub fn overlay(under: &mut Vec<(String, Json)>, over: Vec<(String, Json)>)
    ensures
        entries_of(final(under)@) == overlay_entries(entries_of(old(under)@), entries_of(over@)),
    decreases over,
{
    let ghost whole = over;
    let ghost all = over@;
    let ghost start = entries_of(under@);
    let mut rest = over;
    let n = rest.len();
    let mut i: usize = 0;
    proof {
        lemma_entries_of_len(all);
    }
    assert(all.take(0) =~= Seq::<(String, Json)>::empty());
    while i < n
        invariant
            whole == over,
            all == over@,
            n == all.len(),
            i <= n,
            rest@ == all.skip(i as int),
            entries_of(all).len() == all.len(),
            forall|j: int| 0 <= j < all.len() ==> #[trigger] entries_of(all)[j] == (all[j].0@, value_of(all[j].1)),
            entries_of(under@) == overlay_entries(start, entries_of(all.take(i as int))),
        decreases n - i,
    {
        let (key, value) = rest.remove(0);
        assert(rest@ =~= all.skip(i + 1));
        assert((key, value) == all[i as int]);
        proof {
            lemma_entries_of_take(all, i as int);
        }
        let ghost acc = entries_of(under@);
        let ghost front = entries_of(all.take(i + 1));
        assert(front.drop_last() == entries_of(all.take(i as int)));
        assert(front.last() == (key@, value_of(value)));
        proof {
            lemma_entries_of_len(under@);
        }
        match find_key(under, &key) {
            None => {
                insert_entry(under, key, value);
            },
            Some(p) => {
                proof {
                    lemma_key_index(acc, key@, 0);
                }
                let (old_key, old_value) = under.remove(p);
                let ghost removed = under@;
                match (old_value, value) {
                    (Json::Object(mut u), Json::Object(o)) => {
                        assert(decreases_to!(whole => whole@));
                        assert(decreases_to!(whole@ => whole@[i as int]));
                        assert(decreases_to!(whole@[i as int] => whole@[i as int].1));
                        assert(whole@[i as int].1 == Json::Object(o));
                        assert(decreases_to!(whole@[i as int].1 => o));
                        proof {
                            lemma_entries_of_len(u@);
                            lemma_entries_of_len(o@);
                        }
                        overlay(&mut u, o);
                        let ghost merged = u@;
                        under.insert(p, (key, Json::Object(u)));
                        proof {
                            lemma_entries_of_len(under@);
                            assert(entries_of(under@) =~= acc.update(p as int, (front.last().0, JsonValue::Object(entries_of(merged)))));
                        }
                    },
                    (_, value) => {
                        let ghost vv = value_of(value);
                        under.insert(p, (key, value));
                        proof {
                            lemma_entries_of_len(under@);
                            assert(entries_of(under@) =~= acc.update(p as int, (front.last().0, vv)));
                        }
                    },
                }
            },
        }
        i = i + 1;
    }
    assert(all.take(n as int) =~= all);
}

/// Keys strictly ascending, so each key once.
pub open spec fn sorted(entries: Seq<(Seq<char>, JsonValue)>) -> bool {
    forall|i: int, j: int| 0 <= i < j < entries.len() ==> text_lt(#[trigger] entries[i].0, #[trigger] entries[j].0)
}

/// The value under key `k`, if any.
pub open spec fn value_at(entries: Seq<(Seq<char>, JsonValue)>, k: Seq<char>) -> Option<JsonValue> {
    match key_index(entries, k, 0) {
        Some(p) => Some(entries[p].1),
        None => None,
    }
}

/// What a key holds once a value `over` is laid on a value `under`.
pub open spec fn combined(under: Option<JsonValue>, over: Option<JsonValue>) -> Option<JsonValue> {
    match over {
        None => under,
        Some(o) => match (under, o) {
            (Some(JsonValue::Object(u)), JsonValue::Object(t)) => Some(JsonValue::Object(overlay_entries(u, t))),
            _ => Some(o),
        },
    }
}

proof fn lemma_key_index_absent(entries: Seq<(Seq<char>, JsonValue)>, k: Seq<char>, i: int)
    requires
        0 <= i,
        forall|j: int| i <= j < entries.len() ==> #[trigger] entries[j].0 != k,
    ensures
        key_index(entries, k, i) is None,
    decreases entries.len() - i,
{
    if i < entries.len() {
        lemma_key_index_absent(entries, k, i + 1);
    }
}

proof fn lemma_key_index_at(entries: Seq<(Seq<char>, JsonValue)>, k: Seq<char>, i: int, p: int)
    requires
        0 <= i <= p < entries.len(),
        entries[p].0 == k,
        forall|j: int| i <= j < p ==> #[trigger] entries[j].0 != k,
    ensures
        key_index(entries, k, i) == Some(p),
    decreases p - i,
{
    if i < p {
        lemma_key_index_at(entries, k, i + 1, p);
    }
}

proof fn lemma_sorted_value_at(entries: Seq<(Seq<char>, JsonValue)>, k: Seq<char>)
    requires
        sorted(entries),
    ensures
        forall|p: int| 0 <= p < entries.len() && #[trigger] entries[p].0 == k ==> value_at(entries, k) == Some(entries[p].1),
        (forall|p: int| 0 <= p < entries.len() ==> #[trigger] entries[p].0 != k) ==> value_at(entries, k) is None,
{
    assert forall|p: int| 0 <= p < entries.len() && #[trigger] entries[p].0 == k implies value_at(entries, k) == Some(entries[p].1) by {
        assert forall|j: int| 0 <= j < p implies #[trigger] entries[j].0 != k by {
            assert(text_lt(entries[j].0, entries[p].0));
            lemma_text_irreflexive(k);
        }
        lemma_key_index_at(entries, k, 0, p);
    }
    if forall|p: int| 0 <= p < entries.len() ==> #[trigger] entries[p].0 != k {
        lemma_key_index_absent(entries, k, 0);
    }
}

proof fn lemma_insert_sorted(entries: Seq<(Seq<char>, JsonValue)>, k: Seq<char>, v: JsonValue)
    requires
        sorted(entries),
        forall|p: int| 0 <= p < entries.len() ==> #[trigger] entries[p].0 != k,
    ensures
        sorted(insert_sorted(entries, k, v)),
        insert_sorted(entries, k, v).len() == entries.len() + 1,
        exists|q: int| 0 <= q <= entries.len() && insert_sorted(entries, k, v) == entries.take(q) + seq![(k, v)] + entries.skip(q),
    decreases entries.len(),
{
    let r = insert_sorted(entries, k, v);
    if entries.len() == 0 || text_lt(k, entries[0].0) {
        assert(r == entries.take(0) + seq![(k, v)] + entries.skip(0));
        assert forall|i: int, j: int| 0 <= i < j < r.len() implies text_lt(#[trigger] r[i].0, #[trigger] r[j].0) by {
            if i == 0 {
                assert(r[j] == entries[j - 1]);
                if j - 1 > 0 {
                    assert(text_lt(entries[0].0, entries[j - 1].0));
                    lemma_text_transitive(k, entries[0].0, entries[j - 1].0);
                }
            } else {
                assert(r[i] == entries[i - 1] && r[j] == entries[j - 1]);
            }
        }
    } else {
        let rest = entries.drop_first();
        assert(sorted(rest)) by {
            assert forall|i: int, j: int| 0 <= i < j < rest.len() implies text_lt(#[trigger] rest[i].0, #[trigger] rest[j].0) by {
                assert(rest[i] == entries[i + 1] && rest[j] == entries[j + 1]);
            }
        }
        assert forall|p: int| 0 <= p < rest.len() implies #[trigger] rest[p].0 != k by {
            assert(rest[p] == entries[p + 1]);
        }
        lemma_insert_sorted(rest, k, v);
        let inner = insert_sorted(rest, k, v);
        let q = choose|q: int| 0 <= q <= rest.len() && inner == rest.take(q) + seq![(k, v)] + rest.skip(q);
        assert(r =~= entries.take(q + 1) + seq![(k, v)] + entries.skip(q + 1));
        assert(entries[0].0 != k);
        lemma_text_total(k, entries[0].0);
        assert(text_lt(entries[0].0, k));
        assert forall|i: int, j: int| 0 <= i < j < r.len() implies text_lt(#[trigger] r[i].0, #[trigger] r[j].0) by {
            if i == 0 {
                assert(r[0] == entries[0]);
                assert(r[j] == inner[j - 1]);
                if j - 1 == q {
                    assert(inner[q] == (k, v));
                } else if j - 1 < q {
                    assert(inner[j - 1] == rest[j - 1]);
                    assert(rest[j - 1] == entries[j]);
                } else {
                    assert(inner[j - 1] == rest[j - 2]);
                    assert(rest[j - 2] == entries[j - 1]);
                }
            } else {
                assert(r[i] == inner[i - 1] && r[j] == inner[j - 1]);
            }
        }
    }
}

proof fn lemma_value_at_insert(entries: Seq<(Seq<char>, JsonValue)>, k: Seq<char>, v: JsonValue, x: Seq<char>)
    requires
        sorted(entries),
        forall|p: int| 0 <= p < entries.len() ==> #[trigger] entries[p].0 != k,
    ensures
        value_at(insert_sorted(entries, k, v), x) == if x == k {
            Some(v)
        } else {
            value_at(entries, x)
        },
{
    lemma_insert_sorted(entries, k, v);
    let r = insert_sorted(entries, k, v);
    let q = choose|q: int| 0 <= q <= entries.len() && r == entries.take(q) + seq![(k, v)] + entries.skip(q);
    lemma_sorted_value_at(r, x);
    lemma_sorted_value_at(entries, x);
    if x == k {
        assert(r[q] == (k, v));
        assert(r[q].0 == x);
    } else {
        if exists|p: int| 0 <= p < entries.len() && #[trigger] entries[p].0 == x {
            let p = choose|p: int| 0 <= p < entries.len() && #[trigger] entries[p].0 == x;
            if p < q {
                assert(r[p] == entries[p]);
                assert(r[p].0 == x);
            } else {
                assert(r[p + 1] == entries[p]);
                assert(r[p + 1].0 == x);
            }
        } else {
            assert forall|p: int| 0 <= p < r.len() implies #[trigger] r[p].0 != x by {
                if p < q {
                    assert(r[p] == entries[p]);
                } else if p > q {
                    assert(r[p] == entries[p - 1]);
                }
            }
        }
    }
}

proof fn lemma_value_at_update(entries: Seq<(Seq<char>, JsonValue)>, p: int, v: JsonValue, x: Seq<char>)
    requires
        sorted(entries),
        0 <= p < entries.len(),
    ensures
        sorted(entries.update(p, (entries[p].0, v))),
        value_at(entries.update(p, (entries[p].0, v)), x) == if x == entries[p].0 {
            Some(v)
        } else {
            value_at(entries, x)
        },
{
    let r = entries.update(p, (entries[p].0, v));
    assert forall|i: int, j: int| 0 <= i < j < r.len() implies text_lt(#[trigger] r[i].0, #[trigger] r[j].0) by {
        assert(r[i].0 == entries[i].0 && r[j].0 == entries[j].0);
    }
    lemma_sorted_value_at(r, x);
    lemma_sorted_value_at(entries, x);
    if x == entries[p].0 {
        assert(r[p].0 == x);
    } else {
        if exists|m: int| 0 <= m < entries.len() && #[trigger] entries[m].0 == x {
            let m = choose|m: int| 0 <= m < entries.len() && #[trigger] entries[m].0 == x;
            assert(r[m] == entries[m]);
            assert(r[m].0 == x);
        } else {
            assert forall|m: int| 0 <= m < r.len() implies #[trigger] r[m].0 != x by {
                assert(r[m].0 == entries[m].0);
            }
        }
    }
}

/// Laying sorted entries on sorted entries gives sorted entries, and each
/// key holds what `combined` says: the value of the nearer layer when it has
/// the key, the two tables merged when both hold a table there, and the
/// value of the farther layer otherwise.
pub proof fn law_overlay(under: Seq<(Seq<char>, JsonValue)>, over: Seq<(Seq<char>, JsonValue)>)
    requires
        sorted(under),
        sorted(over),
    ensures
        sorted(overlay_entries(under, over)),
        forall|k: Seq<char>| #[trigger] value_at(overlay_entries(under, over), k) == combined(value_at(under, k), value_at(over, k)),
    decreases over.len(),
{
    if over.len() > 0 {
        let front = over.drop_last();
        assert(sorted(front)) by {
            assert forall|i: int, j: int| 0 <= i < j < front.len() implies text_lt(#[trigger] front[i].0, #[trigger] front[j].0) by {
                assert(front[i] == over[i] && front[j] == over[j]);
            }
        }
        law_overlay(under, front);
        let acc = overlay_entries(under, front);
        let k = over.last().0;
        let v = over.last().1;
        assert forall|p: int| 0 <= p < front.len() implies #[trigger] front[p].0 != k by {
            assert(front[p] == over[p]);
            assert(text_lt(over[p].0, over[over.len() - 1].0));
            lemma_text_irreflexive(k);
        }
        lemma_sorted_value_at(front, k);
        lemma_sorted_value_at(over, k);
        assert(over[over.len() - 1].0 == k);
        assert forall|x: Seq<char>| x != k implies #[trigger] value_at(over, x) == value_at(front, x) by {
            lemma_sorted_value_at(over, x);
            lemma_sorted_value_at(front, x);
            if exists|m: int| 0 <= m < front.len() && #[trigger] front[m].0 == x {
                let m = choose|m: int| 0 <= m < front.len() && #[trigger] front[m].0 == x;
                assert(over[m] == front[m]);
            } else {
                assert forall|m: int| 0 <= m < over.len() implies #[trigger] over[m].0 != x by {
                    if m < front.len() {
                        assert(over[m] == front[m]);
                    }
                }
            }
        }
        lemma_key_index(acc, k, 0);
        match key_index(acc, k, 0) {
            None => {
                assert forall|p: int| 0 <= p < acc.len() implies #[trigger] acc[p].0 != k by {
                    lemma_sorted_value_at(acc, k);
                    if acc[p].0 == k {
                        assert(value_at(acc, k) == Some(acc[p].1));
                    }
                }
                lemma_insert_sorted(acc, k, v);
                assert forall|x: Seq<char>| #[trigger] value_at(overlay_entries(under, over), x) == combined(value_at(under, x), value_at(over, x)) by {
                    lemma_value_at_insert(acc, k, v, x);
                    assert(value_at(acc, x) == combined(value_at(under, x), value_at(front, x)));
                }
            },
            Some(p) => {
                let nv = match (acc[p].1, v) {
                    (JsonValue::Object(u), JsonValue::Object(o)) => JsonValue::Object(overlay_entries(u, o)),
                    _ => v,
                };
                assert(overlay_entries(under, over) == acc.update(p, (k, nv)));
                lemma_value_at_update(acc, p, nv, k);
                assert forall|x: Seq<char>| #[trigger] value_at(overlay_entries(under, over), x) == combined(value_at(under, x), value_at(over, x)) by {
                    lemma_value_at_update(acc, p, nv, x);
                    assert(value_at(acc, x) == combined(value_at(under, x), value_at(front, x)));
                }
            },
        }
    }
}

/// The table under key `name` of a configuration document, if it holds one.
pub open spec fn section(document: JsonValue, name: Seq<char>) -> Option<Seq<(Seq<char>, JsonValue)>> {
    match document {
        JsonValue::Object(entries) => match value_at(entries, name) {
            Some(JsonValue::Object(table)) => Some(table),
            _ => None,
        },
        _ => None,
    }
}

/// Lays the table `name` of one configuration document, when it has one,
/// on the settings merged from the documents farther away.
pub fn layer(merged: &mut Vec<(String, Json)>, document: Json, name: &str)
    ensures
        entries_of(final(merged)@) == match section(value_of(document), name@) {
            Some(table) => overlay_entries(entries_of(old(merged)@), table),
            None => entries_of(old(merged)@),
        },
{
    let ghost d = value_of(document);
    match document {
        Json::Object(mut entries) => {
            let key = string_of(&chars_of(name));
            proof {
                lemma_entries_of_len(entries@);
                lemma_key_index(entries_of(entries@), name@, 0);
            }
            match find_key(&entries, &key) {
                None => {},
                Some(p) => {
                    let (_, value) = entries.remove(p);
                    match value {
                        Json::Object(table) => {
                            overlay(merged, table);
                        },
                        _ => {},
                    }
                },
            }
        },
        _ => {},
    }
}

/// Why a configuration document was refused.
#[derive(Debug, Clone, Copy, PartialEq, Eq, Structural)]
pub enum ConfigError {
    /// A graft manifest path in `[grafts]` is not a string.
    GraftPathNotText,
}

/// The graft manifest paths a document names: the entries of its `grafts`
/// table, each of which must be a string.
pub open spec fn graft_paths(document: JsonValue) -> Result<Seq<(Seq<char>, Seq<char>)>, ConfigError> {
    match section(document, seq!['g', 'r', 'a', 'f', 't', 's']) {
        None => Ok(seq![]),
        Some(table) => if forall|i: int| 0 <= i < table.len() ==> (#[trigger] table[i]).1 is Text {
            Ok(table.map_values(|e: (Seq<char>, JsonValue)| (e.0, e.1->Text_0)))
        } else {
            Err(ConfigError::GraftPathNotText)
        },
    }
}

/// The graft manifest paths named by a configuration document, relative to
/// the document's directory.
pub fn grafts(document: &Json) -> (r: Result<Vec<(String, String)>, ConfigError>)
    ensures
        match graft_paths(value_of(*document)) {
            Ok(paths) => r matches Ok(v) && v@.len() == paths.len() && forall|i: int|
                0 <= i < paths.len() ==> (#[trigger] v@[i]).0@ == paths[i].0 && v@[i].1@ == paths[i].1,
            Err(e) => r == Err::<Vec<(String, String)>, ConfigError>(e),
        },
{
    let mut out: Vec<(String, String)> = Vec::new();
    let entries = match document {
        Json::Object(entries) => entries,
        _ => {
            return Ok(out);
        },
    };
    let key = string_of(&chars_of("grafts"));
    proof {
        reveal_strlit("grafts");
        assert(key@ =~= seq!['g', 'r', 'a', 'f', 't', 's']);
        lemma_entries_of_len(entries@);
        lemma_key_index(entries_of(entries@), key@, 0);
    }
    let p = match find_key(entries, &key) {
        None => {
            return Ok(out);
        },
        Some(p) => p,
    };
    let table = match &entries[p].1 {
        Json::Object(table) => table,
        _ => {
            return Ok(out);
        },
    };
    proof {
        lemma_entries_of_len(table@);
    }
    let ghost t = entries_of(table@);
    let mut i: usize = 0;
    while i < table.len()
        invariant
            i <= table@.len(),
            t == entries_of(table@),
            t.len() == table@.len(),
            forall|j: int| 0 <= j < table@.len() ==> #[trigger] t[j] == (table@[j].0@, value_of(table@[j].1)),
            section(value_of(*document), seq!['g', 'r', 'a', 'f', 't', 's']) == Some(t),
            out@.len() == i,
            forall|j: int| 0 <= j < i ==> (#[trigger] t[j]).1 is Text,
            forall|j: int| 0 <= j < i ==> (#[trigger] out@[j]).0@ == t[j].0 && out@[j].1@ == t[j].1->Text_0,
        decreases table@.len() - i,
    {
        match &table[i].1 {
            Json::Text(path) => {
                out.push((table[i].0.clone(), path.clone()));
            },
            _ => {
                assert(!(t[i as int].1 is Text));
                return Err(ConfigError::GraftPathNotText);
            },
        }
        i = i + 1;
    }
    Ok(out)
}

} // verus!
