//! The call hierarchy: the calls into or out of a requested item, grouped by
//! the item at their other end.

use vstd::prelude::*;
use crate::lint::findings::{
    lemma_text_irreflexive, lemma_text_total, lemma_text_transitive, text_before, text_lt,
};
use crate::lsp::diagnostics::{Position, Range};
use crate::text::chars_of;

verus! {

/// An item of the call hierarchy: a function, or a module for top-level
/// calls, with its LSP symbol kind.
pub struct Item {
    pub name: String,
    pub kind: u32,
    pub uri: String,
    pub range: Range,
    pub selection: Range,
}

/// A call: the item called, the item the call stands in, and where it is.
pub struct Call {
    pub callee: Item,
    pub owner: Item,
    pub range: Range,
}

/// The calls between the requested item and one other item.
pub struct Group {
    pub item: Item,
    pub ranges: Vec<Range>,
}

pub struct ItemView {
    pub name: Seq<char>,
    pub kind: u32,
    pub uri: Seq<char>,
    pub range: Range,
    pub selection: Range,
}

pub open spec fn item_view(i: Item) -> ItemView {
    ItemView { name: i.name@, kind: i.kind, uri: i.uri@, range: i.range, selection: i.selection }
}

/// Two items are the same when their documents, selections and names are.
pub open spec fn same_item(a: ItemView, b: ItemView) -> bool {
    a.uri == b.uri && a.selection == b.selection && a.name == b.name
}

/// The item at the requested end of a call.
pub open spec fn near(c: Call, incoming: bool) -> ItemView {
    item_view(if incoming { c.callee } else { c.owner })
}

/// The item at the other end of a call.
pub open spec fn far(c: Call, incoming: bool) -> ItemView {
    item_view(if incoming { c.owner } else { c.callee })
}

/// The call involves the requested item at its requested end.
pub open spec fn involves(c: Call, requested: ItemView, incoming: bool) -> bool {
    same_item(near(c, incoming), requested)
}

/// What groups calls: the other item's document and selection.
pub struct Key {
    pub uri: Seq<char>,
    pub start: Position,
    pub end: Position,
}

pub open spec fn key_of(i: ItemView) -> Key {
    Key { uri: i.uri, start: i.selection.start, end: i.selection.end }
}

pub open spec fn position_lt(a: Position, b: Position) -> bool {
    a.line < b.line || (a.line == b.line && a.character < b.character)
}

/// Keys are ordered by document, then selection start, then selection end.
pub open spec fn key_lt(a: Key, b: Key) -> bool {
    text_lt(a.uri, b.uri) || (a.uri == b.uri && (position_lt(a.start, b.start) || (a.start == b.start
        && position_lt(a.end, b.end))))
}

proof fn lemma_key_order(a: Key, b: Key, c: Key)
    ensures
        !key_lt(a, a),
        key_lt(a, b) && key_lt(b, c) ==> key_lt(a, c),
        a == b || key_lt(a, b) || key_lt(b, a),
{
    lemma_text_irreflexive(a.uri);
    lemma_text_total(a.uri, b.uri);
    if text_lt(a.uri, b.uri) && text_lt(b.uri, c.uri) {
        lemma_text_transitive(a.uri, b.uri, c.uri);
    }
    if text_lt(a.uri, b.uri) && text_lt(b.uri, a.uri) {
        lemma_text_transitive(a.uri, b.uri, a.uri);
    }
    if text_lt(b.uri, c.uri) && text_lt(c.uri, b.uri) {
        lemma_text_transitive(b.uri, c.uri, b.uri);
    }
    lemma_text_irreflexive(b.uri);
}

/// The first call among `calls` that involves the requested item and whose
/// other item has key `k`.
pub open spec fn first_with(calls: Seq<Call>, requested: ItemView, incoming: bool, k: Key) -> Option<int>
    decreases calls.len(),
{
    if calls.len() == 0 {
        None
    } else {
        match first_with(calls.drop_last(), requested, incoming, k) {
            Some(f) => Some(f),
            None => if involves(calls.last(), requested, incoming) && key_of(far(calls.last(), incoming)) == k {
                Some(calls.len() - 1)
            } else {
                None
            },
        }
    }
}

/// The ranges of the calls that involve the requested item and whose other
/// item has key `k`, each once, in the order they first occur.
pub open spec fn ranges_with(calls: Seq<Call>, requested: ItemView, incoming: bool, k: Key) -> Seq<Range>
    decreases calls.len(),
{
    if calls.len() == 0 {
        Seq::empty()
    } else {
        let earlier = ranges_with(calls.drop_last(), requested, incoming, k);
        let c = calls.last();
        if involves(c, requested, incoming) && key_of(far(c, incoming)) == k && !earlier.contains(c.range) {
            earlier.push(c.range)
        } else {
            earlier
        }
    }
}

/// `groups` are the calls of `calls` that involve the requested item,
/// grouped by the key of their other item in ascending key order: each group
/// holds the other item of the first such call and the ranges of them all.
pub open spec fn grouped(calls: Seq<Call>, requested: ItemView, incoming: bool, groups: Seq<Group>) -> bool {
    &&& forall|a: int, b: int| 0 <= a < b < groups.len() ==> key_lt(
        key_of(item_view(#[trigger] groups[a].item)),
        key_of(item_view(#[trigger] groups[b].item)),
    )
    &&& forall|g: int|
        0 <= g < groups.len() ==> (first_with(calls, requested, incoming, key_of(item_view(#[trigger] groups[g].item))) matches Some(f)
            && item_view(groups[g].item) == far(calls[f], incoming) && groups[g].ranges@ == ranges_with(
            calls,
            requested,
            incoming,
            key_of(item_view(groups[g].item)),
        ))
    &&& forall|j: int|
        0 <= j < calls.len() && involves(#[trigger] calls[j], requested, incoming) ==> exists|g: int|
            0 <= g < groups.len() && key_of(item_view(#[trigger] groups[g].item)) == key_of(far(calls[j], incoming))
}

proof fn lemma_first_with(calls: Seq<Call>, requested: ItemView, incoming: bool, k: Key)
    ensures
        first_with(calls, requested, incoming, k) matches Some(f) ==> 0 <= f < calls.len() && involves(
            calls[f],
            requested,
            incoming,
        ) && key_of(far(calls[f], incoming)) == k,
        first_with(calls, requested, incoming, k) is None ==> forall|j: int|
            0 <= j < calls.len() && involves(#[trigger] calls[j], requested, incoming) ==> key_of(
                far(calls[j], incoming),
            ) != k,
    decreases calls.len(),
{
    if calls.len() > 0 {
        let front = calls.drop_last();
        lemma_first_with(front, requested, incoming, k);
        if first_with(calls, requested, incoming, k) is None {
            assert forall|j: int|
                0 <= j < calls.len() && involves(#[trigger] calls[j], requested, incoming) implies key_of(
                far(calls[j], incoming),
            ) != k by {
                if j < front.len() {
                    assert(front[j] == calls[j]);
                }
            }
        }
    }
}

fn positions_before(a: Position, b: Position) -> (r: bool)
    ensures
        r == position_lt(a, b),
{
    a.line < b.line || (a.line == b.line && a.character < b.character)
}

fn key_before(a: &Item, b: &Item) -> (r: bool)
    ensures
        r == key_lt(key_of(item_view(*a)), key_of(item_view(*b))),
{
    let x = chars_of(a.uri.as_str());
    let y = chars_of(b.uri.as_str());
    if text_before(x.as_slice(), y.as_slice()) {
        return true;
    }
    if a.uri != b.uri {
        return false;
    }
    positions_before(a.selection.start, b.selection.start) || (a.selection.start
        == b.selection.start && positions_before(a.selection.end, b.selection.end))
}

fn same_key(a: &Item, b: &Item) -> (r: bool)
    ensures
        r == (key_of(item_view(*a)) == key_of(item_view(*b))),
{
    a.uri == b.uri && a.selection.start == b.selection.start && a.selection.end == b.selection.end
}

fn copy_item(i: &Item) -> (r: Item)
    ensures
        item_view(r) == item_view(*i),
{
    Item {
        name: i.name.clone(),
        kind: i.kind,
        uri: i.uri.clone(),
        range: i.range,
        selection: i.selection,
    }
}

fn contains_range(v: &Vec<Range>, r: Range) -> (b: bool)
    ensures
        b == v@.contains(r),
{
    let mut i: usize = 0;
    while i < v.len()
        invariant
            i <= v@.len(),
            forall|k: int| 0 <= k < i ==> v@[k] != r,
        decreases v@.len() - i,
    {
        if v[i] == r {
            assert(v@[i as int] == r);
            return true;
        }
        i = i + 1;
    }
    false
}

/// A call that does not involve the requested item changes no group.
proof fn lemma_skip(prefix: Seq<Call>, next: Seq<Call>, req: ItemView, incoming: bool, groups: Seq<Group>)
    requires
        next.len() > 0,
        next.drop_last() == prefix,
        !involves(next.last(), req, incoming),
        grouped(prefix, req, incoming, groups),
    ensures
        grouped(next, req, incoming, groups),
{
    assert forall|j: int| 0 <= j < prefix.len() implies #[trigger] next[j] == prefix[j] by {}
    assert forall|g: int| 0 <= g < groups.len() implies (first_with(next, req, incoming, key_of(item_view(#[trigger] groups[g].item))) matches Some(f)
        && item_view(groups[g].item) == far(next[f], incoming) && groups[g].ranges@ == ranges_with(
        next,
        req,
        incoming,
        key_of(item_view(groups[g].item)),
    )) by {
        lemma_first_with(prefix, req, incoming, key_of(item_view(groups[g].item)));
    }
    assert forall|j: int| 0 <= j < next.len() && involves(#[trigger] next[j], req, incoming) implies exists|g: int|
        0 <= g < groups.len() && key_of(item_view(#[trigger] groups[g].item)) == key_of(far(next[j], incoming)) by {
        assert(j < prefix.len());
        assert(next[j] == prefix[j]);
    }
}

/// A call whose other item already has a group adds its range to it.
proof fn lemma_join(
    prefix: Seq<Call>,
    next: Seq<Call>,
    req: ItemView,
    incoming: bool,
    old_groups: Seq<Group>,
    groups: Seq<Group>,
    p: int,
)
    requires
        next.len() > 0,
        next.drop_last() == prefix,
        involves(next.last(), req, incoming),
        grouped(prefix, req, incoming, old_groups),
        0 <= p < old_groups.len(),
        key_of(item_view(old_groups[p].item)) == key_of(far(next.last(), incoming)),
        groups.len() == old_groups.len(),
        forall|g: int| 0 <= g < groups.len() && g != p ==> #[trigger] groups[g] == old_groups[g],
        item_view(groups[p].item) == item_view(old_groups[p].item),
        groups[p].ranges@ == if old_groups[p].ranges@.contains(next.last().range) {
            old_groups[p].ranges@
        } else {
            old_groups[p].ranges@.push(next.last().range)
        },
    ensures
        grouped(next, req, incoming, groups),
{
    let k = key_of(far(next.last(), incoming));
    assert forall|j: int| 0 <= j < prefix.len() implies #[trigger] next[j] == prefix[j] by {}
    assert forall|g: int| 0 <= g < groups.len() implies item_view(#[trigger] groups[g].item) == item_view(old_groups[g].item) by {}
    assert forall|a: int, b: int| 0 <= a < b < groups.len() implies key_lt(
        key_of(item_view(#[trigger] groups[a].item)),
        key_of(item_view(#[trigger] groups[b].item)),
    ) by {
        assert(item_view(groups[a].item) == item_view(old_groups[a].item));
        assert(item_view(groups[b].item) == item_view(old_groups[b].item));
    }
    assert forall|g: int| 0 <= g < groups.len() implies (first_with(next, req, incoming, key_of(item_view(#[trigger] groups[g].item))) matches Some(f)
        && item_view(groups[g].item) == far(next[f], incoming) && groups[g].ranges@ == ranges_with(
        next,
        req,
        incoming,
        key_of(item_view(groups[g].item)),
    )) by {
        let kg = key_of(item_view(groups[g].item));
        assert(item_view(groups[g].item) == item_view(old_groups[g].item));
        assert(key_of(item_view(old_groups[g].item)) == kg);
        lemma_first_with(prefix, req, incoming, kg);
        if g != p {
            lemma_key_order(kg, k, k);
            if kg == k {
                lemma_key_order(key_of(item_view(old_groups[if g < p { g } else { p }].item)), key_of(item_view(old_groups[if g < p { p } else { g }].item)), k);
            }
        }
    }
    assert forall|j: int| 0 <= j < next.len() && involves(#[trigger] next[j], req, incoming) implies exists|g: int|
        0 <= g < groups.len() && key_of(item_view(#[trigger] groups[g].item)) == key_of(far(next[j], incoming)) by {
        if j < prefix.len() {
            assert(next[j] == prefix[j]);
            let g = choose|g: int| 0 <= g < old_groups.len() && key_of(item_view(#[trigger] old_groups[g].item)) == key_of(far(prefix[j], incoming));
            assert(item_view(groups[g].item) == item_view(old_groups[g].item));
        } else {
            assert(key_of(item_view(groups[p].item)) == key_of(far(next[j], incoming)));
        }
    }
}

/// A call whose other item has no group yet starts one, in key order.
proof fn lemma_add(
    prefix: Seq<Call>,
    next: Seq<Call>,
    req: ItemView,
    incoming: bool,
    old_groups: Seq<Group>,
    groups: Seq<Group>,
    p: int,
)
    requires
        next.len() > 0,
        next.drop_last() == prefix,
        involves(next.last(), req, incoming),
        grouped(prefix, req, incoming, old_groups),
        0 <= p <= old_groups.len(),
        forall|q: int| 0 <= q < p ==> key_lt(key_of(item_view(#[trigger] old_groups[q].item)), key_of(far(next.last(), incoming))),
        p < old_groups.len() ==> key_lt(key_of(far(next.last(), incoming)), key_of(item_view(old_groups[p].item))),
        groups.len() == old_groups.len() + 1,
        forall|g: int| 0 <= g < p ==> #[trigger] groups[g] == old_groups[g],
        forall|g: int| p < g < groups.len() ==> #[trigger] groups[g] == old_groups[g - 1],
        item_view(groups[p].item) == far(next.last(), incoming),
        groups[p].ranges@ == seq![next.last().range],
    ensures
        grouped(next, req, incoming, groups),
{
    let k = key_of(far(next.last(), incoming));
    assert forall|j: int| 0 <= j < prefix.len() implies #[trigger] next[j] == prefix[j] by {}
    // No earlier call involving the item has key `k`.
    assert forall|j: int| 0 <= j < prefix.len() && involves(#[trigger] prefix[j], req, incoming) implies key_of(far(prefix[j], incoming)) != k by {
        let h = choose|h: int| 0 <= h < old_groups.len() && key_of(item_view(#[trigger] old_groups[h].item)) == key_of(far(prefix[j], incoming));
        let kh = key_of(item_view(old_groups[h].item));
        lemma_key_order(kh, kh, kh);
        if h >= p {
            let kp = key_of(item_view(old_groups[p].item));
            if h > p {
                lemma_key_order(k, kp, kh);
            }
        }
    }
    assert(first_with(prefix, req, incoming, k) is None) by {
        lemma_first_with(prefix, req, incoming, k);
    }
    lemma_ranges_empty(prefix, req, incoming, k);
    assert forall|a: int, b: int| 0 <= a < b < groups.len() implies key_lt(
        key_of(item_view(#[trigger] groups[a].item)),
        key_of(item_view(#[trigger] groups[b].item)),
    ) by {
        let ka = key_of(item_view(groups[a].item));
        let kb = key_of(item_view(groups[b].item));
        if b < p {
            assert(groups[a] == old_groups[a] && groups[b] == old_groups[b]);
        } else if b == p {
            assert(groups[a] == old_groups[a]);
        } else if a == p {
            assert(groups[b] == old_groups[b - 1]);
            let kp = key_of(item_view(old_groups[p].item));
            if b - 1 > p {
                assert(key_lt(kp, kb));
                lemma_key_order(k, kp, kb);
            }
        } else if a < p {
            assert(groups[a] == old_groups[a] && groups[b] == old_groups[b - 1]);
        } else {
            assert(groups[a] == old_groups[a - 1] && groups[b] == old_groups[b - 1]);
        }
    }
    assert forall|g: int| 0 <= g < groups.len() implies (first_with(next, req, incoming, key_of(item_view(#[trigger] groups[g].item))) matches Some(f)
        && item_view(groups[g].item) == far(next[f], incoming) && groups[g].ranges@ == ranges_with(
        next,
        req,
        incoming,
        key_of(item_view(groups[g].item)),
    )) by {
        let kg = key_of(item_view(groups[g].item));
        if g == p {
            assert(ranges_with(prefix, req, incoming, k) =~= Seq::<Range>::empty());
            assert(seq![next.last().range] =~= Seq::<Range>::empty().push(next.last().range));
        } else {
            let h = if g < p { g } else { g - 1 };
            assert(groups[g] == old_groups[h]);
            lemma_first_with(prefix, req, incoming, kg);
            if h < p {
                lemma_key_order(kg, k, kg);
            } else {
                let kp = key_of(item_view(old_groups[p].item));
                if h > p {
                    lemma_key_order(k, kp, kg);
                }
                lemma_key_order(k, kg, k);
            }
        }
    }
    assert forall|j: int| 0 <= j < next.len() && involves(#[trigger] next[j], req, incoming) implies exists|g: int|
        0 <= g < groups.len() && key_of(item_view(#[trigger] groups[g].item)) == key_of(far(next[j], incoming)) by {
        if j < prefix.len() {
            assert(next[j] == prefix[j]);
            let h = choose|h: int| 0 <= h < old_groups.len() && key_of(item_view(#[trigger] old_groups[h].item)) == key_of(far(prefix[j], incoming));
            let g = if h < p { h } else { h + 1 };
            assert(groups[g] == old_groups[h]);
        } else {
            assert(key_of(item_view(groups[p].item)) == key_of(far(next[j], incoming)));
        }
    }
}

/// The calls of `calls` into the requested item (`incoming`) or out of it,
/// grouped by the item at their other end in ascending order of its document
/// and selection, each group with the ranges of its calls, once each.
pub fn grouped_calls(calls: &Vec<Call>, requested: &Item, incoming: bool) -> (groups: Vec<Group>)
    ensures
        grouped(calls@, item_view(*requested), incoming, groups@),
{
    let ghost req = item_view(*requested);
    let mut groups: Vec<Group> = Vec::new();
    let mut i: usize = 0;
    while i < calls.len()
        invariant
            i <= calls@.len(),
            req == item_view(*requested),
            grouped(calls@.take(i as int), req, incoming, groups@),
        decreases calls@.len() - i,
    {
        let ghost prefix = calls@.take(i as int);
        let ghost next = calls@.take(i + 1);
        let ghost old_groups = groups@;
        assert(next.drop_last() =~= prefix);
        assert(next.last() == calls@[i as int]);
        let c = &calls[i];
        let near_item = if incoming {
            &c.callee
        } else {
            &c.owner
        };
        let other = if incoming {
            &c.owner
        } else {
            &c.callee
        };
        let matching = near_item.uri == requested.uri && near_item.selection == requested.selection
            && near_item.name == requested.name;
        if !matching {
            proof {
                lemma_skip(prefix, next, req, incoming, groups@);
            }
        } else {
            let ghost k = key_of(far(calls@[i as int], incoming));
            let mut p: usize = 0;
            while p < groups.len() && key_before(&groups[p].item, other)
                invariant
                    p <= groups@.len(),
                    groups@ == old_groups,
                    forall|q: int| 0 <= q < p ==> key_lt(key_of(item_view(#[trigger] groups@[q].item)), k),
                    k == key_of(item_view(*other)),
                decreases groups@.len() - p,
            {
                p = p + 1;
            }
            if p < groups.len() && same_key(&groups[p].item, other) {
                let range = c.range;
                let mut group = groups.remove(p);
                let seen = contains_range(&group.ranges, range);
                if !seen {
                    group.ranges.push(range);
                }
                groups.insert(p, group);
                proof {
                    lemma_join(prefix, next, req, incoming, old_groups, groups@, p as int);
                }
            } else {
                proof {
                    if p < old_groups.len() {
                        lemma_key_order(k, key_of(item_view(old_groups[p as int].item)), k);
                    }
                }
                let group = Group { item: copy_item(other), ranges: vec![c.range] };
                groups.insert(p, group);
                proof {
                    assert(groups@[p as int].ranges@ =~= seq![calls@[i as int].range]);
                    lemma_add(prefix, next, req, incoming, old_groups, groups@, p as int);
                }
            }
        }
        i = i + 1;
    }
    assert(calls@.take(calls@.len() as int) =~= calls@);
    groups
}

/// No call with key `k` involves the requested item: no range for it.
proof fn lemma_ranges_empty(calls: Seq<Call>, requested: ItemView, incoming: bool, k: Key)
    requires
        first_with(calls, requested, incoming, k) is None,
    ensures
        ranges_with(calls, requested, incoming, k).len() == 0,
    decreases calls.len(),
{
    if calls.len() > 0 {
        let front = calls.drop_last();
        assert(first_with(front, requested, incoming, k) is None);
        lemma_ranges_empty(front, requested, incoming, k);
    }
}


/// Item `item` stands for the function whose body is `container`: it starts
/// no later and ends where the container ends.
pub open spec fn encloses(item: Item, container: Range) -> bool {
    !position_lt(container.start, item.range.start) && item.range.end == container.end
}

/// The first of `items` that stands for the function `container`, if any.
pub fn enclosing(items: &Vec<Item>, container: Range) -> (r: Option<usize>)
    ensures
        match r {
            Some(i) => i < items@.len() && encloses(items@[i as int], container) && forall|j: int|
                0 <= j < i ==> !encloses(#[trigger] items@[j], container),
            None => forall|j: int| 0 <= j < items@.len() ==> !encloses(#[trigger] items@[j], container),
        },
{
    let mut i: usize = 0;
    while i < items.len()
        invariant
            i <= items@.len(),
            forall|j: int| 0 <= j < i ==> !encloses(#[trigger] items@[j], container),
        decreases items@.len() - i,
    {
        let start = items[i].range.start;
        let later = container.start.line < start.line || (container.start.line == start.line
            && container.start.character < start.character);
        if !later && items[i].range.end == container.end {
            return Some(i);
        }
        i = i + 1;
    }
    None
}

/// The item that a call inside a function with no symbol of its own stands
/// in: an anonymous function over the function's range, selected at its start.
pub fn anonymous(uri: &String, container: Range) -> (r: Item)
    ensures
        item_view(r) == (ItemView {
            name: "(anonymous)"@,
            kind: 12,
            uri: uri@,
            range: container,
            selection: Range { start: container.start, end: container.start },
        }),
{
    Item {
        name: crate::text::string_of(chars_of("(anonymous)").as_slice()),
        kind: 12,
        uri: uri.clone(),
        range: container,
        selection: Range { start: container.start, end: container.start },
    }
}

/// The item that a top-level call stands in: the module, named after its
/// file, over the whole document up to `end`.
pub fn module(name: &String, uri: &String, end: Position) -> (r: Item)
    ensures
        item_view(r) == (ItemView {
            name: name@,
            kind: 2,
            uri: uri@,
            range: Range { start: Position { line: 0, character: 0 }, end },
            selection: Range { start: Position { line: 0, character: 0 }, end: Position { line: 0, character: 0 } },
        }),
{
    let origin = Position { line: 0, character: 0 };
    Item { name: name.clone(), kind: 2, uri: uri.clone(), range: Range { start: origin, end }, selection: Range { start: origin, end: origin } }
}

} // verus!
