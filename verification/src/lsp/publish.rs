//! Publishing diagnostics: which files get which diagnostics after the
//! analyzer reported on some requested files.

use vstd::prelude::*;
use crate::lsp::diagnostics::{
    diagnostic_view, diagnostics_view, related_view, Diagnostic, DiagnosticView, Position, Range,
    Related,
};
use crate::lsp::index::{lemma_path_irreflexive, lemma_path_total, lemma_path_transitive, path_less, path_lt};
use crate::lsp::kinds::Severity;
use crate::lint::calls::{lookup_text, text_lookup};
use crate::text::{char_from, chars_of, copy_range, find_char, lemma_char_from, string_of};

verus! {

/// A diagnostic of the analyzer, its range and related locations already
/// read from the source; `absolute` tells whether its path names a file.
pub struct Incoming {
    pub path: String,
    pub absolute: bool,
    pub is_error: bool,
    pub message: String,
    pub range: Range,
    pub related: Vec<Related>,
}

/// The start of a document.
pub open spec fn zero_range() -> Range {
    Range { start: Position { line: 0, character: 0 }, end: Position { line: 0, character: 0 } }
}

/// The code of a message: what comes before its first colon, if any.
pub open spec fn code_of(message: Seq<char>) -> Option<Seq<char>> {
    match char_from(message, 0, ':') {
        Some(i) => Some(message.take(i)),
        None => None,
    }
}

pub open spec fn severity_of(d: Incoming) -> Severity {
    if d.is_error {
        Severity::Error
    } else {
        Severity::Warning
    }
}

/// How an analyzer diagnostic is shown: one about a file with its range,
/// code, source and related locations; one about no file with its message
/// and severity alone.
pub open spec fn shown(d: Incoming) -> DiagnosticView {
    if d.absolute {
        DiagnosticView {
            range: d.range,
            severity: Some(severity_of(d)),
            code: code_of(d.message@),
            source: Some("instar"@),
            message: d.message@,
            related: d.related@.map_values(|r: Related| related_view(r)),
        }
    } else {
        DiagnosticView {
            range: zero_range(),
            severity: Some(severity_of(d)),
            code: None,
            source: None,
            message: d.message@,
            related: Seq::empty(),
        }
    }
}

/// The diagnostic every requested file gets when the analyzer failed.
pub open spec fn failure_view(message: Seq<char>) -> DiagnosticView {
    DiagnosticView {
        range: zero_range(),
        severity: Some(Severity::Error),
        code: None,
        source: None,
        message,
        related: Seq::empty(),
    }
}

/// The file `p` was requested.
pub open spec fn requested(paths: Seq<String>, p: Seq<char>) -> bool {
    exists|i: int| 0 <= i < paths.len() && #[trigger] paths[i]@ == p
}

/// The file `p` gets a publication once the diagnostics `ds` are read: it
/// was requested, or one of them is about it.
pub open spec fn listed(paths: Seq<String>, ds: Seq<Incoming>, p: Seq<char>) -> bool {
    requested(paths, p) || exists|k: int| 0 <= k < ds.len() && #[trigger] ds[k].absolute && ds[k].path@ == p
}

/// What the file `p` is shown of the diagnostics `ds`, in order: those about
/// it, and those about no file that came once it was listed.
pub open spec fn shown_for(paths: Seq<String>, ds: Seq<Incoming>, p: Seq<char>) -> Seq<DiagnosticView>
    decreases ds.len(),
{
    if ds.len() == 0 {
        Seq::empty()
    } else {
        let earlier = shown_for(paths, ds.drop_last(), p);
        let d = ds.last();
        if (d.absolute && d.path@ == p) || (!d.absolute && listed(paths, ds.drop_last(), p)) {
            earlier.push(shown(d))
        } else {
            earlier
        }
    }
}

/// Entries in strictly ascending path order.
pub open spec fn ascending(out: Seq<(String, Vec<Diagnostic>)>) -> bool {
    forall|a: int, b: int| 0 <= a < b < out.len() ==> path_lt(#[trigger] out[a].0@, #[trigger] out[b].0@)
}

/// Some entry is for the file `p`.
pub open spec fn keyed(out: Seq<(String, Vec<Diagnostic>)>, p: Seq<char>) -> bool {
    exists|e: int| 0 <= e < out.len() && #[trigger] out[e].0@ == p
}

/// `out` publishes, in path order, one entry for each listed file, with what
/// it is shown.
pub open spec fn publishes(paths: Seq<String>, ds: Seq<Incoming>, out: Seq<(String, Vec<Diagnostic>)>) -> bool {
    &&& ascending(out)
    &&& forall|e: int|
        0 <= e < out.len() ==> listed(paths, ds, #[trigger] out[e].0@) && diagnostics_view(out[e].1@)
            == shown_for(paths, ds, out[e].0@)
    &&& forall|p: Seq<char>| listed(paths, ds, p) ==> #[trigger] keyed(out, p)
}

/// The publications after the analyzer reported on `paths`: none when no
/// file was requested; when the analyzer failed, each requested file with
/// the failure; else each listed file with what it is shown.
pub open spec fn publications_of(
    paths: Seq<String>,
    report: Result<Seq<Incoming>, Seq<char>>,
    out: Seq<(String, Vec<Diagnostic>)>,
) -> bool {
    if paths.len() == 0 {
        out.len() == 0
    } else {
        match report {
            Ok(ds) => publishes(paths, ds, out),
            Err(m) => {
                &&& ascending(out)
                &&& forall|e: int|
                    0 <= e < out.len() ==> requested(paths, #[trigger] out[e].0@) && diagnostics_view(
                        out[e].1@,
                    ) == seq![failure_view(m)]
                &&& forall|p: Seq<char>| requested(paths, p) ==> #[trigger] keyed(out, p)
            },
        }
    }
}

/// The entry for `key`, made empty at its place in path order when there was
/// none.
fn slot(out: &mut Vec<(String, Vec<Diagnostic>)>, key: &String) -> (p: usize)
    requires
        ascending(old(out)@),
    ensures
        ascending(final(out)@),
        p < final(out)@.len(),
        final(out)@[p as int].0@ == key@,
        keyed(old(out)@, key@) ==> final(out)@ == old(out)@,
        !keyed(old(out)@, key@) ==> final(out)@.len() == old(out)@.len() + 1 && final(out)@[p as int].1@.len()
            == 0 && (forall|g: int| 0 <= g < p ==> #[trigger] final(out)@[g] == old(out)@[g]) && (forall|g: int|
            p < g < final(out)@.len() ==> #[trigger] final(out)@[g] == old(out)@[g - 1]),
{
    let mut i: usize = 0;
    while i < out.len()
        invariant
            i <= out@.len(),
            out@ == old(out)@,
            ascending(out@),
            forall|k: int| 0 <= k < i ==> path_lt(#[trigger] out@[k].0@, key@),
        decreases out@.len() - i,
    {
        if out[i].0 == *key {
            return i;
        }
        if path_less(key.as_str(), out[i].0.as_str()) {
            let ghost before = out@;
            proof {
                assert forall|k: int| i <= k < before.len() implies path_lt(key@, #[trigger] before[k].0@) by {
                    if k > i {
                        lemma_path_transitive(key@, before[i as int].0@, before[k].0@);
                    }
                }
                assert(!keyed(before, key@)) by {
                    if keyed(before, key@) {
                        let k = choose|k: int| 0 <= k < before.len() && #[trigger] before[k].0@ == key@;
                        lemma_path_irreflexive(key@);
                    }
                }
            }
            out.insert(i, (key.clone(), Vec::new()));
            assert forall|a: int, b: int| 0 <= a < b < out@.len() implies path_lt(#[trigger] out@[a].0@, #[trigger] out@[b].0@) by {
                if b < i {
                    assert(out@[a] == before[a] && out@[b] == before[b]);
                } else if b == i {
                    assert(out@[a] == before[a]);
                } else if a == i {
                    assert(out@[b] == before[b - 1]);
                } else if a < i {
                    assert(out@[a] == before[a] && out@[b] == before[b - 1]);
                } else {
                    assert(out@[a] == before[a - 1] && out@[b] == before[b - 1]);
                }
            }
            return i;
        }
        proof {
            lemma_path_total(key@, out@[i as int].0@);
        }
        i = i + 1;
    }
    let ghost before = out@;
    assert(!keyed(before, key@)) by {
        if keyed(before, key@) {
            let k = choose|k: int| 0 <= k < before.len() && #[trigger] before[k].0@ == key@;
            lemma_path_irreflexive(key@);
        }
    }
    out.push((key.clone(), Vec::new()));
    assert forall|a: int, b: int| 0 <= a < b < out@.len() implies path_lt(#[trigger] out@[a].0@, #[trigger] out@[b].0@) by {
        assert(out@[a] == before[a]);
        if b < before.len() {
            assert(out@[b] == before[b]);
        }
    }
    out.len() - 1
}

fn copy_related_list(v: &Vec<Related>) -> (c: Vec<Related>)
    ensures
        c@.map_values(|r: Related| related_view(r)) == v@.map_values(|r: Related| related_view(r)),
{
    let mut c: Vec<Related> = Vec::new();
    let mut i: usize = 0;
    while i < v.len()
        invariant
            i <= v@.len(),
            c@.len() == i,
            forall|k: int| 0 <= k < i ==> related_view(#[trigger] c@[k]) == related_view(v@[k]),
        decreases v@.len() - i,
    {
        c.push(Related { uri: v[i].uri.clone(), range: v[i].range, message: v[i].message.clone() });
        i = i + 1;
    }
    assert(c@.map_values(|r: Related| related_view(r)) =~= v@.map_values(|r: Related| related_view(r)));
    c
}

/// The diagnostic shown for `d`.
fn show(d: &Incoming) -> (r: Diagnostic)
    ensures
        diagnostic_view(r) == shown(*d),
{
    let severity = if d.is_error {
        Severity::Error
    } else {
        Severity::Warning
    };
    if d.absolute {
        let m = chars_of(d.message.as_str());
        proof {
            lemma_char_from(m@, 0, ':');
        }
        let code = match find_char(m.as_slice(), 0, ':') {
            Some(i) => {
                assert(m@.subrange(0, i as int) =~= m@.take(i as int));
                Some(string_of(copy_range(m.as_slice(), 0, i).as_slice()))
            },
            None => None,
        };
        let r = Diagnostic {
            range: d.range,
            severity: Some(severity),
            code,
            source: Some(string_of(chars_of("instar").as_slice())),
            message: d.message.clone(),
            related: copy_related_list(&d.related),
        };
        r
    } else {
        let r = Diagnostic {
            range: Range { start: Position { line: 0, character: 0 }, end: Position { line: 0, character: 0 } },
            severity: Some(severity),
            code: None,
            source: None,
            message: d.message.clone(),
            related: Vec::new(),
        };
        assert(r.related@.map_values(|x: Related| related_view(x)) =~= Seq::<crate::lsp::diagnostics::RelatedView>::empty());
        r
    }
}

/// A copy of `d`.
fn copy_of(d: &Diagnostic) -> (r: Diagnostic)
    ensures
        diagnostic_view(r) == diagnostic_view(*d),
{
    Diagnostic {
        range: d.range,
        severity: d.severity,
        code: match &d.code {
            Some(c) => Some(c.clone()),
            None => None,
        },
        source: match &d.source {
            Some(s) => Some(s.clone()),
            None => None,
        },
        message: d.message.clone(),
        related: copy_related_list(&d.related),
    }
}

/// Appends a copy of `d` to the diagnostics of every entry.
fn append_everywhere(out: &mut Vec<(String, Vec<Diagnostic>)>, d: &Diagnostic)
    ensures
        final(out)@.len() == old(out)@.len(),
        forall|e: int| 0 <= e < final(out)@.len() ==> #[trigger] final(out)@[e].0 == old(out)@[e].0,
        forall|e: int|
            0 <= e < final(out)@.len() ==> diagnostics_view(#[trigger] final(out)@[e].1@) == diagnostics_view(
                old(out)@[e].1@,
            ).push(diagnostic_view(*d)),
{
    let ghost before = out@;
    let mut i: usize = 0;
    while i < out.len()
        invariant
            i <= out@.len() == before.len(),
            forall|e: int| 0 <= e < out@.len() ==> #[trigger] out@[e].0 == before[e].0,
            forall|e: int|
                0 <= e < i ==> diagnostics_view(#[trigger] out@[e].1@) == diagnostics_view(before[e].1@).push(
                    diagnostic_view(*d),
                ),
            forall|e: int| i <= e < out@.len() ==> #[trigger] out@[e] == before[e],
        decreases out@.len() - i,
    {
        let (key, mut items) = out.remove(i);
        let ghost old_items = items@;
        items.push(copy_of(d));
        assert(diagnostics_view(items@) =~= diagnostics_view(old_items).push(diagnostic_view(*d)));
        out.insert(i, (key, items));
        i = i + 1;
    }
}

/// Appends `d` to the diagnostics of entry `p`.
fn append_at(out: &mut Vec<(String, Vec<Diagnostic>)>, p: usize, d: Diagnostic)
    requires
        p < old(out)@.len(),
    ensures
        final(out)@.len() == old(out)@.len(),
        forall|e: int| 0 <= e < final(out)@.len() ==> #[trigger] final(out)@[e].0 == old(out)@[e].0,
        forall|e: int| 0 <= e < final(out)@.len() && e != p ==> #[trigger] final(out)@[e] == old(out)@[e],
        diagnostics_view(final(out)@[p as int].1@) == diagnostics_view(old(out)@[p as int].1@).push(
            diagnostic_view(d),
        ),
{
    let (key, mut items) = out.remove(p);
    let ghost old_items = items@;
    let ghost view = diagnostic_view(d);
    items.push(d);
    assert(diagnostics_view(items@) =~= diagnostics_view(old_items).push(view));
    out.insert(p, (key, items));
}

/// A file not yet listed is shown nothing.
proof fn lemma_unlisted(paths: Seq<String>, ds: Seq<Incoming>, p: Seq<char>)
    requires
        !listed(paths, ds, p),
    ensures
        shown_for(paths, ds, p).len() == 0,
    decreases ds.len(),
{
    if ds.len() > 0 {
        let front = ds.drop_last();
        assert(!listed(paths, front, p)) by {
            if exists|k: int| 0 <= k < front.len() && #[trigger] front[k].absolute && front[k].path@ == p {
                let k = choose|k: int| 0 <= k < front.len() && #[trigger] front[k].absolute && front[k].path@ == p;
                assert(ds[k] == front[k]);
            }
        }
        lemma_unlisted(paths, front, p);
        assert(!(ds.last().absolute && ds.last().path@ == p)) by {
            if ds.last().absolute && ds.last().path@ == p {
                assert(ds[ds.len() - 1].absolute);
            }
        }
    }
}

/// What is listed stays listed as diagnostics are read.
proof fn lemma_listed_grows(paths: Seq<String>, prefix: Seq<Incoming>, d: Incoming, p: Seq<char>)
    ensures
        listed(paths, prefix.push(d), p) == (listed(paths, prefix, p) || (d.absolute && d.path@ == p)),
{
    let next = prefix.push(d);
    if exists|k: int| 0 <= k < prefix.len() && #[trigger] prefix[k].absolute && prefix[k].path@ == p {
        let k = choose|k: int| 0 <= k < prefix.len() && #[trigger] prefix[k].absolute && prefix[k].path@ == p;
        assert(next[k] == prefix[k]);
    }
    if d.absolute && d.path@ == p {
        assert(next[prefix.len() as int] == d);
    }
    if exists|k: int| 0 <= k < next.len() && #[trigger] next[k].absolute && next[k].path@ == p {
        let k = choose|k: int| 0 <= k < next.len() && #[trigger] next[k].absolute && next[k].path@ == p;
        if k < prefix.len() {
            assert(next[k] == prefix[k]);
        }
    }
}

proof fn lemma_absolute(
    paths: Seq<String>,
    prefix: Seq<Incoming>,
    d: Incoming,
    out0: Seq<(String, Vec<Diagnostic>)>,
    out1: Seq<(String, Vec<Diagnostic>)>,
    out2: Seq<(String, Vec<Diagnostic>)>,
    p: int,
)
    requires
        publishes(paths, prefix, out0),
        d.absolute,
        ascending(out1),
        0 <= p < out1.len(),
        out1[p].0@ == d.path@,
        keyed(out0, d.path@) ==> out1 == out0,
        !keyed(out0, d.path@) ==> out1.len() == out0.len() + 1 && out1[p].1@.len() == 0 && (forall|g: int|
            0 <= g < p ==> #[trigger] out1[g] == out0[g]) && (forall|g: int| p < g < out1.len() ==> #[trigger] out1[g] == out0[g - 1]),
        out2.len() == out1.len(),
        forall|e: int| 0 <= e < out2.len() ==> #[trigger] out2[e].0 == out1[e].0,
        forall|e: int| 0 <= e < out2.len() && e != p ==> #[trigger] out2[e] == out1[e],
        diagnostics_view(out2[p].1@) == diagnostics_view(out1[p].1@).push(shown(d)),
    ensures
        publishes(paths, prefix.push(d), out2),
{
    let next = prefix.push(d);
    let q = d.path@;
    assert(next.drop_last() =~= prefix);
    assert(next.last() == d);
    assert forall|a: int, b: int| 0 <= a < b < out2.len() implies path_lt(#[trigger] out2[a].0@, #[trigger] out2[b].0@) by {
        assert(out2[a].0 == out1[a].0 && out2[b].0 == out1[b].0);
    }
    // Every entry of `out1` other than `p` is an entry of `out0`.
    assert forall|e: int| 0 <= e < out1.len() && e != p implies exists|f: int| 0 <= f < out0.len() && #[trigger] out0[f] == #[trigger] out1[e] by {
        if keyed(out0, q) {
            assert(out0[e] == out1[e]);
        } else if e < p {
            assert(out0[e] == out1[e]);
        } else {
            assert(out0[e - 1] == out1[e]);
        }
    }
    assert forall|e: int| 0 <= e < out2.len() implies listed(paths, next, #[trigger] out2[e].0@) && diagnostics_view(out2[e].1@)
        == shown_for(paths, next, out2[e].0@) by {
        let k = out2[e].0@;
        lemma_listed_grows(paths, prefix, d, k);
        if e == p {
            if keyed(out0, q) {
                let f = choose|f: int| 0 <= f < out0.len() && #[trigger] out0[f].0@ == q;
                assert(out1[f] == out0[f]);
                if f != p {
                    lemma_path_irreflexive(q);
                    assert(path_lt(out1[if f < p { f } else { p }].0@, out1[if f < p { p } else { f }].0@));
                }
            } else {
                assert(!listed(paths, prefix, q));
                lemma_unlisted(paths, prefix, q);
                assert(diagnostics_view(out1[p].1@) =~= Seq::<DiagnosticView>::empty());
            }
        } else {
            let f = choose|f: int| 0 <= f < out0.len() && #[trigger] out0[f] == out1[e];
            assert(out2[e] == out0[f]);
            assert(k != q) by {
                if k == q {
                    lemma_path_irreflexive(q);
                    assert(path_lt(out2[if e < p { e } else { p }].0@, out2[if e < p { p } else { e }].0@));
                }
            }
        }
    }
    assert forall|r: Seq<char>| listed(paths, next, r) implies #[trigger] keyed(out2, r) by {
        lemma_listed_grows(paths, prefix, d, r);
        if r == q {
            assert(out2[p].0@ == r);
        } else {
            assert(keyed(out0, r));
            let f = choose|f: int| 0 <= f < out0.len() && #[trigger] out0[f].0@ == r;
            let e = if keyed(out0, q) || f < p { f } else { f + 1 };
            assert(out1[e] == out0[f]);
            assert(out2[e].0 == out1[e].0);
        }
    }
}

proof fn lemma_relative(
    paths: Seq<String>,
    prefix: Seq<Incoming>,
    d: Incoming,
    out0: Seq<(String, Vec<Diagnostic>)>,
    out1: Seq<(String, Vec<Diagnostic>)>,
)
    requires
        publishes(paths, prefix, out0),
        !d.absolute,
        out1.len() == out0.len(),
        forall|e: int| 0 <= e < out1.len() ==> #[trigger] out1[e].0 == out0[e].0,
        forall|e: int|
            0 <= e < out1.len() ==> diagnostics_view(#[trigger] out1[e].1@) == diagnostics_view(out0[e].1@).push(shown(d)),
    ensures
        publishes(paths, prefix.push(d), out1),
{
    let next = prefix.push(d);
    assert(next.drop_last() =~= prefix);
    assert(next.last() == d);
    assert forall|a: int, b: int| 0 <= a < b < out1.len() implies path_lt(#[trigger] out1[a].0@, #[trigger] out1[b].0@) by {
        assert(out1[a].0 == out0[a].0 && out1[b].0 == out0[b].0);
    }
    assert forall|e: int| 0 <= e < out1.len() implies listed(paths, next, #[trigger] out1[e].0@) && diagnostics_view(out1[e].1@)
        == shown_for(paths, next, out1[e].0@) by {
        assert(out1[e].0 == out0[e].0);
        lemma_listed_grows(paths, prefix, d, out0[e].0@);
    }
    assert forall|r: Seq<char>| listed(paths, next, r) implies #[trigger] keyed(out1, r) by {
        lemma_listed_grows(paths, prefix, d, r);
        assert(keyed(out0, r));
        let f = choose|f: int| 0 <= f < out0.len() && #[trigger] out0[f].0@ == r;
        assert(out1[f].0 == out0[f].0);
    }
}

/// The files to publish diagnostics to after the analyzer reported on the
/// requested `paths`, in path order, each with what it is shown: none when
/// nothing was requested; when the analyzer failed, each requested file
/// with the failure as an error; else each requested file and each file a
/// diagnostic is about, with the diagnostics about it and those about no
/// file that came once it was listed.
pub fn publications(paths: &Vec<String>, report: Result<Vec<Incoming>, String>) -> (out: Vec<(String, Vec<Diagnostic>)>)
    ensures
        publications_of(
            paths@,
            match report {
                Ok(ds) => Ok(ds@),
                Err(m) => Err(m@),
            },
            out@,
        ),
{
    let mut out: Vec<(String, Vec<Diagnostic>)> = Vec::new();
    if paths.len() == 0 {
        return out;
    }
    let mut i: usize = 0;
    while i < paths.len()
        invariant
            i <= paths@.len(),
            ascending(out@),
            forall|e: int|
                0 <= e < out@.len() ==> requested(paths@, #[trigger] out@[e].0@) && out@[e].1@.len() == 0,
            forall|k: int| 0 <= k < i ==> #[trigger] keyed(out@, paths@[k]@),
        decreases paths@.len() - i,
    {
        let ghost before = out@;
        let p = slot(&mut out, &paths[i]);
        proof {
            assert forall|e: int| 0 <= e < out@.len() implies requested(paths@, #[trigger] out@[e].0@) && out@[e].1@.len() == 0 by {
                if keyed(before, paths@[i as int]@) {
                    assert(out@[e] == before[e]);
                } else if e < p {
                    assert(out@[e] == before[e]);
                } else if e == p {
                    assert(paths@[i as int]@ == out@[e].0@);
                } else {
                    assert(out@[e] == before[e - 1]);
                }
            }
            assert forall|k: int| 0 <= k < i + 1 implies #[trigger] keyed(out@, paths@[k]@) by {
                if k == i {
                    assert(out@[p as int].0@ == paths@[k]@);
                } else {
                    assert(keyed(before, paths@[k]@));
                    let f = choose|f: int| 0 <= f < before.len() && #[trigger] before[f].0@ == paths@[k]@;
                    let e = if keyed(before, paths@[i as int]@) || f < p { f } else { f + 1 };
                    assert(out@[e] == before[f]);
                }
            }
        }
        i = i + 1;
    }
    proof {
        assert forall|r: Seq<char>| requested(paths@, r) implies #[trigger] keyed(out@, r) by {
            let k = choose|k: int| 0 <= k < paths@.len() && #[trigger] paths@[k]@ == r;
            assert(keyed(out@, paths@[k]@));
        }
    }
    proof {
        let none = Seq::<Incoming>::empty();
        assert forall|e: int| 0 <= e < out@.len() implies listed(paths@, none, #[trigger] out@[e].0@) && diagnostics_view(
            out@[e].1@,
        ) == shown_for(paths@, none, out@[e].0@) by {
            assert(requested(paths@, out@[e].0@) && out@[e].1@.len() == 0);
            assert(diagnostics_view(out@[e].1@) =~= Seq::<DiagnosticView>::empty());
        }
        assert forall|r: Seq<char>| listed(paths@, none, r) implies #[trigger] keyed(out@, r) by {
            assert(requested(paths@, r));
        }
        assert(publishes(paths@, none, out@));
    }
    match report {
        Err(message) => {
            let failure = Diagnostic {
                range: Range { start: Position { line: 0, character: 0 }, end: Position { line: 0, character: 0 } },
                severity: Some(Severity::Error),
                code: None,
                source: None,
                message,
                related: Vec::new(),
            };
            assert(failure.related@.map_values(|x: Related| related_view(x)) =~= Seq::<crate::lsp::diagnostics::RelatedView>::empty());
            let ghost before = out@;
            append_everywhere(&mut out, &failure);
            proof {
                assert forall|e: int| 0 <= e < out@.len() implies requested(paths@, #[trigger] out@[e].0@) && diagnostics_view(
                    out@[e].1@,
                ) == seq![failure_view(failure.message@)] by {
                    assert(out@[e].0 == before[e].0);
                    assert(requested(paths@, before[e].0@) && before[e].1@.len() == 0);
                    assert(diagnostics_view(before[e].1@) =~= Seq::<DiagnosticView>::empty());
                }
                assert forall|a: int, b: int| 0 <= a < b < out@.len() implies path_lt(#[trigger] out@[a].0@, #[trigger] out@[b].0@) by {
                    assert(out@[a].0 == before[a].0 && out@[b].0 == before[b].0);
                }
                assert forall|r: Seq<char>| requested(paths@, r) implies #[trigger] keyed(out@, r) by {
                    assert(keyed(before, r));
                    let f = choose|f: int| 0 <= f < before.len() && #[trigger] before[f].0@ == r;
                    assert(out@[f].0 == before[f].0);
                }
            }
            out
        },
        Ok(ds) => {
            let ghost all = ds@;
            assert(all.take(0) =~= Seq::<Incoming>::empty());
            let mut rest = ds;
            let n = rest.len();
            let mut j: usize = 0;
            while j < n
                invariant
                    j <= n == all.len(),
                    rest@ == all.skip(j as int),
                    publishes(paths@, all.take(j as int), out@),
                decreases n - j,
            {
                let d = rest.remove(0);
                assert(d == all[j as int]);
                assert(rest@ =~= all.skip(j + 1));
                assert(all.take(j + 1) =~= all.take(j as int).push(d));
                let shown_d = show(&d);
                let ghost out0 = out@;
                if d.absolute {
                    let p = slot(&mut out, &d.path);
                    let ghost out1 = out@;
                    append_at(&mut out, p, shown_d);
                    proof {
                        lemma_absolute(paths@, all.take(j as int), d, out0, out1, out@, p as int);
                    }
                } else {
                    append_everywhere(&mut out, &shown_d);
                    proof {
                        lemma_relative(paths@, all.take(j as int), d, out0, out@);
                    }
                }
                j = j + 1;
            }
            assert(all.take(n as int) =~= all);
            out
        },
    }
}


/// The URI that diagnostics of `path` are published to, when it is known:
/// that of the open document, or else the one it was last published to.
pub open spec fn chosen_uri(documents: Seq<(String, String)>, published: Seq<(String, String)>, path: Seq<char>) -> Option<
    Seq<char>,
> {
    match text_lookup(documents, path) {
        Some(u) => Some(u),
        None => text_lookup(published, path),
    }
}

/// The URI to publish the diagnostics of `path` to: the open document's,
/// or else the one it was last published to; `None` when neither is known,
/// and the URI is made from the file path.
pub fn uri_for(documents: &Vec<(String, String)>, published: &Vec<(String, String)>, path: &String) -> (r: Option<String>)
    ensures
        match r {
            Some(u) => chosen_uri(documents@, published@, path@) == Some(u@),
            None => chosen_uri(documents@, published@, path@) is None,
        },
{
    let key = chars_of(path.as_str());
    let found = match lookup_text(documents, &key) {
        Some(u) => Some(u),
        None => lookup_text(published, &key),
    };
    match found {
        Some(u) => Some(string_of(u.as_slice())),
        None => None,
    }
}

/// Entry `i` of what was published before is no longer published to the
/// same URI.
pub open spec fn stale(previous: Seq<(String, String)>, now: Seq<(String, String)>, i: int) -> bool {
    text_lookup(now, previous[i].0@) != Some(previous[i].1@)
}

/// The URIs of the first `k` entries published before that are stale, in order.
pub open spec fn cleared_upto(previous: Seq<(String, String)>, now: Seq<(String, String)>, k: int) -> Seq<Seq<char>>
    decreases k,
{
    if k <= 0 {
        seq![]
    } else if stale(previous, now, k - 1) {
        cleared_upto(previous, now, k - 1).push(previous[k - 1].1@)
    } else {
        cleared_upto(previous, now, k - 1)
    }
}

/// The URIs whose diagnostics are cleared before a publication: each one
/// published before, in the order it was recorded, whose file is not
/// published to that same URI now.
pub fn clearing(previous: &Vec<(String, String)>, now: &Vec<(String, String)>) -> (r: Vec<String>)
    ensures
        r@.map_values(|u: String| u@) == cleared_upto(previous@, now@, previous@.len() as int),
{
    let mut out: Vec<String> = Vec::new();
    let mut i: usize = 0;
    while i < previous.len()
        invariant
            i <= previous@.len(),
            out@.map_values(|u: String| u@) == cleared_upto(previous@, now@, i as int),
        decreases previous@.len() - i,
    {
        let ghost before = out@;
        let key = chars_of(previous[i].0.as_str());
        let uri = chars_of(previous[i].1.as_str());
        let same_now = match lookup_text(now, &key) {
            Some(u) => crate::text::same(u.as_slice(), uri.as_slice()),
            None => false,
        };
        if !same_now {
            out.push(string_of(uri.as_slice()));
            proof {
                assert(out@.map_values(|u: String| u@) =~= before.map_values(|u: String| u@).push(previous@[i as int].1@));
            }
        }
        i = i + 1;
    }
    out
}

} // verus!
