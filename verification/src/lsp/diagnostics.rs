//! Pull diagnostics: the last report sent for each file, and whether a
//! client's copy is still current.

use vstd::prelude::*;
use crate::lsp::kinds::Severity;
use crate::text::string_of;

verus! {

/// A position in a document: line and character, counted from zero.
#[derive(Debug, Clone, Copy, PartialEq, Eq, Structural)]
pub struct Position {
    pub line: u32,
    pub character: u32,
}

/// A range of a document.
#[derive(Debug, Clone, Copy, PartialEq, Eq, Structural)]
pub struct Range {
    pub start: Position,
    pub end: Position,
}

/// A location in another document that a diagnostic relates to.
#[derive(Debug)]
pub struct Related {
    pub uri: String,
    pub range: Range,
    pub message: String,
}

/// A diagnostic as the server reports it.
#[derive(Debug)]
pub struct Diagnostic {
    pub range: Range,
    pub severity: Option<Severity>,
    pub code: Option<String>,
    pub source: Option<String>,
    pub message: String,
    pub related: Vec<Related>,
}

/// A related location as plain data.
pub struct RelatedView {
    pub uri: Seq<char>,
    pub range: Range,
    pub message: Seq<char>,
}

/// A diagnostic as plain data.
pub struct DiagnosticView {
    pub range: Range,
    pub severity: Option<Severity>,
    pub code: Option<Seq<char>>,
    pub source: Option<Seq<char>>,
    pub message: Seq<char>,
    pub related: Seq<RelatedView>,
}

pub open spec fn text_option(t: Option<String>) -> Option<Seq<char>> {
    match t {
        Some(s) => Some(s@),
        None => None,
    }
}

pub open spec fn related_view(r: Related) -> RelatedView {
    RelatedView { uri: r.uri@, range: r.range, message: r.message@ }
}

pub open spec fn diagnostic_view(d: Diagnostic) -> DiagnosticView {
    DiagnosticView {
        range: d.range,
        severity: d.severity,
        code: text_option(d.code),
        source: text_option(d.source),
        message: d.message@,
        related: d.related@.map_values(|r: Related| related_view(r)),
    }
}

/// The plain data of a list of diagnostics.
pub open spec fn diagnostics_view(items: Seq<Diagnostic>) -> Seq<DiagnosticView> {
    items.map_values(|d: Diagnostic| diagnostic_view(d))
}

/// The decimal digits of a number.
pub open spec fn decimal(n: nat) -> Seq<char>
    decreases n,
{
    if n < 10 {
        seq![((0x30 + n) as u8) as char]
    } else {
        decimal(n / 10) + seq![((0x30 + n % 10) as u8) as char]
    }
}

fn push_decimal(out: &mut Vec<char>, n: u64)
    ensures
        final(out)@ == old(out)@ + decimal(n as nat),
    decreases n,
{
    if n >= 10 {
        push_decimal(out, n / 10);
    }
    let d = (n % 10) as u8;
    out.push((0x30 + d) as char);
    proof {
        if n >= 10 {
            assert(decimal(n as nat) == decimal((n / 10) as nat) + seq![((0x30 + (n % 10) as nat) as u8) as char]);
        }
    }
}

/// `u64::to_string`: the decimal text of a number.
pub fn decimal_text(n: u64) -> (r: String)
    ensures
        r@ == decimal(n as nat),
{
    let mut v: Vec<char> = Vec::new();
    push_decimal(&mut v, n);
    assert(v@ =~= decimal(n as nat));
    string_of(&v)
}

fn same_text(a: &Option<String>, b: &Option<String>) -> (r: bool)
    ensures
        r == (text_option(*a) == text_option(*b)),
{
    match (a, b) {
        (Some(x), Some(y)) => *x == *y,
        (None, None) => true,
        _ => false,
    }
}

fn same_related(a: &Vec<Related>, b: &Vec<Related>) -> (r: bool)
    ensures
        r == (a@.map_values(|x: Related| related_view(x)) == b@.map_values(|x: Related| related_view(x))),
{
    let ghost va = a@.map_values(|x: Related| related_view(x));
    let ghost vb = b@.map_values(|x: Related| related_view(x));
    if a.len() != b.len() {
        assert(va.len() != vb.len());
        return false;
    }
    let mut i: usize = 0;
    while i < a.len()
        invariant
            i <= a@.len() == b@.len(),
            va == a@.map_values(|x: Related| related_view(x)),
            vb == b@.map_values(|x: Related| related_view(x)),
            forall|k: int| 0 <= k < i ==> va[k] == vb[k],
        decreases a@.len() - i,
    {
        let x = &a[i];
        let y = &b[i];
        if !(x.uri == y.uri && x.range == y.range && x.message == y.message) {
            assert(va[i as int] != vb[i as int]);
            return false;
        }
        assert(va[i as int] == related_view(a@[i as int]));
        i = i + 1;
    }
    assert(va =~= vb);
    true
}

fn same_diagnostic(a: &Diagnostic, b: &Diagnostic) -> (r: bool)
    ensures
        r == (diagnostic_view(*a) == diagnostic_view(*b)),
{
    let r = a.range == b.range && a.severity == b.severity && same_text(&a.code, &b.code)
        && same_text(&a.source, &b.source) && a.message == b.message && same_related(&a.related, &b.related);
    proof {
        if diagnostic_view(*a) == diagnostic_view(*b) {
            assert(diagnostic_view(*a).related == diagnostic_view(*b).related);
        }
    }
    r
}

fn same_items(a: &Vec<Diagnostic>, b: &Vec<Diagnostic>) -> (r: bool)
    ensures
        r == (diagnostics_view(a@) == diagnostics_view(b@)),
{
    let ghost va = diagnostics_view(a@);
    let ghost vb = diagnostics_view(b@);
    if a.len() != b.len() {
        assert(va.len() != vb.len());
        return false;
    }
    let mut i: usize = 0;
    while i < a.len()
        invariant
            i <= a@.len() == b@.len(),
            va == diagnostics_view(a@),
            vb == diagnostics_view(b@),
            forall|k: int| 0 <= k < i ==> va[k] == vb[k],
        decreases a@.len() - i,
    {
        if !same_diagnostic(&a[i], &b[i]) {
            assert(va[i as int] != vb[i as int]);
            return false;
        }
        i = i + 1;
    }
    assert(va =~= vb);
    true
}

fn copy_related(r: &Related) -> (c: Related)
    ensures
        related_view(c) == related_view(*r),
{
    Related { uri: r.uri.clone(), range: r.range, message: r.message.clone() }
}

fn copy_text(t: &Option<String>) -> (c: Option<String>)
    ensures
        text_option(c) == text_option(*t),
{
    match t {
        Some(s) => Some(s.clone()),
        None => None,
    }
}

fn copy_diagnostic(d: &Diagnostic) -> (c: Diagnostic)
    ensures
        diagnostic_view(c) == diagnostic_view(*d),
{
    let mut related: Vec<Related> = Vec::new();
    let mut i: usize = 0;
    while i < d.related.len()
        invariant
            i <= d.related@.len(),
            related@.len() == i,
            forall|k: int| 0 <= k < i ==> #[trigger] related_view(related@[k]) == related_view(d.related@[k]),
        decreases d.related@.len() - i,
    {
        related.push(copy_related(&d.related[i]));
        i = i + 1;
    }
    let c = Diagnostic {
        range: d.range,
        severity: d.severity,
        code: copy_text(&d.code),
        source: copy_text(&d.source),
        message: d.message.clone(),
        related,
    };
    assert(c.related@.map_values(|r: Related| related_view(r)) =~= d.related@.map_values(|r: Related| related_view(r)));
    c
}

fn copy_items(items: &Vec<Diagnostic>) -> (c: Vec<Diagnostic>)
    ensures
        diagnostics_view(c@) == diagnostics_view(items@),
{
    let mut c: Vec<Diagnostic> = Vec::new();
    let mut i: usize = 0;
    while i < items.len()
        invariant
            i <= items@.len(),
            c@.len() == i,
            forall|k: int| 0 <= k < i ==> #[trigger] diagnostic_view(c@[k]) == diagnostic_view(items@[k]),
        decreases items@.len() - i,
    {
        c.push(copy_diagnostic(&items[i]));
        i = i + 1;
    }
    assert(diagnostics_view(c@) =~= diagnostics_view(items@));
    c
}

/// What the server answers a pull for a file's diagnostics.
#[derive(Debug)]
pub enum Report {
    /// The client's copy, named by this result id, is current.
    Unchanged(String),
    /// The diagnostics, named by this result id.
    Full(String, Vec<Diagnostic>),
}

/// The last report of each file: its result id and its diagnostics.
pub struct Cache {
    pub revision: u64,
    pub reports: Vec<(String, (String, Vec<Diagnostic>))>,
}

/// The index of the report for `path`.
pub open spec fn report_index(reports: Seq<(String, (String, Vec<Diagnostic>))>, path: Seq<char>, i: int) -> Option<int>
    decreases reports.len() - i,
{
    if i < 0 || i >= reports.len() {
        None
    } else if reports[i].0@ == path {
        Some(i)
    } else {
        report_index(reports, path, i + 1)
    }
}

proof fn lemma_report_index(reports: Seq<(String, (String, Vec<Diagnostic>))>, path: Seq<char>, i: int)
    requires
        0 <= i,
    ensures
        report_index(reports, path, i) matches Some(p) ==> i <= p < reports.len() && reports[p].0@ == path,
    decreases reports.len() - i,
{
    if i < reports.len() && reports[i].0@ != path {
        lemma_report_index(reports, path, i + 1);
    }
}

pub open spec fn report_id(e: (String, (String, Vec<Diagnostic>))) -> Seq<char> {
    let (_, (id, _)) = e;
    id@
}

pub open spec fn report_items(e: (String, (String, Vec<Diagnostic>))) -> Seq<Diagnostic> {
    let (_, (_, items)) = e;
    items@
}

/// The result id and diagnostics last reported for `path`, if any.
pub open spec fn cached(c: Cache, path: Seq<char>) -> Option<(Seq<char>, Seq<DiagnosticView>)> {
    match report_index(c.reports@, path, 0) {
        Some(p) => Some((report_id(c.reports@[p]), diagnostics_view(report_items(c.reports@[p])))),
        None => None,
    }
}

/// The result id last reported for `path`.
pub open spec fn cached_id(c: Cache, path: Seq<char>) -> Seq<char> {
    match cached(c, path) {
        Some((id, _)) => id,
        None => seq![],
    }
}

/// The diagnostics last reported for `path`.
pub open spec fn cached_seen(c: Cache, path: Seq<char>) -> Seq<DiagnosticView> {
    match cached(c, path) {
        Some((_, seen)) => seen,
        None => seq![],
    }
}

impl Cache {
    /// No report yet.
    pub fn new() -> (c: Cache)
        ensures
            c.revision == 0,
            issued(c),
            forall|p: Seq<char>| cached(c, p) is None,
    {
        Cache { revision: 0, reports: Vec::new() }
    }

    /// Records the diagnostics of `path` under a new result id when they
    /// differ from the last report of it, and answers a client that last
    /// saw the result id `previous`: unchanged when that is the id of the
    /// current report, else in full.
    pub fn report(&mut self, path: &str, items: Vec<Diagnostic>, previous: Option<&str>) -> (r: Report)
        ensures
            recorded(*old(self), *final(self), path@, diagnostics_view(items@)),
            match r {
                Report::Unchanged(u) => (previous matches Some(prev) && prev@ == cached_id(*final(self), path@))
                    && u@ == cached_id(*final(self), path@),
                Report::Full(f, v) => !(previous matches Some(prev) && prev@ == cached_id(*final(self), path@))
                    && f@ == cached_id(*final(self), path@) && diagnostics_view(v@) == cached_seen(
                    *final(self),
                    path@,
                ),
            },
            issued(*old(self)) && old(self).revision < u64::MAX ==> issued(*final(self)),
    {
        let ghost seen_items = diagnostics_view(items@);
        let key = string_of(&crate::text::chars_of(path));
        let found = find_report(&self.reports, &key);
        proof {
            lemma_report_index(self.reports@, path@, 0);
        }
        let fresh = match found {
            Some(p) => {
                let (_, (_, seen)) = &self.reports[p];
                !same_items(seen, &items)
            },
            None => true,
        };
        let ghost before = self.reports@;
        let p: usize = if fresh {
            self.revision = self.revision.wrapping_add(1);
            let id = decimal_text(self.revision);
            match found {
                Some(p) => {
                    self.reports.remove(p);
                    self.reports.insert(p, (key, (id, items)));
                    proof {
                        assert forall|q: Seq<char>| q != path@ implies #[trigger] report_index(self.reports@, q, 0) == report_index(before, q, 0) by {
                            lemma_report_index_update(before, self.reports@, q, p as int, 0);
                        }
                        lemma_report_index_update(before, self.reports@, path@, p as int, 0);
                    }
                    p
                },
                None => {
                    self.reports.push((key, (id, items)));
                    proof {
                        assert forall|q: Seq<char>| q != path@ implies #[trigger] report_index(self.reports@, q, 0) == report_index(before, q, 0) by {
                            lemma_report_index_push(before, self.reports@, q, 0);
                        }
                        lemma_report_index_push(before, self.reports@, path@, 0);
                    }
                    self.reports.len() - 1
                },
            }
        } else {
            match found {
                Some(p) => p,
                None => 0,
            }
        };
        let (_, (stored_id, stored)) = &self.reports[p];
        proof {
            let fresh_spec = match cached(*old(self), path@) {
                Some((_, seen)) => seen != diagnostics_view(items@),
                None => true,
            };
            assert(fresh == fresh_spec);
            assert(report_index(self.reports@, path@, 0) == Some(p as int));
            assert(cached(*self, path@) == Some((stored_id@, diagnostics_view(stored@))));
            let revision: u64 = if fresh_spec {
                next_revision(old(self).revision)
            } else {
                old(self).revision
            };
            assert(self.revision == revision);
            let id = if fresh_spec {
                decimal(revision as nat)
            } else {
                cached_id(*old(self), path@)
            };
            let seen = if fresh_spec {
                diagnostics_view(items@)
            } else {
                cached_seen(*old(self), path@)
            };
            assert(stored_id@ == id);
            assert(diagnostics_view(stored@) == seen);
            assert(self.reports@[p as int].0@ == path@);
            assert(forall|k: int| 0 <= k < self.reports@.len() && k != p && k < old(self).reports@.len() ==> self.reports@[k] == old(self).reports@[k]);
            assert forall|q: Seq<char>| q != path@ implies #[trigger] cached(*self, q) == cached(*old(self), q) by {
                assert(report_index(self.reports@, q, 0) == report_index(old(self).reports@, q, 0));
                lemma_report_index(self.reports@, q, 0);
                lemma_report_index(old(self).reports@, q, 0);
                if let Some(k) = report_index(self.reports@, q, 0) {
                    assert(k != p);
                    assert(self.reports@[k] == old(self).reports@[k]);
                }
            }
        }
        let identifier = stored_id.clone();
        let current = match previous {
            Some(prev) => crate::text::same(&crate::text::chars_of(prev), &crate::text::chars_of(identifier.as_str())),
            None => false,
        };
        proof {
            if issued(*old(self)) && old(self).revision < u64::MAX {
                law_report_ids(*old(self), *self, path@, seen_items);
            }
        }
        if current {
            Report::Unchanged(identifier)
        } else {
            Report::Full(identifier, copy_items(stored))
        }
    }
}

/// The diagnostics `items` differ from those last reported for `path`.
pub open spec fn fresh(c: Cache, path: Seq<char>, items: Seq<DiagnosticView>) -> bool {
    match cached(c, path) {
        Some((_, seen)) => seen != items,
        None => true,
    }
}

/// `after` is `before` once `items` are recorded for `path`: under the next
/// revision's id when they are fresh, else under the id they had; the other
/// paths keep their reports.
pub open spec fn recorded(before: Cache, after: Cache, path: Seq<char>, items: Seq<DiagnosticView>) -> bool {
    let fresh = fresh(before, path, items);
    let revision: u64 = if fresh {
        next_revision(before.revision)
    } else {
        before.revision
    };
    let id = if fresh {
        decimal(revision as nat)
    } else {
        cached_id(before, path)
    };
    let seen = if fresh {
        items
    } else {
        cached_seen(before, path)
    };
    &&& after.revision == revision
    &&& cached(after, path) == Some((id, seen))
    &&& forall|p: Seq<char>| p != path ==> #[trigger] cached(after, p) == cached(before, p)
}

/// Every result id the cache holds was issued at a revision no later than
/// its current one.
pub open spec fn issued(c: Cache) -> bool {
    forall|p: Seq<char>| #[trigger] cached(c, p) is Some ==> issued_at(c.revision, cached_id(c, p))
}

/// `id` names a revision no later than `revision`.
pub open spec fn issued_at(revision: u64, id: Seq<char>) -> bool {
    exists|k: nat| k <= revision && id == #[trigger] decimal(k)
}

proof fn lemma_digit(d: nat)
    requires
        d < 10,
    ensures
        (((0x30 + d) as u8) as char) as int == 0x30 + d,
{
    assert(((0x30 + d) as u8) as int == 0x30 + d);
}

proof fn lemma_decimal_len(n: nat)
    ensures
        decimal(n).len() >= 1,
        n >= 10 ==> decimal(n).len() >= 2,
    decreases n,
{
    if n >= 10 {
        lemma_decimal_len(n / 10);
    }
}

/// Different numbers are written differently.
pub proof fn lemma_decimal_injective(a: nat, b: nat)
    requires
        decimal(a) == decimal(b),
    ensures
        a == b,
    decreases a,
{
    lemma_decimal_len(a);
    lemma_decimal_len(b);
    if a < 10 && b < 10 {
        assert(decimal(a) =~= seq![((0x30 + a) as u8) as char]);
        assert(decimal(b) =~= seq![((0x30 + b) as u8) as char]);
        assert(decimal(a)[0] == decimal(b)[0]);
        lemma_digit(a);
        lemma_digit(b);
        let ca = decimal(a)[0];
        let cb = decimal(b)[0];
        assert(ca == ((0x30 + a) as u8) as char);
        assert(cb == ((0x30 + b) as u8) as char);
        assert(ca as int == 0x30 + a);
        assert(cb as int == 0x30 + b);
        assert(a == b);
    } else if a >= 10 && b >= 10 {
        let da = decimal(a);
        let db = decimal(b);
        assert(da.last() == db.last());
        lemma_digit(a % 10);
        lemma_digit(b % 10);
        assert(da.drop_last() =~= decimal(a / 10));
        assert(db.drop_last() =~= decimal(b / 10));
        lemma_decimal_injective(a / 10, b / 10);
        assert(a == 10 * (a / 10) + a % 10);
        assert(b == 10 * (b / 10) + b % 10);
        assert(da.last() == ((0x30 + a % 10) as u8) as char);
        assert(db.last() == ((0x30 + b % 10) as u8) as char);
        assert(a % 10 == b % 10);
        assert(a == b);
    } else if a < 10 {
        assert(decimal(a).len() == 1);
    } else {
        assert(decimal(b).len() == 1);
    }
}

/// While the revision has not reached its largest value, a report keeps a
/// path's result id exactly when its diagnostics are unchanged, and every id
/// the cache holds stays one it issued.
pub proof fn law_report_ids(before: Cache, after: Cache, path: Seq<char>, items: Seq<DiagnosticView>)
    requires
        issued(before),
        before.revision < u64::MAX,
        recorded(before, after, path, items),
    ensures
        issued(after),
        cached(before, path) matches Some((id, seen)) ==> (cached_id(after, path) == id <==> seen == items),
{
    let f = fresh(before, path, items);
    assert forall|p: Seq<char>| #[trigger] cached(after, p) is Some implies issued_at(after.revision, cached_id(after, p)) by {
        if p != path {
            assert(cached(after, p) == cached(before, p));
            assert(issued_at(before.revision, cached_id(before, p)));
            let k = choose|k: nat| k <= before.revision && cached_id(before, p) == #[trigger] decimal(k);
            assert(k <= after.revision);
        } else if f {
            assert(cached_id(after, p) == decimal(after.revision as nat));
        } else {
            assert(cached(before, path) is Some);
            assert(issued_at(before.revision, cached_id(before, p)));
        }
    }
    if let Some((id, seen)) = cached(before, path) {
        if seen != items {
            assert(issued_at(before.revision, cached_id(before, path)));
            let k = choose|k: nat| k <= before.revision && cached_id(before, path) == #[trigger] decimal(k);
            if cached_id(after, path) == id {
                lemma_decimal_injective(k, after.revision as nat);
            }
        }
    }
}

/// The revision after `r`, wrapping to zero.
pub open spec fn next_revision(r: u64) -> u64 {
    if r == u64::MAX {
        0
    } else {
        (r + 1) as u64
    }
}

fn find_report(reports: &Vec<(String, (String, Vec<Diagnostic>))>, key: &String) -> (r: Option<usize>)
    ensures
        match r {
            Some(p) => report_index(reports@, key@, 0) == Some(p as int),
            None => report_index(reports@, key@, 0) is None,
        },
{
    let mut i: usize = 0;
    while i < reports.len()
        invariant
            i <= reports@.len(),
            report_index(reports@, key@, 0) == report_index(reports@, key@, i as int),
        decreases reports@.len() - i,
    {
        if reports[i].0 == *key {
            return Some(i);
        }
        i = i + 1;
    }
    None
}

proof fn lemma_report_index_update(
    before: Seq<(String, (String, Vec<Diagnostic>))>,
    after: Seq<(String, (String, Vec<Diagnostic>))>,
    q: Seq<char>,
    p: int,
    i: int,
)
    requires
        0 <= i,
        0 <= p < before.len(),
        after.len() == before.len(),
        forall|k: int| 0 <= k < before.len() && k != p ==> #[trigger] after[k] == before[k],
        after[p].0@ == before[p].0@,
    ensures
        report_index(after, q, i) == report_index(before, q, i),
    decreases before.len() - i,
{
    if i < before.len() {
        lemma_report_index_update(before, after, q, p, i + 1);
    }
}

proof fn lemma_report_index_push(
    before: Seq<(String, (String, Vec<Diagnostic>))>,
    after: Seq<(String, (String, Vec<Diagnostic>))>,
    q: Seq<char>,
    i: int,
)
    requires
        0 <= i,
        after.len() == before.len() + 1,
        forall|k: int| 0 <= k < before.len() ==> #[trigger] after[k] == before[k],
        report_index(before, after.last().0@, 0) is None,
    ensures
        q != after.last().0@ ==> report_index(after, q, i) == report_index(before, q, i),
        q == after.last().0@ && i <= before.len() ==> report_index(after, q, i) == Some(before.len() as int),
    decreases after.len() - i,
{
    if i < before.len() {
        lemma_report_index_push(before, after, q, i + 1);
        assert(after[i] == before[i]);
        if q == after.last().0@ {
            lemma_absent_from(before, q, i);
        }
    } else if i == before.len() {
        assert(report_index(after, q, i + 1) is None);
    }
}

proof fn lemma_absent_from(reports: Seq<(String, (String, Vec<Diagnostic>))>, q: Seq<char>, i: int)
    requires
        0 <= i < reports.len(),
        report_index(reports, q, 0) is None,
    ensures
        reports[i].0@ != q,
    decreases i,
{
    if i > 0 {
        lemma_absent_prefix(reports, q, 0, i);
    }
}

proof fn lemma_absent_prefix(reports: Seq<(String, (String, Vec<Diagnostic>))>, q: Seq<char>, j: int, i: int)
    requires
        0 <= j <= i < reports.len(),
        report_index(reports, q, j) is None,
    ensures
        reports[i].0@ != q,
    decreases i - j,
{
    if j < i {
        lemma_absent_prefix(reports, q, j + 1, i);
    }
}

} // verus!
