//! The emitter at work: each document that `emit` describes, built and
//! proved equal to its description.

use vstd::prelude::*;
use crate::format::configuration::{
    CallStyle, Options, Chain, Collapse, ConditionalExpansion, ConditionalStyle, Expansion, Gaps, Parentheses, Placement,
    Semicolons, Separation, Separator, TypeExpansion,
};
use crate::format::document::{
    alike, flattens, indent_depth, lay, lay_parts, parts_depth, parts_size, parts_width, renderable, rendered,
    saturating_sub, size, style_of, width_of, Document, Rendered, Style,
};
use crate::format::emit::{
    after_each, begins, begins_with, brace_then_newline, cat, doc, doc_flat, doc_parts_width, doc_width, docs,
    conditional_flat, conditional_flat_parts, ends_in_comma, flat_parts, group, hards, type_fields,
    indent, indented, joined, newlines, precedence, separated, text, Doc, Emitter,
};
use crate::format::scope::{all_later, later, maybe_later, refers_forward, Shape, TokenKind};
use crate::format::literals::{number, quotable, quote};
use crate::text::{chars_of, copy_range, same, string_of};

verus! {

/// The plain values of each document of `s`.
pub open spec fn docs_of(s: Seq<Document>) -> Seq<Doc> {
    Seq::new(s.len(), |i: int| doc(s[i]))
}

proof fn lemma_docs(s: Seq<Document>, n: int)
    requires
        0 <= n <= s.len(),
    ensures
        docs(s, n) == docs_of(s.take(n)),
    decreases n,
{
    if n == 0 {
        assert(docs_of(s.take(0)) =~= Seq::<Doc>::empty());
    } else {
        lemma_docs(s, n - 1);
        assert(docs_of(s.take(n)) =~= docs_of(s.take(n - 1)).push(doc(s[n - 1])));
    }
}

/// Documents that are alike have the same plain values.
proof fn lemma_alike_doc(a: Document, b: Document)
    requires
        alike(a, b),
    ensures
        doc(a) == doc(b),
    decreases a,
{
    match (a, b) {
        (Document::Choice(a1, a2), Document::Choice(b1, b2)) => {
            lemma_alike_doc(*a1, *b1);
            lemma_alike_doc(*a2, *b2);
        },
        (Document::Group(x), Document::Group(y)) => lemma_alike_doc(*x, *y),
        (Document::Flat(x), Document::Flat(y)) => lemma_alike_doc(*x, *y),
        (Document::Indent(x), Document::Indent(y)) => lemma_alike_doc(*x, *y),
        (Document::Dedent(x), Document::Dedent(y)) => lemma_alike_doc(*x, *y),
        (Document::Sequence(p), Document::Sequence(q)) => {
            assert forall|i: int| 0 <= i < p@.len() implies doc(#[trigger] p@[i]) == doc(q@[i]) by {
                assert(decreases_to!(p => p@));
                lemma_alike_doc(p@[i], q@[i]);
            }
            lemma_docs(p@, p@.len() as int);
            lemma_docs(q@, q@.len() as int);
            assert(p@.take(p@.len() as int) =~= p@);
            assert(q@.take(q@.len() as int) =~= q@);
            assert(docs_of(p@) =~= docs_of(q@));
        },
        _ => {},
    }
}

/// The flat width of a document is that of its plain values.
pub proof fn lemma_width(d: Document)
    ensures
        width_of(d) == doc_width(doc(d)),
    decreases d, 1int,
{
    match d {
        Document::Choice(a, _) => lemma_width(*a),
        Document::Group(a) => lemma_width(*a),
        Document::Flat(a) => lemma_width(*a),
        Document::Indent(a) => lemma_width(*a),
        Document::Dedent(a) => lemma_width(*a),
        Document::Sequence(p) => {
            assert(decreases_to!(d => p));
            assert(decreases_to!(p => p@));
            lemma_docs(p@, p@.len() as int);
            assert(p@.take(p@.len() as int) =~= p@);
            lemma_parts_width(p@, p@.len() as int);
        },
        _ => {},
    }
}

proof fn lemma_parts_width(s: Seq<Document>, n: int)
    requires
        0 <= n <= s.len(),
    ensures
        parts_width(s, n) == doc_parts_width(docs_of(s), n),
    decreases s, n,
{
    if n > 0 {
        lemma_parts_width(s, n - 1);
        lemma_width(s[n - 1]);
    }
}

/// Making a document flat makes its plain values flat.
pub proof fn lemma_flat(d: Document, f: Document)
    requires
        flattens(d, f),
    ensures
        doc(f) == doc_flat(doc(d)),
    decreases d,
{
    match d {
        Document::Choice(a, _) => lemma_flat(*a, f),
        Document::Group(a) => lemma_flat(*a, f),
        Document::Flat(a) => lemma_flat(*a, f),
        Document::Indent(a) => lemma_flat(*a, f),
        Document::Dedent(a) => lemma_flat(*a, f),
        Document::Sequence(p) => {
            let q = f->Sequence_0;
            assert forall|i: int| 0 <= i < p@.len() implies doc(#[trigger] q@[i]) == doc_flat(doc(p@[i])) by {
                assert(decreases_to!(p => p@));
                lemma_flat(p@[i], q@[i]);
            }
            lemma_docs(p@, p@.len() as int);
            lemma_docs(q@, q@.len() as int);
            assert(p@.take(p@.len() as int) =~= p@);
            assert(q@.take(q@.len() as int) =~= q@);
            lemma_flat_parts(docs_of(p@), p@.len() as int);
            assert(docs_of(q@) =~= flat_parts(docs_of(p@), p@.len() as int));
        },
        _ => {},
    }
}

proof fn lemma_flat_parts(s: Seq<Doc>, n: int)
    requires
        0 <= n <= s.len(),
    ensures
        flat_parts(s, n).len() == n,
        forall|i: int| 0 <= i < n ==> #[trigger] flat_parts(s, n)[i] == doc_flat(s[i]),
    decreases n,
{
    if n > 0 {
        lemma_flat_parts(s, n - 1);
    }
}

/// The flat width of a document, as its plain values have it.
pub(crate) fn width_doc(d: &Document) -> (r: Option<usize>)
    ensures
        match r {
            Some(w) => doc_width(doc(*d)) == Some(w as int),
            None => doc_width(doc(*d)) is None,
        },
{
    proof {
        lemma_width(*d);
    }
    d.width()
}

/// The document made flat.
pub(crate) fn flat_doc(d: Document) -> (r: Document)
    ensures
        doc(r) == doc_flat(doc(d)),
{
    let ghost d0 = d;
    let r = d.flattened();
    proof {
        lemma_flat(d0, r);
    }
    r
}

/// Documents with the same plain values are laid out alike, and have the
/// same size and depth of indentation.
pub proof fn lemma_same_layout(a: Document, b: Document, depth: int, flat: bool, st: Rendered, style: Style)
    requires
        doc(a) == doc(b),
    ensures
        lay(a, depth, flat, st, style) == lay(b, depth, flat, st, style),
        size(a) == size(b),
        indent_depth(a) == indent_depth(b),
    decreases a, 1int,
{
    lemma_width(a);
    lemma_width(b);
    match (a, b) {
        (Document::Choice(a1, a2), Document::Choice(b1, b2)) => {
            lemma_same_layout(*a1, *b1, depth, flat, st, style);
            lemma_same_layout(*a2, *b2, depth, flat, st, style);
        },
        (Document::Group(x), Document::Group(y)) => {
            lemma_width(*x);
            lemma_width(*y);
            lemma_same_layout(*x, *y, depth, true, st, style);
            lemma_same_layout(*x, *y, depth, false, st, style);
        },
        (Document::Flat(x), Document::Flat(y)) => lemma_same_layout(*x, *y, depth, true, st, style),
        (Document::Indent(x), Document::Indent(y)) => lemma_same_layout(*x, *y, depth + 1, flat, st, style),
        (Document::Dedent(x), Document::Dedent(y)) => lemma_same_layout(
            *x,
            *y,
            saturating_sub(depth, 1),
            flat,
            st,
            style,
        ),
        (Document::Sequence(p), Document::Sequence(q)) => {
            assert(decreases_to!(a => p));
            assert(decreases_to!(p => p@));
            lemma_docs(p@, p@.len() as int);
            lemma_docs(q@, q@.len() as int);
            assert(p@.take(p@.len() as int) =~= p@);
            assert(q@.take(q@.len() as int) =~= q@);
            assert(docs_of(p@).len() == docs_of(q@).len());
            assert forall|i: int| 0 <= i < p@.len() implies doc(#[trigger] p@[i]) == doc(q@[i]) by {
                assert(docs_of(p@)[i] == docs_of(q@)[i]);
            }
            lemma_same_parts(p@, q@, 0, depth, flat, st, style);
            lemma_same_measures(p@, q@, p@.len() as int);
        },
        _ => {},
    }
}

proof fn lemma_same_parts(
    p: Seq<Document>,
    q: Seq<Document>,
    i: int,
    depth: int,
    flat: bool,
    st: Rendered,
    style: Style,
)
    requires
        p.len() == q.len(),
        forall|k: int| 0 <= k < p.len() ==> doc(#[trigger] p[k]) == doc(q[k]),
    ensures
        lay_parts(p, i, depth, flat, st, style) == lay_parts(q, i, depth, flat, st, style),
    decreases p, p.len() - i,
{
    if 0 <= i < p.len() {
        assert(doc(p[i]) == doc(q[i]));
        lemma_same_layout(p[i], q[i], depth, flat, st, style);
        lemma_same_parts(p, q, i + 1, depth, flat, lay(p[i], depth, flat, st, style), style);
    }
}

proof fn lemma_same_measures(p: Seq<Document>, q: Seq<Document>, n: int)
    requires
        p.len() == q.len(),
        0 <= n <= p.len(),
        forall|k: int| 0 <= k < p.len() ==> doc(#[trigger] p[k]) == doc(q[k]),
    ensures
        parts_size(p, n) == parts_size(q, n),
        parts_depth(p, n) == parts_depth(q, n),
    decreases p, n,
{
    if n > 0 {
        assert(doc(p[n - 1]) == doc(q[n - 1]));
        lemma_same_measures(p, q, n - 1);
        lemma_same_layout(p[n - 1], q[n - 1], 0, false, Rendered { out: seq![], column: 0 }, Style {
            newline: seq![],
            tabs: false,
            indent: 0,
            column_width: 0,
        });
    }
}

/// Documents with the same plain values render to the same text, and
/// either both fit the machine's word or neither does.
pub proof fn lemma_same_rendering(a: Document, b: Document, o: Options)
    requires
        doc(a) == doc(b),
    ensures
        rendered(a, style_of(o)) == rendered(b, style_of(o)),
        renderable(a, o) == renderable(b, o),
{
    lemma_same_layout(a, b, 0, false, Rendered { out: seq![], column: 0 }, style_of(o));
}

/// No documents yet.
pub(crate) fn parts() -> (v: Vec<Document>)
    ensures
        v@ == Seq::<Document>::empty(),
        docs_of(v@) == Seq::<Doc>::empty(),
{
    let v: Vec<Document> = Vec::new();
    assert(docs_of(v@) =~= Seq::<Doc>::empty());
    v
}

/// The documents one after another.
pub(crate) fn finish(parts: Vec<Document>) -> (r: Document)
    ensures
        doc(r) == cat(docs_of(parts@)),
{
    proof {
        lemma_docs(parts@, parts@.len() as int);
        assert(parts@.take(parts@.len() as int) =~= parts@);
    }
    Document::Sequence(parts)
}

pub(crate) fn put(parts: &mut Vec<Document>, d: Document)
    ensures
        final(parts)@ == old(parts)@.push(d),
        docs_of(final(parts)@) == docs_of(old(parts)@).push(doc(d)),
{
    parts.push(d);
    assert(docs_of(parts@) =~= docs_of(old(parts)@).push(doc(d)));
}

pub(crate) fn put_all(parts: &mut Vec<Document>, more: Vec<Document>)
    ensures
        docs_of(final(parts)@) == docs_of(old(parts)@) + docs_of(more@),
{
    let mut more = more;
    let ghost m = more@;
    parts.append(&mut more);
    assert(docs_of(parts@) =~= docs_of(old(parts)@) + docs_of(m));
}

pub(crate) fn cat2(a: Document, b: Document) -> (r: Document)
    ensures
        doc(r) == cat(seq![doc(a), doc(b)]),
{
    let ghost g = seq![doc(a), doc(b)];
    let mut p = parts();
    put(&mut p, a);
    put(&mut p, b);
    assert(docs_of(p@) =~= g);
    finish(p)
}

pub(crate) fn cat3(a: Document, b: Document, c: Document) -> (r: Document)
    ensures
        doc(r) == cat(seq![doc(a), doc(b), doc(c)]),
{
    let ghost g = seq![doc(a), doc(b), doc(c)];
    let mut p = parts();
    put(&mut p, a);
    put(&mut p, b);
    put(&mut p, c);
    assert(docs_of(p@) =~= g);
    finish(p)
}

pub(crate) fn cat4(a: Document, b: Document, c: Document, d: Document) -> (r: Document)
    ensures
        doc(r) == cat(seq![doc(a), doc(b), doc(c), doc(d)]),
{
    let ghost g = seq![doc(a), doc(b), doc(c), doc(d)];
    let mut p = parts();
    put(&mut p, a);
    put(&mut p, b);
    put(&mut p, c);
    put(&mut p, d);
    assert(docs_of(p@) =~= g);
    finish(p)
}

pub(crate) fn cat5(a: Document, b: Document, c: Document, d: Document, e: Document) -> (r: Document)
    ensures
        doc(r) == cat(seq![doc(a), doc(b), doc(c), doc(d), doc(e)]),
{
    let ghost g = seq![doc(a), doc(b), doc(c), doc(d), doc(e)];
    let mut p = parts();
    put(&mut p, a);
    put(&mut p, b);
    put(&mut p, c);
    put(&mut p, d);
    put(&mut p, e);
    assert(docs_of(p@) =~= g);
    finish(p)
}

pub(crate) fn cat6(a: Document, b: Document, c: Document, d: Document, e: Document, f: Document) -> (r: Document)
    ensures
        doc(r) == cat(seq![doc(a), doc(b), doc(c), doc(d), doc(e), doc(f)]),
{
    let ghost g = seq![doc(a), doc(b), doc(c), doc(d), doc(e), doc(f)];
    let mut p = parts();
    put(&mut p, a);
    put(&mut p, b);
    put(&mut p, c);
    put(&mut p, d);
    put(&mut p, e);
    put(&mut p, f);
    assert(docs_of(p@) =~= g);
    finish(p)
}

/// A copy with the same plain values.
pub(crate) fn copied(d: &Document) -> (r: Document)
    ensures
        doc(r) == doc(*d),
{
    let r = d.copy();
    proof {
        lemma_alike_doc(*d, r);
    }
    r
}

pub(crate) fn lit(s: &str) -> (r: Document)
    ensures
        doc(r) == text(s@),
{
    Document::Text(String::from_str(s))
}

pub(crate) fn chars_text(v: &Vec<char>) -> (r: Document)
    ensures
        doc(r) == text(v@),
{
    Document::Text(string_of(v.as_slice()))
}

pub(crate) fn group_of(d: Document) -> (r: Document)
    ensures
        doc(r) == group(doc(d)),
{
    Document::Group(Box::new(d))
}

pub(crate) fn indented_doc(d: Document) -> (r: Document)
    ensures
        doc(r) == indent(doc(d)),
{
    Document::Indent(Box::new(d))
}

/// `d` indented `k` levels.
pub(crate) fn indented_by(d: Document, k: usize) -> (r: Document)
    ensures
        doc(r) == indented(doc(d), k as nat),
{
    let ghost d0 = doc(d);
    let mut r = d;
    let mut i: usize = 0;
    while i < k
        invariant
            i <= k,
            doc(r) == indented(d0, i as nat),
        decreases k - i,
    {
        r = Document::Indent(Box::new(r));
        i = i + 1;
    }
    r
}

/// `parts` with a copy of `sep` between each two of them.
pub(crate) fn joined_docs(sep: &Document, parts: Vec<Document>) -> (r: Vec<Document>)
    ensures
        docs_of(r@) == joined(doc(*sep), docs_of(parts@)),
{
    let ghost all = parts@;
    let mut rest = parts;
    let mut out = crate::format::emitting::parts();
    let n = rest.len();
    let mut i: usize = 0;
    while i < n
        invariant
            n == all.len(),
            i <= n,
            rest@ == all.skip(i as int),
            docs_of(out@) == joined(doc(*sep), docs_of(all.take(i as int))),
        decreases n - i,
    {
        let part = rest.remove(0);
        assert(rest@ =~= all.skip(i + 1));
        let ghost before = docs_of(all.take(i as int));
        if i != 0 {
            put(&mut out, copied(sep));
        }
        put(&mut out, part);
        proof {
            let t = docs_of(all.take(i + 1));
            assert(t.drop_last() =~= before);
            assert(t.last() == doc(all[i as int]));
            if i == 0 {
                assert(joined(doc(*sep), t) == t);
                assert(docs_of(out@) =~= t);
            } else {
                assert(joined(doc(*sep), t) == joined(doc(*sep), before) + seq![doc(*sep), doc(all[i as int])]);
                assert(docs_of(out@) =~= joined(doc(*sep), t));
            }
        }
        i = i + 1;
    }
    assert(all.take(n as int) =~= all);
    out
}

/// Each part after copies of `before`.
pub(crate) fn after_each_docs(before: &Vec<Document>, parts: Vec<Document>) -> (r: Vec<Document>)
    ensures
        docs_of(r@) == after_each(docs_of(before@), docs_of(parts@)),
{
    let ghost all = parts@;
    let mut rest = parts;
    let mut out = crate::format::emitting::parts();
    let n = rest.len();
    let mut i: usize = 0;
    while i < n
        invariant
            n == all.len(),
            i <= n,
            rest@ == all.skip(i as int),
            docs_of(out@) == after_each(docs_of(before@), docs_of(all.take(i as int))),
        decreases n - i,
    {
        let part = rest.remove(0);
        assert(rest@ =~= all.skip(i + 1));
        let ghost prior = docs_of(out@);
        let mut j: usize = 0;
        while j < before.len()
            invariant
                j <= before@.len(),
                docs_of(out@) == prior + docs_of(before@).take(j as int),
            decreases before@.len() - j,
        {
            put(&mut out, copied(&before[j]));
            assert(docs_of(before@).take(j + 1) =~= docs_of(before@).take(j as int).push(doc(before@[j as int])));
            assert(docs_of(out@) =~= prior + docs_of(before@).take(j + 1));
            j = j + 1;
        }
        put(&mut out, part);
        proof {
            let t = docs_of(all.take(i + 1));
            assert(t.drop_last() =~= docs_of(all.take(i as int)));
            assert(docs_of(before@).take(before@.len() as int) =~= docs_of(before@));
            assert(docs_of(out@) =~= after_each(docs_of(before@), t));
        }
        i = i + 1;
    }
    assert(all.take(n as int) =~= all);
    out
}

/// The first part, then each other part after copies of `sep`.
pub(crate) fn separated_docs(sep: &Vec<Document>, parts: Vec<Document>) -> (r: Vec<Document>)
    ensures
        docs_of(r@) == separated(docs_of(sep@), docs_of(parts@)),
{
    let ghost all = parts@;
    if parts.len() == 0 {
        return crate::format::emitting::parts();
    }
    let mut rest = parts;
    let first = rest.remove(0);
    let mut out = crate::format::emitting::parts();
    put(&mut out, first);
    let tail = after_each_docs(sep, rest);
    put_all(&mut out, tail);
    assert(docs_of(all).drop_first() =~= docs_of(all.skip(1)));
    assert(docs_of(out@) =~= separated(docs_of(sep@), docs_of(all)));
    out
}

/// `n` line breaks.
pub(crate) fn hard_breaks(n: usize) -> (r: Vec<Document>)
    ensures
        docs_of(r@) == hards(n as nat),
{
    let mut out = crate::format::emitting::parts();
    let mut i: usize = 0;
    while i < n
        invariant
            i <= n,
            docs_of(out@) == hards(i as nat),
        decreases n - i,
    {
        put(&mut out, Document::Hard);
        assert(hards((i + 1) as nat) =~= hards(i as nat).push(Doc::Hard));
        i = i + 1;
    }
    out
}

/// The number of line feeds in `s`.
pub(crate) fn count_newlines(s: &Vec<char>) -> (r: usize)
    ensures
        r == newlines(s@),
        r <= s@.len(),
{
    let mut n: usize = 0;
    let mut i: usize = 0;
    while i < s.len()
        invariant
            i <= s@.len(),
            n == newlines(s@.take(i as int)),
            n <= i,
        decreases s@.len() - i,
    {
        assert(s@.take(i + 1).drop_last() =~= s@.take(i as int));
        if s[i] == '\n' {
            n = n + 1;
        }
        i = i + 1;
    }
    assert(s@.take(s@.len() as int) =~= s@);
    n
}

pub(crate) fn has_char(s: &Vec<char>, c: char) -> (r: bool)
    ensures
        r == s@.contains(c),
{
    let mut i: usize = 0;
    while i < s.len()
        invariant
            i <= s@.len(),
            forall|k: int| 0 <= k < i ==> s@[k] != c,
        decreases s@.len() - i,
    {
        if s[i] == c {
            return true;
        }
        i = i + 1;
    }
    false
}

pub(crate) fn begins_char(s: &Vec<char>, c: char) -> (r: bool)
    ensures
        r == begins(s@, c),
{
    s.len() > 0 && s[0] == c
}

pub(crate) fn begins_text(s: &Vec<char>, p: &str) -> (r: bool)
    ensures
        r == begins_with(s@, p@),
{
    let q = chars_of(p);
    if q.len() > s.len() {
        return false;
    }
    let head = copy_range(s.as_slice(), 0, q.len());
    same(head.as_slice(), q.as_slice())
}

pub(crate) fn is_text(s: &Vec<char>, p: &str) -> (r: bool)
    ensures
        r == (s@ == p@),
{
    let q = chars_of(p);
    same(s.as_slice(), q.as_slice())
}

/// The precedence of a binary operator; zero for none.
pub(crate) fn precedence_of(op: &Vec<char>) -> (r: u8)
    ensures
        r == precedence(op@),
{
    if is_text(op, "or") {
        1
    } else if is_text(op, "and") {
        2
    } else if is_text(op, "<") || is_text(op, ">") || is_text(op, "<=") || is_text(op, ">=") || is_text(op, "~=")
        || is_text(op, "==") {
        3
    } else if is_text(op, "..") {
        4
    } else if is_text(op, "+") || is_text(op, "-") {
        5
    } else if is_text(op, "*") || is_text(op, "/") || is_text(op, "//") || is_text(op, "%") {
        6
    } else if is_text(op, "^") {
        7
    } else {
        0
    }
}

pub(crate) fn brace_then_newline_at(t: &Vec<char>, from: usize) -> (r: bool)
    requires
        from <= t@.len(),
    ensures
        r == brace_then_newline(t@.skip(from as int)),
{
    let mut i = from;
    while i < t.len()
        invariant
            from <= i <= t@.len(),
            brace_then_newline(t@.skip(from as int)) == brace_then_newline(t@.skip(i as int)),
        decreases t@.len() - i,
    {
        let c = t[i];
        if c == ' ' || c == '\t' || c == '\r' {
            assert(t@.skip(i as int).drop_first() =~= t@.skip(i + 1));
            i = i + 1;
        } else {
            return c == '\n';
        }
    }
    false
}

pub(crate) fn ends_in_comma_of(t: &Vec<char>) -> (r: bool)
    ensures
        r == ends_in_comma(t@, true),
{
    let mut n = t.len();
    let mut braces = true;
    assert(t@.take(n as int) =~= t@);
    while n > 0
        invariant
            n <= t@.len(),
            ends_in_comma(t@, true) == ends_in_comma(t@.take(n as int), braces),
        decreases n,
    {
        let c = t[n - 1];
        assert(t@.take(n as int).drop_last() =~= t@.take(n - 1));
        if braces && c == '}' {
            n = n - 1;
        } else if crate::text::white(c) {
            braces = false;
            n = n - 1;
        } else {
            return c == ',';
        }
    }
    false
}

impl<'a> Emitter<'a> {
    pub(crate) fn slice_of(&self, a: usize, b: usize) -> (r: Vec<char>)
        ensures
            r@ == self.slice(a as int, b as int),
            r@.len() <= self.src().len(),
    {
        if a <= b && b <= self.source.len() {
            copy_range(self.source.as_slice(), a, b)
        } else {
            Vec::new()
        }
    }

    /// The text of node `id`.
    pub(crate) fn text_of(&self, id: usize) -> (r: Vec<char>)
        requires
            id < self.len(),
        ensures
            r@ == self.text(id as int),
    {
        chars_of(self.tree.nodes[id].text.as_str())
    }

    /// A held range overlaps `start..end`.
    pub(crate) fn held_over_at(&self, start: usize, end: usize) -> (r: bool)
        ensures
            r == self.held_over(start as int, end as int),
    {
        let mut k: usize = 0;
        while k < self.held.len()
            invariant
                k <= self.held@.len(),
                forall|j: int| 0 <= j < k ==> !(#[trigger] self.held@[j].0 < end && self.held@[j].1 > start),
            decreases self.held@.len() - k,
        {
            if self.held[k].0 < end && self.held[k].1 > start {
                return true;
            }
            k = k + 1;
        }
        false
    }

    /// A held range covers `start..end`.
    pub(crate) fn held_across_at(&self, start: usize, end: usize) -> (r: bool)
        ensures
            r == self.held_across(start as int, end as int),
    {
        let mut k: usize = 0;
        while k < self.held.len()
            invariant
                k <= self.held@.len(),
                forall|j: int| 0 <= j < k ==> !(#[trigger] self.held@[j].0 <= start && self.held@[j].1 >= end),
            decreases self.held@.len() - k,
        {
            if self.held[k].0 <= start && self.held[k].1 >= end {
                return true;
            }
            k = k + 1;
        }
        false
    }

    pub(crate) fn comment_within_at(&self, k: usize, start: usize, end: usize) -> (r: bool)
        requires
            k < self.tokens().len(),
        ensures
            r == self.comment_within(k as int, start as int, end as int),
    {
        let t = self.tree.tokens[k];
        t.kind == TokenKind::Comment && t.start >= start && t.end <= end
    }

    pub(crate) fn find_last_significant(&self, x: usize) -> (r: Option<usize>)
        ensures
            (match r {
                Some(k) => self.last_significant(x as int, self.tokens().len() as int) == Some(k as int),
                None => self.last_significant(x as int, self.tokens().len() as int) is None,
            }),
            r matches Some(k) ==> k < self.tokens().len(),
    {
        let mut n = self.tree.tokens.len();
        while n > 0
            invariant
                n <= self.tokens().len(),
                self.last_significant(x as int, self.tokens().len() as int) == self.last_significant(x as int, n as int),
            decreases n,
        {
            let t = self.tree.tokens[n - 1];
            if t.kind == TokenKind::Other && t.end <= x {
                return Some(n - 1);
            }
            n = n - 1;
        }
        None
    }

    pub(crate) fn find_first_significant(&self, x: usize) -> (r: Option<usize>)
        ensures
            (match r {
                Some(k) => self.first_significant(x as int, 0) == Some(k as int),
                None => self.first_significant(x as int, 0) is None,
            }),
            r matches Some(k) ==> k < self.tokens().len(),
    {
        let mut k: usize = 0;
        while k < self.tree.tokens.len()
            invariant
                k <= self.tokens().len(),
                self.first_significant(x as int, 0) == self.first_significant(x as int, k as int),
            decreases self.tokens().len() - k,
        {
            let t = self.tree.tokens[k];
            if t.kind == TokenKind::Other && t.start >= x {
                return Some(k);
            }
            k = k + 1;
        }
        None
    }

    /// A body's extent.
    pub(crate) fn boundaries_of(&self, b: usize) -> (r: (usize, usize))
        requires
            self.wf(),
            b < self.len(),
        ensures
            r.0 == self.boundaries(b as int).0,
            r.1 == self.boundaries(b as int).1,
            r.0 <= self.src().len(),
            r.1 <= self.src().len(),
    {
        let node = &self.tree.nodes[b];
        assert(self.node_fits(b as int));
        let s = match self.find_last_significant(node.start) {
            Some(k) => {
                assert(self.token_fits(k as int));
                self.tree.tokens[k].end
            },
            None => node.start,
        };
        let e = match self.find_first_significant(node.end) {
            Some(k) => {
                assert(self.token_fits(k as int));
                self.tree.tokens[k].start
            },
            None => node.end,
        };
        (s, e)
    }

    pub(crate) fn find_first_comment(&self, start: usize, end: usize) -> (r: Option<usize>)
        ensures
            (match r {
                Some(k) => self.first_comment(start as int, end as int, 0) == Some(k as int),
                None => self.first_comment(start as int, end as int, 0) is None,
            }),
            r matches Some(k) ==> k < self.tokens().len(),
    {
        let mut k: usize = 0;
        while k < self.tree.tokens.len()
            invariant
                k <= self.tokens().len(),
                self.first_comment(start as int, end as int, 0) == self.first_comment(start as int, end as int, k as int),
            decreases self.tokens().len() - k,
        {
            if self.comment_within_at(k, start, end) {
                return Some(k);
            }
            k = k + 1;
        }
        None
    }

    pub(crate) fn find_last_comment(&self, start: usize, end: usize) -> (r: Option<usize>)
        ensures
            (match r {
                Some(k) => self.last_comment(start as int, end as int, self.tokens().len() as int) == Some(k as int),
                None => self.last_comment(start as int, end as int, self.tokens().len() as int) is None,
            }),
            r matches Some(k) ==> k < self.tokens().len(),
    {
        let mut n = self.tree.tokens.len();
        while n > 0
            invariant
                n <= self.tokens().len(),
                self.last_comment(start as int, end as int, self.tokens().len() as int) == self.last_comment(
                    start as int,
                    end as int,
                    n as int,
                ),
            decreases n,
        {
            if self.comment_within_at(n - 1, start, end) {
                return Some(n - 1);
            }
            n = n - 1;
        }
        None
    }
}


impl<'a> Emitter<'a> {
    /// A break between two comments.
    pub(crate) fn separation_of(&self, a: usize, b: usize) -> (r: Document)
        ensures
            doc(r) == self.separation(a as int, b as int),
    {
        let g = self.slice_of(a, b);
        if count_newlines(&g) > 1 {
            Document::Blank
        } else if has_char(&g, '\n') {
            Document::Hard
        } else {
            lit(" ")
        }
    }

    /// The comments within `start..end`, and a break after them when asked.
    pub(crate) fn trivia_docs(&self, start: usize, end: usize, before: bool, after: bool) -> (r: Vec<Document>)
        requires
            self.wf(),
        ensures
            docs_of(r@) == self.trivia(start as int, end as int, before, after),
    {
        let mut d = parts();
        let mut cursor = start;
        let mut previous = before;
        let mut k: usize = 0;
        while k < self.tree.tokens.len()
            invariant
                self.wf(),
                k <= self.tokens().len(),
                (docs_of(d@), cursor as int, previous) == self.trivia_scan(start as int, end as int, before, k as int),
            decreases self.tokens().len() - k,
        {
            if self.comment_within_at(k, start, end) {
                let t = self.tree.tokens[k];
                let ghost d0 = docs_of(d@);
                let ghost c0 = cursor;
                if previous {
                    put(&mut d, self.separation_of(cursor, t.start));
                }
                let piece = self.slice_of(t.start, t.end);
                put(&mut d, chars_text(&piece));
                proof {
                    let sep = if previous {
                        seq![self.separation(c0 as int, t.start as int)]
                    } else {
                        seq![]
                    };
                    assert(docs_of(d@) =~= d0 + sep + seq![text(self.slice(t.start as int, t.end as int))]);
                }
                cursor = t.end;
                previous = true;
            }
            k = k + 1;
        }
        if previous && after {
            let g = self.slice_of(cursor, end);
            if count_newlines(&g) > 1 {
                put(&mut d, Document::Blank);
            } else {
                put(&mut d, Document::Hard);
            }
        }
        d
    }

    pub(crate) fn find_first_solid(&self, start: usize, end: usize) -> (r: Option<usize>)
        ensures
            (match r {
                Some(k) => self.first_solid(start as int, end as int, 0) == Some(k as int),
                None => self.first_solid(start as int, end as int, 0) is None,
            }),
            r matches Some(k) ==> k < self.tokens().len(),
    {
        let mut k: usize = 0;
        while k < self.tree.tokens.len()
            invariant
                k <= self.tokens().len(),
                self.first_solid(start as int, end as int, 0) == self.first_solid(start as int, end as int, k as int),
            decreases self.tokens().len() - k,
        {
            let t = self.tree.tokens[k];
            if t.kind != TokenKind::Whitespace && t.start >= start && t.start < end {
                return Some(k);
            }
            k = k + 1;
        }
        None
    }

    pub(crate) fn find_last_solid(&self, start: usize, end: usize) -> (r: Option<usize>)
        ensures
            (match r {
                Some(k) => self.last_solid(start as int, end as int, self.tokens().len() as int) == Some(k as int),
                None => self.last_solid(start as int, end as int, self.tokens().len() as int) is None,
            }),
            r matches Some(k) ==> k < self.tokens().len(),
    {
        let mut n = self.tree.tokens.len();
        while n > 0
            invariant
                n <= self.tokens().len(),
                self.last_solid(start as int, end as int, self.tokens().len() as int) == self.last_solid(
                    start as int,
                    end as int,
                    n as int,
                ),
            decreases n,
        {
            let t = self.tree.tokens[n - 1];
            if t.kind != TokenKind::Whitespace && t.end <= end && t.end > start {
                return Some(n - 1);
            }
            n = n - 1;
        }
        None
    }

    /// Where child `c` lies for the comments of its parent.
    pub(crate) fn extent_of(&self, c: usize) -> (r: (usize, usize))
        requires
            self.wf(),
            c < self.len(),
        ensures
            r.0 == self.extent(c as int).0,
            r.1 == self.extent(c as int).1,
    {
        match &self.tree.nodes[c].shape {
            Shape::Block => self.boundaries_of(c),
            _ => (self.tree.nodes[c].start, self.tree.nodes[c].end),
        }
    }

    /// Node `id` holds a comment that none of its children holds.
    pub(crate) fn has_own_comments(&self, id: usize) -> (r: bool)
        requires
            self.wf(),
            id < self.len(),
        ensures
            r == self.own_comments(id as int),
    {
        proof {
            assert(refers_forward(self.tree.nodes@[id as int], id as int, self.len()));
        }
        let node = &self.tree.nodes[id];
        let kids = &node.children;
        let mut k: usize = 0;
        while k < self.tree.tokens.len()
            invariant
                self.wf(),
                id < self.len(),
                node == self.tree.nodes@[id as int],
                *kids == node.children,
                all_later(id as int, kids@, self.len()),
                k <= self.tokens().len(),
                forall|j: int|
                    0 <= j < k ==> !(#[trigger] self.comment_within(j, self.start(id as int), self.end(id as int))
                        && forall|i: int|
                        0 <= i < self.kids(id as int).len() ==> !(self.tokens()[j].start >= #[trigger] self.extent(
                            self.kids(id as int)[i] as int,
                        ).0 && self.tokens()[j].end <= self.extent(self.kids(id as int)[i] as int).1)),
            decreases self.tokens().len() - k,
        {
            if self.comment_within_at(k, node.start, node.end) {
                let t = self.tree.tokens[k];
                let mut i: usize = 0;
                let mut inside = false;
                while i < kids.len() && !inside
                    invariant
                        self.wf(),
                        id < self.len(),
                        node == self.tree.nodes@[id as int],
                        *kids == node.children,
                        all_later(id as int, kids@, self.len()),
                        k < self.tokens().len(),
                        t == self.tokens()[k as int],
                        i <= kids@.len(),
                        !inside ==> forall|m: int|
                            0 <= m < i ==> !(t.start >= #[trigger] self.extent(kids@[m] as int).0 && t.end
                                <= self.extent(kids@[m] as int).1),
                        inside ==> exists|m: int|
                            0 <= m < kids@.len() && t.start >= #[trigger] self.extent(kids@[m] as int).0 && t.end
                                <= self.extent(kids@[m] as int).1,
                    decreases kids@.len() - i + (if inside { 0int } else { 1int }),
                {
                    assert(later(id as int, kids@[i as int], self.len()));
                    let (a, b) = self.extent_of(kids[i]);
                    if t.start >= a && t.end <= b {
                        inside = true;
                    } else {
                        i = i + 1;
                    }
                }
                if !inside {
                    proof {
                        assert(self.kids(id as int) == kids@);
                        assert(self.comment_within(k as int, self.start(id as int), self.end(id as int)));
                        assert(forall|m: int|
                            0 <= m < self.kids(id as int).len() ==> !(self.tokens()[k as int].start
                                >= #[trigger] self.extent(self.kids(id as int)[m] as int).0
                                && self.tokens()[k as int].end <= self.extent(self.kids(id as int)[m] as int).1));
                    }
                    return true;
                }
            }
            k = k + 1;
        }
        false
    }

    /// A node that lies strictly around `id` and has one of the shapes `conditional` names.
    pub(crate) fn is_nested_in(&self, id: usize, conditional: bool) -> (r: bool)
        requires
            id < self.len(),
        ensures
            r == self.nested_in(id as int, conditional),
    {
        let me = &self.tree.nodes[id];
        let mut k: usize = 0;
        while k < self.tree.nodes.len()
            invariant
                id < self.len(),
                me == self.tree.nodes@[id as int],
                k <= self.len(),
                forall|j: int|
                    0 <= j < k ==> !(#[trigger] self.start(j) < self.start(id as int) && self.end(j) >= self.end(
                        id as int,
                    ) && (if conditional {
                        self.shape(j) is Conditional
                    } else {
                        self.shape(j) is TypeGroup || self.shape(j) is TypeArguments || self.shape(j) is TypePack
                    })),
            decreases self.len() - k,
        {
            let n = &self.tree.nodes[k];
            if n.start < me.start && n.end >= me.end {
                let fits = if conditional {
                    match &n.shape {
                        Shape::Conditional { .. } => true,
                        _ => false,
                    }
                } else {
                    match &n.shape {
                        Shape::TypeGroup { .. } => true,
                        Shape::TypeArguments => true,
                        Shape::TypePack => true,
                        _ => false,
                    }
                };
                if fits {
                    assert(self.start(k as int) < self.start(id as int) && self.end(k as int) >= self.end(id as int));
                    return true;
                }
            }
            k = k + 1;
        }
        false
    }
}


impl<'a> Emitter<'a> {
    /// The receivers of a call chain: how many calls it makes and what it starts from.
    pub(crate) fn chain_base_of(&self, cur: usize) -> (r: (usize, usize))
        requires
            self.tree.wf(),
            cur < self.len(),
        ensures
            r.0 == self.chain_base(cur as int).0,
            r.1 == self.chain_base(cur as int).1,
            r.0 + cur < self.len(),
        decreases self.len() - cur,
    {
        let total = self.tree.nodes.len();
        proof {
            assert(total == self.len());
            assert(refers_forward(self.tree.nodes@[cur as int], cur as int, self.len()));
        }
        match &self.tree.nodes[cur].shape {
            Shape::MethodCall { receiver, .. } => {
                let (n, b) = self.chain_base_of(*receiver);
                (n + 1, b)
            },
            Shape::Call { callee, .. } => {
                let callee = *callee;
                proof {
                    assert(refers_forward(self.tree.nodes@[callee as int], callee as int, self.len()));
                }
                let inner = match &self.tree.nodes[callee].shape {
                    Shape::Instantiate { expression, .. } => *expression,
                    _ => callee,
                };
                proof {
                    if inner != callee {
                        assert(refers_forward(self.tree.nodes@[inner as int], inner as int, self.len()));
                    }
                }
                match &self.tree.nodes[inner].shape {
                    Shape::Field { receiver, .. } => {
                        let (n, b) = self.chain_base_of(*receiver);
                        (n + 1, b)
                    },
                    _ => (0, cur),
                }
            },
            _ => (0, cur),
        }
    }

    /// The operands and operators of a run of binary operations of one precedence.
    pub(crate) fn operands_of(&self, x: usize, p: u8) -> (r: (Vec<usize>, Vec<usize>))
        requires
            self.wf(),
            x < self.len(),
        ensures
            r.0@ == self.operands(x as int, p as int).0,
            r.1@ == self.operands(x as int, p as int).1,
        decreases self.len() - x,
    {
        proof {
            assert(refers_forward(self.tree.nodes@[x as int], x as int, self.len()));
        }
        match &self.tree.nodes[x].shape {
            Shape::Binary { left, operator, right } => {
                let op = self.text_of(*operator);
                if precedence_of(&op) == p && !self.has_own_comments(x) {
                    let (mut a, mut b) = self.operands_of(*left, p);
                    let (mut c, mut d) = self.operands_of(*right, p);
                    let ghost (a0, b0, c0, d0) = (a@, b@, c@, d@);
                    a.append(&mut c);
                    b.push(*operator);
                    b.append(&mut d);
                    assert(b@ =~= b0 + seq![*operator] + d0);
                    (a, b)
                } else {
                    let mut v: Vec<usize> = Vec::new();
                    v.push(x);
                    assert(v@ =~= seq![x]);
                    (v, Vec::new())
                }
            },
            _ => {
                let mut v: Vec<usize> = Vec::new();
                v.push(x);
                assert(v@ =~= seq![x]);
                (v, Vec::new())
            },
        }
    }

    /// The members of a union or intersection, nested ones of the same kind spread out.
    pub(crate) fn members_of(&self, x: usize, union: bool) -> (r: Vec<usize>)
        requires
            self.tree.wf(),
            x < self.len(),
        ensures
            r@ == self.members(x as int, union),
        decreases self.len() - x,
    {
        proof {
            assert(refers_forward(self.tree.nodes@[x as int], x as int, self.len()));
        }
        let spread = match &self.tree.nodes[x].shape {
            Shape::TypeUnion => union,
            Shape::TypeIntersection => !union,
            _ => false,
        };
        if !spread {
            let mut v: Vec<usize> = Vec::new();
            v.push(x);
            assert(v@ =~= seq![x]);
            return v;
        }
        let kids = &self.tree.nodes[x].children;
        let mut out: Vec<usize> = Vec::new();
        let mut j: usize = 0;
        assert(kids@.take(0) =~= Seq::<usize>::empty());
        while j < kids.len()
            invariant
                self.tree.wf(),
                x < self.len(),
                *kids == self.tree.nodes@[x as int].children,
                all_later(x as int, kids@, self.len()),
                j <= kids@.len(),
                out@ == self.member_list(x as int, kids@.take(j as int), union),
            decreases kids@.len() - j,
        {
            assert(later(x as int, kids@[j as int], self.len()));
            let mut m = self.members_of(kids[j], union);
            let ghost before = out@;
            out.append(&mut m);
            proof {
                let t = kids@.take(j + 1);
                assert(t.drop_last() =~= kids@.take(j as int));
                assert(t.last() == kids@[j as int]);
                assert(all_later(x as int, t, self.len())) by {
                    assert forall|k: int| 0 <= k < t.len() implies #[trigger] later(x as int, t[k], self.len()) by {
                        assert(later(x as int, kids@[k], self.len()));
                    }
                }
            }
            j = j + 1;
        }
        assert(kids@.take(kids@.len() as int) =~= kids@);
        out
    }

    /// What a type is under its parentheses.
    pub(crate) fn unwrapped_of(&self, x: usize) -> (r: usize)
        requires
            self.tree.wf(),
            x < self.len(),
        ensures
            r == self.unwrapped(x as int),
            r < self.len(),
        decreases self.len() - x,
    {
        proof {
            assert(refers_forward(self.tree.nodes@[x as int], x as int, self.len()));
        }
        match &self.tree.nodes[x].shape {
            Shape::TypeGroup { annotation } => self.unwrapped_of(*annotation),
            _ => x,
        }
    }

    pub(crate) fn is_simple(&self, id: usize) -> (r: bool)
        requires
            id < self.len(),
        ensures
            r == self.simple(id as int),
    {
        match &self.tree.nodes[id].shape {
            Shape::Local { .. } => true,
            Shape::Assignment { .. } => true,
            Shape::CallStatement { .. } => true,
            Shape::Return { .. } => true,
            Shape::Jump => true,
            _ => false,
        }
    }

    pub(crate) fn semicolon_doc(&self) -> (r: Document)
        ensures
            doc(r) == text(self.semicolon()),
    {
        if self.options.semicolons == Semicolons::Always {
            lit(";")
        } else {
            lit("")
        }
    }

    pub(crate) fn comma_line_doc(&self) -> (r: Document)
        ensures
            doc(r) == self.comma_line(),
    {
        cat2(lit(","), Document::Line)
    }

    /// A list separated by commas and lines.
    pub(crate) fn listed_doc(&self, items: Vec<Document>) -> (r: Document)
        ensures
            doc(r) == self.listed(docs_of(items@)),
    {
        let sep = self.comma_line_doc();
        finish(joined_docs(&sep, items))
    }

    /// Children with delimiters, flat when they fit.
    pub(crate) fn delimited_doc(
        &self,
        opening: &str,
        closing: &str,
        items: Vec<Document>,
        spaces: bool,
        table: bool,
        forced: bool,
    ) -> (r: Document)
        ensures
            doc(r) == self.delimited(opening@, closing@, docs_of(items@), spaces, table, forced),
    {
        if items.len() == 0 {
            return cat2(lit(opening), lit(closing));
        }
        let ghost d = docs_of(items@);
        let edge = if forced {
            Document::Hard
        } else if spaces {
            Document::Line
        } else {
            Document::Soft
        };
        let edge2 = if forced {
            Document::Hard
        } else if spaces {
            Document::Line
        } else {
            Document::Soft
        };
        let comma = if table && self.options.trailing_separator {
            Document::Choice(Box::new(lit("")), Box::new(lit(",")))
        } else {
            lit("")
        };
        let inner = cat3(edge, self.listed_doc(items), comma);
        group_of(cat4(lit(opening), indented_doc(inner), edge2, lit(closing)))
    }

    /// A parenthesized list expanded as asked.
    pub(crate) fn parenthesized_doc(
        &self,
        items: Vec<Document>,
        expand: Expansion,
        levels: usize,
    ) -> (r: Document)
        ensures
            doc(r) == self.parenthesized(docs_of(items@), expand, levels as nat),
    {
        if items.len() == 0 {
            return lit("()");
        }
        let ghost d = docs_of(items@);
        let edge = if expand == Expansion::Always {
            Document::Hard
        } else if self.options.spacing.parentheses {
            Document::Line
        } else {
            Document::Soft
        };
        let edge2 = if expand == Expansion::Always {
            Document::Hard
        } else if self.options.spacing.parentheses {
            Document::Line
        } else {
            Document::Soft
        };
        let content = cat2(edge, self.listed_doc(items));
        let content = if expand != Expansion::Never {
            indented_by(content, levels)
        } else {
            content
        };
        let whole = cat4(lit("("), content, edge2, lit(")"));
        if expand == Expansion::Never {
            Document::Flat(Box::new(whole))
        } else {
            group_of(whole)
        }
    }

    pub(crate) fn is_hanging(&self, id: usize) -> (r: bool)
        requires
            id < self.len(),
        ensures
            r == self.hanging(id as int),
    {
        match &self.tree.nodes[id].shape {
            Shape::Function { .. } => true,
            Shape::Table => true,
            Shape::Literal => has_char(&self.text_of(id), '\n'),
            _ => false,
        }
    }

    pub(crate) fn conditional_indent_doc(&self, d: Document) -> (r: Document)
        ensures
            doc(r) == self.conditional_indent(doc(d)),
    {
        indented_by(d, self.options.conditionals.indentation)
    }

    /// The blank lines kept before field `i` of a table type.
    pub(crate) fn field_gap_of(&self, id: usize, i: usize) -> (r: usize)
        requires
            self.wf(),
            id < self.len(),
            i < self.kids(id as int).len(),
        ensures
            r == self.field_gap(id as int, i as int),
            r < usize::MAX,
    {
        if self.options.types.tables.blank_lines == Gaps::Preserve && i > 0 {
            proof {
                assert(refers_forward(self.tree.nodes@[id as int], id as int, self.len()));
                assert(later(id as int, self.kids(id as int)[i - 1], self.len()));
                assert(later(id as int, self.kids(id as int)[i as int], self.len()));
            }
            let kids = &self.tree.nodes[id].children;
            let g = self.slice_of(self.tree.nodes[kids[i - 1]].end, self.tree.nodes[kids[i]].start);
            let n = count_newlines(&g);
            if n > 0 {
                n - 1
            } else {
                0
            }
        } else {
            0
        }
    }

    /// The prefix of a function declaration.
    pub(crate) fn function_prefix_of(&self, id: usize) -> (r: &'static str)
        requires
            id < self.len(),
        ensures
            r@ == self.function_prefix(id as int),
    {
        match &self.tree.nodes[id].shape {
            Shape::Function { local, method, typed, declared, .. } => {
                let t = self.text_of(id);
                let trimmed = crate::text::trimmed_start(t.as_slice());
                if *local && begins_text(&trimmed, "const") {
                    "const function"
                } else if *local {
                    "local function"
                } else if *typed {
                    "type function"
                } else if *declared {
                    "declare function"
                } else if *method && begins_text(&t, "public") {
                    "public function"
                } else {
                    "function"
                }
            },
            _ => "",
        }
    }

    /// The space before function parentheses in definitions or calls.
    pub(crate) fn name_space_of(&self, definition: bool) -> (r: &'static str)
        ensures
            r@ == self.name_space(definition),
    {
        let f = self.options.spacing.function_names;
        if f == Separation::Always || (definition && f == Separation::Definitions) || (!definition && f
            == Separation::Calls) {
            " "
        } else {
            ""
        }
    }

    /// Whether a table constructor's source asks for expansion.
    pub(crate) fn is_forced_table(&self, id: usize) -> (r: bool)
        requires
            id < self.len(),
        ensures
            r == self.forced_table(id as int),
    {
        let t = self.text_of(id);
        let opened = if begins_char(&t, '{') {
            assert(t@.drop_first() =~= t@.skip(1));
            brace_then_newline_at(&t, 1)
        } else {
            false
        };
        opened || (self.options.expand_on_trailing_comma && ends_in_comma_of(&t))
    }

    /// Where a body's statements start, after a comment on its opening line,
    /// and that comment.
    pub(crate) fn body_start_of(&self, b: usize) -> (r: (Document, usize))
        requires
            self.wf(),
            b < self.len(),
        ensures
            doc(r.0) == self.body_start(b as int).0,
            r.1 == self.body_start(b as int).1,
    {
        let (s0, e0) = self.boundaries_of(b);
        match self.find_first_comment(s0, e0) {
            Some(k) => {
                let t = self.tree.tokens[k];
                if !has_char(&self.slice_of(s0, t.start), '\n') {
                    (cat2(lit(" "), chars_text(&self.slice_of(t.start, t.end))), t.end)
                } else {
                    (lit(""), s0)
                }
            },
            None => (lit(""), s0),
        }
    }
}


/// The plain values of each pair of documents.
pub open spec fn pairs_of(s: Seq<(Document, Document)>) -> Seq<(Doc, Doc)> {
    Seq::new(s.len(), |i: int| (doc(s[i].0), doc(s[i].1)))
}

/// The gaps as natural numbers.
pub open spec fn gaps_of(g: Seq<usize>) -> Seq<nat> {
    Seq::new(g.len(), |i: int| g[i] as nat)
}

/// Copies of the documents.
pub(crate) fn copies(v: &Vec<Document>) -> (r: Vec<Document>)
    ensures
        docs_of(r@) == docs_of(v@),
{
    let mut out = parts();
    let mut i: usize = 0;
    while i < v.len()
        invariant
            i <= v@.len(),
            docs_of(out@) == docs_of(v@).take(i as int),
        decreases v@.len() - i,
    {
        put(&mut out, copied(&v[i]));
        assert(docs_of(v@).take(i + 1) =~= docs_of(v@).take(i as int).push(doc(v@[i as int])));
        i = i + 1;
    }
    assert(docs_of(v@).take(v@.len() as int) =~= docs_of(v@));
    out
}

/// The documents in reverse order.
pub(crate) fn reversed(v: Vec<Document>) -> (r: Vec<Document>)
    ensures
        docs_of(r@) == docs_of(v@).reverse(),
{
    let ghost all = v@;
    let n = v.len();
    let mut rest = v;
    let mut out = parts();
    while rest.len() > 0
        invariant
            n == all.len(),
            rest@ == all.take(rest@.len() as int),
            out@.len() + rest@.len() == n,
            forall|i: int| 0 <= i < out@.len() ==> doc(#[trigger] out@[i]) == doc(all[n - 1 - i]),
        decreases rest@.len(),
    {
        let ghost before = out@;
        let d = rest.pop().unwrap();
        assert(rest@ =~= all.take(rest@.len() as int));
        out.push(d);
        assert forall|i: int| 0 <= i < out@.len() implies doc(#[trigger] out@[i]) == doc(all[n - 1 - i]) by {
            if i < before.len() {
                assert(out@[i] == before[i]);
            }
        }
    }
    assert(docs_of(out@) =~= docs_of(all).reverse());
    out
}

/// Two documents as a list.
pub(crate) fn pair_list(a: Document, b: Document) -> (r: Vec<Document>)
    ensures
        docs_of(r@) == seq![doc(a), doc(b)],
{
    let ghost g = seq![doc(a), doc(b)];
    let mut p = parts();
    put(&mut p, a);
    put(&mut p, b);
    assert(docs_of(p@) =~= g);
    p
}

pub(crate) fn one_list(a: Document) -> (r: Vec<Document>)
    ensures
        docs_of(r@) == seq![doc(a)],
{
    let ghost g = seq![doc(a)];
    let mut p = parts();
    put(&mut p, a);
    assert(docs_of(p@) =~= g);
    p
}

impl<'a> Emitter<'a> {
    /// Every id comes after `id`.
    pub(crate) fn all_after(&self, id: usize, v: &Vec<usize>) -> (r: bool)
        ensures
            r == all_later(id as int, v@, self.len()),
    {
        let n = self.tree.nodes.len();
        let mut i: usize = 0;
        while i < v.len()
            invariant
                n == self.len(),
                i <= v@.len(),
                forall|k: int| 0 <= k < i ==> #[trigger] later(id as int, v@[k], self.len()),
            decreases v@.len() - i,
        {
            if !(id < v[i] && v[i] < n) {
                assert(!later(id as int, v@[i as int], self.len()));
                return false;
            }
            i = i + 1;
        }
        true
    }

    /// The documents of the nodes `ids`, all after `p`.
    pub(crate) fn node_docs(&self, p: usize, ids: &Vec<usize>) -> (r: Vec<Document>)
        requires
            self.wf(),
            p < self.len(),
            all_later(p as int, ids@, self.len()),
        ensures
            docs_of(r@) == self.nodes(p as int, ids@),
            r@.len() == ids@.len(),
        decreases self.len() - p + 1, 5int, ids@.len(),
    {
        let mut out = parts();
        let mut j: usize = 0;
        assert(ids@.take(0) =~= Seq::<usize>::empty());
        while j < ids.len()
            invariant
                self.wf(),
                p < self.len(),
                all_later(p as int, ids@, self.len()),
                j <= ids@.len(),
                out@.len() == j,
                docs_of(out@) == self.nodes(p as int, ids@.take(j as int)),
            decreases ids@.len() - j,
        {
            assert(later(p as int, ids@[j as int], self.len()));
            let d = self.node(ids[j]);
            put(&mut out, d);
            proof {
                let t = ids@.take(j + 1);
                assert(t.drop_last() =~= ids@.take(j as int));
                assert(t.last() == ids@[j as int]);
                assert(all_later(p as int, t, self.len())) by {
                    assert forall|k: int| 0 <= k < t.len() implies #[trigger] later(p as int, t[k], self.len()) by {
                        assert(later(p as int, ids@[k], self.len()));
                    }
                }
            }
            j = j + 1;
        }
        assert(ids@.take(ids@.len() as int) =~= ids@);
        out
    }

    /// The document of `o`, or nothing.
    pub(crate) fn optional_doc(&self, p: usize, o: Option<usize>) -> (r: Document)
        requires
            self.wf(),
            p < self.len(),
            maybe_later(p as int, o, self.len()),
        ensures
            doc(r) == self.optional(p as int, o),
        decreases self.len() - p + 1, 3int, 0int,
    {
        match o {
            Some(x) => self.node(x),
            None => lit(""),
        }
    }

    /// The statements of block `b` within `start..end`.
    pub(crate) fn block_doc(&self, b: usize, start: usize, end: usize) -> (r: Document)
        requires
            self.wf(),
            b < self.len(),
        ensures
            doc(r) == self.block(b as int, start as int, end as int),
        decreases self.len() - b + 1, 12int, 0int,
    {
        proof {
            assert(refers_forward(self.tree.nodes@[b as int], b as int, self.len()));
        }
        let kids = &self.tree.nodes[b].children;
        let mut out = parts();
        let mut cursor = start;
        let mut k: usize = 0;
        while k < kids.len()
            invariant
                self.wf(),
                b < self.len(),
                *kids == self.tree.nodes@[b as int].children,
                all_later(b as int, kids@, self.len()),
                k <= kids@.len(),
                (docs_of(out@), cursor as int) == self.block_scan(b as int, start as int, k as int),
            decreases kids@.len() - k,
        {
            let st = kids[k];
            assert(later(b as int, kids@[k as int], self.len()));
            let node = &self.tree.nodes[st];
            let ghost before = docs_of(out@);
            let ghost c0 = cursor as int;
            if self.held_across_at(cursor, node.start) {
                put(&mut out, chars_text(&self.slice_of(cursor, node.start)));
                put(&mut out, self.node(st));
                assert(docs_of(out@) =~= before + seq![
                    text(self.slice(c0, self.start(st as int))),
                    self.emitted(st as int),
                ]);
            } else {
                let semi = self.options.semicolons == Semicolons::Always || (k + 1 < kids.len() && {
                    assert(later(b as int, kids@[k + 1], self.len()));
                    begins_char(&self.text_of(kids[k + 1]), '(')
                });
                let triv = self.trivia_docs(cursor, node.start, out.len() > 0, true);
                let ghost tv = docs_of(triv@);
                put_all(&mut out, triv);
                put(&mut out, self.node(st));
                if semi {
                    put(&mut out, lit(";"));
                }
                assert(docs_of(out@) =~= before + tv + seq![self.emitted(st as int)] + (if semi {
                    seq![text(";"@)]
                } else {
                    seq![]
                }));
            }
            cursor = node.end;
            k = k + 1;
        }
        let tail = self.trivia_docs(cursor, end, out.len() > 0, false);
        put_all(&mut out, tail);
        finish(out)
    }

    /// An indented body.
    pub(crate) fn body_doc(&self, b: usize) -> (r: Document)
        requires
            self.wf(),
            b < self.len(),
        ensures
            doc(r) == self.body(b as int),
        decreases self.len() - b + 1, 14int, 0int,
    {
        let (prefix, s) = self.body_start_of(b);
        let (_, e0) = self.boundaries_of(b);
        let none = match self.find_first_comment(s, e0) {
            Some(_) => false,
            None => true,
        };
        if self.tree.nodes[b].children.len() == 0 && none {
            return prefix;
        }
        let first = match self.find_first_solid(s, e0) {
            Some(k) => self.tree.tokens[k].start,
            None => e0,
        };
        let last = match self.find_last_solid(s, e0) {
            Some(k) => self.tree.tokens[k].end,
            None => s,
        };
        let preserve = self.options.blocks.blank_lines == Gaps::Preserve;
        let before = preserve && count_newlines(&self.slice_of(s, first)) > 1;
        let after = preserve && count_newlines(&self.slice_of(last, e0)) > 1;
        let inner = cat2(
            if before {
                Document::Blank
            } else {
                Document::Hard
            },
            self.block_doc(b, s, e0),
        );
        cat3(
            prefix,
            indented_doc(inner),
            if after {
                Document::Hard
            } else {
                lit("")
            },
        )
    }

    /// A body of one simple statement on one line.
    pub(crate) fn collapsed_doc(&self, b: usize) -> (r: Option<Document>)
        requires
            self.wf(),
            b < self.len(),
        ensures
            match r {
                Some(d) => self.collapsed(b as int) == Some(doc(d)),
                None => self.collapsed(b as int) is None,
            },
        decreases self.len() - b + 1, 14int, 0int,
    {
        proof {
            assert(refers_forward(self.tree.nodes@[b as int], b as int, self.len()));
        }
        let ks = &self.tree.nodes[b].children;
        if ks.len() == 0 {
            return None;
        }
        let (s, e) = self.boundaries_of(b);
        let st = ks[0];
        assert(later(b as int, ks@[0], self.len()));
        let commented = match self.find_first_comment(s, e) {
            Some(_) => true,
            None => false,
        };
        if ks.len() > 1 || !self.is_simple(st) || commented || count_newlines(
            &self.slice_of(s, self.tree.nodes[b].start),
        ) > 1 || self.held_over_at(s, e) {
            return None;
        }
        let d = self.node(st);
        match width_doc(&d) {
            None => None,
            Some(_) => Some(cat2(indented_doc(cat3(Document::Line, d, self.semicolon_doc())), Document::Line)),
        }
    }

    /// A table, argument list or parameter list that holds comments.
    pub(crate) fn commented_doc(&self, id: usize) -> (r: Document)
        requires
            self.wf(),
            id < self.len(),
        ensures
            doc(r) == self.commented(id as int),
        decreases self.len() - id + 1, 12int, 0int,
    {
        proof {
            assert(refers_forward(self.tree.nodes@[id as int], id as int, self.len()));
            assert(self.node_fits(id as int));
        }
        let node = &self.tree.nodes[id];
        let table = match &node.shape {
            Shape::Table => true,
            _ => false,
        };
        let kids = &node.children;
        let mut d = parts();
        let mut cursor = node.start + 1;
        let mut previous = false;
        let mut k: usize = 0;
        while k < kids.len()
            invariant
                self.wf(),
                id < self.len(),
                node == self.tree.nodes@[id as int],
                *kids == node.children,
                table == (node.shape is Table),
                all_later(id as int, kids@, self.len()),
                k <= kids@.len(),
                (docs_of(d@), cursor as int, previous) == self.commented_scan(id as int, k as int),
            decreases kids@.len() - k,
        {
            let c = kids[k];
            assert(later(id as int, kids@[k as int], self.len()));
            let comma = k + 1 < kids.len() || (table && self.options.trailing_separator);
            let ghost before = docs_of(d@);
            let triv = self.trivia_docs(cursor, self.tree.nodes[c].start, previous, true);
            let ghost tv = docs_of(triv@);
            put_all(&mut d, triv);
            put(&mut d, self.node(c));
            if comma {
                put(&mut d, lit(","));
            }
            assert(docs_of(d@) =~= before + tv + seq![self.emitted(c as int)] + (if comma {
                seq![text(","@)]
            } else {
                seq![]
            }));
            cursor = self.tree.nodes[c].end;
            previous = true;
            k = k + 1;
        }
        let end = if node.end > 0 {
            node.end - 1
        } else {
            0
        };
        let ghost dv = docs_of(d@);
        let tail = self.trivia_docs(cursor, end, previous, false);
        let ghost tv = docs_of(tail@);
        let mut inner = parts();
        put(&mut inner, Document::Hard);
        put_all(&mut inner, d);
        put_all(&mut inner, tail);
        assert(docs_of(inner@) =~= seq![Doc::Hard] + dv + tv);
        cat4(
            lit(
                if table {
                    "{"
                } else {
                    "("
                },
            ),
            indented_doc(finish(inner)),
            Document::Hard,
            lit(
                if table {
                    "}"
                } else {
                    ")"
                },
            ),
        )
    }

    /// The steps of a call chain, outermost first.
    pub(crate) fn chain_steps_of(&self, cur: usize) -> (r: Vec<Document>)
        requires
            self.wf(),
            cur < self.len(),
        ensures
            docs_of(r@) == self.chain_steps(cur as int),
        decreases self.len() - cur + 1, 11int, 0int,
    {
        proof {
            assert(refers_forward(self.tree.nodes@[cur as int], cur as int, self.len()));
        }
        match &self.tree.nodes[cur].shape {
            Shape::MethodCall { receiver, method, types, arguments } => {
                let types = *types;
                let (lt, gt) = match types {
                    Some(_) => ("<", ">"),
                    None => ("", ""),
                };
                let step = cat6(
                    lit(":"),
                    self.node(*method),
                    lit(lt),
                    self.optional_doc(cur, types),
                    lit(gt),
                    self.node(*arguments),
                );
                let ghost sv = doc(step);
                let mut out = one_list(step);
                let more = self.chain_steps_of(*receiver);
                let ghost mv = docs_of(more@);
                put_all(&mut out, more);
                assert(docs_of(out@) =~= seq![sv] + mv);
                out
            },
            Shape::Call { callee, arguments } => {
                let callee = *callee;
                let arguments = *arguments;
                proof {
                    assert(refers_forward(self.tree.nodes@[callee as int], callee as int, self.len()));
                }
                let (inner, targs) = match &self.tree.nodes[callee].shape {
                    Shape::Instantiate { expression, arguments: a } => (*expression, Some(*a)),
                    _ => (callee, None),
                };
                proof {
                    if inner != callee {
                        assert(refers_forward(self.tree.nodes@[inner as int], inner as int, self.len()));
                    }
                }
                match &self.tree.nodes[inner].shape {
                    Shape::Field { receiver, name } => {
                        let (lt, gt) = match targs {
                            Some(_) => ("<", ">"),
                            None => ("", ""),
                        };
                        let step = cat6(
                            lit("."),
                            self.node(*name),
                            lit(lt),
                            self.optional_doc(cur, targs),
                            lit(gt),
                            self.node(arguments),
                        );
                        let ghost sv = doc(step);
                        let mut out = one_list(step);
                        let more = self.chain_steps_of(*receiver);
                        let ghost mv = docs_of(more@);
                        put_all(&mut out, more);
                        assert(docs_of(out@) =~= seq![sv] + mv);
                        out
                    },
                    _ => parts(),
                }
            },
            _ => parts(),
        }
    }

    /// A chain of two or more calls, each on its own line when it breaks.
    pub(crate) fn chain_doc(&self, id: usize) -> (r: Option<Document>)
        requires
            self.wf(),
            id < self.len(),
        ensures
            match r {
                Some(d) => self.chain(id as int) == Some(doc(d)),
                None => self.chain(id as int) is None,
            },
        decreases self.len() - id + 1, 12int, 0int,
    {
        let chains = &self.options.calls.chains;
        if chains.style == Chain::Preserve {
            return None;
        }
        let steps = self.chain_steps_of(id);
        let (n, base) = self.chain_base_of(id);
        if n < 2 || base <= id || base >= self.tree.nodes.len() {
            return None;
        }
        let forced = chains.min_calls > 0 && n >= chains.min_calls;
        let mut rest = reversed(steps);
        let ghost rv = docs_of(rest@);
        let method = chains.style == Chain::Method;
        let mut head = one_list(self.node(base));
        let ghost hv = docs_of(head@);
        if method && rest.len() > 0 {
            let first = rest.remove(0);
            put(&mut head, first);
            assert(docs_of(rest@) =~= rv.drop_first());
        }
        let ghost restv = docs_of(rest@);
        let ghost hd = docs_of(head@);
        proof {
            if method && rv.len() > 0 {
                assert(hd =~= hv + seq![rv[0]]);
            } else {
                assert(hd =~= hv + Seq::<Doc>::empty());
            }
        }
        let brk = one_list(
            if forced {
                Document::Hard
            } else {
                Document::Soft
            },
        );
        let ghost bv = docs_of(brk@);
        let tail = after_each_docs(&brk, rest);
        let ind = indented_doc(finish(tail));
        let ghost iv = doc(ind);
        put(&mut head, ind);
        assert(docs_of(head@) =~= hd + seq![iv]);
        let r = group_of(finish(head));
        Some(r)
    }
}

impl<'a> Emitter<'a> {
    /// The operators after the first operand of a binary run, each with its operand.
    #[verifier::rlimit(40)]
    pub(crate) fn binary_rest_docs(&self, id: usize, ops: &Vec<usize>, opers: &Vec<usize>) -> (r: (Vec<Document>, Document))
        requires
            self.wf(),
            id < self.len(),
            ops@.len() == opers@.len() + 1,
            all_later(id as int, ops@, self.len()),
            all_later(id as int, opers@, self.len()),
        ensures
            (docs_of(r.0@), doc(r.1)) == self.binary_rest(id as int, ops@, opers@, opers@.len() as int),
        decreases self.len() - id + 1, 11int, 0int,
    {
        let mut rest = parts();
        let mut tail = lit("");
        let mut k: usize = 0;
        while k < opers.len()
            invariant
                self.wf(),
                id < self.len(),
                ops@.len() == opers@.len() + 1,
                all_later(id as int, ops@, self.len()),
                all_later(id as int, opers@, self.len()),
                k <= opers@.len(),
                (docs_of(rest@), doc(tail)) == self.binary_rest(id as int, ops@, opers@, k as int),
            decreases opers@.len() - k,
        {
            let i = k;
            assert(later(id as int, ops@[i + 1], self.len()));
            assert(later(id as int, opers@[i as int], self.len()));
            let operand = ops[i + 1];
            proof {
                assert(refers_forward(self.tree.nodes@[operand as int], operand as int, self.len()));
            }
            let d = self.node(operand);
            let grouped_conditional = match &self.tree.nodes[operand].shape {
                Shape::Group { expression } => match &self.tree.nodes[*expression].shape {
                    Shape::Conditional { .. } => true,
                    _ => false,
                },
                _ => false,
            };
            let breaks = match width_doc(&d) {
                Some(_) => false,
                None => true,
            };
            let hangs = grouped_conditional && breaks;
            let op_doc = self.node(opers[i]);
            if i + 1 == opers.len() && hangs {
                tail = cat4(lit(" "), op_doc, lit(" "), d);
            } else {
                let ghost before = docs_of(rest@);
                let ghost (ov, dv) = (doc(op_doc), doc(d));
                put(&mut rest, Document::Line);
                put(&mut rest, op_doc);
                put(&mut rest, lit(" "));
                put(&mut rest, d);
                assert(docs_of(rest@) =~= before + seq![Doc::Line, ov, text(" "@), dv]);
            }
            k = k + 1;
        }
        (rest, tail)
    }

    /// A run of binary operations of one precedence.
    pub(crate) fn binary_doc(&self, id: usize) -> (r: Document)
        requires
            self.wf(),
            id < self.len(),
        ensures
            doc(r) == self.binary(id as int),
        decreases self.len() - id + 1, 12int, 0int,
    {
        proof {
            assert(refers_forward(self.tree.nodes@[id as int], id as int, self.len()));
        }
        match &self.tree.nodes[id].shape {
            Shape::Binary { operator, .. } => {
                let p = precedence_of(&self.text_of(*operator));
                let (ops, opers) = self.operands_of(id, p);
                if self.has_own_comments(id) || ops.len() == 0 || ops.len() - 1 != opers.len() || !self.all_after(id, &ops)
                    || !self.all_after(id, &opers) {
                    return chars_text(&self.text_of(id));
                }
                assert(later(id as int, ops@[0], self.len()));
                let first = self.node(ops[0]);
                let (rest, tail) = self.binary_rest_docs(id, &ops, &opers);
                group_of(cat3(first, indented_doc(finish(rest)), tail))
            },
            _ => chars_text(&self.text_of(id)),
        }
    }

    /// The branches of a conditional expression and its final else value.
    pub(crate) fn conditional_branches_of(&self, cur: usize) -> (r: (Vec<(Document, Document)>, Document))
        requires
            self.wf(),
            cur < self.len(),
        ensures
            pairs_of(r.0@) == self.conditional_branches(cur as int).0,
            doc(r.1) == self.conditional_branches(cur as int).1,
        decreases self.len() - cur + 1, 11int, 0int,
    {
        proof {
            assert(refers_forward(self.tree.nodes@[cur as int], cur as int, self.len()));
        }
        match &self.tree.nodes[cur].shape {
            Shape::Conditional { condition, truthy, falsy } => {
                let falsy = *falsy;
                let b = (self.node(*condition), self.node(*truthy));
                let ghost bv = (doc(b.0), doc(b.1));
                let chained = match &self.tree.nodes[falsy].shape {
                    Shape::Conditional { .. } => begins_text(&self.text_of(falsy), "elseif"),
                    _ => false,
                };
                let mut out: Vec<(Document, Document)> = Vec::new();
                out.push(b);
                if chained {
                    let (mut bs, o) = self.conditional_branches_of(falsy);
                    let ghost bsv = pairs_of(bs@);
                    out.append(&mut bs);
                    assert(pairs_of(out@) =~= seq![bv] + bsv);
                    (out, o)
                } else {
                    assert(pairs_of(out@) =~= seq![bv]);
                    (out, self.node(falsy))
                }
            },
            _ => {
                let out: Vec<(Document, Document)> = Vec::new();
                assert(pairs_of(out@) =~= Seq::<(Doc, Doc)>::empty());
                (out, lit(""))
            },
        }
    }

    /// The flat form of a conditional expression.
    pub(crate) fn conditional_flat_doc(&self, branches: &Vec<(Document, Document)>, otherwise: &Document) -> (r: Document)
        ensures
            doc(r) == conditional_flat(pairs_of(branches@), doc(*otherwise)),
    {
        let ghost bs = pairs_of(branches@);
        let mut out = parts();
        let mut i: usize = 0;
        while i < branches.len()
            invariant
                i <= branches@.len(),
                bs == pairs_of(branches@),
                docs_of(out@) == conditional_flat_parts(bs, i as int),
            decreases branches@.len() - i,
        {
            let ghost before = docs_of(out@);
            let c = copied(&branches[i].0);
            let v = copied(&branches[i].1);
            let ghost (cv, vv) = (doc(c), doc(v));
            put(&mut out, lit(if i == 0 { "if " } else { "elseif " }));
            put(&mut out, c);
            put(&mut out, lit(" then "));
            put(&mut out, v);
            put(&mut out, Document::Line);
            assert(docs_of(out@) =~= before + seq![
                text(if i == 0 { "if "@ } else { "elseif "@ }),
                cv,
                text(" then "@),
                vv,
                Doc::Line,
            ]);
            i = i + 1;
        }
        let ghost fv = docs_of(out@);
        let o = copied(otherwise);
        put(&mut out, lit("else "));
        put(&mut out, o);
        assert(docs_of(out@) =~= fv + seq![text("else "@), doc(*otherwise)]);
        finish(out)
    }

    /// The expanded branches of a conditional expression.
    pub(crate) fn conditional_parts_of(&self, branches: Vec<(Document, Document)>, split: &Document) -> (r: Vec<Document>)
        ensures
            docs_of(r@) == self.conditional_parts(pairs_of(branches@), doc(*split), branches@.len() as int),
    {
        let ghost all = branches@;
        let ghost bs = pairs_of(all);
        let ghost sv = doc(*split);
        let n = branches.len();
        let mut rest = branches;
        let mut out = parts();
        let mut i: usize = 0;
        while i < n
            invariant
                n == all.len(),
                i <= n,
                bs == pairs_of(all),
                sv == doc(*split),
                rest@ == all.skip(i as int),
                docs_of(out@) == self.conditional_parts(bs, sv, i as int),
            decreases n - i,
        {
            let (c, v) = rest.remove(0);
            assert(rest@ =~= all.skip(i + 1));
            let ghost (cv, vv) = (doc(c), doc(v));
            assert(bs[i as int] == (cv, vv));
            let ghost before = docs_of(out@);
            let keyword = lit(if i == 0 { "if " } else { "elseif " });
            let ghost kv = doc(keyword);
            match self.options.conditionals.style {
                ConditionalStyle::Block => {
                    if i != 0 {
                        put(&mut out, copied(split));
                    }
                    let ghost mid = docs_of(out@);
                    put(&mut out, keyword);
                    put(&mut out, c);
                    put(&mut out, lit(" then"));
                    let body = self.conditional_indent_doc(cat2(copied(split), v));
                    let ghost yv = doc(body);
                    put(&mut out, body);
                    assert(mid =~= before + (if i != 0 { seq![sv] } else { seq![] }));
                    assert(docs_of(out@) =~= before + ((if i != 0 { seq![sv] } else { seq![] }) + seq![kv, cv, text(" then"@), yv]));
                },
                ConditionalStyle::Leading => {
                    let lead = if i == 0 {
                        keyword
                    } else {
                        self.conditional_indent_doc(cat2(copied(split), keyword))
                    };
                    let ghost lv = doc(lead);
                    put(&mut out, lead);
                    put(&mut out, c);
                    let then = self.conditional_indent_doc(cat3(copied(split), lit("then "), v));
                    let ghost tv = doc(then);
                    put(&mut out, then);
                    assert(docs_of(out@) =~= before + seq![lv, cv, tv]);
                },
            }
            i = i + 1;
        }
        out
    }

    /// A conditional expression.
    #[verifier::rlimit(40)]
    pub(crate) fn conditional_doc(&self, id: usize) -> (r: Document)
        requires
            self.wf(),
            id < self.len(),
        ensures
            doc(r) == self.conditional(id as int),
        decreases self.len() - id + 1, 12int, 0int,
    {
        let options = &self.options.conditionals;
        let (branches, otherwise) = self.conditional_branches_of(id);
        let flat = self.conditional_flat_doc(&branches, &otherwise);
        if options.expand == ConditionalExpansion::Never {
            return group_of(indented_doc(flat));
        }
        let wide = match width_doc(&flat) {
            Some(w) => w > options.width,
            None => true,
        };
        let open = wide || (options.expand == ConditionalExpansion::Always && !self.is_nested_in(id, true));
        let split = if open {
            Document::Hard
        } else {
            Document::Line
        };
        let ghost sv = doc(split);
        let mut out = self.conditional_parts_of(branches, &split);
        let ghost pv = docs_of(out@);
        match options.style {
            ConditionalStyle::Block => {
                put(&mut out, copied(&split));
                put(&mut out, lit("else"));
                let e = self.conditional_indent_doc(cat2(copied(&split), otherwise));
                let ghost ev = doc(e);
                put(&mut out, e);
                assert(docs_of(out@) =~= pv + seq![sv, text("else"@), ev]);
            },
            ConditionalStyle::Leading => {
                let e = self.conditional_indent_doc(cat3(copied(&split), lit("else "), otherwise));
                let ghost ev = doc(e);
                put(&mut out, e);
                assert(docs_of(out@) =~= pv + seq![ev]);
            },
        }
        group_of(finish(out))
    }

    /// A union or intersection type.
    pub(crate) fn operators_doc(&self, id: usize) -> (r: Document)
        requires
            self.wf(),
            id < self.len(),
            self.shape(id as int) is TypeUnion || self.shape(id as int) is TypeIntersection,
        ensures
            doc(r) == self.operators(id as int),
        decreases self.len() - id + 1, 12int, 0int,
    {
        proof {
            assert(refers_forward(self.tree.nodes@[id as int], id as int, self.len()));
        }
        let union = match &self.tree.nodes[id].shape {
            Shape::TypeUnion => true,
            _ => false,
        };
        let ms = self.members_of(id, union);
        assert(ms@ == self.member_list(id as int, self.kids(id as int), union));
        if !self.all_after(id, &ms) || ms.len() == 0 {
            return chars_text(&self.text_of(id));
        }
        let members = self.node_docs(id, &ms);
        let ghost mv = docs_of(members@);
        let mut overloads = !union;
        let mut i: usize = 0;
        while i < ms.len() && overloads
            invariant
                self.wf(),
                id < self.len(),
                all_later(id as int, ms@, self.len()),
                i <= ms@.len(),
                overloads ==> !union && forall|j: int| 0 <= j < i ==> #[trigger] self.shape(self.unwrapped(ms@[j] as int)) is TypeFunction,
                !overloads ==> union || exists|j: int| 0 <= j < ms@.len() && !(#[trigger] self.shape(self.unwrapped(ms@[j] as int)) is TypeFunction),
            decreases ms@.len() - i + (if overloads { 1int } else { 0int }),
        {
            assert(later(id as int, ms@[i as int], self.len()));
            let u = self.unwrapped_of(ms[i]);
            assert(self.tree.wf());
            let f = match &self.tree.nodes[u].shape {
                Shape::TypeFunction { .. } => true,
                _ => false,
            };
            if f {
                i = i + 1;
            } else {
                assert(!(self.shape(self.unwrapped(ms@[i as int] as int)) is TypeFunction));
                overloads = false;
            }
        }
        let expansion = if self.is_nested_in(id, false) {
            TypeExpansion::Auto
        } else {
            self.options.types.operators.expand
        };
        let t = self.text_of(id);
        if expansion == TypeExpansion::Auto && overloads {
            let flat = finish(joined_docs(&lit(" & "), copies(&members)));
            let mut tail = members;
            let first = tail.remove(0);
            assert(docs_of(tail@) =~= mv.drop_first());
            let expanded = cat2(first, indented_doc(finish(after_each_docs(&pair_list(Document::Hard, lit("& ")), tail))));
            if has_char(&t, '\n') {
                expanded
            } else {
                group_of(Document::Choice(Box::new(flat), Box::new(expanded)))
            }
        } else if expansion == TypeExpansion::Auto {
            let lead = if begins_char(&t, '|') || begins_char(&t, '&') {
                if union {
                    "| "
                } else {
                    "& "
                }
            } else {
                ""
            };
            cat2(lit(lead), finish(joined_docs(&lit(if union { " | " } else { " & " }), members)))
        } else {
            let flat = flat_doc(finish(joined_docs(&lit(if union { " | " } else { " & " }), copies(&members))));
            let expanded = indented_doc(
                finish(after_each_docs(&pair_list(Document::Hard, lit(if union { "| " } else { "& " })), members)),
            );
            if expansion == TypeExpansion::Always {
                expanded
            } else {
                group_of(Document::Choice(Box::new(flat), Box::new(expanded)))
            }
        }
    }

    /// The table-type fields after their separators and gaps.
    pub(crate) fn type_fields_docs(&self, fields: Vec<Document>, gaps: &Vec<usize>, sep: &str) -> (r: Vec<Document>)
        requires
            gaps@.len() == fields@.len(),
            forall|i: int| 0 <= i < gaps@.len() ==> #[trigger] gaps@[i] < usize::MAX,
        ensures
            docs_of(r@) == type_fields(docs_of(fields@), gaps_of(gaps@), sep@, fields@.len() as int),
    {
        let ghost all = fields@;
        let n = fields.len();
        let mut rest = fields;
        let mut out = parts();
        let mut i: usize = 0;
        while i < n
            invariant
                n == all.len(),
                gaps@.len() == n,
                forall|j: int| 0 <= j < gaps@.len() ==> #[trigger] gaps@[j] < usize::MAX,
                i <= n,
                rest@ == all.skip(i as int),
                docs_of(out@) == type_fields(docs_of(all), gaps_of(gaps@), sep@, i as int),
            decreases n - i,
        {
            let f = rest.remove(0);
            assert(rest@ =~= all.skip(i + 1));
            let ghost before = docs_of(out@);
            if i > 0 {
                put(&mut out, lit(sep));
                if gaps[i] > 0 {
                    let g = gaps[i];
                    put_all(&mut out, hard_breaks(g + 1));
                } else {
                    put(&mut out, Document::Line);
                }
            }
            let ghost mid = docs_of(out@);
            put(&mut out, f);
            proof {
                let spec_before = if i > 0 {
                    seq![text(sep@)] + if gaps_of(gaps@)[i as int] > 0 {
                        hards(gaps_of(gaps@)[i as int] + 1)
                    } else {
                        seq![Doc::Line]
                    }
                } else {
                    seq![]
                };
                assert(mid =~= before + spec_before);
                assert(docs_of(out@) =~= before + spec_before + seq![docs_of(all)[i as int]]);
            }
            i = i + 1;
        }
        out
    }

    /// A table type with its fields.
    pub(crate) fn table_type_doc(&self, id: usize) -> (r: Document)
        requires
            self.wf(),
            id < self.len(),
        ensures
            doc(r) == self.table_type(id as int),
        decreases self.len() - id + 1, 12int, 0int,
    {
        proof {
            assert(refers_forward(self.tree.nodes@[id as int], id as int, self.len()));
        }
        let ks = &self.tree.nodes[id].children;
        if ks.len() == 0 {
            return lit("{}");
        }
        let options = &self.options.types.tables;
        let comma = options.separator == Separator::Comma;
        let sep = if comma {
            ","
        } else {
            ";"
        };
        let mut gaps: Vec<usize> = Vec::new();
        let mut any_gap = false;
        let mut i: usize = 0;
        while i < ks.len()
            invariant
                self.wf(),
                id < self.len(),
                *ks == self.tree.nodes@[id as int].children,
                i <= ks@.len(),
                gaps@.len() == i,
                forall|j: int| 0 <= j < i ==> #[trigger] gaps@[j] == self.field_gap(id as int, j),
                forall|j: int| 0 <= j < i ==> #[trigger] gaps@[j] < usize::MAX,
                any_gap == exists|j: int| 0 <= j < i && #[trigger] self.field_gap(id as int, j) > 0,
            decreases ks@.len() - i,
        {
            let g = self.field_gap_of(id, i);
            gaps.push(g);
            if g > 0 {
                any_gap = true;
            }
            assert(gaps@[i as int] == g);
            assert(self.field_gap(id as int, i as int) == g);
            i = i + 1;
        }
        let ghost gv = Seq::new(ks@.len(), |j: int| self.field_gap(id as int, j));
        assert(gaps_of(gaps@) =~= gv);
        assert(any_gap == exists|j: int| 0 <= j < gv.len() && #[trigger] gv[j] > 0) by {
            if any_gap {
                let j = choose|j: int| 0 <= j < ks@.len() && #[trigger] self.field_gap(id as int, j) > 0;
                assert(gv[j] > 0);
            } else {
                assert forall|j: int| 0 <= j < gv.len() implies !(#[trigger] gv[j] > 0) by {
                    assert(gv[j] == self.field_gap(id as int, j));
                }
            }
        }
        let fields = self.node_docs(id, ks);
        let ghost fv = docs_of(fields@);
        let flat = cat3(lit("{ "), finish(joined_docs(&lit(if comma { ", " } else { "; " }), copies(&fields))), lit(" }"));
        if !options.enabled {
            return Document::Flat(Box::new(flat));
        }
        let forced = any_gap || match width_doc(&flat) {
            Some(w) => w > options.width,
            None => true,
        };
        let edge = if forced {
            Document::Hard
        } else if self.options.spacing.braces {
            Document::Line
        } else {
            Document::Soft
        };
        let edge2 = if forced {
            Document::Hard
        } else if self.options.spacing.braces {
            Document::Line
        } else {
            Document::Soft
        };
        let suffix = if self.options.trailing_separator {
            Document::Choice(Box::new(lit("")), Box::new(lit(sep)))
        } else {
            lit("")
        };
        let body = finish(self.type_fields_docs(fields, &gaps, sep));
        group_of(cat4(lit("{"), indented_doc(cat3(edge, body, suffix)), edge2, lit("}")))
    }

    /// A parameter list.
    pub(crate) fn parameters_doc(&self, p: usize) -> (r: Document)
        requires
            self.wf(),
            p < self.len(),
        ensures
            doc(r) == self.parameters(p as int),
        decreases self.len() - p + 1, 13int, 0int,
    {
        proof {
            assert(refers_forward(self.tree.nodes@[p as int], p as int, self.len()));
        }
        if self.has_own_comments(p) {
            self.commented_doc(p)
        } else {
            self.parenthesized_doc(
                self.node_docs(p, &self.tree.nodes[p].children),
                self.options.parameters.expand,
                self.options.parameters.indentation,
            )
        }
    }

    /// An argument list in parentheses.
    pub(crate) fn arguments_doc(&self, a: usize) -> (r: Document)
        requires
            self.wf(),
            a < self.len(),
        ensures
            doc(r) == self.arguments(a as int),
        decreases self.len() - a + 1, 13int, 0int,
    {
        proof {
            assert(refers_forward(self.tree.nodes@[a as int], a as int, self.len()));
        }
        let values = &self.tree.nodes[a].children;
        let docs = self.node_docs(a, values);
        let calls = &self.options.calls;
        let n = values.len();
        let hanging = n > 0 && {
            assert(later(a as int, values@[n - 1], self.len()));
            self.is_hanging(values[n - 1])
        };
        let literal = n > 0 && {
            assert(later(a as int, values@[n - 1], self.len()));
            match &self.tree.nodes[values[n - 1]].shape {
                Shape::Literal => true,
                _ => false,
            }
        };
        if (n == 1 && (hanging || literal)) || (hanging && calls.style == CallStyle::HugLast && calls.expand
            != Expansion::Always) {
            cat3(lit("("), finish(joined_docs(&lit(", "), docs)), lit(")"))
        } else {
            self.parenthesized_doc(docs, calls.expand, calls.indentation)
        }
    }

    /// The values after an `=`.
    pub(crate) fn values_doc(&self, p: usize, ids: &Vec<usize>) -> (r: Document)
        requires
            self.wf(),
            p < self.len(),
            all_later(p as int, ids@, self.len()),
        ensures
            doc(r) == self.values(p as int, ids@),
        decreases self.len() - p + 1, 13int, 0int,
    {
        let d = self.listed_doc(self.node_docs(p, ids));
        let conditional = ids.len() == 1 && {
            assert(later(p as int, ids@[0], self.len()));
            match &self.tree.nodes[ids[0]].shape {
                Shape::Conditional { .. } => true,
                _ => false,
            }
        };
        let breaks = match width_doc(&d) {
            Some(_) => false,
            None => true,
        };
        if conditional && self.options.conditionals.placement == Placement::NextLine && breaks {
            self.conditional_indent_doc(cat2(Document::Hard, d))
        } else {
            cat2(lit(" "), d)
        }
    }

    /// A parenthesized expression, or `typeof(...)`.
    pub(crate) fn grouping_doc(&self, p: usize, expression: usize, typeof_expression: bool) -> (r: Document)
        requires
            self.wf(),
            p < expression < self.len(),
        ensures
            doc(r) == self.grouped(p as int, expression as int, typeof_expression),
        decreases self.len() - p + 1, 13int, 0int,
    {
        let d = self.node(expression);
        let opening = lit(
            if typeof_expression {
                "typeof("
            } else {
                "("
            },
        );
        let conditional = match &self.tree.nodes[expression].shape {
            Shape::Conditional { .. } => true,
            _ => false,
        };
        let breaks = match width_doc(&d) {
            Some(_) => false,
            None => true,
        };
        if conditional && breaks {
            cat4(opening, indented_doc(cat2(Document::Hard, d)), Document::Hard, lit(")"))
        } else {
            cat3(opening, d, lit(")"))
        }
    }

    /// The end of a function.
    pub(crate) fn function_end_docs(&self, id: usize, b: usize) -> (r: Vec<Document>)
        requires
            self.wf(),
            id < b < self.len(),
        ensures
            docs_of(r@) == self.function_end(id as int, b as int),
        decreases self.len() - id + 1, 15int, 0int,
    {
        let (s, e) = self.boundaries_of(b);
        let collapse = self.options.blocks.collapse;
        let none = match self.find_first_comment(s, e) {
            Some(_) => false,
            None => true,
        };
        if self.tree.nodes[b].children.len() == 0 && none {
            return pair_list(Document::Hard, lit("end"));
        }
        if collapse == Collapse::FunctionOnly || collapse == Collapse::Always {
            match self.collapsed_doc(b) {
                Some(c) => {
                    return pair_list(c, lit("end"));
                },
                None => {},
            }
        }
        let ghost g = seq![self.body(b as int), Doc::Hard, text("end"@)];
        let mut out = parts();
        put(&mut out, self.body_doc(b));
        put(&mut out, Document::Hard);
        put(&mut out, lit("end"));
        assert(docs_of(out@) =~= g);
        out
    }

    /// A one-line `if` for one branch whose body collapses.
    pub(crate) fn short_if_doc(&self, id: usize) -> (r: Option<Document>)
        requires
            self.wf(),
            id < self.len(),
        ensures
            match r {
                Some(d) => self.short_if(id as int) == Some(doc(d)),
                None => self.short_if(id as int) is None,
            },
        decreases self.len() - id + 1, 15int, 0int,
    {
        proof {
            assert(refers_forward(self.tree.nodes@[id as int], id as int, self.len()));
        }
        let collapse = self.options.blocks.collapse;
        match &self.tree.nodes[id].shape {
            Shape::If { branches, otherwise } => {
                if otherwise.is_none() && branches.len() == 1 && (collapse == Collapse::ConditionalOnly || collapse
                    == Collapse::Always) {
                    let br = branches[0];
                    proof {
                        assert(later(id as int, branches@[0], self.len()));
                        assert(refers_forward(self.tree.nodes@[br as int], br as int, self.len()));
                    }
                    match &self.tree.nodes[br].shape {
                        Shape::Branch { condition, body } => match self.collapsed_doc(*body) {
                            Some(c) => Some(
                                group_of(cat5(lit("if "), self.node(*condition), lit(" then"), c, lit("end"))),
                            ),
                            None => None,
                        },
                        _ => None,
                    }
                } else {
                    None
                }
            },
            _ => None,
        }
    }

    /// The document of node `id`: its layout, its comments kept, and its
    /// source where it is held.
    pub fn node(&self, id: usize) -> (r: Document)
        requires
            self.wf(),
            id < self.len(),
        ensures
            doc(r) == self.emitted(id as int),
        decreases self.len() - id + 1, 20int, 0int,
    {
        let node = &self.tree.nodes[id];
        let own = self.has_own_comments(id);
        let listy = match &node.shape {
            Shape::Table => true,
            Shape::Arguments => true,
            Shape::Parameters => true,
            _ => false,
        };
        if own && listy {
            return self.commented_doc(id);
        }
        let block = match &node.shape {
            Shape::Block => true,
            _ => false,
        };
        if !block && (own || self.held_over_at(node.start, node.end)) {
            return chars_text(&self.text_of(id));
        }
        let call = match &node.shape {
            Shape::Call { .. } => true,
            Shape::MethodCall { .. } => true,
            _ => false,
        };
        if call {
            match self.chain_doc(id) {
                Some(d) => {
                    return d;
                },
                None => {},
            }
        }
        match &node.shape {
            Shape::Literal => {
                assert(quotable(self.tree.nodes@[id as int].text@, self.options.quotes));
                Document::Text(quote(node.text.as_str(), self.options.quotes))
            },
            Shape::Number => Document::Text(number(node.text.as_str(), self.options.leading_zero)),
            _ => self.shaped_doc(id),
        }
    }
}

/// Which of the emitter's groups of shapes a shape belongs to.
pub open spec fn shape_class(sh: Shape) -> int {
    match sh {
        Shape::Root { .. } | Shape::Block | Shape::Local { .. } | Shape::Assignment { .. } | Shape::CallStatement {
            ..
        } | Shape::Binding { .. } | Shape::Parameters | Shape::Arguments | Shape::Returns { .. }
        | Shape::FunctionName { .. } => 0,
        Shape::Function { .. } | Shape::If { .. } => 1,
        Shape::Branch { .. } | Shape::Body { .. } | Shape::While { .. } | Shape::Repeat { .. }
        | Shape::NumericFor { .. } | Shape::GenericFor { .. } | Shape::Return { .. } | Shape::Export { .. } => 5,
        Shape::TypeAlias { .. } | Shape::Declaration { .. } | Shape::ClassDeclaration { .. } | Shape::Class { .. }
        | Shape::Property { .. } | Shape::Extends { .. } | Shape::Generics | Shape::Generic { .. }
        | Shape::Variadic { .. } => 2,
        Shape::Unary { .. } | Shape::Binary { .. } | Shape::Group { .. } | Shape::TypeOf { .. } | Shape::Call { .. }
        | Shape::MethodCall { .. } | Shape::Field { .. } | Shape::Index { .. } | Shape::Instantiate { .. }
        | Shape::Assertion { .. } | Shape::Conditional { .. } | Shape::Interpolation | Shape::Table
        | Shape::TableField { .. } => 3,
        _ => 4,
    }
}

pub(crate) fn cat7(a: Document, b: Document, c: Document, d: Document, e: Document, f: Document, g: Document) -> (r: Document)
    ensures
        doc(r) == cat(seq![doc(a), doc(b), doc(c), doc(d), doc(e), doc(f), doc(g)]),
{
    let ghost s = seq![doc(a), doc(b), doc(c), doc(d), doc(e), doc(f), doc(g)];
    let mut p = parts();
    put(&mut p, a);
    put(&mut p, b);
    put(&mut p, c);
    put(&mut p, d);
    put(&mut p, e);
    put(&mut p, f);
    put(&mut p, g);
    assert(docs_of(p@) =~= s);
    finish(p)
}

impl<'a> Emitter<'a> {
    /// The document of node `id` by its shape.
    pub(crate) fn shaped_doc(&self, id: usize) -> (r: Document)
        requires
            self.wf(),
            id < self.len(),
        ensures
            doc(r) == self.shaped(id as int),
        decreases self.len() - id + 1, 19int, 0int,
    {
        let c: u8 = match &self.tree.nodes[id].shape {
            Shape::Root { .. } | Shape::Block | Shape::Local { .. } | Shape::Assignment { .. }
            | Shape::CallStatement { .. } | Shape::Binding { .. } | Shape::Parameters | Shape::Arguments
            | Shape::Returns { .. } | Shape::FunctionName { .. } => 0,
            Shape::Function { .. } | Shape::If { .. } => 1,
            Shape::Branch { .. } | Shape::Body { .. } | Shape::While { .. } | Shape::Repeat { .. }
            | Shape::NumericFor { .. } | Shape::GenericFor { .. } | Shape::Return { .. } | Shape::Export { .. } => 5,
            Shape::TypeAlias { .. } | Shape::Declaration { .. } | Shape::ClassDeclaration { .. } | Shape::Class {
                ..
            } | Shape::Property { .. } | Shape::Extends { .. } | Shape::Generics | Shape::Generic { .. }
            | Shape::Variadic { .. } => 2,
            Shape::Unary { .. } | Shape::Binary { .. } | Shape::Group { .. } | Shape::TypeOf { .. }
            | Shape::Call { .. } | Shape::MethodCall { .. } | Shape::Field { .. } | Shape::Index { .. }
            | Shape::Instantiate { .. } | Shape::Assertion { .. } | Shape::Conditional { .. } | Shape::Interpolation
            | Shape::Table | Shape::TableField { .. } => 3,
            _ => 4,
        };
        if c == 0 {
            self.statement_doc(id)
        } else if c == 1 {
            self.compound_doc(id)
        } else if c == 2 {
            self.declaration_doc(id)
        } else if c == 3 {
            self.expression_doc(id)
        } else if c == 5 {
            self.loop_doc(id)
        } else {
            self.type_doc(id)
        }
    }

    /// Roots, blocks, simple statements and lists.
    pub(crate) fn statement_doc(&self, id: usize) -> (r: Document)
        requires
            self.wf(),
            id < self.len(),
            shape_class(self.shape(id as int)) == 0,
        ensures
            doc(r) == self.shaped(id as int),
        decreases self.len() - id + 1, 18int, 0int,
    {
        proof {
            assert(refers_forward(self.tree.nodes@[id as int], id as int, self.len()));
        }
        let node = &self.tree.nodes[id];
        let o = self.options;
        match &node.shape {
            Shape::Root { block } => self.block_doc(*block, 0, self.source.len()),
            Shape::Block => self.block_doc(id, node.start, node.end),
            Shape::Local { constant, bindings, values } => {
                let init = values.len() > 0;
                group_of(
                    cat4(
                        lit(
                            if *constant {
                                "const "
                            } else {
                                "local "
                            },
                        ),
                        self.listed_doc(self.node_docs(id, bindings)),
                        lit(
                            if init {
                                " ="
                            } else {
                                ""
                            },
                        ),
                        if init {
                            self.values_doc(id, values)
                        } else {
                            lit("")
                        },
                    ),
                )
            },
            Shape::Assignment { targets, operator, values, .. } => group_of(
                cat4(
                    self.listed_doc(self.node_docs(id, targets)),
                    lit(" "),
                    self.node(*operator),
                    self.values_doc(id, values),
                ),
            ),
            Shape::CallStatement { call } => self.node(*call),
            Shape::Binding { name, annotation } => cat3(
                self.node(*name),
                lit(
                    if annotation.is_some() {
                        ": "
                    } else {
                        ""
                    },
                ),
                self.optional_doc(id, *annotation),
            ),
            Shape::Parameters => self.delimited_doc(
                "(",
                ")",
                self.node_docs(id, &node.children),
                o.spacing.parentheses,
                false,
                false,
            ),
            Shape::Arguments => {
                let values = &node.children;
                let bare = values.len() == 1 && {
                    assert(later(id as int, values@[0], self.len()));
                    let first = &self.tree.nodes[values[0]].shape;
                    let literal = match first {
                        Shape::Literal => true,
                        _ => false,
                    };
                    let table = match first {
                        Shape::Table => true,
                        _ => false,
                    };
                    match o.calls.parentheses {
                        Parentheses::Always => false,
                        Parentheses::OmitString => literal,
                        Parentheses::OmitTable => table,
                        Parentheses::OmitOptional => literal || table,
                        Parentheses::Preserve => !begins_char(&self.text_of(id), '('),
                    }
                };
                if bare {
                    assert(later(id as int, values@[0], self.len()));
                    cat2(lit(" "), self.node(values[0]))
                } else {
                    cat2(lit(self.name_space_of(false)), self.arguments_doc(id))
                }
            },
            Shape::Returns { annotation } => self.node(*annotation),
            Shape::FunctionName { path, method } => cat3(
                finish(joined_docs(&lit("."), self.node_docs(id, path))),
                lit(
                    if method.is_some() {
                        ":"
                    } else {
                        ""
                    },
                ),
                self.optional_doc(id, *method),
            ),
            _ => {
                assert(false);
                lit("")
            },
        }
    }

    /// Functions and `if` statements.
    pub(crate) fn compound_doc(&self, id: usize) -> (r: Document)
        requires
            self.wf(),
            id < self.len(),
            shape_class(self.shape(id as int)) == 1,
        ensures
            doc(r) == self.shaped(id as int),
        decreases self.len() - id + 1, 18int, 0int,
    {
        match &self.tree.nodes[id].shape {
            Shape::Function { .. } => self.function_doc(id),
            _ => self.if_doc(id),
        }
    }

    /// A function.
    pub(crate) fn function_doc(&self, id: usize) -> (r: Document)
        requires
            self.wf(),
            id < self.len(),
            self.shape(id as int) is Function,
        ensures
            doc(r) == self.shaped(id as int),
        decreases self.len() - id + 1, 17int, 0int,
    {
        proof {
            assert(refers_forward(self.tree.nodes@[id as int], id as int, self.len()));
        }
        let node = &self.tree.nodes[id];
        match &node.shape {
            Shape::Function { attributes, name, generics, parameters, result_type, body, .. } => {
                let (attributes, name, generics, parameters, result_type, body) = (
                    *attributes,
                    *name,
                    *generics,
                    *parameters,
                    *result_type,
                    *body,
                );
                let mut out = parts();
                let ghost head = match attributes {
                    Some(a) => seq![self.emitted(a as int), Doc::Hard],
                    None => seq![],
                };
                match attributes {
                    Some(a) => {
                        put(&mut out, self.node(a));
                        put(&mut out, Document::Hard);
                    },
                    None => {},
                }
                assert(docs_of(out@) =~= head);
                let ghost main = seq![
                    text(self.function_prefix(id as int)),
                    text(if name is Some { " "@ } else { ""@ }),
                    self.optional(id as int, name),
                    self.optional(id as int, generics),
                    text(self.name_space(true)),
                    self.parameters(parameters as int),
                ];
                put(&mut out, lit(self.function_prefix_of(id)));
                put(
                    &mut out,
                    lit(
                        if name.is_some() {
                            " "
                        } else {
                            ""
                        },
                    ),
                );
                put(&mut out, self.optional_doc(id, name));
                put(&mut out, self.optional_doc(id, generics));
                put(&mut out, lit(self.name_space_of(true)));
                put(&mut out, self.parameters_doc(parameters));
                assert(docs_of(out@) =~= head + main);
                let ghost ret = match result_type {
                    Some(r) => seq![text(": "@), self.emitted(r as int)],
                    None => seq![],
                };
                match result_type {
                    Some(r) => {
                        put(&mut out, lit(": "));
                        put(&mut out, self.node(r));
                    },
                    None => {},
                }
                assert(docs_of(out@) =~= head + main + ret);
                let ghost tail = match body {
                    Some(b) => self.function_end(id as int, b as int),
                    None => seq![],
                };
                match body {
                    Some(b) => {
                        put_all(&mut out, self.function_end_docs(id, b));
                    },
                    None => {},
                }
                assert(docs_of(out@) =~= head + main + ret + tail);
                group_of(finish(out))
            },
            _ => {
                assert(false);
                lit("")
            },
        }
    }

    /// An `if` statement.
    pub(crate) fn if_doc(&self, id: usize) -> (r: Document)
        requires
            self.wf(),
            id < self.len(),
            self.shape(id as int) is If,
        ensures
            doc(r) == self.shaped(id as int),
        decreases self.len() - id + 1, 17int, 0int,
    {
        proof {
            assert(refers_forward(self.tree.nodes@[id as int], id as int, self.len()));
        }
        let node = &self.tree.nodes[id];
        match &node.shape {
            Shape::If { branches, otherwise } => match self.short_if_doc(id) {
                Some(d) => d,
                None => {
                    let otherwise = *otherwise;
                    let sep = pair_list(Document::Hard, lit("else"));
                    let mut out = separated_docs(&sep, self.node_docs(id, branches));
                    let ghost sv = docs_of(out@);
                    let ghost ov = match otherwise {
                        Some(x) => seq![Doc::Hard, self.emitted(x as int)],
                        None => seq![],
                    };
                    match otherwise {
                        Some(x) => {
                            put(&mut out, Document::Hard);
                            put(&mut out, self.node(x));
                        },
                        None => {},
                    }
                    assert(docs_of(out@) =~= sv + ov);
                    put(&mut out, Document::Hard);
                    put(&mut out, lit("end"));
                    assert(docs_of(out@) =~= sv + ov + seq![Doc::Hard, text("end"@)]);
                    finish(out)
                },
            },
            _ => {
                assert(false);
                lit("")
            },
        }
    }


    /// Branches, bodies, loops, returns and exports.
    pub(crate) fn loop_doc(&self, id: usize) -> (r: Document)
        requires
            self.wf(),
            id < self.len(),
            shape_class(self.shape(id as int)) == 5,
        ensures
            doc(r) == self.shaped(id as int),
        decreases self.len() - id + 1, 18int, 0int,
    {
        proof {
            assert(refers_forward(self.tree.nodes@[id as int], id as int, self.len()));
        }
        let node = &self.tree.nodes[id];
        match &node.shape {
            Shape::Branch { condition, body } => cat4(
                lit("if "),
                self.node(*condition),
                lit(" then"),
                self.body_doc(*body),
            ),
            Shape::Body { body, otherwise } => {
                if *otherwise {
                    let mut out = parts();
                    put(&mut out, lit("else"));
                    put(&mut out, self.body_doc(*body));
                    let ghost g = seq![text("else"@), self.body(*body as int)];
                    assert(docs_of(out@) =~= g + Seq::<Doc>::empty());
                    finish(out)
                } else {
                    let mut out = parts();
                    put(&mut out, lit("do"));
                    put(&mut out, self.body_doc(*body));
                    put(&mut out, Document::Hard);
                    put(&mut out, lit("end"));
                    let ghost g = seq![text("do"@), self.body(*body as int)];
                    assert(docs_of(out@) =~= g + seq![Doc::Hard, text("end"@)]);
                    finish(out)
                }
            },
            Shape::While { condition, body } => cat6(
                lit("while "),
                self.node(*condition),
                lit(" do"),
                self.body_doc(*body),
                Document::Hard,
                lit("end"),
            ),
            Shape::Repeat { body, condition } => cat5(
                lit("repeat"),
                self.body_doc(*body),
                Document::Hard,
                lit("until "),
                self.node(*condition),
            ),
            Shape::NumericFor { binding, start, end, step, body } => {
                let step = *step;
                let ghost g = seq![
                    text("for "@),
                    self.emitted(*binding as int),
                    text(" = "@),
                    self.emitted(*start as int),
                    text(", "@),
                    self.emitted(*end as int),
                    text(if step is Some { ", "@ } else { ""@ }),
                    self.optional(id as int, step),
                    text(" do"@),
                    self.body(*body as int),
                    Doc::Hard,
                    text("end"@),
                ];
                let mut out = parts();
                put(&mut out, lit("for "));
                put(&mut out, self.node(*binding));
                put(&mut out, lit(" = "));
                put(&mut out, self.node(*start));
                put(&mut out, lit(", "));
                put(&mut out, self.node(*end));
                put(
                    &mut out,
                    lit(
                        if step.is_some() {
                            ", "
                        } else {
                            ""
                        },
                    ),
                );
                put(&mut out, self.optional_doc(id, step));
                put(&mut out, lit(" do"));
                put(&mut out, self.body_doc(*body));
                put(&mut out, Document::Hard);
                put(&mut out, lit("end"));
                assert(docs_of(out@) =~= g);
                finish(out)
            },
            Shape::GenericFor { bindings, values, body } => {
                let ghost g = seq![
                    text("for "@),
                    group(self.listed(self.nodes(id as int, bindings@))),
                    text(" in "@),
                    group(self.listed(self.nodes(id as int, values@))),
                    text(" do"@),
                    self.body(*body as int),
                    Doc::Hard,
                    text("end"@),
                ];
                let mut out = parts();
                put(&mut out, lit("for "));
                put(&mut out, group_of(self.listed_doc(self.node_docs(id, bindings))));
                put(&mut out, lit(" in "));
                put(&mut out, group_of(self.listed_doc(self.node_docs(id, values))));
                put(&mut out, lit(" do"));
                put(&mut out, self.body_doc(*body));
                put(&mut out, Document::Hard);
                put(&mut out, lit("end"));
                assert(docs_of(out@) =~= g);
                finish(out)
            },
            Shape::Return { values } => group_of(
                cat2(
                    lit(
                        if values.len() > 0 {
                            "return "
                        } else {
                            "return"
                        },
                    ),
                    self.listed_doc(self.node_docs(id, values)),
                ),
            ),
            Shape::Export { attributes, declaration } => cat3(
                self.optional_doc(id, *attributes),
                lit(
                    if attributes.is_some() {
                        "\nexport "
                    } else {
                        "export "
                    },
                ),
                self.node(*declaration),
            ),
            _ => {
                assert(false);
                lit("")
            },
        }
    }

    /// Type aliases, declarations and classes.
    pub(crate) fn declaration_doc(&self, id: usize) -> (r: Document)
        requires
            self.wf(),
            id < self.len(),
            shape_class(self.shape(id as int)) == 2,
        ensures
            doc(r) == self.shaped(id as int),
        decreases self.len() - id + 1, 18int, 0int,
    {
        proof {
            assert(refers_forward(self.tree.nodes@[id as int], id as int, self.len()));
            assert(self.node_fits(id as int));
        }
        let node = &self.tree.nodes[id];
        match &node.shape {
            Shape::TypeAlias { name, generics, annotation } => group_of(
                cat5(
                    lit("type "),
                    self.node(*name),
                    self.optional_doc(id, *generics),
                    lit(" = "),
                    self.node(*annotation),
                ),
            ),
            Shape::Declaration { name, annotation } => cat4(
                lit("declare "),
                self.node(*name),
                lit(": "),
                self.node(*annotation),
            ),
            Shape::ClassDeclaration { class } => cat2(lit("declare extern "), self.node(*class)),
            Shape::Class { typed, open, name, extends, members } => {
                let lead = if *typed {
                    "type "
                } else if *open {
                    "open class "
                } else {
                    "class "
                };
                let each = after_each_docs(&one_list(Document::Hard), self.node_docs(id, members));
                cat7(
                    lit(lead),
                    self.node(*name),
                    self.optional_doc(id, *extends),
                    lit(
                        if *typed {
                            " with"
                        } else {
                            ""
                        },
                    ),
                    indented_doc(finish(each)),
                    Document::Hard,
                    lit("end"),
                )
            },
            Shape::Property { binding } => {
                assert(later(id as int, *binding, self.len()));
                cat2(chars_text(&self.slice_of(node.start, self.tree.nodes[*binding].start)), self.node(*binding))
            },
            Shape::Extends { superclass } => cat2(lit(" extends "), self.node(*superclass)),
            Shape::Generics => self.delimited_doc("<", ">", self.node_docs(id, &node.children), false, false, false),
            Shape::Generic { name, pack, default } => cat4(
                self.node(*name),
                lit(
                    if *pack {
                        "..."
                    } else {
                        ""
                    },
                ),
                lit(
                    if default.is_some() {
                        " = "
                    } else {
                        ""
                    },
                ),
                self.optional_doc(id, *default),
            ),
            Shape::Variadic { annotation } => cat3(
                lit("..."),
                lit(
                    if annotation.is_some() {
                        ": "
                    } else {
                        ""
                    },
                ),
                self.optional_doc(id, *annotation),
            ),
            _ => {
                assert(false);
                lit("")
            },
        }
    }

    /// Expressions.
    pub(crate) fn expression_doc(&self, id: usize) -> (r: Document)
        requires
            self.wf(),
            id < self.len(),
            shape_class(self.shape(id as int)) == 3,
        ensures
            doc(r) == self.shaped(id as int),
        decreases self.len() - id + 1, 18int, 0int,
    {
        proof {
            assert(refers_forward(self.tree.nodes@[id as int], id as int, self.len()));
        }
        let node = &self.tree.nodes[id];
        let o = self.options;
        match &node.shape {
            Shape::Unary { operator, operand } => {
                let op = self.text_of(*operator);
                let spaced = is_text(&op, "not") || (is_text(&op, "-") && begins_char(&self.text_of(*operand), '-'));
                cat3(
                    self.node(*operator),
                    lit(
                        if spaced {
                            " "
                        } else {
                            ""
                        },
                    ),
                    self.node(*operand),
                )
            },
            Shape::Binary { .. } => self.binary_doc(id),
            Shape::Group { expression } => self.grouping_doc(id, *expression, false),
            Shape::TypeOf { expression } => self.grouping_doc(id, *expression, true),
            Shape::Call { callee, arguments } => cat2(self.node(*callee), self.node(*arguments)),
            Shape::MethodCall { receiver, method, types, arguments } => {
                let (lt, gt) = match types {
                    Some(_) => ("<", ">"),
                    None => ("", ""),
                };
                cat7(
                    self.node(*receiver),
                    lit(":"),
                    self.node(*method),
                    lit(lt),
                    self.optional_doc(id, *types),
                    lit(gt),
                    self.node(*arguments),
                )
            },
            Shape::Field { receiver, name } => cat3(self.node(*receiver), lit("."), self.node(*name)),
            Shape::Index { receiver, key } => {
                let spaced = o.spacing.brackets || begins_char(&self.text_of(*key), '[');
                cat4(
                    self.node(*receiver),
                    lit(
                        if spaced {
                            "[ "
                        } else {
                            "["
                        },
                    ),
                    self.node(*key),
                    lit(
                        if spaced {
                            " ]"
                        } else {
                            "]"
                        },
                    ),
                )
            },
            Shape::Instantiate { expression, arguments } => cat4(
                self.node(*expression),
                lit("<"),
                self.node(*arguments),
                lit(">"),
            ),
            Shape::Assertion { expression, annotation } => cat3(
                self.node(*expression),
                lit(" :: "),
                self.node(*annotation),
            ),
            Shape::Conditional { .. } => self.conditional_doc(id),
            Shape::Interpolation => finish(self.node_docs(id, &node.children)),
            Shape::Table => self.delimited_doc(
                "{",
                "}",
                self.node_docs(id, &node.children),
                o.spacing.braces,
                true,
                self.is_forced_table(id),
            ),
            Shape::TableField { key, value, indexed } => {
                let key = *key;
                let bracket = match key {
                    Some(k) => begins_char(&self.text_of(k), '['),
                    None => false,
                };
                let spaced = *indexed && (o.spacing.brackets || bracket);
                group_of(
                    cat5(
                        lit(
                            if spaced {
                                "[ "
                            } else if *indexed {
                                "["
                            } else {
                                ""
                            },
                        ),
                        self.optional_doc(id, key),
                        lit(
                            if spaced {
                                " ]"
                            } else if *indexed {
                                "]"
                            } else {
                                ""
                            },
                        ),
                        lit(
                            if key.is_some() {
                                " = "
                            } else {
                                ""
                            },
                        ),
                        self.node(*value),
                    ),
                )
            },
            _ => {
                assert(false);
                lit("")
            },
        }
    }

    /// Types, and the text of the other nodes.
    pub(crate) fn type_doc(&self, id: usize) -> (r: Document)
        requires
            self.wf(),
            id < self.len(),
            shape_class(self.shape(id as int)) == 4,
        ensures
            doc(r) == self.shaped(id as int),
        decreases self.len() - id + 1, 18int, 0int,
    {
        proof {
            assert(refers_forward(self.tree.nodes@[id as int], id as int, self.len()));
        }
        let node = &self.tree.nodes[id];
        let o = self.options;
        match &node.shape {
            Shape::TypeName { namespace, name, arguments } => cat4(
                self.optional_doc(id, *namespace),
                lit(
                    if namespace.is_some() {
                        "."
                    } else {
                        ""
                    },
                ),
                self.node(*name),
                self.optional_doc(id, *arguments),
            ),
            Shape::TypeTable { access, element } => {
                let t = self.text_of(id);
                if !o.types.tables.enabled && has_char(&t, '\n') {
                    chars_text(&t)
                } else {
                    match element {
                        Some(el) => group_of(
                            cat5(
                                lit("{ "),
                                self.optional_doc(id, *access),
                                lit(
                                    if access.is_some() {
                                        " "
                                    } else {
                                        ""
                                    },
                                ),
                                self.node(*el),
                                lit(" }"),
                            ),
                        ),
                        None => self.table_type_doc(id),
                    }
                }
            },
            Shape::TypeField { indexer, access, key, annotation } => {
                assert(later(id as int, *key, self.len()));
                let literal = match &self.tree.nodes[*key].shape {
                    Shape::Literal => true,
                    _ => false,
                };
                let indexed = *indexer || literal;
                cat6(
                    self.optional_doc(id, *access),
                    lit(
                        if access.is_some() {
                            " "
                        } else {
                            ""
                        },
                    ),
                    lit(
                        if indexed {
                            "["
                        } else {
                            ""
                        },
                    ),
                    self.node(*key),
                    lit(
                        if indexed {
                            "]: "
                        } else {
                            ": "
                        },
                    ),
                    self.node(*annotation),
                )
            },
            Shape::TypeFunction { attributes, generics, parameters, result_type } => group_of(
                cat5(
                    self.optional_doc(id, *attributes),
                    self.optional_doc(id, *generics),
                    self.node(*parameters),
                    lit(" -> "),
                    self.node(*result_type),
                ),
            ),
            Shape::TypeGroup { annotation } => cat3(lit("("), self.node(*annotation), lit(")")),
            Shape::TypePack => self.delimited_doc(
                "(",
                ")",
                self.node_docs(id, &node.children),
                o.spacing.parentheses,
                false,
                false,
            ),
            Shape::VariadicType { annotation } => cat2(lit("..."), self.node(*annotation)),
            Shape::TypeParameter { name, annotation } => cat3(self.node(*name), lit(": "), self.node(*annotation)),
            Shape::TypeArguments => self.delimited_doc("<", ">", self.node_docs(id, &node.children), false, false, false),
            Shape::TypeUnion => self.operators_doc(id),
            Shape::TypeIntersection => self.operators_doc(id),
            Shape::TypeOptional { annotation } => cat2(self.node(*annotation), lit("?")),
            _ => chars_text(&self.text_of(id)),
        }
    }
}

} // verus!
