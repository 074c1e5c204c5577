//! Layouts returned by formatting grafts: substitution of template markers
//! in documents, and the finishing of rendered output.

use vstd::prelude::*;
use crate::format::configuration::{Endings, Options};
use crate::format::document::{alike, render, renderable, rendered, style_of, Document};
use crate::graft::{slice_of, sliceable, GraftError};
use crate::literal::utf8_string;
use vstd::string::StringSliceAdditionalSpecFns;
use vstd::utf8::{decode_utf8, valid_utf8};
use crate::text::{chars_of, copy_range, find, find_from, lemma_find_from, string_of};

verus! {

/// `d` is literal text that reads `t`.
pub open spec fn text_is(d: Document, t: Seq<char>) -> bool {
    d matches Document::Text(s) && s@ == t
}

/// `parts` spell `text` with a document like `rep` in place of each
/// occurrence of `marker`, found from left to right: text before an
/// occurrence, when there is any, then the replacement, then the rest.
pub open spec fn spelled(parts: Seq<Document>, text: Seq<char>, marker: Seq<char>, rep: Document) -> bool
    decreases text.len(),
{
    if marker.len() == 0 {
        false
    } else {
        match find_from(text, marker, 0) {
            None => if text.len() > 0 {
                parts.len() == 1 && text_is(parts[0], text)
            } else {
                parts.len() == 0
            },
            Some(i) => {
                proof {
                    lemma_find_from(text, marker, 0);
                }
                let lead: int = if i > 0 {
                    1
                } else {
                    0
                };
                &&& parts.len() >= lead + 1
                &&& (i > 0 ==> text_is(parts[0], text.take(i)))
                &&& alike(rep, parts[lead])
                &&& spelled(parts.skip(lead + 1), text.skip(i + marker.len()), marker, rep)
            },
        }
    }
}

/// Whether some text of `d` that substitution reaches holds `marker`.
pub open spec fn holds_marker(d: Document, marker: Seq<char>) -> bool
    decreases d,
{
    match d {
        Document::Text(t) => find_from(t@, marker, 0) is Some,
        Document::Choice(a, b) => holds_marker(*a, marker) || holds_marker(*b, marker),
        Document::Group(a) => holds_marker(*a, marker),
        Document::Flat(a) => holds_marker(*a, marker),
        Document::Indent(a) => holds_marker(*a, marker),
        Document::Sequence(parts) => exists|i: int|
            0 <= i < parts@.len() && holds_marker(#[trigger] parts@[i], marker),
        _ => false,
    }
}

/// `r` is `d` with `rep` in place of each occurrence of `marker` in the text
/// of `d` outside dedented parts; text that holds no marker stays as it is.
pub open spec fn substitution(d: Document, marker: Seq<char>, rep: Document, r: Document) -> bool
    decreases d,
{
    match d {
        Document::Text(t) => if find_from(t@, marker, 0) is Some {
            r matches Document::Sequence(parts) && spelled(parts@, t@, marker, rep)
        } else {
            r == d
        },
        Document::Choice(a, b) => r matches Document::Choice(x, y) && substitution(
            *a,
            marker,
            rep,
            *x,
        ) && substitution(*b, marker, rep, *y),
        Document::Group(a) => r matches Document::Group(x) && substitution(*a, marker, rep, *x),
        Document::Flat(a) => r matches Document::Flat(x) && substitution(*a, marker, rep, *x),
        Document::Indent(a) => r matches Document::Indent(x) && substitution(*a, marker, rep, *x),
        Document::Sequence(parts) => r matches Document::Sequence(out) && out@.len()
            == parts@.len() && forall|i: int|
            0 <= i < parts@.len() ==> substitution(#[trigger] parts@[i], marker, rep, out@[i]),
        _ => r == d,
    }
}

fn spell(t: &[char], marker: &[char], rep: &Document) -> (parts: Vec<Document>)
    requires
        marker@.len() > 0,
    ensures
        spelled(parts@, t@, marker@, *rep),
{
    let mut out: Vec<Document> = Vec::new();
    let mut pos: usize = 0;
    assert(t@.skip(0) =~= t@);
    loop
        invariant
            marker@.len() > 0,
            pos <= t@.len(),
            forall|future: Seq<Document>|
                #[trigger] spelled(future, t@.skip(pos as int), marker@, *rep) ==> spelled(
                    out@ + future,
                    t@,
                    marker@,
                    *rep,
                ),
        decreases t@.len() - pos,
    {
        let rest = copy_range(t, pos, t.len());
        assert(rest@ =~= t@.skip(pos as int));
        match find(&rest, marker) {
            None => {
                let mut tail: Vec<Document> = Vec::new();
                if rest.len() > 0 {
                    tail.push(Document::Text(string_of(&rest)));
                }
                assert(spelled(tail@, t@.skip(pos as int), marker@, *rep));
                let ghost before = out@;
                let ghost tv = tail@;
                out.append(&mut tail);
                assert(out@ =~= before + tv);
                return out;
            },
            Some(i) => {
                proof {
                    lemma_find_from(rest@, marker@, 0);
                }
                let ghost before = out@;
                let ghost lead: int = if i > 0 { 1 } else { 0 };
                let mut piece: Vec<Document> = Vec::new();
                if i > 0 {
                    piece.push(Document::Text(string_of(&copy_range(&rest, 0, i))));
                    assert(rest@.subrange(0, i as int) =~= rest@.take(i as int));
                }
                piece.push(rep.copy());
                let ghost p = piece@;
                let next = pos + i + marker.len();
                assert forall|future: Seq<Document>|
                    #[trigger] spelled(future, t@.skip(next as int), marker@, *rep) implies spelled(
                        before + p + future,
                        t@,
                        marker@,
                        *rep,
                    ) by {
                    assert((p + future).skip(lead + 1) =~= future);
                    assert(rest@.skip(i + marker@.len()) =~= t@.skip(next as int));
                    assert(spelled(p + future, t@.skip(pos as int), marker@, *rep));
                    assert(before + (p + future) =~= before + p + future);
                }
                out.append(&mut piece);
                assert(out@ =~= before + p);
                pos = next;
            },
        }
    }
}

/// Replaces each occurrence of `marker` in the text of `document` with a
/// copy of `replacement`, and tells whether there was any.
pub fn substitute(document: Document, marker: &[char], replacement: &Document) -> (r: (Document, bool))
    requires
        marker@.len() > 0,
    ensures
        substitution(document, marker@, *replacement, r.0),
        r.1 == holds_marker(document, marker@),
    decreases document,
{
    let ghost whole = document;
    match document {
        Document::Text(text) => {
            let t = chars_of(text.as_str());
            match find(&t, marker) {
                None => (Document::Text(text), false),
                Some(_) => (Document::Sequence(spell(&t, marker, replacement)), true),
            }
        },
        Document::Choice(a, b) => {
            let (x, fx) = substitute(*a, marker, replacement);
            let (y, fy) = substitute(*b, marker, replacement);
            (Document::Choice(Box::new(x), Box::new(y)), fx || fy)
        },
        Document::Group(a) => {
            let (x, f) = substitute(*a, marker, replacement);
            (Document::Group(Box::new(x)), f)
        },
        Document::Flat(a) => {
            let (x, f) = substitute(*a, marker, replacement);
            (Document::Flat(Box::new(x)), f)
        },
        Document::Indent(a) => {
            let (x, f) = substitute(*a, marker, replacement);
            (Document::Indent(Box::new(x)), f)
        },
        Document::Sequence(parts) => {
            let ghost all = parts@;
            let mut rest = parts;
            let mut out: Vec<Document> = Vec::new();
            let mut found = false;
            let mut i: usize = 0;
            let n = rest.len();
            while i < n
                invariant
                    marker@.len() > 0,
                    whole == Document::Sequence(parts),
                    whole == document,
                    all == parts@,
                    n == all.len(),
                    i <= n,
                    rest@ == all.skip(i as int),
                    out@.len() == i,
                    forall|k: int| 0 <= k < i ==> substitution(#[trigger] all[k], marker@, *replacement, out@[k]),
                    found == exists|k: int| 0 <= k < i && holds_marker(#[trigger] all[k], marker@),
                decreases n - i,
            {
                let part = rest.remove(0);
                assert(rest@ =~= all.skip(i + 1));
                assert(part == all[i as int]);
                assert(decreases_to!(parts => parts@));
                assert(decreases_to!(parts@ => parts@[i as int]));
                assert(whole->Sequence_0 == parts);
                assert(decreases_to!(whole => whole->Sequence_0));
                let (x, f) = substitute(part, marker, replacement);
                out.push(x);
                found = found || f;
                i = i + 1;
            }
            (Document::Sequence(out), found)
        },
        other => (other, false),
    }
}

/// The characters trimmed from the end of rendered layouts.
pub open spec fn layout_space(c: char) -> bool {
    c == ' ' || c == '\t' || c == '\r' || c == '\n'
}

/// How many characters at the end of `s` are layout space.
pub open spec fn trailing_space(s: Seq<char>) -> nat
    decreases s.len(),
{
    if s.len() > 0 && layout_space(s.last()) {
        1 + trailing_space(s.drop_last())
    } else {
        0
    }
}

/// Rendered layout output as it is returned: trailing spaces, tabs and line
/// breaks dropped, then the line ending appended when the options ask for a
/// final newline.
pub open spec fn finished(output: Seq<char>, options: Options) -> Seq<char> {
    let body = output.take(output.len() - trailing_space(output));
    if options.final_newline {
        body + match options.line_endings {
            Endings::Unix => seq!['\n'],
            Endings::Windows => seq!['\r', '\n'],
        }
    } else {
        body
    }
}

proof fn lemma_trailing_space(s: Seq<char>)
    ensures
        trailing_space(s) <= s.len(),
    decreases s.len(),
{
    if s.len() > 0 && layout_space(s.last()) {
        lemma_trailing_space(s.drop_last());
    }
}

/// Finishes rendered layout output as `finished` describes.
pub fn finish(output: &str, options: &Options) -> (r: String)
    ensures
        r@ == finished(output@, *options),
{
    let v = chars_of(output);
    let mut end: usize = v.len();
    assert(v@.take(end as int) =~= v@);
    while end > 0 && (v[end - 1] == ' ' || v[end - 1] == '\t' || v[end - 1] == '\r' || v[end - 1] == '\n')
        invariant
            end <= v@.len(),
            v@ == output@,
            trailing_space(v@) == (v@.len() - end) + trailing_space(v@.take(end as int)),
        decreases end,
    {
        assert(v@.take(end as int).drop_last() =~= v@.take(end - 1));
        end = end - 1;
    }
    proof {
        lemma_trailing_space(v@);
    }
    let mut body = copy_range(&v, 0, end);
    assert(v@.subrange(0, end as int) =~= v@.take(v@.len() - trailing_space(v@)));
    if options.final_newline {
        match options.line_endings {
            Endings::Unix => {
                body.push('\n');
            },
            Endings::Windows => {
                body.push('\r');
                body.push('\n');
            },
        }
    }
    let r = string_of(&body);
    assert(r@ =~= finished(output@, *options));
    r
}

/// The text a formatting reply produces: a layout of version 1 rendered
/// with the options and finished.
pub fn format(version: u32, document: &Document, options: &Options) -> (r: Result<String, GraftError>)
    requires
        renderable(*document, *options),
    ensures
        version != 1 ==> r == Err::<String, GraftError>(GraftError::UnsupportedLayout),
        version == 1 ==> (r matches Ok(t) && t@ == finished(rendered(*document, style_of(*options)), *options)),
{
    if version != 1 {
        return Err(GraftError::UnsupportedLayout);
    }
    let output = render(document, options);
    Ok(finish(output.as_str(), options))
}

/// How a host span is parsed before it is formatted.
#[derive(Debug, Clone, Copy, PartialEq, Eq, Structural)]
pub enum Parse {
    Block,
    Expression,
}

/// A template marker and the layout that takes its place.
pub struct Replacement {
    pub marker: String,
    pub document: Layout,
}

/// A layout document as a formatting graft returns it.
pub enum Layout {
    /// Nothing.
    Empty,
    /// The source text between two byte offsets.
    Source(usize, usize),
    /// Literal text.
    Text(String),
    Line,
    Soft,
    Hard,
    Blank,
    Choice(Box<Layout>, Box<Layout>),
    Group(Box<Layout>),
    Indent(Box<Layout>),
    Sequence(Vec<Layout>),
    /// A span of the source laid out by the host's own formatter.
    Host { start: usize, end: usize, parse: Parse },
    /// Luau source laid out by the host's formatter, with markers replaced.
    Template { source: String, replacements: Vec<Replacement> },
}

/// How many times `marker` occurs in `text`, counting from the left without
/// overlaps.
pub open spec fn occurrences(text: Seq<char>, marker: Seq<char>) -> nat
    decreases text.len(),
{
    if marker.len() == 0 {
        0
    } else {
        match find_from(text, marker, 0) {
            None => 0,
            Some(i) => {
                proof {
                    lemma_find_from(text, marker, 0);
                }
                1 + occurrences(text.skip(i + marker.len()), marker)
            },
        }
    }
}

/// A span of the source: a slice between character boundaries.
pub open spec fn span_ok(src: Seq<u8>, start: int, end: int) -> bool {
    slice_of(src, start, end) && valid_utf8(src.subrange(start, end))
}

/// Every span of the layout is a slice of the source, and every template
/// marker is nonempty and occurs exactly once in its template.
pub open spec fn spans_valid(l: Layout, src: Seq<u8>) -> bool
    decreases l,
{
    match l {
        Layout::Source(s, e) => span_ok(src, s as int, e as int),
        Layout::Choice(a, b) => spans_valid(*a, src) && spans_valid(*b, src),
        Layout::Group(a) => spans_valid(*a, src),
        Layout::Indent(a) => spans_valid(*a, src),
        Layout::Sequence(parts) => forall|i: int| 0 <= i < parts@.len() ==> spans_valid(#[trigger] parts@[i], src),
        Layout::Host { start, end, parse } => span_ok(src, start as int, end as int),
        Layout::Template { source, replacements } => forall|i: int|
            0 <= i < replacements@.len() ==> {
                &&& (#[trigger] replacements@[i]).marker@.len() > 0
                &&& occurrences(source@, replacements@[i].marker@) == 1
                &&& spans_valid(replacements@[i].document, src)
            },
        _ => true,
    }
}

/// A layout that the host's formatter takes no part in.
pub open spec fn pure(l: Layout) -> bool
    decreases l,
{
    match l {
        Layout::Choice(a, b) => pure(*a) && pure(*b),
        Layout::Group(a) => pure(*a),
        Layout::Indent(a) => pure(*a),
        Layout::Sequence(parts) => forall|i: int| 0 <= i < parts@.len() ==> pure(#[trigger] parts@[i]),
        Layout::Host { .. } => false,
        Layout::Template { .. } => false,
        _ => true,
    }
}

/// `steps` runs from `base` to `d`, each step `steps[k + 1]` being
/// `steps[k]` with `docs[k]` in place of each occurrence of `markers[k]`.
pub open spec fn substituted_all(
    base: Document,
    markers: Seq<Seq<char>>,
    docs: Seq<Document>,
    steps: Seq<Document>,
    d: Document,
) -> bool {
    &&& docs.len() == markers.len()
    &&& steps.len() == markers.len() + 1
    &&& steps[0] == base
    &&& steps.last() == d
    &&& forall|k: int| 0 <= k < markers.len() ==> substitution(#[trigger] steps[k], markers[k], docs[k], steps[k + 1])
}

/// The markers of a template's replacements, in order.
pub open spec fn markers_of(replacements: Seq<Replacement>) -> Seq<Seq<char>> {
    replacements.map_values(|r: Replacement| r.marker@)
}

/// `d` is the document of the layout `l` over the source `src`, with host
/// spans and templates laid out by `fragment`: empty text for nothing, the
/// source's characters for a span, the same text, breaks and structure; for
/// a host span, what `fragment` gave for its text; for a template, what
/// `fragment` gave for its text with each marker, in turn, replaced by the
/// document of its replacement.
pub open spec fn shaped<F: Fn(&str, bool) -> Option<Document>>(l: Layout, src: Seq<u8>, fragment: F, d: Document) -> bool
    decreases l,
{
    match l {
        Layout::Empty => text_is(d, seq![]),
        Layout::Source(s, e) => text_is(d, decode_utf8(src.subrange(s as int, e as int))),
        Layout::Text(t) => text_is(d, t@),
        Layout::Line => d matches Document::Line,
        Layout::Soft => d matches Document::Soft,
        Layout::Hard => d matches Document::Hard,
        Layout::Blank => d matches Document::Blank,
        Layout::Choice(a, b) => d matches Document::Choice(x, y) && shaped(*a, src, fragment, *x) && shaped(*b, src, fragment, *y),
        Layout::Group(a) => d matches Document::Group(x) && shaped(*a, src, fragment, *x),
        Layout::Indent(a) => d matches Document::Indent(x) && shaped(*a, src, fragment, *x),
        Layout::Sequence(parts) => d matches Document::Sequence(out) && out@.len() == parts@.len() && forall|i: int|
            0 <= i < parts@.len() ==> shaped(#[trigger] parts@[i], src, fragment, out@[i]),
        Layout::Host { start, end, parse } => exists|t: &str|
            t@ == decode_utf8(src.subrange(start as int, end as int)) && #[trigger] call_ensures(
                fragment,
                (t, expression(parse)),
                Some(d),
            ),
        Layout::Template { source, replacements } => exists|t: &str, base: Document, docs: Seq<Document>, steps: Seq<Document>|
            t@ == source@ && #[trigger] call_ensures(fragment, (t, false), Some(base)) && docs.len()
                == replacements@.len() && (forall|k: int|
                0 <= k < docs.len() ==> shaped(#[trigger] replacements@[k].document, src, fragment, docs[k]))
                && #[trigger] substituted_all(base, markers_of(replacements@), docs, steps, d),
    }
}

/// Some template within `l`, its own text laid out by `fragment`, does not
/// hold the marker of one of its replacements at that replacement's turn.
pub open spec fn marker_missing<F: Fn(&str, bool) -> Option<Document>>(l: Layout, src: Seq<u8>, fragment: F) -> bool
    decreases l,
{
    match l {
        Layout::Choice(a, b) => marker_missing(*a, src, fragment) || marker_missing(*b, src, fragment),
        Layout::Group(a) => marker_missing(*a, src, fragment),
        Layout::Indent(a) => marker_missing(*a, src, fragment),
        Layout::Sequence(parts) => exists|i: int| 0 <= i < parts@.len() && marker_missing(#[trigger] parts@[i], src, fragment),
        Layout::Template { source, replacements } => (exists|k: int|
            0 <= k < replacements@.len() && marker_missing(#[trigger] replacements@[k].document, src, fragment)) || (exists|
            t: &str,
            base: Document,
            k: int,
            docs: Seq<Document>,
            steps: Seq<Document>,
            current: Document,
        |
            0 <= k < replacements@.len() && t@ == source@ && #[trigger] call_ensures(fragment, (t, false), Some(base))
                && #[trigger] substituted_all(base, markers_of(replacements@.take(k)), docs, steps, current)
                && !holds_marker(current, replacements@[k].marker@)),
        _ => false,
    }
}

/// A host span is laid out as an expression.
pub open spec fn expression(parse: Parse) -> bool {
    parse == Parse::Expression
}

/// `fragment` lays out every text it is given.
pub open spec fn total<F: Fn(&str, bool) -> Option<Document>>(fragment: F) -> bool {
    forall|t: &str, e: bool, o: Option<Document>| #[trigger] call_ensures(fragment, (t, e), o) ==> o is Some
}

fn count_occurrences(text: &[char], marker: &[char]) -> (r: usize)
    requires
        marker@.len() > 0,
    ensures
        r == occurrences(text@, marker@),
{
    let mut count: usize = 0;
    let mut pos: usize = 0;
    assert(text@.skip(0) =~= text@);
    loop
        invariant
            marker@.len() > 0,
            pos <= text@.len(),
            count <= pos,
            occurrences(text@, marker@) == count + occurrences(text@.skip(pos as int), marker@),
        decreases text@.len() - pos,
    {
        let rest = copy_range(text, pos, text.len());
        assert(rest@ =~= text@.skip(pos as int));
        match find(&rest, marker) {
            None => {
                return count;
            },
            Some(i) => {
                proof {
                    lemma_find_from(rest@, marker@, 0);
                }
                assert(rest@.skip(i + marker@.len()) =~= text@.skip(pos + i + marker@.len()));
                count = count + 1;
                pos = pos + i + marker.len();
            },
        }
    }
}

fn source_text(source: &str, start: usize, end: usize) -> (r: Option<String>)
    ensures
        span_ok(source.spec_bytes(), start as int, end as int) ==> (r matches Some(t) && t@ == decode_utf8(source.spec_bytes().subrange(start as int, end as int))),
        !span_ok(source.spec_bytes(), start as int, end as int) ==> r is None,
{
    if !sliceable(source, start, end) {
        return None;
    }
    let b = source.as_bytes();
    let mut v: Vec<u8> = Vec::new();
    let mut i = start;
    while i < end
        invariant
            start <= i <= end <= b@.len(),
            v@ == b@.subrange(start as int, i as int),
        decreases end - i,
    {
        v.push(b[i]);
        i = i + 1;
        assert(v@ =~= b@.subrange(start as int, i as int));
    }
    utf8_string(v)
}

/// The document of a layout over the source, with host spans and templates
/// laid out by `fragment`, which takes Luau text and whether it is an
/// expression and gives its document, if it can lay it out.
pub fn document<F: Fn(&str, bool) -> Option<Document>>(layout: Layout, source: &str, fragment: &F) -> (r: Result<Document, GraftError>)
    requires
        forall|t: &str, e: bool| call_requires(*fragment, (t, e)),
    ensures
        r matches Ok(d) ==> shaped(layout, source.spec_bytes(), *fragment, d),
        spans_valid(layout, source.spec_bytes()) && pure(layout) ==> r is Ok,
        spans_valid(layout, source.spec_bytes()) && total(*fragment) ==> (r is Ok || r == Err::<Document, GraftError>(GraftError::MissingMarker)),
        r == Err::<Document, GraftError>(GraftError::InvalidFragment) ==> exists|t: &str, e: bool|
            #[trigger] call_ensures(*fragment, (t, e), None::<Document>),
        !spans_valid(layout, source.spec_bytes()) ==> r is Err,
        r == Err::<Document, GraftError>(GraftError::InvalidFragment) ==> !pure(layout),
        r == Err::<Document, GraftError>(GraftError::MissingMarker) ==> !pure(layout),
        r == Err::<Document, GraftError>(GraftError::MissingMarker) ==> marker_missing(layout, source.spec_bytes(), *fragment),
        r matches Err(e) ==> (e == GraftError::InvalidSpan || e == GraftError::InvalidMarker || e == GraftError::InvalidFragment || e == GraftError::MissingMarker),
    decreases layout,
{
    let ghost whole = layout;
    let ghost src = source.spec_bytes();
    match layout {
        Layout::Empty => Ok(Document::Text(string_of(&Vec::new()))),
        Layout::Source(start, end) => match source_text(source, start, end) {
            Some(t) => Ok(Document::Text(t)),
            None => Err(GraftError::InvalidSpan),
        },
        Layout::Text(t) => Ok(Document::Text(t)),
        Layout::Line => Ok(Document::Line),
        Layout::Soft => Ok(Document::Soft),
        Layout::Hard => Ok(Document::Hard),
        Layout::Blank => Ok(Document::Blank),
        Layout::Choice(a, b) => {
            let x = document(*a, source, fragment)?;
            let y = document(*b, source, fragment)?;
            Ok(Document::Choice(Box::new(x), Box::new(y)))
        },
        Layout::Group(a) => {
            let x = document(*a, source, fragment)?;
            Ok(Document::Group(Box::new(x)))
        },
        Layout::Indent(a) => {
            let x = document(*a, source, fragment)?;
            Ok(Document::Indent(Box::new(x)))
        },
        Layout::Sequence(parts) => {
            let ghost all = parts@;
            let mut rest = parts;
            let mut out: Vec<Document> = Vec::new();
            let n = rest.len();
            let mut i: usize = 0;
            while i < n
                invariant
                    whole == Layout::Sequence(parts),
                    whole == layout,
                    all == parts@,
                    src == source.spec_bytes(),
                    forall|t: &str, e: bool| call_requires(*fragment, (t, e)),
                    n == all.len(),
                    i <= n,
                    rest@ == all.skip(i as int),
                    out@.len() == i,
                    forall|k: int| 0 <= k < i ==> shaped(#[trigger] all[k], src, *fragment, out@[k]),
                    forall|k: int| 0 <= k < i ==> spans_valid(#[trigger] all[k], src),
                decreases n - i,
            {
                let part = rest.remove(0);
                assert(rest@ =~= all.skip(i + 1));
                assert(part == all[i as int]);
                assert(decreases_to!(parts => parts@));
                assert(decreases_to!(parts@ => parts@[i as int]));
                assert(whole->Sequence_0 == parts);
                assert(decreases_to!(whole => whole->Sequence_0));
                match document(part, source, fragment) {
                    Ok(x) => {
                        out.push(x);
                    },
                    Err(e) => {
                        proof {
                            assert(e == GraftError::MissingMarker ==> marker_missing(all[i as int], src, *fragment));
                        }
                        return Err(e);
                    },
                }
                i = i + 1;
            }
            Ok(Document::Sequence(out))
        },
        Layout::Host { start, end, parse } => {
            let text = match source_text(source, start, end) {
                Some(t) => t,
                None => {
                    return Err(GraftError::InvalidSpan);
                },
            };
            let expr = match parse {
                Parse::Expression => true,
                Parse::Block => false,
            };
            assert(expr == expression(parse));
            let ts: &str = text.as_str();
            let answer = fragment(ts, expr);
            assert(call_ensures(*fragment, (ts, expr), answer));
            match answer {
                Some(d) => Ok(d),
                None => Err(GraftError::InvalidFragment),
            }
        },
        Layout::Template { source: template, replacements } => {
            let ts: &str = template.as_str();
            let answer = fragment(ts, false);
            assert(call_ensures(*fragment, (ts, false), answer));
            let mut current = match answer {
                Some(d) => d,
                None => {
                    return Err(GraftError::InvalidFragment);
                },
            };
            let ghost base = current;
            let ghost mut docs: Seq<Document> = Seq::empty();
            let ghost mut steps: Seq<Document> = seq![current];
            assert(markers_of(replacements@.take(0)) =~= Seq::<Seq<char>>::empty());
            let t = chars_of(template.as_str());
            let ghost all = replacements@;
            let mut rest = replacements;
            let n = rest.len();
            let mut i: usize = 0;
            while i < n
                invariant
                    whole == (Layout::Template { source: template, replacements }),
                    whole == layout,
                    all == replacements@,
                    t@ == template@,
                    src == source.spec_bytes(),
                    forall|u: &str, e: bool| call_requires(*fragment, (u, e)),
                    n == all.len(),
                    i <= n,
                    rest@ == all.skip(i as int),
                    forall|k: int| 0 <= k < i ==> {
                        &&& (#[trigger] all[k]).marker@.len() > 0
                        &&& occurrences(template@, all[k].marker@) == 1
                        &&& spans_valid(all[k].document, src)
                    },
                    call_ensures(*fragment, (ts, false), Some(base)),
                    ts@ == template@,
                    docs.len() == i,
                    forall|k: int| 0 <= k < i ==> shaped(#[trigger] all[k].document, src, *fragment, docs[k]),
                    substituted_all(base, markers_of(all.take(i as int)), docs, steps, current),
                decreases n - i,
            {
                let replacement = rest.remove(0);
                assert(rest@ =~= all.skip(i + 1));
                assert(replacement == all[i as int]);
                let marker = chars_of(replacement.marker.as_str());
                if marker.len() == 0 || count_occurrences(&t, &marker) != 1 {
                    return Err(GraftError::InvalidMarker);
                }
                assert(decreases_to!(replacements => replacements@));
                assert(decreases_to!(replacements@ => replacements@[i as int]));
                assert(decreases_to!(replacements@[i as int] => replacements@[i as int].document));
                assert(whole->Template_replacements == replacements);
                assert(decreases_to!(whole => whole->Template_replacements));
                let inner = match document(replacement.document, source, fragment) {
                    Ok(d) => d,
                    Err(e) => {
                        proof {
                            assert(e == GraftError::MissingMarker ==> marker_missing(all[i as int].document, src, *fragment));
                        }
                        return Err(e);
                    },
                };
                let ghost previous = current;
                let (replaced, found) = substitute(current, &marker, &inner);
                if !found {
                    proof {
                        assert(marker@ == all[i as int].marker@);
                        assert(call_ensures(*fragment, (ts, false), Some(base)));
                        assert(substituted_all(base, markers_of(all.take(i as int)), docs, steps, current));
                    }
                    return Err(GraftError::MissingMarker);
                }
                proof {
                    let ms = markers_of(all.take(i + 1));
                    assert(ms.drop_last() =~= markers_of(all.take(i as int)));
                    assert(ms[i as int] == marker@);
                    let next = docs.push(inner);
                    let more = steps.push(replaced);
                    assert forall|k: int| 0 <= k < ms.len() implies substitution(#[trigger] more[k], ms[k], next[k], more[k + 1]) by {
                        if k < i {
                            assert(more[k] == steps[k] && more[k + 1] == steps[k + 1] && next[k] == docs[k]);
                            assert(ms[k] == markers_of(all.take(i as int))[k]);
                        } else {
                            assert(more[k] == previous && more[k + 1] == replaced && next[k] == inner);
                        }
                    }
                    assert(substituted_all(base, ms, next, more, replaced));
                    assert forall|k: int| 0 <= k < i + 1 implies shaped(#[trigger] all[k].document, src, *fragment, next[k]) by {
                        if k == i {
                            assert(next[k] == inner);
                        } else {
                            assert(next[k] == docs[k]);
                        }
                    }
                    docs = next;
                    steps = more;
                }
                current = replaced;
                i = i + 1;
            }
            assert(all.take(n as int) =~= all);
            assert(shaped(whole, src, *fragment, current));
            Ok(current)
        },
    }
}

} // verus!
