//! The formatter's layout documents: text, line breaks that a group may keep
//! flat, indentation, and their rendering at a column width.

use vstd::prelude::*;
use crate::format::configuration::{Endings, Options, Whitespace};
use crate::text::{chars_of, push_all, string_of};

verus! {

/// A layout document.
#[derive(Debug)]
pub enum Document {
    /// Literal text.
    Text(String),
    /// A space when flat, otherwise a line break.
    Line,
    /// Nothing when flat, otherwise a line break.
    Soft,
    /// A line break.
    Hard,
    /// A blank line.
    Blank,
    /// The first document when flat, otherwise the second.
    Choice(Box<Document>, Box<Document>),
    /// Flat when the whole document fits in the remaining width.
    Group(Box<Document>),
    /// Always flat.
    Flat(Box<Document>),
    /// One indentation level deeper.
    Indent(Box<Document>),
    /// One indentation level shallower.
    Dedent(Box<Document>),
    /// Documents one after another.
    Sequence(Vec<Document>),
}

/// The flat width of a document: its characters on one line, or none when it
/// must break or its width exceeds `usize`.
pub open spec fn width_of(d: Document) -> Option<int>
    decreases d, 0int,
{
    match d {
        Document::Text(t) => if t@.contains('\n') {
            None
        } else {
            Some(t@.len() as int)
        },
        Document::Line => Some(1),
        Document::Soft => Some(0),
        Document::Hard => None,
        Document::Blank => None,
        Document::Choice(a, _) => width_of(*a),
        Document::Group(a) => width_of(*a),
        Document::Flat(a) => width_of(*a),
        Document::Indent(a) => width_of(*a),
        Document::Dedent(a) => width_of(*a),
        Document::Sequence(parts) => parts_width(parts@, parts@.len() as int),
    }
}

/// The flat width of the first `n` parts, summed left to right with overflow checks.
pub open spec fn parts_width(s: Seq<Document>, n: int) -> Option<int>
    decreases s, n,
{
    if n <= 0 || n > s.len() {
        Some(0)
    } else {
        match parts_width(s, n - 1) {
            None => None,
            Some(w) => match width_of(s[n - 1]) {
                None => None,
                Some(x) => if w + x <= usize::MAX {
                    Some(w + x)
                } else {
                    None
                },
            },
        }
    }
}

/// `f` is `d` with every break made flat: lines and hard breaks become a
/// space, soft breaks nothing, and only the first alternative of each choice stays.
pub open spec fn flattens(d: Document, f: Document) -> bool
    decreases d,
{
    match d {
        Document::Text(t) => match f {
            Document::Text(u) => u@ == t@,
            _ => false,
        },
        Document::Line => match f {
            Document::Text(u) => u@ == " "@,
            _ => false,
        },
        Document::Hard => match f {
            Document::Text(u) => u@ == " "@,
            _ => false,
        },
        Document::Blank => match f {
            Document::Text(u) => u@ == " "@,
            _ => false,
        },
        Document::Soft => match f {
            Document::Text(u) => u@ == ""@,
            _ => false,
        },
        Document::Choice(a, _) => flattens(*a, f),
        Document::Group(a) => flattens(*a, f),
        Document::Flat(a) => flattens(*a, f),
        Document::Indent(a) => flattens(*a, f),
        Document::Dedent(a) => flattens(*a, f),
        Document::Sequence(parts) => match f {
            Document::Sequence(flat_parts) => flat_parts@.len() == parts@.len() && forall|i: int|
                0 <= i < parts@.len() ==> flattens(#[trigger] parts@[i], flat_parts@[i]),
            _ => false,
        },
    }
}

/// The rendering settings that the options determine.
pub struct Style {
    pub newline: Seq<char>,
    pub tabs: bool,
    pub indent: int,
    pub column_width: int,
}

pub open spec fn style_of(o: Options) -> Style {
    Style {
        newline: match o.line_endings {
            Endings::Unix => "\n"@,
            Endings::Windows => "\r\n"@,
        },
        tabs: o.indentation.style == Whitespace::Tabs,
        indent: o.indentation.width as int,
        column_width: o.column_width as int,
    }
}

/// Output so far and the column where it ends.
pub struct Rendered {
    pub out: Seq<char>,
    pub column: int,
}

/// Text without trailing spaces and tabs.
pub open spec fn strip_blanks(s: Seq<char>) -> Seq<char>
    decreases s.len(),
{
    if s.len() > 0 && (s.last() == ' ' || s.last() == '\t') {
        strip_blanks(s.drop_last())
    } else {
        s
    }
}

/// The column after `t` when it starts at `column`.
pub open spec fn column_after(column: int, t: Seq<char>) -> int
    decreases t.len(),
{
    if t.len() == 0 {
        column
    } else if t.last() == '\n' {
        0
    } else {
        column_after(column, t.drop_last()) + 1
    }
}

/// A line break at `depth`: trailing blanks removed, one newline (two for a
/// blank line), then the indentation.
pub open spec fn break_line(st: Rendered, depth: int, blank: bool, style: Style) -> Rendered {
    let pad = if style.tabs {
        Seq::new(depth as nat, |i: int| '\t')
    } else {
        Seq::new((depth * style.indent) as nat, |i: int| ' ')
    };
    Rendered {
        out: strip_blanks(st.out) + (if blank {
            style.newline
        } else {
            seq![]
        }) + style.newline + pad,
        column: depth * style.indent,
    }
}

pub open spec fn saturating_sub(a: int, b: int) -> int {
    if a >= b {
        a - b
    } else {
        0
    }
}

/// Rendering `d` at `depth`, flat or not, after `st`.
pub open spec fn lay(d: Document, depth: int, flat: bool, st: Rendered, style: Style) -> Rendered
    decreases d, 0int,
{
    match d {
        Document::Text(t) => Rendered { out: st.out + t@, column: column_after(st.column, t@) },
        Document::Line => if flat {
            Rendered { out: st.out.push(' '), column: st.column + 1 }
        } else {
            break_line(st, depth, false, style)
        },
        Document::Soft => if flat {
            st
        } else {
            break_line(st, depth, false, style)
        },
        Document::Hard => break_line(st, depth, false, style),
        Document::Blank => break_line(st, depth, true, style),
        Document::Choice(a, b) => if flat {
            lay(*a, depth, flat, st, style)
        } else {
            lay(*b, depth, flat, st, style)
        },
        Document::Group(a) => {
            let fits = match width_of(*a) {
                Some(w) => w <= saturating_sub(style.column_width, st.column),
                None => false,
            };
            lay(*a, depth, fits, st, style)
        },
        Document::Flat(a) => lay(*a, depth, true, st, style),
        Document::Indent(a) => lay(*a, depth + 1, flat, st, style),
        Document::Dedent(a) => lay(*a, saturating_sub(depth, 1), flat, st, style),
        Document::Sequence(parts) => lay_parts(parts@, 0, depth, flat, st, style),
    }
}

/// Rendering parts `i..` one after another.
pub open spec fn lay_parts(
    s: Seq<Document>,
    i: int,
    depth: int,
    flat: bool,
    st: Rendered,
    style: Style,
) -> Rendered
    decreases s, s.len() - i,
{
    if i < 0 || i >= s.len() {
        st
    } else {
        lay_parts(s, i + 1, depth, flat, lay(s[i], depth, flat, st, style), style)
    }
}

/// The text of a document rendered from column zero without indentation.
pub open spec fn rendered(d: Document, style: Style) -> Seq<char> {
    lay(d, 0, false, Rendered { out: seq![], column: 0 }, style).out
}

/// Characters and nodes of a document, bounding the work and columns of rendering.
pub open spec fn size(d: Document) -> int
    decreases d, 0int,
{
    match d {
        Document::Text(t) => 1 + t@.len() as int,
        Document::Choice(a, b) => 1 + size(*a) + size(*b),
        Document::Group(a) => 1 + size(*a),
        Document::Flat(a) => 1 + size(*a),
        Document::Indent(a) => 1 + size(*a),
        Document::Dedent(a) => 1 + size(*a),
        Document::Sequence(parts) => 1 + parts_size(parts@, parts@.len() as int),
        _ => 1,
    }
}

pub open spec fn parts_size(s: Seq<Document>, n: int) -> int
    decreases s, n,
{
    if n <= 0 || n > s.len() {
        0
    } else {
        parts_size(s, n - 1) + size(s[n - 1])
    }
}

/// The deepest nesting of indentation in a document.
pub open spec fn indent_depth(d: Document) -> int
    decreases d, 0int,
{
    match d {
        Document::Choice(a, b) => if indent_depth(*a) >= indent_depth(*b) {
            indent_depth(*a)
        } else {
            indent_depth(*b)
        },
        Document::Group(a) => indent_depth(*a),
        Document::Flat(a) => indent_depth(*a),
        Document::Indent(a) => 1 + indent_depth(*a),
        Document::Dedent(a) => indent_depth(*a),
        Document::Sequence(parts) => parts_depth(parts@, parts@.len() as int),
        _ => 0,
    }
}

pub open spec fn parts_depth(s: Seq<Document>, n: int) -> int
    decreases s, n,
{
    if n <= 0 || n > s.len() {
        0
    } else if parts_depth(s, n - 1) >= indent_depth(s[n - 1]) {
        parts_depth(s, n - 1)
    } else {
        indent_depth(s[n - 1])
    }
}

/// Sizes are positive, depths are not negative, and a document nests no
/// deeper than its size.
pub proof fn lemma_measures(d: Document)
    ensures
        size(d) >= 1,
        0 <= indent_depth(d) < size(d),
    decreases d, 0int,
{
    match d {
        Document::Choice(a, b) => {
            lemma_measures(*a);
            lemma_measures(*b);
        },
        Document::Group(a) => lemma_measures(*a),
        Document::Flat(a) => lemma_measures(*a),
        Document::Indent(a) => lemma_measures(*a),
        Document::Dedent(a) => lemma_measures(*a),
        Document::Sequence(parts) => lemma_parts_measures(parts@, parts@.len() as int),
        _ => {},
    }
}

pub proof fn lemma_parts_measures(s: Seq<Document>, n: int)
    ensures
        parts_size(s, n) >= 0,
        0 <= parts_depth(s, n) <= parts_size(s, n),
        0 <= n <= s.len() ==> forall|i: int|
            0 <= i < n ==> size(#[trigger] s[i]) <= parts_size(s, n) && indent_depth(s[i])
                <= parts_depth(s, n),
    decreases s, n,
{
    if 0 < n <= s.len() {
        lemma_parts_measures(s, n - 1);
        lemma_measures(s[n - 1]);
    }
}

/// Entries for parts `i..` of a sequence, the part `i` on top.
pub open spec fn entries_from(s: Seq<Document>, i: int, depth: int, flat: bool) -> Seq<
    (int, bool, Document),
> {
    Seq::new((s.len() - i) as nat, |k: int| (depth, flat, s[s.len() - 1 - k]))
}

/// Rendering the entries of a stack, the last entry first.
pub open spec fn run(stack: Seq<(int, bool, Document)>, st: Rendered, style: Style) -> Rendered
    decreases stack.len(),
{
    if stack.len() == 0 {
        st
    } else {
        run(
            stack.drop_last(),
            lay(stack.last().2, stack.last().0, stack.last().1, st, style),
            style,
        )
    }
}

pub open spec fn stack_size(stack: Seq<(int, bool, Document)>) -> int
    decreases stack.len(),
{
    if stack.len() == 0 {
        0
    } else {
        stack_size(stack.drop_last()) + size(stack.last().2)
    }
}

/// Pushing a sequence's parts, the first on top, renders them in order.
pub proof fn lemma_run_parts(
    stack: Seq<(int, bool, Document)>,
    s: Seq<Document>,
    i: int,
    depth: int,
    flat: bool,
    st: Rendered,
    style: Style,
)
    requires
        0 <= i <= s.len(),
    ensures
        run(stack + entries_from(s, i, depth, flat), st, style) == run(
            stack,
            lay_parts(s, i, depth, flat, st, style),
            style,
        ),
        stack_size(stack + entries_from(s, i, depth, flat)) == stack_size(stack) + parts_size(
            s,
            s.len() as int,
        ) - parts_size(s, i),
    decreases s.len() - i,
{
    let all = stack + entries_from(s, i, depth, flat);
    if i == s.len() {
        assert(all =~= stack);
    } else {
        assert(all.drop_last() =~= stack + entries_from(s, i + 1, depth, flat));
        assert(all.last() == (depth, flat, s[i]));
        lemma_run_parts(stack, s, i + 1, depth, flat, lay(s[i], depth, flat, st, style), style);
        lemma_parts_size_split(s, i);
    }
}

proof fn lemma_parts_size_split(s: Seq<Document>, i: int)
    requires
        0 <= i < s.len(),
    ensures
        parts_size(s, s.len() as int) - parts_size(s, i) == size(s[i]) + parts_size(
            s,
            s.len() as int,
        ) - parts_size(s, i + 1),
{
    assert(parts_size(s, i + 1) == parts_size(s, i) + size(s[i]));
}

/// The column after characters written from `column`.
fn column_after_text(column: usize, t: &[char]) -> (r: usize)
    requires
        column + t@.len() <= usize::MAX,
    ensures
        r == column_after(column as int, t@),
        r <= column + t@.len(),
{
    let mut k = t.len();
    assert(t@.take(k as int) =~= t@);
    while k > 0 && t[k - 1] != '\n'
        invariant
            k <= t@.len(),
            column_after(column as int, t@) == column_after(column as int, t@.take(k as int)) + (
            t@.len() - k),
            column + t@.len() <= usize::MAX,
        decreases k,
    {
        assert(t@.take(k as int).drop_last() =~= t@.take(k - 1));
        k = k - 1;
    }
    proof {
        lemma_column_after_bound(column as int, t@.take(k as int));
    }
    if k == 0 {
        assert(t@.take(0) =~= Seq::<char>::empty());
        column + t.len()
    } else {
        t.len() - k
    }
}

proof fn lemma_column_after_bound(column: int, t: Seq<char>)
    requires
        column >= 0,
    ensures
        0 <= column_after(column, t) <= column + t.len(),
    decreases t.len(),
{
    if t.len() > 0 {
        lemma_column_after_bound(column, t.drop_last());
    }
}

impl Document {
    /// Literal text.
    pub fn text(text: String) -> (r: Document)
        ensures
            r == Document::Text(text),
    {
        Document::Text(text)
    }

    /// Documents one after another.
    pub fn sequence(parts: Vec<Document>) -> (r: Document)
        ensures
            r == Document::Sequence(parts),
    {
        Document::Sequence(parts)
    }

    /// Flat when it fits.
    pub fn group(self) -> (r: Document)
        ensures
            r == Document::Group(Box::new(self)),
    {
        Document::Group(Box::new(self))
    }

    /// One level deeper.
    pub fn indent(self) -> (r: Document)
        ensures
            r == Document::Indent(Box::new(self)),
    {
        Document::Indent(Box::new(self))
    }

    /// The flat width, or none when the document must break.
    pub fn width(&self) -> (r: Option<usize>)
        ensures
            match r {
                Some(w) => width_of(*self) == Some(w as int),
                None => width_of(*self) is None,
            },
        decreases self,
    {
        match self {
            Document::Text(t) => {
                let c = chars_of(t.as_str());
                let mut i: usize = 0;
                while i < c.len()
                    invariant
                        i <= c@.len(),
                        c@ == t@,
                        *self == Document::Text(*t),
                        forall|k: int| 0 <= k < i ==> c@[k] != '\n',
                    decreases c@.len() - i,
                {
                    if c[i] == '\n' {
                        assert(t@.contains(c@[i as int]));
                        return None;
                    }
                    i = i + 1;
                }
                Some(c.len())
            },
            Document::Line => Some(1),
            Document::Soft => Some(0),
            Document::Hard => None,
            Document::Blank => None,
            Document::Choice(a, _) => a.width(),
            Document::Group(a) => a.width(),
            Document::Flat(a) => a.width(),
            Document::Indent(a) => a.width(),
            Document::Dedent(a) => a.width(),
            Document::Sequence(parts) => {
                let mut total: usize = 0;
                let mut i: usize = 0;
                while i < parts.len()
                    invariant
                        i <= parts@.len(),
                        parts_width(parts@, i as int) == Some(total as int),
                        *self == Document::Sequence(*parts),
                    decreases parts@.len() - i,
                {
                    match parts[i].width() {
                        None => {
                            proof {
                                lemma_parts_width_none(parts@, i as int + 1, parts@.len() as int);
                            }
                            return None;
                        },
                        Some(x) => {
                            if x > usize::MAX - total {
                                proof {
                                    lemma_parts_width_none(
                                        parts@,
                                        i as int + 1,
                                        parts@.len() as int,
                                    );
                                }
                                return None;
                            }
                            total = total + x;
                        },
                    }
                    i = i + 1;
                }
                Some(total)
            },
        }
    }
}

impl Document {
    fn flat_copy(&self) -> (r: Document)
        ensures
            flattens(*self, r),
        decreases self,
    {
        match self {
            Document::Text(t) => Document::Text(t.clone()),
            Document::Line => Document::Text(" ".to_owned()),
            Document::Hard => Document::Text(" ".to_owned()),
            Document::Blank => Document::Text(" ".to_owned()),
            Document::Soft => Document::Text("".to_owned()),
            Document::Choice(a, _) => a.flat_copy(),
            Document::Group(a) => a.flat_copy(),
            Document::Flat(a) => a.flat_copy(),
            Document::Indent(a) => a.flat_copy(),
            Document::Dedent(a) => a.flat_copy(),
            Document::Sequence(parts) => {
                let mut out: Vec<Document> = Vec::new();
                let mut i: usize = 0;
                while i < parts.len()
                    invariant
                        i <= parts@.len(),
                        out@.len() == i,
                        forall|k: int| 0 <= k < i ==> flattens(#[trigger] parts@[k], out@[k]),
                        *self == Document::Sequence(*parts),
                    decreases parts@.len() - i,
                {
                    let part = &parts[i];
                    assert(*part == parts@[i as int]);
                    assert(decreases_to!(*parts => parts@));
                    assert(decreases_to!(parts@ => parts@[i as int]));
                    assert((*self)->Sequence_0 == *parts);
                    assert(decreases_to!(*self => (*self)->Sequence_0));
                    let f = part.flat_copy();
                    out.push(f);
                    i = i + 1;
                }
                Document::Sequence(out)
            },
        }
    }

    /// The document with every break flat: lines and hard breaks become a
    /// space, soft breaks nothing, and choices their first alternative.
    pub fn flattened(self) -> (r: Document)
        ensures
            flattens(self, r),
    {
        self.flat_copy()
    }
}

/// Once a prefix has no width, no longer prefix has one.
proof fn lemma_parts_width_none(s: Seq<Document>, n: int, m: int)
    requires
        0 < n <= m <= s.len(),
        parts_width(s, n) is None,
    ensures
        parts_width(s, m) is None,
    decreases m - n,
{
    if n < m {
        lemma_parts_width_none(s, n, m - 1);
    }
}

pub proof fn lemma_run_push(
    rest: Seq<(int, bool, Document)>,
    e: (int, bool, Document),
    st: Rendered,
    style: Style,
)
    ensures
        run(rest.push(e), st, style) == run(rest, lay(e.2, e.0, e.1, st, style), style),
        stack_size(rest.push(e)) == stack_size(rest) + size(e.2),
{
    assert(rest.push(e).drop_last() =~= rest);
}

pub proof fn lemma_stack_size(stack: Seq<(int, bool, Document)>)
    ensures
        stack_size(stack) >= 0,
    decreases stack.len(),
{
    if stack.len() > 0 {
        lemma_stack_size(stack.drop_last());
        lemma_measures(stack.last().2);
    }
}

pub open spec fn view_stack(p: Seq<(usize, bool, &Document)>) -> Seq<(int, bool, Document)> {
    p.map_values(|e: (usize, bool, &Document)| (e.0 as int, e.1, *e.2))
}

/// Whether the deepest indentation and the document's size fit in `usize`,
/// which bounds every column that rendering reaches.
pub open spec fn renderable(d: Document, o: Options) -> bool {
    indent_depth(d) * (o.indentation.width as int) + size(d) <= usize::MAX
}

/// Every entry's depth leaves room for the indentation inside it.
pub open spec fn depths_within(stack: Seq<(int, bool, Document)>, m: int) -> bool {
    forall|k: int| 0 <= k < stack.len() ==> (#[trigger] stack[k]).0 >= 0 && stack[k].0 + indent_depth(stack[k].2) <= m
}

fn push_stack<'a>(pending: &mut Vec<(usize, bool, &'a Document)>, depth: usize, flat: bool, d: &'a Document)
    ensures
        view_stack(final(pending)@) == view_stack(old(pending)@).push((depth as int, flat, *d)),
{
    pending.push((depth, flat, d));
    assert(view_stack(pending@) =~= view_stack(old(pending)@).push((depth as int, flat, *d)));
}

/// Lays out a document at the options' column width and indentation.
pub fn render(document: &Document, options: &Options) -> (r: String)
    requires
        renderable(*document, *options),
    ensures
        r@ == rendered(*document, style_of(*options)),
{
    let ghost style = style_of(*options);
    let ghost m = indent_depth(*document);
    let width = options.indentation.width;
    let ghost total = size(*document);
    let ghost bound = m * width + total;
    let tabs = match options.indentation.style {
        Whitespace::Tabs => true,
        Whitespace::Spaces => false,
    };
    let newline = chars_of(options.line_endings.text());
    let mut out: Vec<char> = Vec::new();
    let mut column: usize = 0;
    let mut pending: Vec<(usize, bool, &Document)> = Vec::new();
    push_stack(&mut pending, 0, false, document);
    proof {
        lemma_measures(*document);
        assert(m * width >= 0) by (nonlinear_arith)
            requires
                m >= 0,
        ;
        lemma_run_push(Seq::empty(), (0, false, *document), Rendered { out: out@, column: 0 }, style);
        assert(view_stack(pending@) =~= Seq::<(int, bool, Document)>::empty().push((0, false, *document)));
        assert(out@ =~= Seq::<char>::empty());
        assert(stack_size(Seq::<(int, bool, Document)>::empty()) == 0);
    }
    while pending.len() > 0
        invariant
            run(view_stack(pending@), Rendered { out: out@, column: column as int }, style).out
                == rendered(*document, style),
            column + stack_size(view_stack(pending@)) <= bound,
            stack_size(view_stack(pending@)) <= total,
            depths_within(view_stack(pending@), m),
            view_stack(pending@).len() == pending@.len(),
            bound <= usize::MAX,
            0 <= m < total,
            0 <= m * width,
            bound == m * width + total,
            newline@ == style.newline,
            tabs == style.tabs,
            width == style.indent,
            style == style_of(*options),
        decreases stack_size(view_stack(pending@)),
    {
        let ghost before = view_stack(pending@);
        let ghost st = Rendered { out: out@, column: column as int };
        let (depth, flat, doc) = pending.pop().unwrap();
        let ghost rest = view_stack(pending@);
        proof {
            assert(before =~= rest.push((depth as int, flat, *doc)));
            lemma_run_push(rest, (depth as int, flat, *doc), st, style);
            lemma_measures(*doc);
            lemma_stack_size(rest);
            assert(before[before.len() - 1] == (depth as int, flat, *doc));
            assert(depths_within(rest, m)) by {
                assert forall|k: int| 0 <= k < rest.len() implies (#[trigger] rest[k]).0 >= 0 && rest[k].0 + indent_depth(rest[k].2) <= m by {
                    assert(rest[k] == before[k]);
                }
            }
            assert(depth * width <= m * width) by (nonlinear_arith)
                requires
                    depth <= m,
            ;
        }
        match doc {
            Document::Text(t) => {
                let c = chars_of(t.as_str());
                let next = column_after_text(column, &c);
                push_all(&mut out, &c);
                column = next;
            },
            Document::Line if flat => {
                out.push(' ');
                column = column + 1;
            },
            Document::Soft if flat => {},
            Document::Choice(a, b) => {
                let chosen: &Document = if flat {
                    a
                } else {
                    b
                };
                push_stack(&mut pending, depth, flat, chosen);
                proof {
                    lemma_run_push(rest, (depth as int, flat, *chosen), st, style);
                    lemma_measures(**a);
                    lemma_measures(**b);
                }
            },
            Document::Group(a) => {
                let room = if options.column_width >= column {
                    options.column_width - column
                } else {
                    0
                };
                let fits = match a.width() {
                    Some(w) => w <= room,
                    None => false,
                };
                push_stack(&mut pending, depth, fits, a);
                proof {
                    lemma_run_push(rest, (depth as int, fits, **a), st, style);
                }
            },
            Document::Flat(a) => {
                push_stack(&mut pending, depth, true, a);
                proof {
                    lemma_run_push(rest, (depth as int, true, **a), st, style);
                }
            },
            Document::Indent(a) => {
                push_stack(&mut pending, depth + 1, flat, a);
                proof {
                    lemma_run_push(rest, (depth + 1, flat, **a), st, style);
                }
            },
            Document::Dedent(a) => {
                let shallower = if depth > 0 {
                    depth - 1
                } else {
                    0
                };
                push_stack(&mut pending, shallower, flat, a);
                proof {
                    lemma_run_push(rest, (shallower as int, flat, **a), st, style);
                }
            },
            Document::Sequence(parts) => {
                let mut k = parts.len();
                proof {
                    assert(rest + entries_from(parts@, k as int, depth as int, flat) =~= rest);
                }
                while k > 0
                    invariant
                        k <= parts@.len(),
                        view_stack(pending@) == rest + entries_from(parts@, k as int, depth as int, flat),
                    decreases k,
                {
                    k = k - 1;
                    push_stack(&mut pending, depth, flat, &parts[k]);
                    assert(view_stack(pending@) =~= rest + entries_from(parts@, k as int, depth as int, flat));
                }
                proof {
                    lemma_run_parts(rest, parts@, 0, depth as int, flat, st, style);
                    lemma_parts_measures(parts@, parts@.len() as int);
                    let now = view_stack(pending@);
                    assert forall|j: int| 0 <= j < now.len() implies (#[trigger] now[j]).0 >= 0 && now[j].0 + indent_depth(now[j].2) <= m by {
                        if j < rest.len() {
                            assert(now[j] == rest[j]);
                        } else {
                            let e = entries_from(parts@, 0, depth as int, flat);
                            assert(now[j] == e[j - rest.len()]);
                            assert(indent_depth(parts@[parts@.len() - 1 - (j - rest.len())]) <= parts_depth(parts@, parts@.len() as int));
                        }
                    }
                }
            },
            _ => {
                let ghost original = out@;
                while out.len() > 0 && (out[out.len() - 1] == ' ' || out[out.len() - 1] == '\t')
                    invariant
                        strip_blanks(original) == strip_blanks(out@),
                    decreases out@.len(),
                {
                    let ghost longer = out@;
                    out.pop();
                    assert(longer.drop_last() =~= out@);
                }
                assert(strip_blanks(out@) == out@);
                let is_blank = match doc {
                    Document::Blank => true,
                    _ => false,
                };
                let ghost stripped = out@;
                if is_blank {
                    push_all(&mut out, &newline);
                }
                push_all(&mut out, &newline);
                assert(out@ =~= stripped + (if is_blank { style.newline } else { seq![] }) + style.newline);
                let count = if tabs {
                    depth
                } else {
                    depth * width
                };
                let pad = if tabs {
                    '\t'
                } else {
                    ' '
                };
                let ghost base = out@;
                let mut n: usize = 0;
                assert(out@ =~= base + Seq::new(0, |i: int| pad));
                while n < count
                    invariant
                        n <= count,
                        out@ == base + Seq::new(n as nat, |i: int| pad),
                    decreases count - n,
                {
                    out.push(pad);
                    n = n + 1;
                    assert(out@ =~= base + Seq::new(n as nat, |i: int| pad));
                }
                column = depth * width;
                proof {
                    assert(Seq::new(count as nat, |i: int| pad) =~= (if style.tabs {
                        Seq::new(depth as nat, |i: int| '\t')
                    } else {
                        Seq::new((depth * style.indent) as nat, |i: int| ' ')
                    }));
                }
            },
        }
    }
    string_of(&out)
}

/// `parts` with `separator` between each two of them.
pub open spec fn interleaved(separator: Document, parts: Seq<Document>) -> Seq<Document>
    decreases parts.len(),
{
    if parts.len() <= 1 {
        parts
    } else {
        interleaved(separator, parts.drop_last()) + seq![separator, parts.last()]
    }
}

/// Two documents with the same structure and text: equal but for the
/// identity of their part vectors.
pub open spec fn alike(a: Document, b: Document) -> bool
    decreases a,
{
    match (a, b) {
        (Document::Text(t), Document::Text(u)) => t == u,
        (Document::Line, Document::Line) => true,
        (Document::Soft, Document::Soft) => true,
        (Document::Hard, Document::Hard) => true,
        (Document::Blank, Document::Blank) => true,
        (Document::Choice(a1, a2), Document::Choice(b1, b2)) => alike(*a1, *b1) && alike(*a2, *b2),
        (Document::Group(x), Document::Group(y)) => alike(*x, *y),
        (Document::Flat(x), Document::Flat(y)) => alike(*x, *y),
        (Document::Indent(x), Document::Indent(y)) => alike(*x, *y),
        (Document::Dedent(x), Document::Dedent(y)) => alike(*x, *y),
        (Document::Sequence(p), Document::Sequence(q)) => p@.len() == q@.len() && forall|i: int|
            0 <= i < p@.len() ==> alike(#[trigger] p@[i], q@[i]),
        _ => false,
    }
}

/// Every document is like itself.
pub proof fn lemma_alike_reflexive(d: Document)
    ensures
        alike(d, d),
    decreases d,
{
    match d {
        Document::Choice(a, b) => {
            lemma_alike_reflexive(*a);
            lemma_alike_reflexive(*b);
        },
        Document::Group(a) => lemma_alike_reflexive(*a),
        Document::Flat(a) => lemma_alike_reflexive(*a),
        Document::Indent(a) => lemma_alike_reflexive(*a),
        Document::Dedent(a) => lemma_alike_reflexive(*a),
        Document::Sequence(p) => {
            assert forall|i: int| 0 <= i < p@.len() implies alike(#[trigger] p@[i], p@[i]) by {
                assert(decreases_to!(p => p@));
                lemma_alike_reflexive(p@[i]);
            }
        },
        _ => {},
    }
}

/// Element-wise likeness of two sequences of documents.
pub open spec fn all_alike(p: Seq<Document>, q: Seq<Document>) -> bool {
    p.len() == q.len() && forall|i: int| 0 <= i < p.len() ==> alike(#[trigger] p[i], q[i])
}

impl Document {
    /// A copy of the document.
    pub fn copy(&self) -> (r: Document)
        ensures
            alike(*self, r),
        decreases self,
    {
        match self {
            Document::Text(t) => {
                Document::Text(t.clone())
            },
            Document::Line => Document::Line,
            Document::Soft => Document::Soft,
            Document::Hard => Document::Hard,
            Document::Blank => Document::Blank,
            Document::Choice(a, b) => Document::Choice(Box::new(a.copy()), Box::new(b.copy())),
            Document::Group(a) => Document::Group(Box::new(a.copy())),
            Document::Flat(a) => Document::Flat(Box::new(a.copy())),
            Document::Indent(a) => Document::Indent(Box::new(a.copy())),
            Document::Dedent(a) => Document::Dedent(Box::new(a.copy())),
            Document::Sequence(parts) => {
                let mut out: Vec<Document> = Vec::new();
                let mut i: usize = 0;
                while i < parts.len()
                    invariant
                        i <= parts@.len(),
                        out@.len() == i,
                        forall|k: int| 0 <= k < i ==> alike(#[trigger] parts@[k], out@[k]),
                        *self == Document::Sequence(*parts),
                    decreases parts@.len() - i,
                {
                    let part = &parts[i];
                    assert(decreases_to!(*parts => parts@));
                    assert(decreases_to!(parts@ => parts@[i as int]));
                    assert((*self)->Sequence_0 == *parts);
                    assert(decreases_to!(*self => (*self)->Sequence_0));
                    let c = part.copy();
                    out.push(c);
                    i = i + 1;
                }
                Document::Sequence(out)
            },
        }
    }

    /// The parts in order, with a copy of `separator` between each two.
    pub fn join(separator: &Document, parts: Vec<Document>) -> (r: Document)
        ensures
            r matches Document::Sequence(v) && all_alike(interleaved(*separator, parts@), v@),
    {
        let mut result: Vec<Document> = Vec::new();
        let mut rest = parts;
        let ghost all = rest@;
        let mut index: usize = 0;
        let n = rest.len();
        while index < n
            invariant
                n == all.len(),
                index <= n,
                rest@ == all.skip(index as int),
                all_alike(interleaved(*separator, all.take(index as int)), result@),
            decreases n - index,
        {
            let part = rest.remove(0);
            assert(part == all[index as int]);
            assert(rest@ =~= all.skip(index + 1));
            let ghost before = result@;
            if index != 0 {
                result.push(separator.copy());
            }
            proof {
                lemma_alike_reflexive(part);
            }
            result.push(part);
            proof {
                let t = all.take(index + 1);
                assert(t.drop_last() =~= all.take(index as int));
                assert(t.last() == all[index as int]);
                if index == 0 {
                    assert(all.take(index as int).len() == 0);
                    assert(interleaved(*separator, t) == t);
                } else {
                    assert(interleaved(*separator, t) == interleaved(*separator, all.take(index as int)) + seq![*separator, all[index as int]]);
                }
            }
            index = index + 1;
        }
        assert(all.take(n as int) =~= all);
        Document::Sequence(result)
    }
}

impl Document {
    /// The size and indentation depth of the document, or none when its size
    /// exceeds the machine's word.
    pub fn measures(&self) -> (r: Option<(usize, usize)>)
        ensures
            match r {
                Some((s, d)) => s == size(*self) && d == indent_depth(*self),
                None => size(*self) > usize::MAX,
            },
        decreases self,
    {
        proof {
            lemma_measures(*self);
        }
        match self {
            Document::Text(t) => {
                let n = chars_of(t.as_str()).len();
                if n == usize::MAX {
                    None
                } else {
                    Some((n + 1, 0))
                }
            },
            Document::Line | Document::Soft | Document::Hard | Document::Blank => Some((1, 0)),
            Document::Choice(a, b) => {
                proof {
                    lemma_measures(**a);
                    lemma_measures(**b);
                }
                let (sa, da) = match a.measures() {
                    Some(m) => m,
                    None => {
                        return None;
                    },
                };
                let (sb, db) = match b.measures() {
                    Some(m) => m,
                    None => {
                        return None;
                    },
                };
                if sa > usize::MAX - 1 || sb > usize::MAX - 1 - sa {
                    return None;
                }
                Some((1 + sa + sb, if da >= db { da } else { db }))
            },
            Document::Group(a) | Document::Flat(a) | Document::Dedent(a) => {
                let (sa, da) = match a.measures() {
                    Some(m) => m,
                    None => {
                        return None;
                    },
                };
                if sa == usize::MAX {
                    return None;
                }
                Some((sa + 1, da))
            },
            Document::Indent(a) => {
                let (sa, da) = match a.measures() {
                    Some(m) => m,
                    None => {
                        return None;
                    },
                };
                if sa == usize::MAX {
                    return None;
                }
                Some((sa + 1, da + 1))
            },
            Document::Sequence(parts) => {
                let mut total: usize = 0;
                let mut depth: usize = 0;
                let mut i: usize = 0;
                while i < parts.len()
                    invariant
                        i <= parts@.len(),
                        total == parts_size(parts@, i as int),
                        depth == parts_depth(parts@, i as int),
                        *self == Document::Sequence(*parts),
                    decreases parts@.len() - i,
                {
                    proof {
                        lemma_parts_measures(parts@, i + 1);
                        lemma_measures(parts@[i as int]);
                    }
                    assert(decreases_to!(*parts => parts@));
                    assert(decreases_to!(parts@ => parts@[i as int]));
                    assert((*self)->Sequence_0 == *parts);
                    assert(decreases_to!(*self => (*self)->Sequence_0));
                    let (sp, dp) = match parts[i].measures() {
                        Some(m) => m,
                        None => {
                            proof {
                                lemma_parts_measures(parts@, parts@.len() as int);
                                lemma_parts_size_prefix(parts@, i + 1, parts@.len() as int);
                            }
                            return None;
                        },
                    };
                    if sp > usize::MAX - total {
                        proof {
                            lemma_parts_size_prefix(parts@, i + 1, parts@.len() as int);
                        }
                        return None;
                    }
                    total = total + sp;
                    if dp > depth {
                        depth = dp;
                    }
                    i = i + 1;
                }
                if total == usize::MAX {
                    return None;
                }
                Some((total + 1, depth))
            },
        }
    }
}

proof fn lemma_parts_size_prefix(s: Seq<Document>, n: int, m: int)
    requires
        0 <= n <= m <= s.len(),
    ensures
        parts_size(s, n) <= parts_size(s, m),
    decreases m - n,
{
    if n < m {
        lemma_parts_size_prefix(s, n, m - 1);
        lemma_measures(s[m - 1]);
    }
}

/// Whether `render` can lay out the document with these options within the
/// machine's word.
pub fn fits_render(document: &Document, options: &Options) -> (r: bool)
    ensures
        r == renderable(*document, *options),
{
    let w = options.indentation.width;
    proof {
        lemma_measures(*document);
        let dd = indent_depth(*document);
        assert(dd * (w as int) >= 0) by (nonlinear_arith)
            requires
                dd >= 0,
        ;
    }
    match document.measures() {
        None => false,
        Some((s, d)) => {
            match d.checked_mul(w) {
                None => {
                    assert(d * w > usize::MAX);
                    false
                },
                Some(x) => x <= usize::MAX - s,
            }
        },
    }
}

} // verus!
