//! The formatter's emitter: the layout document of each node of a Luau
//! syntax tree, with comments kept, held regions written as they stand, and
//! the layout choices of the options.

use vstd::prelude::*;
use crate::format::configuration::{
    CallStyle, Chain, Collapse, ConditionalExpansion, ConditionalStyle, Expansion, Gaps, Options,
    Parentheses, Placement, Semicolons, Separation, Separator, TypeExpansion,
};
use crate::format::document::{width_of, parts_width, Document};
use crate::format::literals::{numbered_text, quotable, quoted_text};
use crate::format::scope::{all_later, later, maybe_later, refers_forward, Node, Shape, Token, TokenKind, Tree};

verus! {

/// A layout document as plain values.
#[verifier::ext_equal]
pub enum Doc {
    Text(Seq<char>),
    Line,
    Soft,
    Hard,
    Blank,
    Choice(Box<Doc>, Box<Doc>),
    Group(Box<Doc>),
    Flat(Box<Doc>),
    Indent(Box<Doc>),
    Dedent(Box<Doc>),
    Sequence(Seq<Doc>),
}

/// The plain values of a document.
pub open spec fn doc(d: Document) -> Doc
    decreases d, 0int,
{
    match d {
        Document::Text(t) => Doc::Text(t@),
        Document::Line => Doc::Line,
        Document::Soft => Doc::Soft,
        Document::Hard => Doc::Hard,
        Document::Blank => Doc::Blank,
        Document::Choice(a, b) => Doc::Choice(Box::new(doc(*a)), Box::new(doc(*b))),
        Document::Group(a) => Doc::Group(Box::new(doc(*a))),
        Document::Flat(a) => Doc::Flat(Box::new(doc(*a))),
        Document::Indent(a) => Doc::Indent(Box::new(doc(*a))),
        Document::Dedent(a) => Doc::Dedent(Box::new(doc(*a))),
        Document::Sequence(p) => Doc::Sequence(docs(p@, p@.len() as int)),
    }
}

/// The plain values of the first `n` documents.
pub open spec fn docs(s: Seq<Document>, n: int) -> Seq<Doc>
    decreases s, n,
{
    if n <= 0 || n > s.len() {
        seq![]
    } else {
        docs(s, n - 1).push(doc(s[n - 1]))
    }
}

/// The flat width of a document, as `width_of` measures it.
pub open spec fn doc_width(d: Doc) -> Option<int>
    decreases d, 0int,
{
    match d {
        Doc::Text(t) => if t.contains('\n') {
            None
        } else {
            Some(t.len() as int)
        },
        Doc::Line => Some(1),
        Doc::Soft => Some(0),
        Doc::Hard => None,
        Doc::Blank => None,
        Doc::Choice(a, _) => doc_width(*a),
        Doc::Group(a) => doc_width(*a),
        Doc::Flat(a) => doc_width(*a),
        Doc::Indent(a) => doc_width(*a),
        Doc::Dedent(a) => doc_width(*a),
        Doc::Sequence(parts) => doc_parts_width(parts, parts.len() as int),
    }
}

pub open spec fn doc_parts_width(s: Seq<Doc>, n: int) -> Option<int>
    decreases s, n,
{
    if n <= 0 || n > s.len() {
        Some(0)
    } else {
        match doc_parts_width(s, n - 1) {
            None => None,
            Some(w) => match doc_width(s[n - 1]) {
                None => None,
                Some(x) => if w + x <= usize::MAX {
                    Some(w + x)
                } else {
                    None
                },
            },
        }
    }
}

/// A document made flat: breaks become a space (soft ones nothing), and of
/// each choice the first alternative stays.
pub open spec fn doc_flat(d: Doc) -> Doc
    decreases d, 0int,
{
    match d {
        Doc::Text(t) => Doc::Text(t),
        Doc::Line => Doc::Text(" "@),
        Doc::Hard => Doc::Text(" "@),
        Doc::Blank => Doc::Text(" "@),
        Doc::Soft => Doc::Text(""@),
        Doc::Choice(a, _) => doc_flat(*a),
        Doc::Group(a) => doc_flat(*a),
        Doc::Flat(a) => doc_flat(*a),
        Doc::Indent(a) => doc_flat(*a),
        Doc::Dedent(a) => doc_flat(*a),
        Doc::Sequence(parts) => Doc::Sequence(flat_parts(parts, parts.len() as int)),
    }
}

pub open spec fn flat_parts(s: Seq<Doc>, n: int) -> Seq<Doc>
    decreases s, n,
{
    if n <= 0 || n > s.len() {
        seq![]
    } else {
        flat_parts(s, n - 1).push(doc_flat(s[n - 1]))
    }
}

pub open spec fn text(t: Seq<char>) -> Doc {
    Doc::Text(t)
}

pub open spec fn cat(parts: Seq<Doc>) -> Doc {
    Doc::Sequence(parts)
}

pub open spec fn group(d: Doc) -> Doc {
    Doc::Group(Box::new(d))
}

pub open spec fn indent(d: Doc) -> Doc {
    Doc::Indent(Box::new(d))
}

/// `d` indented `k` levels.
pub open spec fn indented(d: Doc, k: nat) -> Doc
    decreases k,
{
    if k == 0 {
        d
    } else {
        indent(indented(d, (k - 1) as nat))
    }
}

/// `parts` with `sep` between each two of them.
pub open spec fn joined(sep: Doc, parts: Seq<Doc>) -> Seq<Doc>
    decreases parts.len(),
{
    if parts.len() <= 1 {
        parts
    } else {
        joined(sep, parts.drop_last()) + seq![sep, parts.last()]
    }
}

/// Each part after `before`.
pub open spec fn after_each(before: Seq<Doc>, parts: Seq<Doc>) -> Seq<Doc>
    decreases parts.len(),
{
    if parts.len() == 0 {
        seq![]
    } else {
        after_each(before, parts.drop_last()) + before + seq![parts.last()]
    }
}

/// Nodes, source and options that the emitter reads.
pub struct Emitter<'a> {
    pub tree: &'a Tree,
    pub source: &'a Vec<char>,
    pub options: &'a Options,
    pub held: &'a Vec<(usize, usize)>,
}

/// The number of line feeds in `s`.
pub open spec fn newlines(s: Seq<char>) -> nat
    decreases s.len(),
{
    if s.len() == 0 {
        0
    } else {
        (if s.last() == '\n' { 1nat } else { 0nat }) + newlines(s.drop_last())
    }
}

pub open spec fn begins(s: Seq<char>, c: char) -> bool {
    s.len() > 0 && s[0] == c
}

pub open spec fn begins_with(s: Seq<char>, p: Seq<char>) -> bool {
    p.len() <= s.len() && s.subrange(0, p.len() as int) == p
}

/// The precedence of a binary operator; zero for none.
pub open spec fn precedence(op: Seq<char>) -> int {
    if op == "or"@ {
        1
    } else if op == "and"@ {
        2
    } else if op == "<"@ || op == ">"@ || op == "<="@ || op == ">="@ || op == "~="@ || op == "=="@ {
        3
    } else if op == ".."@ {
        4
    } else if op == "+"@ || op == "-"@ {
        5
    } else if op == "*"@ || op == "/"@ || op == "//"@ || op == "%"@ {
        6
    } else if op == "^"@ {
        7
    } else {
        0
    }
}

/// A table constructor whose source asks for expansion: its first line
/// ends after `{`, or it ends in a trailing comma and the options honour it.
pub open spec fn brace_then_newline(t: Seq<char>) -> bool
    decreases t.len(),
{
    if t.len() == 0 {
        false
    } else if t[0] == ' ' || t[0] == '\t' || t[0] == '\r' {
        brace_then_newline(t.drop_first())
    } else {
        t[0] == '\n'
    }
}

/// `t` without the closing braces and whitespace it ends with ends in a comma.
pub open spec fn ends_in_comma(t: Seq<char>, braces: bool) -> bool
    decreases t.len(),
{
    if t.len() == 0 {
        false
    } else if braces && t.last() == '}' {
        ends_in_comma(t.drop_last(), true)
    } else if crate::text::is_white(t.last()) {
        ends_in_comma(t.drop_last(), false)
    } else {
        t.last() == ','
    }
}

impl<'a> Emitter<'a> {
    pub open spec fn len(self) -> int {
        self.tree.nodes@.len() as int
    }

    pub open spec fn shape(self, id: int) -> Shape {
        self.tree.nodes@[id].shape
    }

    pub open spec fn text(self, id: int) -> Seq<char> {
        self.tree.nodes@[id].text@
    }

    pub open spec fn kids(self, id: int) -> Seq<usize> {
        self.tree.nodes@[id].children@
    }

    pub open spec fn start(self, id: int) -> int {
        self.tree.nodes@[id].start as int
    }

    pub open spec fn end(self, id: int) -> int {
        self.tree.nodes@[id].end as int
    }

    pub open spec fn src(self) -> Seq<char> {
        self.source@
    }

    /// The source from `a` to `b`; nothing when that is no range of it.
    pub open spec fn slice(self, a: int, b: int) -> Seq<char> {
        if 0 <= a <= b <= self.source@.len() {
            self.source@.subrange(a, b)
        } else {
            seq![]
        }
    }

    pub open spec fn tokens(self) -> Seq<Token> {
        self.tree.tokens@
    }

    /// The tree is well formed, every node and token lies within the source,
    /// and every string literal has its two delimiters.
    pub open spec fn wf(self) -> bool {
        &&& self.tree.wf()
        &&& self.source@.len() < usize::MAX
        &&& forall|i: int| 0 <= i < self.len() ==> #[trigger] self.node_fits(i)
        &&& forall|k: int| 0 <= k < self.tokens().len() ==> #[trigger] self.token_fits(k)
        &&& forall|i: int|
            0 <= i < self.len() && self.tree.nodes@[i].shape is Literal ==> quotable(
                #[trigger] self.tree.nodes@[i].text@,
                self.options.quotes,
            )
    }

    /// Node `i` lies within the source.
    pub open spec fn node_fits(self, i: int) -> bool {
        self.tree.nodes@[i].start <= self.tree.nodes@[i].end <= self.source@.len()
    }

    /// Token `k` lies within the source.
    pub open spec fn token_fits(self, k: int) -> bool {
        self.tokens()[k].start <= self.tokens()[k].end <= self.source@.len()
    }

    /// A held range overlaps `start..end`.
    pub open spec fn held_over(self, start: int, end: int) -> bool {
        exists|k: int| 0 <= k < self.held@.len() && #[trigger] self.held@[k].0 < end && self.held@[k].1 > start
    }

    /// A held range covers `start..end`.
    pub open spec fn held_across(self, start: int, end: int) -> bool {
        exists|k: int| 0 <= k < self.held@.len() && #[trigger] self.held@[k].0 <= start && self.held@[k].1 >= end
    }

    pub open spec fn is_comment(self, k: int) -> bool {
        self.tokens()[k].kind == TokenKind::Comment
    }

    /// Token `k` is a comment within `start..end`.
    pub open spec fn comment_within(self, k: int, start: int, end: int) -> bool {
        self.is_comment(k) && self.tokens()[k].start >= start && self.tokens()[k].end <= end
    }

    /// The last token of the first `n` that is neither whitespace nor a
    /// comment and ends by `x`.
    pub open spec fn last_significant(self, x: int, n: int) -> Option<int>
        decreases n,
    {
        if n <= 0 {
            None
        } else if self.tokens()[n - 1].kind == TokenKind::Other && self.tokens()[n - 1].end <= x {
            Some(n - 1)
        } else {
            self.last_significant(x, n - 1)
        }
    }

    /// The first token from `k` on that is neither whitespace nor a comment
    /// and starts at or after `x`.
    pub open spec fn first_significant(self, x: int, k: int) -> Option<int>
        decreases self.tokens().len() - k,
    {
        if k < 0 || k >= self.tokens().len() {
            None
        } else if self.tokens()[k].kind == TokenKind::Other && self.tokens()[k].start >= x {
            Some(k)
        } else {
            self.first_significant(x, k + 1)
        }
    }

    /// A body's extent: from the end of the code before it to the start of
    /// the code after it.
    pub open spec fn boundaries(self, b: int) -> (int, int) {
        let s = match self.last_significant(self.start(b), self.tokens().len() as int) {
            Some(k) => self.tokens()[k].end as int,
            None => self.start(b),
        };
        let e = match self.first_significant(self.end(b), 0) {
            Some(k) => self.tokens()[k].start as int,
            None => self.end(b),
        };
        (s, e)
    }

    /// The first comment from token `k` on within `start..end`.
    pub open spec fn first_comment(self, start: int, end: int, k: int) -> Option<int>
        decreases self.tokens().len() - k,
    {
        if k < 0 || k >= self.tokens().len() {
            None
        } else if self.comment_within(k, start, end) {
            Some(k)
        } else {
            self.first_comment(start, end, k + 1)
        }
    }

    /// The last comment of the first `n` tokens within `start..end`.
    pub open spec fn last_comment(self, start: int, end: int, n: int) -> Option<int>
        decreases n,
    {
        if n <= 0 {
            None
        } else if self.comment_within(n - 1, start, end) {
            Some(n - 1)
        } else {
            self.last_comment(start, end, n - 1)
        }
    }

    /// Where child `c` of a node lies for the comments of the node.
    pub open spec fn extent(self, c: int) -> (int, int) {
        if self.shape(c) is Block {
            self.boundaries(c)
        } else {
            (self.start(c), self.end(c))
        }
    }

    /// Node `id` holds a comment that none of its children holds.
    pub open spec fn own_comments(self, id: int) -> bool {
        exists|k: int|
            0 <= k < self.tokens().len() && #[trigger] self.comment_within(k, self.start(id), self.end(id)) && forall|
                j: int,
            |
                0 <= j < self.kids(id).len() ==> !(self.tokens()[k].start >= #[trigger] self.extent(
                    self.kids(id)[j] as int,
                ).0 && self.tokens()[k].end <= self.extent(self.kids(id)[j] as int).1)
    }

    /// A break between two comments: a blank line, a line break or a space.
    pub open spec fn separation(self, a: int, b: int) -> Doc {
        let g = self.slice(a, b);
        if newlines(g) > 1 {
            Doc::Blank
        } else if g.contains('\n') {
            Doc::Hard
        } else {
            text(" "@)
        }
    }

    /// The comments among the first `n` tokens within `start..end`, each
    /// after the break that separates it from what came before: the
    /// documents, where the last one ended, and whether there was one.
    pub open spec fn trivia_scan(self, start: int, end: int, before: bool, n: int) -> (Seq<Doc>, int, bool)
        decreases n,
    {
        if n <= 0 {
            (seq![], start, before)
        } else {
            let (d, cursor, previous) = self.trivia_scan(start, end, before, n - 1);
            let k = n - 1;
            if self.comment_within(k, start, end) {
                let t = self.tokens()[k];
                let sep = if previous {
                    seq![self.separation(cursor, t.start as int)]
                } else {
                    seq![]
                };
                (d + sep + seq![text(self.slice(t.start as int, t.end as int))], t.end as int, true)
            } else {
                (d, cursor, previous)
            }
        }
    }

    /// The comments within `start..end`, and a break after them when asked.
    pub open spec fn trivia(self, start: int, end: int, before: bool, after: bool) -> Seq<Doc> {
        let (d, cursor, previous) = self.trivia_scan(start, end, before, self.tokens().len() as int);
        if previous && after {
            d + seq![
                if newlines(self.slice(cursor, end)) > 1 {
                    Doc::Blank
                } else {
                    Doc::Hard
                },
            ]
        } else {
            d
        }
    }

    /// The first non-whitespace token from `k` on that starts in `start..end`.
    pub open spec fn first_solid(self, start: int, end: int, k: int) -> Option<int>
        decreases self.tokens().len() - k,
    {
        if k < 0 || k >= self.tokens().len() {
            None
        } else if self.tokens()[k].kind != TokenKind::Whitespace && self.tokens()[k].start >= start
            && self.tokens()[k].start < end {
            Some(k)
        } else {
            self.first_solid(start, end, k + 1)
        }
    }

    /// The last non-whitespace token of the first `n` that ends in `start..end`.
    pub open spec fn last_solid(self, start: int, end: int, n: int) -> Option<int>
        decreases n,
    {
        if n <= 0 {
            None
        } else if self.tokens()[n - 1].kind != TokenKind::Whitespace && self.tokens()[n - 1].end <= end
            && self.tokens()[n - 1].end > start {
            Some(n - 1)
        } else {
            self.last_solid(start, end, n - 1)
        }
    }

    /// The statements of a collapsible kind.
    pub open spec fn simple(self, id: int) -> bool {
        match self.shape(id) {
            Shape::Local { .. } => true,
            Shape::Assignment { .. } => true,
            Shape::CallStatement { .. } => true,
            Shape::Return { .. } => true,
            Shape::Jump => true,
            _ => false,
        }
    }

    pub open spec fn semicolon(self) -> Seq<char> {
        if self.options.semicolons == Semicolons::Always {
            ";"@
        } else {
            ""@
        }
    }

    /// The separator between list items.
    pub open spec fn comma_line(self) -> Doc {
        cat(seq![text(","@), Doc::Line])
    }

    /// A list of documents separated by commas and lines.
    pub open spec fn listed(self, parts: Seq<Doc>) -> Doc {
        cat(joined(self.comma_line(), parts))
    }

    /// Children with delimiters, flat when they fit.
    pub open spec fn delimited(
        self,
        opening: Seq<char>,
        closing: Seq<char>,
        parts: Seq<Doc>,
        spaces: bool,
        table: bool,
        forced: bool,
    ) -> Doc {
        if parts.len() == 0 {
            cat(seq![text(opening), text(closing)])
        } else {
            let edge = if forced {
                Doc::Hard
            } else if spaces {
                Doc::Line
            } else {
                Doc::Soft
            };
            let comma = if table && self.options.trailing_separator {
                Doc::Choice(Box::new(text(""@)), Box::new(text(","@)))
            } else {
                text(""@)
            };
            group(cat(seq![text(opening), indent(cat(seq![edge, self.listed(parts), comma])), edge, text(closing)]))
        }
    }

    /// A parenthesized list expanded as asked.
    pub open spec fn parenthesized(self, parts: Seq<Doc>, expand: Expansion, levels: nat) -> Doc {
        if parts.len() == 0 {
            text("()"@)
        } else {
            let edge = if expand == Expansion::Always {
                Doc::Hard
            } else if self.options.spacing.parentheses {
                Doc::Line
            } else {
                Doc::Soft
            };
            let content = cat(seq![edge, self.listed(parts)]);
            let content = if expand != Expansion::Never {
                indented(content, levels)
            } else {
                content
            };
            let d = cat(seq![text("("@), content, edge, text(")"@)]);
            if expand == Expansion::Never {
                Doc::Flat(Box::new(d))
            } else {
                group(d)
            }
        }
    }

    /// A hanging final argument: a function, a table or a multiline string.
    pub open spec fn hanging(self, id: int) -> bool {
        match self.shape(id) {
            Shape::Function { .. } => true,
            Shape::Table => true,
            Shape::Literal => self.text(id).contains('\n'),
            _ => false,
        }
    }

    /// The conditional indentation.
    pub open spec fn conditional_indent(self, d: Doc) -> Doc {
        indented(d, self.options.conditionals.indentation as nat)
    }

    /// A node that lies strictly around `id` and has one of the shapes `kind` says.
    pub open spec fn nested_in(self, id: int, conditional: bool) -> bool {
        exists|k: int|
            0 <= k < self.len() && #[trigger] self.start(k) < self.start(id) && self.end(k) >= self.end(id) && (if conditional {
                self.shape(k) is Conditional
            } else {
                self.shape(k) is TypeGroup || self.shape(k) is TypeArguments || self.shape(k) is TypePack
            })
    }

    /// The receivers of a call chain: how many calls it makes and what it
    /// starts from.
    pub open spec fn chain_base(self, cur: int) -> (nat, int)
        decreases self.len() - cur,
        when self.tree.wf() && 0 <= cur < self.len()
    {
        proof {
            assert(refers_forward(self.tree.nodes@[cur], cur, self.len()));
        }
        match self.shape(cur) {
            Shape::MethodCall { receiver, .. } => {
                let (n, b) = self.chain_base(receiver as int);
                (n + 1, b)
            },
            Shape::Call { callee, .. } => {
                proof {
                    assert(refers_forward(self.tree.nodes@[callee as int], callee as int, self.len()));
                }
                let inner = match self.shape(callee as int) {
                    Shape::Instantiate { expression, .. } => expression as int,
                    _ => callee as int,
                };
                proof {
                    if inner != callee as int {
                        assert(refers_forward(self.tree.nodes@[inner], inner, self.len()));
                    }
                }
                match self.shape(inner) {
                    Shape::Field { receiver, .. } => {
                        let (n, b) = self.chain_base(receiver as int);
                        (n + 1, b)
                    },
                    _ => (0, cur),
                }
            },
            _ => (0, cur),
        }
    }

    /// The operands and operators of a run of binary operations of one
    /// precedence.
    pub open spec fn operands(self, x: int, p: int) -> (Seq<usize>, Seq<usize>)
        decreases self.len() - x,
        when self.tree.wf() && 0 <= x < self.len()
    {
        proof {
            assert(refers_forward(self.tree.nodes@[x], x, self.len()));
        }
        match self.shape(x) {
            Shape::Binary { left, operator, right } => if precedence(self.text(operator as int)) == p
                && !self.own_comments(x) {
                let (a, b) = self.operands(left as int, p);
                let (c, d) = self.operands(right as int, p);
                (a + c, b + seq![operator] + d)
            } else {
                (seq![x as usize], seq![])
            },
            _ => (seq![x as usize], seq![]),
        }
    }

    /// The members of a union or intersection, nested ones of the same kind
    /// spread out.
    pub open spec fn members(self, x: int, union: bool) -> Seq<usize>
        decreases self.len() - x, 1int,
        when self.tree.wf() && 0 <= x < self.len()
    {
        proof {
            assert(refers_forward(self.tree.nodes@[x], x, self.len()));
        }
        if (union && self.shape(x) is TypeUnion) || (!union && self.shape(x) is TypeIntersection) {
            self.member_list(x, self.kids(x), union)
        } else {
            seq![x as usize]
        }
    }

    pub open spec fn member_list(self, p: int, ids: Seq<usize>, union: bool) -> Seq<usize>
        decreases self.len() - p, 0int, ids.len(),
        when self.tree.wf() && 0 <= p < self.len() && all_later(p, ids, self.len())
    {
        if ids.len() == 0 {
            seq![]
        } else {
            proof {
                assert(later(p, ids[ids.len() - 1], self.len()));
                assert(all_later(p, ids.drop_last(), self.len())) by {
                    assert forall|k: int| 0 <= k < ids.drop_last().len() implies #[trigger] later(
                        p,
                        ids.drop_last()[k],
                        self.len(),
                    ) by {
                        assert(later(p, ids[k], self.len()));
                    }
                }
            }
            self.member_list(p, ids.drop_last(), union) + self.members(ids.last() as int, union)
        }
    }

    /// What a type is under its parentheses.
    pub open spec fn unwrapped(self, x: int) -> int
        decreases self.len() - x,
        when self.tree.wf() && 0 <= x < self.len()
    {
        proof {
            assert(refers_forward(self.tree.nodes@[x], x, self.len()));
        }
        match self.shape(x) {
            Shape::TypeGroup { annotation } => self.unwrapped(annotation as int),
            _ => x,
        }
    }
}


/// The first part, then each other part after `sep`.
pub open spec fn separated(sep: Seq<Doc>, parts: Seq<Doc>) -> Seq<Doc> {
    if parts.len() == 0 {
        seq![]
    } else {
        seq![parts[0]] + after_each(sep, parts.drop_first())
    }
}

/// `n` line breaks.
pub open spec fn hards(n: nat) -> Seq<Doc> {
    Seq::new(n, |i: int| Doc::Hard)
}

/// The flat form of a conditional expression's branches and else value.
pub open spec fn conditional_flat(branches: Seq<(Doc, Doc)>, otherwise: Doc) -> Doc {
    cat(conditional_flat_parts(branches, branches.len() as int) + seq![text("else "@), otherwise])
}

pub open spec fn conditional_flat_parts(branches: Seq<(Doc, Doc)>, n: int) -> Seq<Doc>
    decreases n,
{
    if n <= 0 || n > branches.len() {
        seq![]
    } else {
        let (c, v) = branches[n - 1];
        conditional_flat_parts(branches, n - 1) + seq![
            text(if n - 1 == 0 { "if "@ } else { "elseif "@ }),
            c,
            text(" then "@),
            v,
            Doc::Line,
        ]
    }
}

/// The table-type contents: each field after the separator and the line
/// breaks its gap asks for.
pub open spec fn type_fields(fields: Seq<Doc>, gaps: Seq<nat>, sep: Seq<char>, n: int) -> Seq<Doc>
    decreases n,
{
    if n <= 0 || n > fields.len() {
        seq![]
    } else {
        let i = n - 1;
        let before = if i > 0 {
            seq![text(sep)] + if gaps[i] > 0 {
                hards(gaps[i] + 1)
            } else {
                seq![Doc::Line]
            }
        } else {
            seq![]
        };
        type_fields(fields, gaps, sep, n - 1) + before + seq![fields[i]]
    }
}

impl<'a> Emitter<'a> {
    /// The documents of the nodes `ids`, all after `p`.
    pub open spec fn nodes(self, p: int, ids: Seq<usize>) -> Seq<Doc>
        decreases self.len() - p + 1, 5int, ids.len(),
        when self.wf() && 0 <= p < self.len() && all_later(p, ids, self.len())
    {
        if ids.len() == 0 {
            seq![]
        } else {
            proof {
                assert(later(p, ids[ids.len() - 1], self.len()));
                assert(all_later(p, ids.drop_last(), self.len())) by {
                    assert forall|k: int| 0 <= k < ids.drop_last().len() implies #[trigger] later(
                        p,
                        ids.drop_last()[k],
                        self.len(),
                    ) by {
                        assert(later(p, ids[k], self.len()));
                    }
                }
            }
            self.nodes(p, ids.drop_last()).push(self.emitted(ids.last() as int))
        }
    }

    /// The document of `o`, or nothing.
    pub open spec fn optional(self, p: int, o: Option<usize>) -> Doc
        decreases self.len() - p + 1, 3int, 0int,
        when self.wf() && 0 <= p < self.len() && maybe_later(p, o, self.len())
    {
        match o {
            Some(x) => self.emitted(x as int),
            None => text(""@),
        }
    }

    /// The statements of block `b` within `start..end`, each after its
    /// comments or, in a held region, after the source before it.
    pub open spec fn block(self, b: int, start: int, end: int) -> Doc
        decreases self.len() - b + 1, 12int, 0int,
        when self.wf() && 0 <= b < self.len()
    {
        proof {
            assert(refers_forward(self.tree.nodes@[b], b, self.len()));
        }
        let (parts, cursor) = self.block_scan(b, start, self.kids(b).len() as int);
        cat(parts + self.trivia(cursor, end, parts.len() > 0, false))
    }

    pub open spec fn block_scan(self, b: int, start: int, k: int) -> (Seq<Doc>, int)
        decreases self.len() - b + 1, 11int, k,
        when self.wf() && 0 <= b < self.len() && all_later(b, self.kids(b), self.len())
    {
        if k <= 0 || k > self.kids(b).len() {
            (seq![], start)
        } else {
            let (parts, cursor) = self.block_scan(b, start, k - 1);
            let st = self.kids(b)[k - 1] as int;
            proof {
                assert(later(b, self.kids(b)[k - 1], self.len()));
            }
            if self.held_across(cursor, self.start(st)) {
                (parts + seq![text(self.slice(cursor, self.start(st))), self.emitted(st)], self.end(st))
            } else {
                let semi = self.options.semicolons == Semicolons::Always || (k < self.kids(b).len() && begins(
                    self.text(self.kids(b)[k] as int),
                    '(',
                ));
                (
                    parts + self.trivia(cursor, self.start(st), parts.len() > 0, true) + seq![self.emitted(st)] + (if semi {
                        seq![text(";"@)]
                    } else {
                        seq![]
                    }),
                    self.end(st),
                )
            }
        }
    }

    /// Where a body's statements start, after a comment on its opening line,
    /// and that comment.
    pub open spec fn body_start(self, b: int) -> (Doc, int) {
        let (s0, e0) = self.boundaries(b);
        match self.first_comment(s0, e0, 0) {
            Some(k) => if !self.slice(s0, self.tokens()[k].start as int).contains('\n') {
                (
                    cat(seq![text(" "@), text(self.slice(self.tokens()[k].start as int, self.tokens()[k].end as int))]),
                    self.tokens()[k].end as int,
                )
            } else {
                (text(""@), s0)
            },
            None => (text(""@), s0),
        }
    }

    /// An indented body: a comment on its opening line, then its statements,
    /// with blank lines kept at its edges when the options preserve them.
    pub open spec fn body(self, b: int) -> Doc
        decreases self.len() - b + 1, 14int, 0int,
        when self.wf() && 0 <= b < self.len()
    {
        let (prefix, s) = self.body_start(b);
        let e0 = self.boundaries(b).1;
        if self.kids(b).len() == 0 && self.first_comment(s, e0, 0) is None {
            prefix
        } else {
            let first = match self.first_solid(s, e0, 0) {
                Some(k) => self.tokens()[k].start as int,
                None => e0,
            };
            let last = match self.last_solid(s, e0, self.tokens().len() as int) {
                Some(k) => self.tokens()[k].end as int,
                None => s,
            };
            let preserve = self.options.blocks.blank_lines == Gaps::Preserve;
            let before = preserve && newlines(self.slice(s, first)) > 1;
            let after = preserve && newlines(self.slice(last, e0)) > 1;
            cat(
                seq![
                    prefix,
                    indent(cat(seq![if before { Doc::Blank } else { Doc::Hard }, self.block(b, s, e0)])),
                    if after {
                        Doc::Hard
                    } else {
                        text(""@)
                    },
                ],
            )
        }
    }

    /// A body of one simple statement on one line, when it has no comment,
    /// no blank line before it, nothing held, and a flat width.
    pub open spec fn collapsed(self, b: int) -> Option<Doc>
        decreases self.len() - b + 1, 14int, 0int,
        when self.wf() && 0 <= b < self.len()
    {
        proof {
            assert(refers_forward(self.tree.nodes@[b], b, self.len()));
        }
        let ks = self.kids(b);
        if ks.len() == 0 {
            None
        } else {
            let (s, e) = self.boundaries(b);
            let st = ks[0] as int;
            proof {
                assert(later(b, ks[0], self.len()));
            }
            if ks.len() > 1 || !self.simple(st) || self.first_comment(s, e, 0) is Some || newlines(self.slice(s, self.start(b)))
                > 1 || self.held_over(s, e) {
                None
            } else {
                let d = self.emitted(st);
                if doc_width(d) is None {
                    None
                } else {
                    Some(cat(seq![indent(cat(seq![Doc::Line, d, text(self.semicolon())])), Doc::Line]))
                }
            }
        }
    }

    /// A table, argument list or parameter list that holds comments: one
    /// child per line, comments kept between them.
    pub open spec fn commented(self, id: int) -> Doc
        decreases self.len() - id + 1, 12int, 0int,
        when self.wf() && 0 <= id < self.len()
    {
        proof {
            assert(refers_forward(self.tree.nodes@[id], id, self.len()));
        }
        let table = self.shape(id) is Table;
        let (docs, cursor, previous) = self.commented_scan(id, self.kids(id).len() as int);
        cat(
            seq![
                text(if table { "{"@ } else { "("@ }),
                indent(cat(seq![Doc::Hard] + docs + self.trivia(cursor, if self.end(id) > 0 { self.end(id) - 1 } else { 0 }, previous, false))),
                Doc::Hard,
                text(if table { "}"@ } else { ")"@ }),
            ],
        )
    }

    pub open spec fn commented_scan(self, id: int, k: int) -> (Seq<Doc>, int, bool)
        decreases self.len() - id + 1, 11int, k,
        when self.wf() && 0 <= id < self.len() && all_later(id, self.kids(id), self.len())
    {
        if k <= 0 || k > self.kids(id).len() {
            (seq![], self.start(id) + 1, false)
        } else {
            let (d, cursor, previous) = self.commented_scan(id, k - 1);
            let c = self.kids(id)[k - 1] as int;
            proof {
                assert(later(id, self.kids(id)[k - 1], self.len()));
            }
            let comma = k < self.kids(id).len() || (self.shape(id) is Table && self.options.trailing_separator);
            (
                d + self.trivia(cursor, self.start(c), previous, true) + seq![self.emitted(c)] + (if comma {
                    seq![text(","@)]
                } else {
                    seq![]
                }),
                self.end(c),
                true,
            )
        }
    }

    /// The steps of a call chain, outermost first.
    pub open spec fn chain_steps(self, cur: int) -> Seq<Doc>
        decreases self.len() - cur + 1, 11int, 0int,
        when self.wf() && 0 <= cur < self.len()
    {
        proof {
            assert(refers_forward(self.tree.nodes@[cur], cur, self.len()));
        }
        match self.shape(cur) {
            Shape::MethodCall { receiver, method, types, arguments } => seq![
                cat(
                    seq![
                        text(":"@),
                        self.emitted(method as int),
                        text(if types is Some { "<"@ } else { ""@ }),
                        self.optional(cur, types),
                        text(if types is Some { ">"@ } else { ""@ }),
                        self.emitted(arguments as int),
                    ],
                ),
            ] + self.chain_steps(receiver as int),
            Shape::Call { callee, arguments } => {
                proof {
                    assert(refers_forward(self.tree.nodes@[callee as int], callee as int, self.len()));
                }
                let (inner, targs) = match self.shape(callee as int) {
                    Shape::Instantiate { expression, arguments: a } => (expression as int, Some(a)),
                    _ => (callee as int, None),
                };
                proof {
                    if inner != callee as int {
                        assert(refers_forward(self.tree.nodes@[inner], inner, self.len()));
                    }
                }
                match self.shape(inner) {
                    Shape::Field { receiver, name } => seq![
                        cat(
                            seq![
                                text("."@),
                                self.emitted(name as int),
                                text(if targs is Some { "<"@ } else { ""@ }),
                                self.optional(cur, targs),
                                text(if targs is Some { ">"@ } else { ""@ }),
                                self.emitted(arguments as int),
                            ],
                        ),
                    ] + self.chain_steps(receiver as int),
                    _ => seq![],
                }
            },
            _ => seq![],
        }
    }

    /// A chain of two or more calls, each on its own line when it breaks.
    pub open spec fn chain(self, id: int) -> Option<Doc>
        decreases self.len() - id + 1, 12int, 0int,
        when self.wf() && 0 <= id < self.len()
    {
        let chains = self.options.calls.chains;
        if chains.style == Chain::Preserve {
            None
        } else {
            let steps = self.chain_steps(id);
            let (n, base) = self.chain_base(id);
            if n < 2 || base <= id || base >= self.len() {
                None
            } else {
                let forced = chains.min_calls > 0 && n >= chains.min_calls;
                let rev = steps.reverse();
                let method = chains.style == Chain::Method;
                let head = seq![self.emitted(base)] + (if method && rev.len() > 0 { seq![rev[0]] } else { seq![] });
                let rest = if method && rev.len() > 0 { rev.drop_first() } else { rev };
                let brk = if forced { Doc::Hard } else { Doc::Soft };
                Some(group(cat(head + seq![indent(cat(after_each(seq![brk], rest)))])))
            }
        }
    }

    /// The operators after the first operand of a binary run, each with its
    /// operand; a last operand that is a parenthesized conditional which must
    /// break hangs on the same line.
    pub open spec fn binary_rest(self, id: int, ops: Seq<usize>, opers: Seq<usize>, k: int) -> (Seq<Doc>, Doc)
        decreases self.len() - id + 1, 11int, k,
        when self.wf() && 0 <= id < self.len() && all_later(id, ops, self.len()) && all_later(id, opers, self.len())
            && ops.len() == opers.len() + 1
    {
        if k <= 0 || k > opers.len() {
            (seq![], text(""@))
        } else {
            let (rest, tail) = self.binary_rest(id, ops, opers, k - 1);
            let i = k - 1;
            proof {
                assert(later(id, ops[i + 1], self.len()));
                assert(later(id, opers[i], self.len()));
            }
            let operand = ops[i + 1] as int;
            let d = self.emitted(operand);
            let hangs = match self.shape(operand) {
                Shape::Group { expression } => self.shape(expression as int) is Conditional,
                _ => false,
            } && doc_width(d) is None;
            if i + 1 == opers.len() && hangs {
                (rest, cat(seq![text(" "@), self.emitted(opers[i] as int), text(" "@), d]))
            } else {
                (rest + seq![Doc::Line, self.emitted(opers[i] as int), text(" "@), d], tail)
            }
        }
    }

    /// A run of binary operations of one precedence, each operator on a new
    /// line when it breaks.
    pub open spec fn binary(self, id: int) -> Doc
        decreases self.len() - id + 1, 12int, 0int,
        when self.wf() && 0 <= id < self.len()
    {
        match self.shape(id) {
            Shape::Binary { operator, .. } => {
                let (ops, opers) = self.operands(id, precedence(self.text(operator as int)));
                if self.own_comments(id) || ops.len() != opers.len() + 1 || !all_later(id, ops, self.len()) || !all_later(
                    id,
                    opers,
                    self.len(),
                ) {
                    text(self.text(id))
                } else {
                    proof {
                        assert(later(id, ops[0], self.len()));
                    }
                    let (rest, tail) = self.binary_rest(id, ops, opers, opers.len() as int);
                    group(cat(seq![self.emitted(ops[0] as int), indent(cat(rest)), tail]))
                }
            },
            _ => text(self.text(id)),
        }
    }

    /// The branches of a conditional expression and its final else value.
    pub open spec fn conditional_branches(self, cur: int) -> (Seq<(Doc, Doc)>, Doc)
        decreases self.len() - cur + 1, 11int, 0int,
        when self.wf() && 0 <= cur < self.len()
    {
        proof {
            assert(refers_forward(self.tree.nodes@[cur], cur, self.len()));
        }
        match self.shape(cur) {
            Shape::Conditional { condition, truthy, falsy } => {
                let b = (self.emitted(condition as int), self.emitted(truthy as int));
                if self.shape(falsy as int) is Conditional && begins_with(self.text(falsy as int), "elseif"@) {
                    let (bs, o) = self.conditional_branches(falsy as int);
                    (seq![b] + bs, o)
                } else {
                    (seq![b], self.emitted(falsy as int))
                }
            },
            _ => (seq![], text(""@)),
        }
    }

    /// The expanded branches of a conditional expression.
    pub open spec fn conditional_parts(self, branches: Seq<(Doc, Doc)>, split: Doc, n: int) -> Seq<Doc>
        decreases n,
    {
        if n <= 0 || n > branches.len() {
            seq![]
        } else {
            let i = n - 1;
            let (c, v) = branches[i];
            let keyword = text(if i == 0 { "if "@ } else { "elseif "@ });
            self.conditional_parts(branches, split, n - 1) + match self.options.conditionals.style {
                ConditionalStyle::Block => (if i != 0 {
                    seq![split]
                } else {
                    seq![]
                }) + seq![keyword, c, text(" then"@), self.conditional_indent(cat(seq![split, v]))],
                ConditionalStyle::Leading => seq![
                    if i == 0 {
                        keyword
                    } else {
                        self.conditional_indent(cat(seq![split, keyword]))
                    },
                    c,
                    self.conditional_indent(cat(seq![split, text("then "@), v])),
                ],
            }
        }
    }

    /// A conditional expression, flat when it fits and expanded by the options.
    pub open spec fn conditional(self, id: int) -> Doc
        decreases self.len() - id + 1, 12int, 0int,
        when self.wf() && 0 <= id < self.len()
    {
        let options = self.options.conditionals;
        let (branches, otherwise) = self.conditional_branches(id);
        let flat = conditional_flat(branches, otherwise);
        if options.expand == ConditionalExpansion::Never {
            group(indent(flat))
        } else {
            let wide = match doc_width(flat) {
                Some(w) => w > options.width,
                None => true,
            };
            let open = wide || (options.expand == ConditionalExpansion::Always && !self.nested_in(id, true));
            let split = if open { Doc::Hard } else { Doc::Line };
            let ending = match options.style {
                ConditionalStyle::Block => seq![
                    split,
                    text("else"@),
                    self.conditional_indent(cat(seq![split, otherwise])),
                ],
                ConditionalStyle::Leading => seq![
                    self.conditional_indent(cat(seq![split, text("else "@), otherwise])),
                ],
            };
            group(cat(self.conditional_parts(branches, split, branches.len() as int) + ending))
        }
    }

    /// A union or intersection type, each member on its own line when it breaks.
    pub open spec fn operators(self, id: int) -> Doc
        decreases self.len() - id + 1, 12int, 0int,
        when self.wf() && 0 <= id < self.len()
    {
        proof {
            assert(refers_forward(self.tree.nodes@[id], id, self.len()));
        }
        let union = self.shape(id) is TypeUnion;
        let ms = self.member_list(id, self.kids(id), union);
        if !all_later(id, ms, self.len()) || ms.len() == 0 {
            text(self.text(id))
        } else {
            let members = self.nodes(id, ms);
            let overloads = !union && forall|i: int| 0 <= i < ms.len() ==> #[trigger] self.shape(self.unwrapped(ms[i] as int)) is TypeFunction;
            let expansion = if self.nested_in(id, false) {
                TypeExpansion::Auto
            } else {
                self.options.types.operators.expand
            };
            let op = if union { "| "@ } else { "& "@ };
            if expansion == TypeExpansion::Auto && overloads {
                let flat = cat(joined(text(" & "@), members));
                let expanded = cat(seq![members[0], indent(cat(after_each(seq![Doc::Hard, text("& "@)], members.drop_first())))]);
                if self.text(id).contains('\n') {
                    expanded
                } else {
                    group(Doc::Choice(Box::new(flat), Box::new(expanded)))
                }
            } else if expansion == TypeExpansion::Auto {
                cat(
                    seq![
                        text(if begins(self.text(id), '|') || begins(self.text(id), '&') { op } else { ""@ }),
                        cat(joined(text(if union { " | "@ } else { " & "@ }), members)),
                    ],
                )
            } else {
                let flat = doc_flat(cat(joined(text(if union { " | "@ } else { " & "@ }), members)));
                let expanded = indent(cat(after_each(seq![Doc::Hard, text(op)], members)));
                if expansion == TypeExpansion::Always {
                    expanded
                } else {
                    group(Doc::Choice(Box::new(flat), Box::new(expanded)))
                }
            }
        }
    }

    /// The blank lines kept before field `i` of a table type.
    pub open spec fn field_gap(self, id: int, i: int) -> nat {
        if self.options.types.tables.blank_lines == Gaps::Preserve && i > 0 {
            let n = newlines(self.slice(self.end(self.kids(id)[i - 1] as int), self.start(self.kids(id)[i] as int)));
            if n > 0 { (n - 1) as nat } else { 0 }
        } else {
            0
        }
    }

    /// A table type with its fields, expanded when it is too wide or keeps
    /// blank lines.
    pub open spec fn table_type(self, id: int) -> Doc
        decreases self.len() - id + 1, 12int, 0int,
        when self.wf() && 0 <= id < self.len()
    {
        proof {
            assert(refers_forward(self.tree.nodes@[id], id, self.len()));
        }
        let ks = self.kids(id);
        if ks.len() == 0 {
            text("{}"@)
        } else {
            let options = self.options.types.tables;
            let sep = match options.separator {
                Separator::Comma => ","@,
                Separator::Semicolon => ";"@,
            };
            let gaps = Seq::new(ks.len(), |i: int| self.field_gap(id, i));
            let fields = self.nodes(id, ks);
            let flat = cat(seq![text("{ "@), cat(joined(text(if options.separator == Separator::Comma { ", "@ } else { "; "@ }), fields)), text(" }"@)]);
            if !options.enabled {
                Doc::Flat(Box::new(flat))
            } else {
                let forced = (exists|i: int| 0 <= i < gaps.len() && #[trigger] gaps[i] > 0) || match doc_width(flat) {
                    Some(w) => w > options.width,
                    None => true,
                };
                let edge = if forced {
                    Doc::Hard
                } else if self.options.spacing.braces {
                    Doc::Line
                } else {
                    Doc::Soft
                };
                let suffix = if self.options.trailing_separator {
                    Doc::Choice(Box::new(text(""@)), Box::new(text(sep)))
                } else {
                    text(""@)
                };
                group(
                    cat(
                        seq![
                            text("{"@),
                            indent(cat(seq![edge, cat(type_fields(fields, gaps, sep, fields.len() as int)), suffix])),
                            edge,
                            text("}"@),
                        ],
                    ),
                )
            }
        }
    }

    /// A parameter list.
    pub open spec fn parameters(self, p: int) -> Doc
        decreases self.len() - p + 1, 13int, 0int,
        when self.wf() && 0 <= p < self.len()
    {
        proof {
            assert(refers_forward(self.tree.nodes@[p], p, self.len()));
        }
        if self.own_comments(p) {
            self.commented(p)
        } else {
            self.parenthesized(
                self.nodes(p, self.kids(p)),
                self.options.parameters.expand,
                self.options.parameters.indentation as nat,
            )
        }
    }

    /// An argument list in parentheses: hugged when its last argument hangs.
    pub open spec fn arguments(self, a: int) -> Doc
        decreases self.len() - a + 1, 13int, 0int,
        when self.wf() && 0 <= a < self.len()
    {
        proof {
            assert(refers_forward(self.tree.nodes@[a], a, self.len()));
        }
        let values = self.kids(a);
        let docs = self.nodes(a, values);
        let calls = self.options.calls;
        let hanging = values.len() > 0 && self.hanging(values.last() as int);
        if (values.len() == 1 && (hanging || self.shape(values.last() as int) is Literal)) || (hanging && calls.style
            == CallStyle::HugLast && calls.expand != Expansion::Always) {
            cat(seq![text("("@), cat(joined(text(", "@), docs)), text(")"@)])
        } else {
            self.parenthesized(docs, calls.expand, calls.indentation as nat)
        }
    }

    /// The values of a declaration or assignment after its `=`.
    pub open spec fn values(self, p: int, ids: Seq<usize>) -> Doc
        decreases self.len() - p + 1, 13int, 0int,
        when self.wf() && 0 <= p < self.len() && all_later(p, ids, self.len())
    {
        let d = self.listed(self.nodes(p, ids));
        if ids.len() == 1 && self.shape(ids[0] as int) is Conditional && self.options.conditionals.placement
            == Placement::NextLine && doc_width(d) is None {
            self.conditional_indent(cat(seq![Doc::Hard, d]))
        } else {
            cat(seq![text(" "@), d])
        }
    }

    /// A parenthesized expression, or `typeof(...)`.
    pub open spec fn grouped(self, p: int, expression: int, typeof_expression: bool) -> Doc
        decreases self.len() - p + 1, 13int, 0int,
        when self.wf() && 0 <= p < expression < self.len()
    {
        let d = self.emitted(expression);
        let opening = text(if typeof_expression { "typeof("@ } else { "("@ });
        if self.shape(expression) is Conditional && doc_width(d) is None {
            cat(seq![opening, indent(cat(seq![Doc::Hard, d])), Doc::Hard, text(")"@)])
        } else {
            cat(seq![opening, d, text(")"@)])
        }
    }

    /// The document of node `id`.
    pub open spec fn emitted(self, id: int) -> Doc
        decreases self.len() - id + 1, 20int, 0int,
        when self.wf() && 0 <= id < self.len()
    {
        let sh = self.shape(id);
        if self.own_comments(id) && (sh is Table || sh is Arguments || sh is Parameters) {
            self.commented(id)
        } else if !(sh is Block) && (self.own_comments(id) || self.held_over(self.start(id), self.end(id))) {
            text(self.text(id))
        } else if (sh is Call || sh is MethodCall) && self.chain(id) is Some {
            self.chain(id)->0
        } else if sh is Literal {
            text(quoted_text(self.text(id), self.options.quotes))
        } else if sh is Number {
            text(numbered_text(self.text(id), self.options.leading_zero))
        } else {
            self.shaped(id)
        }
    }
}


impl<'a> Emitter<'a> {
    /// The prefix of a function declaration.
    pub open spec fn function_prefix(self, id: int) -> Seq<char> {
        match self.shape(id) {
            Shape::Function { local, method, typed, declared, .. } => {
                let t = self.text(id);
                if local && begins_with(crate::text::trim_start(t), "const"@) {
                    "const function"@
                } else if local {
                    "local function"@
                } else if typed {
                    "type function"@
                } else if declared {
                    "declare function"@
                } else if method && begins_with(t, "public"@) {
                    "public function"@
                } else {
                    "function"@
                }
            },
            _ => ""@,
        }
    }

    /// The space before function parentheses in definitions or calls.
    pub open spec fn name_space(self, definition: bool) -> Seq<char> {
        let f = self.options.spacing.function_names;
        if f == Separation::Always || (definition && f == Separation::Definitions) || (!definition && f
            == Separation::Calls) {
            " "@
        } else {
            ""@
        }
    }

    /// The end of a function: `end` after its body, which may stay on one line.
    pub open spec fn function_end(self, id: int, b: int) -> Seq<Doc>
        decreases self.len() - id + 1, 15int, 0int,
        when self.wf() && 0 <= id < b < self.len()
    {
        let (s, e) = self.boundaries(b);
        let collapse = self.options.blocks.collapse;
        if self.kids(b).len() == 0 && self.first_comment(s, e, 0) is None {
            seq![Doc::Hard, text("end"@)]
        } else if (collapse == Collapse::FunctionOnly || collapse == Collapse::Always) && self.collapsed(b) is Some {
            seq![self.collapsed(b)->0, text("end"@)]
        } else {
            seq![self.body(b), Doc::Hard, text("end"@)]
        }
    }

    /// A one-line `if` for one branch whose body collapses.
    pub open spec fn short_if(self, id: int) -> Option<Doc>
        decreases self.len() - id + 1, 15int, 0int,
        when self.wf() && 0 <= id < self.len()
    {
        proof {
            assert(refers_forward(self.tree.nodes@[id], id, self.len()));
        }
        let collapse = self.options.blocks.collapse;
        match self.shape(id) {
            Shape::If { branches, otherwise } => if otherwise is None && branches@.len() == 1 && (collapse
                == Collapse::ConditionalOnly || collapse == Collapse::Always) {
                proof {
                    assert(later(id, branches@[0], self.len()));
                    assert(refers_forward(self.tree.nodes@[branches@[0] as int], branches@[0] as int, self.len()));
                }
                match self.shape(branches@[0] as int) {
                    Shape::Branch { condition, body } => match self.collapsed(body as int) {
                        Some(c) => Some(
                            group(cat(seq![text("if "@), self.emitted(condition as int), text(" then"@), c, text("end"@)])),
                        ),
                        None => None,
                    },
                    _ => None,
                }
            } else {
                None
            },
            _ => None,
        }
    }

    /// Whether a table constructor's source asks for expansion.
    pub open spec fn forced_table(self, id: int) -> bool {
        let t = self.text(id);
        (begins(t, '{') && brace_then_newline(t.drop_first())) || (self.options.expand_on_trailing_comma
            && ends_in_comma(t, true))
    }

    /// The document of node `id` by its shape.
    pub open spec fn shaped(self, id: int) -> Doc
        decreases self.len() - id + 1, 19int, 0int,
        when self.wf() && 0 <= id < self.len()
    {
        proof {
            assert(refers_forward(self.tree.nodes@[id], id, self.len()));
        }
        let o = self.options;
        match self.shape(id) {
            Shape::Root { block } => self.block(block as int, 0, self.src().len() as int),
            Shape::Block => self.block(id, self.start(id), self.end(id)),
            Shape::Local { constant, bindings, values } => {
                let init = values@.len() > 0;
                group(
                    cat(
                        seq![
                            text(if constant { "const "@ } else { "local "@ }),
                            self.listed(self.nodes(id, bindings@)),
                            text(if init { " ="@ } else { ""@ }),
                            if init {
                                self.values(id, values@)
                            } else {
                                text(""@)
                            },
                        ],
                    ),
                )
            },
            Shape::Assignment { targets, operator, values, .. } => group(
                cat(
                    seq![
                        self.listed(self.nodes(id, targets@)),
                        text(" "@),
                        self.emitted(operator as int),
                        self.values(id, values@),
                    ],
                ),
            ),
            Shape::CallStatement { call } => self.emitted(call as int),
            Shape::Binding { name, annotation } => cat(
                seq![
                    self.emitted(name as int),
                    text(if annotation is Some { ": "@ } else { ""@ }),
                    self.optional(id, annotation),
                ],
            ),
            Shape::Parameters => self.delimited(
                "("@,
                ")"@,
                self.nodes(id, self.kids(id)),
                o.spacing.parentheses,
                false,
                false,
            ),
            Shape::Arguments => {
                let values = self.kids(id);
                let bare = values.len() == 1 && match o.calls.parentheses {
                    Parentheses::Always => false,
                    Parentheses::OmitString => self.shape(values[0] as int) is Literal,
                    Parentheses::OmitTable => self.shape(values[0] as int) is Table,
                    Parentheses::OmitOptional => self.shape(values[0] as int) is Literal || self.shape(
                        values[0] as int,
                    ) is Table,
                    Parentheses::Preserve => !begins(self.text(id), '('),
                };
                if bare {
                    proof {
                        assert(later(id, values[0], self.len()));
                    }
                    cat(seq![text(" "@), self.emitted(values[0] as int)])
                } else {
                    cat(seq![text(self.name_space(false)), self.arguments(id)])
                }
            },
            Shape::Function { attributes, name, generics, parameters, result_type, body, .. } => {
                let head = match attributes {
                    Some(a) => seq![self.emitted(a as int), Doc::Hard],
                    None => seq![],
                };
                let main = seq![
                    text(self.function_prefix(id)),
                    text(if name is Some { " "@ } else { ""@ }),
                    self.optional(id, name),
                    self.optional(id, generics),
                    text(self.name_space(true)),
                    self.parameters(parameters as int),
                ];
                let ret = match result_type {
                    Some(r) => seq![text(": "@), self.emitted(r as int)],
                    None => seq![],
                };
                let tail = match body {
                    Some(b) => self.function_end(id, b as int),
                    None => seq![],
                };
                group(cat(head + main + ret + tail))
            },
            Shape::Returns { annotation } => self.emitted(annotation as int),
            Shape::FunctionName { path, method } => cat(
                seq![
                    cat(joined(text("."@), self.nodes(id, path@))),
                    text(if method is Some { ":"@ } else { ""@ }),
                    self.optional(id, method),
                ],
            ),
            Shape::If { branches, otherwise } => match self.short_if(id) {
                Some(d) => d,
                None => cat(
                    separated(seq![Doc::Hard, text("else"@)], self.nodes(id, branches@)) + match otherwise {
                        Some(x) => seq![Doc::Hard, self.emitted(x as int)],
                        None => seq![],
                    } + seq![Doc::Hard, text("end"@)],
                ),
            },
            Shape::Branch { condition, body } => cat(
                seq![text("if "@), self.emitted(condition as int), text(" then"@), self.body(body as int)],
            ),
            Shape::Body { body, otherwise } => cat(
                seq![text(if otherwise { "else"@ } else { "do"@ }), self.body(body as int)] + if otherwise {
                    seq![]
                } else {
                    seq![Doc::Hard, text("end"@)]
                },
            ),
            Shape::While { condition, body } => cat(
                seq![
                    text("while "@),
                    self.emitted(condition as int),
                    text(" do"@),
                    self.body(body as int),
                    Doc::Hard,
                    text("end"@),
                ],
            ),
            Shape::Repeat { body, condition } => cat(
                seq![
                    text("repeat"@),
                    self.body(body as int),
                    Doc::Hard,
                    text("until "@),
                    self.emitted(condition as int),
                ],
            ),
            Shape::NumericFor { binding, start, end, step, body } => cat(
                seq![
                    text("for "@),
                    self.emitted(binding as int),
                    text(" = "@),
                    self.emitted(start as int),
                    text(", "@),
                    self.emitted(end as int),
                    text(if step is Some { ", "@ } else { ""@ }),
                    self.optional(id, step),
                    text(" do"@),
                    self.body(body as int),
                    Doc::Hard,
                    text("end"@),
                ],
            ),
            Shape::GenericFor { bindings, values, body } => cat(
                seq![
                    text("for "@),
                    group(self.listed(self.nodes(id, bindings@))),
                    text(" in "@),
                    group(self.listed(self.nodes(id, values@))),
                    text(" do"@),
                    self.body(body as int),
                    Doc::Hard,
                    text("end"@),
                ],
            ),
            Shape::Return { values } => group(
                cat(
                    seq![
                        text(if values@.len() > 0 { "return "@ } else { "return"@ }),
                        self.listed(self.nodes(id, values@)),
                    ],
                ),
            ),
            Shape::Export { attributes, declaration } => cat(
                seq![
                    self.optional(id, attributes),
                    text(if attributes is Some { "\nexport "@ } else { "export "@ }),
                    self.emitted(declaration as int),
                ],
            ),
            Shape::TypeAlias { name, generics, annotation } => group(
                cat(
                    seq![
                        text("type "@),
                        self.emitted(name as int),
                        self.optional(id, generics),
                        text(" = "@),
                        self.emitted(annotation as int),
                    ],
                ),
            ),
            Shape::Declaration { name, annotation } => cat(
                seq![text("declare "@), self.emitted(name as int), text(": "@), self.emitted(annotation as int)],
            ),
            Shape::ClassDeclaration { class } => cat(seq![text("declare extern "@), self.emitted(class as int)]),
            Shape::Class { typed, open, name, extends, members } => cat(
                seq![
                    text(if typed { "type "@ } else if open { "open class "@ } else { "class "@ }),
                    self.emitted(name as int),
                    self.optional(id, extends),
                    text(if typed { " with"@ } else { ""@ }),
                    indent(cat(after_each(seq![Doc::Hard], self.nodes(id, members@)))),
                    Doc::Hard,
                    text("end"@),
                ],
            ),
            Shape::Property { binding } => cat(
                seq![text(self.slice(self.start(id), self.start(binding as int))), self.emitted(binding as int)],
            ),
            Shape::Extends { superclass } => cat(seq![text(" extends "@), self.emitted(superclass as int)]),
            Shape::Generics => self.delimited("<"@, ">"@, self.nodes(id, self.kids(id)), false, false, false),
            Shape::Generic { name, pack, default } => cat(
                seq![
                    self.emitted(name as int),
                    text(if pack { "..."@ } else { ""@ }),
                    text(if default is Some { " = "@ } else { ""@ }),
                    self.optional(id, default),
                ],
            ),
            Shape::Variadic { annotation } => cat(
                seq![
                    text("..."@),
                    text(if annotation is Some { ": "@ } else { ""@ }),
                    self.optional(id, annotation),
                ],
            ),
            Shape::Unary { operator, operand } => {
                let op = self.text(operator as int);
                cat(
                    seq![
                        self.emitted(operator as int),
                        text(if op == "not"@ || (op == "-"@ && begins(self.text(operand as int), '-')) { " "@ } else { ""@ }),
                        self.emitted(operand as int),
                    ],
                )
            },
            Shape::Binary { .. } => self.binary(id),
            Shape::Group { expression } => self.grouped(id, expression as int, false),
            Shape::TypeOf { expression } => self.grouped(id, expression as int, true),
            Shape::Call { callee, arguments } => cat(seq![self.emitted(callee as int), self.emitted(arguments as int)]),
            Shape::MethodCall { receiver, method, types, arguments } => cat(
                seq![
                    self.emitted(receiver as int),
                    text(":"@),
                    self.emitted(method as int),
                    text(if types is Some { "<"@ } else { ""@ }),
                    self.optional(id, types),
                    text(if types is Some { ">"@ } else { ""@ }),
                    self.emitted(arguments as int),
                ],
            ),
            Shape::Field { receiver, name } => cat(seq![self.emitted(receiver as int), text("."@), self.emitted(name as int)]),
            Shape::Index { receiver, key } => {
                let spaced = o.spacing.brackets || begins(self.text(key as int), '[');
                cat(
                    seq![
                        self.emitted(receiver as int),
                        text(if spaced { "[ "@ } else { "["@ }),
                        self.emitted(key as int),
                        text(if spaced { " ]"@ } else { "]"@ }),
                    ],
                )
            },
            Shape::Instantiate { expression, arguments } => cat(
                seq![self.emitted(expression as int), text("<"@), self.emitted(arguments as int), text(">"@)],
            ),
            Shape::Assertion { expression, annotation } => cat(
                seq![self.emitted(expression as int), text(" :: "@), self.emitted(annotation as int)],
            ),
            Shape::Conditional { .. } => self.conditional(id),
            Shape::Interpolation => cat(self.nodes(id, self.kids(id))),
            Shape::Table => self.delimited(
                "{"@,
                "}"@,
                self.nodes(id, self.kids(id)),
                o.spacing.braces,
                true,
                self.forced_table(id),
            ),
            Shape::TableField { key, value, indexed } => {
                let spaced = indexed && (o.spacing.brackets || match key {
                    Some(k) => begins(self.text(k as int), '['),
                    None => false,
                });
                group(
                    cat(
                        seq![
                            text(if spaced { "[ "@ } else if indexed { "["@ } else { ""@ }),
                            self.optional(id, key),
                            text(if spaced { " ]"@ } else if indexed { "]"@ } else { ""@ }),
                            text(if key is Some { " = "@ } else { ""@ }),
                            self.emitted(value as int),
                        ],
                    ),
                )
            },
            Shape::TypeName { namespace, name, arguments } => cat(
                seq![
                    self.optional(id, namespace),
                    text(if namespace is Some { "."@ } else { ""@ }),
                    self.emitted(name as int),
                    self.optional(id, arguments),
                ],
            ),
            Shape::TypeTable { access, element } => if !o.types.tables.enabled && self.text(id).contains('\n') {
                text(self.text(id))
            } else {
                match element {
                    Some(el) => group(
                        cat(
                            seq![
                                text("{ "@),
                                self.optional(id, access),
                                text(if access is Some { " "@ } else { ""@ }),
                                self.emitted(el as int),
                                text(" }"@),
                            ],
                        ),
                    ),
                    None => self.table_type(id),
                }
            },
            Shape::TypeField { indexer, access, key, annotation } => {
                let indexed = indexer || self.shape(key as int) is Literal;
                cat(
                    seq![
                        self.optional(id, access),
                        text(if access is Some { " "@ } else { ""@ }),
                        text(if indexed { "["@ } else { ""@ }),
                        self.emitted(key as int),
                        text(if indexed { "]: "@ } else { ": "@ }),
                        self.emitted(annotation as int),
                    ],
                )
            },
            Shape::TypeFunction { attributes, generics, parameters, result_type } => group(
                cat(
                    seq![
                        self.optional(id, attributes),
                        self.optional(id, generics),
                        self.emitted(parameters as int),
                        text(" -> "@),
                        self.emitted(result_type as int),
                    ],
                ),
            ),
            Shape::TypeGroup { annotation } => cat(seq![text("("@), self.emitted(annotation as int), text(")"@)]),
            Shape::TypePack => self.delimited(
                "("@,
                ")"@,
                self.nodes(id, self.kids(id)),
                o.spacing.parentheses,
                false,
                false,
            ),
            Shape::VariadicType { annotation } => cat(seq![text("..."@), self.emitted(annotation as int)]),
            Shape::TypeParameter { name, annotation } => cat(
                seq![self.emitted(name as int), text(": "@), self.emitted(annotation as int)],
            ),
            Shape::TypeArguments => self.delimited("<"@, ">"@, self.nodes(id, self.kids(id)), false, false, false),
            Shape::TypeUnion => self.operators(id),
            Shape::TypeIntersection => self.operators(id),
            Shape::TypeOptional { annotation } => cat(seq![self.emitted(annotation as int), text("?"@)]),
            _ => text(self.text(id)),
        }
    }
}


/// A node other than a block that overlaps a held region is written as it
/// stands in the source, unless it is a list whose comments put each item on
/// a line of its own.
pub proof fn law_held_nodes_keep_their_source<'a>(e: Emitter<'a>, id: int)
    requires
        e.wf(),
        0 <= id < e.len(),
        !(e.shape(id) is Block),
        e.held_over(e.start(id), e.end(id)),
        !(e.own_comments(id) && (e.shape(id) is Table || e.shape(id) is Arguments || e.shape(id) is Parameters)),
    ensures
        e.emitted(id) == text(e.text(id)),
{
}

/// A node that holds a comment of its own, other than a block or a list, is
/// written as it stands, so that no comment is lost.
pub proof fn law_commented_nodes_keep_their_source<'a>(e: Emitter<'a>, id: int)
    requires
        e.wf(),
        0 <= id < e.len(),
        !(e.shape(id) is Block || e.shape(id) is Table || e.shape(id) is Arguments || e.shape(id) is Parameters),
        e.own_comments(id),
    ensures
        e.emitted(id) == text(e.text(id)),
{
}



/// The emitted document of a node with no comment of its own, no held
/// region and no call chain is its layout by shape.
proof fn lemma_emitted_is_shaped<'a>(e: Emitter<'a>, id: int)
    requires
        e.wf(),
        0 <= id < e.len(),
        !e.own_comments(id),
        !e.held_over(e.start(id), e.end(id)),
        e.chain(id) is None,
        !(e.shape(id) is Literal || e.shape(id) is Number),
    ensures
        e.emitted(id) == e.shaped(id),
{
}

proof fn lemma_keeps_numeric_for<'a>(e: Emitter<'a>, id: int)
    requires
        e.wf(),
        0 <= id < e.len(),
        !e.own_comments(id),
        !e.held_over(e.start(id), e.end(id)),
        e.chain(id) is None,
        e.shape(id) is NumericFor,
    ensures
        match e.shape(id) {
            Shape::NumericFor { binding, start, end, step, .. } => (e.emitted(id) matches Doc::Sequence(p) && exists|a: int, b: int, c: int| 0 <= a < b < c < p.len() && #[trigger] p[a] == e.emitted(binding as int) && #[trigger] p[b] == e.emitted(start as int) && #[trigger] p[c] == e.emitted(end as int) && (step matches Some(st) ==> c + 2 < p.len() && p[c + 1] == text(", "@) && p[c + 2] == e.emitted(st as int))),
            _ => false,
        },
{
    lemma_emitted_is_shaped(e, id);
    assert(refers_forward(e.tree.nodes@[id], id, e.len()));
    match e.shape(id) {
        Shape::NumericFor { binding, start, end, step, .. } => {
            let p = e.shaped(id)->Sequence_0;
            assert(p[1] == e.emitted(binding as int));
            assert(p[3] == e.emitted(start as int));
            assert(p[5] == e.emitted(end as int));
            match step {
                Some(st) => {
                    assert(p[6] == text(", "@));
                    assert(p[7] == e.emitted(st as int));
                },
                None => {},
            }
        },
        _ => {},
    }
}

proof fn lemma_keeps_while<'a>(e: Emitter<'a>, id: int)
    requires
        e.wf(),
        0 <= id < e.len(),
        !e.own_comments(id),
        !e.held_over(e.start(id), e.end(id)),
        e.chain(id) is None,
        e.shape(id) is While,
    ensures
        match e.shape(id) {
            Shape::While { condition, .. } => (e.emitted(id) matches Doc::Sequence(p) && exists|a: int| 0 <= a < p.len() && #[trigger] p[a] == e.emitted(condition as int)),
            _ => false,
        },
{
    lemma_emitted_is_shaped(e, id);
    assert(refers_forward(e.tree.nodes@[id], id, e.len()));
    match e.shape(id) {
        Shape::While { condition, .. } => {
            let p = e.shaped(id)->Sequence_0;
            assert(p[1] == e.emitted(condition as int));
        },
        _ => {},
    }
}

proof fn lemma_keeps_repeat<'a>(e: Emitter<'a>, id: int)
    requires
        e.wf(),
        0 <= id < e.len(),
        !e.own_comments(id),
        !e.held_over(e.start(id), e.end(id)),
        e.chain(id) is None,
        e.shape(id) is Repeat,
    ensures
        match e.shape(id) {
            Shape::Repeat { condition, .. } => (e.emitted(id) matches Doc::Sequence(p) && exists|a: int| 0 <= a < p.len() && #[trigger] p[a] == e.emitted(condition as int)),
            _ => false,
        },
{
    lemma_emitted_is_shaped(e, id);
    assert(refers_forward(e.tree.nodes@[id], id, e.len()));
    match e.shape(id) {
        Shape::Repeat { condition, .. } => {
            let p = e.shaped(id)->Sequence_0;
            assert(p[4] == e.emitted(condition as int));
        },
        _ => {},
    }
}

proof fn lemma_keeps_branch<'a>(e: Emitter<'a>, id: int)
    requires
        e.wf(),
        0 <= id < e.len(),
        !e.own_comments(id),
        !e.held_over(e.start(id), e.end(id)),
        e.chain(id) is None,
        e.shape(id) is Branch,
    ensures
        match e.shape(id) {
            Shape::Branch { condition, .. } => (e.emitted(id) matches Doc::Sequence(p) && exists|a: int| 0 <= a < p.len() && #[trigger] p[a] == e.emitted(condition as int)),
            _ => false,
        },
{
    lemma_emitted_is_shaped(e, id);
    assert(refers_forward(e.tree.nodes@[id], id, e.len()));
    match e.shape(id) {
        Shape::Branch { condition, .. } => {
            let p = e.shaped(id)->Sequence_0;
            assert(p[1] == e.emitted(condition as int));
        },
        _ => {},
    }
}

proof fn lemma_keeps_call<'a>(e: Emitter<'a>, id: int)
    requires
        e.wf(),
        0 <= id < e.len(),
        !e.own_comments(id),
        !e.held_over(e.start(id), e.end(id)),
        e.chain(id) is None,
        e.shape(id) is Call,
    ensures
        match e.shape(id) {
            Shape::Call { callee, arguments } => (e.emitted(id) matches Doc::Sequence(p) && exists|a: int, b: int| 0 <= a < b < p.len() && #[trigger] p[a] == e.emitted(callee as int) && #[trigger] p[b] == e.emitted(arguments as int)),
            _ => false,
        },
{
    lemma_emitted_is_shaped(e, id);
    assert(refers_forward(e.tree.nodes@[id], id, e.len()));
    match e.shape(id) {
        Shape::Call { callee, arguments } => {
            let p = e.shaped(id)->Sequence_0;
            assert(p[0] == e.emitted(callee as int));
            assert(p[1] == e.emitted(arguments as int));
        },
        _ => {},
    }
}

proof fn lemma_keeps_method_call<'a>(e: Emitter<'a>, id: int)
    requires
        e.wf(),
        0 <= id < e.len(),
        !e.own_comments(id),
        !e.held_over(e.start(id), e.end(id)),
        e.chain(id) is None,
        e.shape(id) is MethodCall,
    ensures
        match e.shape(id) {
            Shape::MethodCall { receiver, method, arguments, .. } => (e.emitted(id) matches Doc::Sequence(p) && exists|a: int, b: int, c: int| 0 <= a < b < c < p.len() && #[trigger] p[a] == e.emitted(receiver as int) && #[trigger] p[b] == e.emitted(method as int) && #[trigger] p[c] == e.emitted(arguments as int)),
            _ => false,
        },
{
    lemma_emitted_is_shaped(e, id);
    assert(refers_forward(e.tree.nodes@[id], id, e.len()));
    match e.shape(id) {
        Shape::MethodCall { receiver, method, arguments, .. } => {
            let p = e.shaped(id)->Sequence_0;
            assert(p[0] == e.emitted(receiver as int));
            assert(p[2] == e.emitted(method as int));
            assert(p[6] == e.emitted(arguments as int));
        },
        _ => {},
    }
}

proof fn lemma_keeps_field<'a>(e: Emitter<'a>, id: int)
    requires
        e.wf(),
        0 <= id < e.len(),
        !e.own_comments(id),
        !e.held_over(e.start(id), e.end(id)),
        e.chain(id) is None,
        e.shape(id) is Field,
    ensures
        match e.shape(id) {
            Shape::Field { receiver, name } => (e.emitted(id) matches Doc::Sequence(p) && exists|a: int, b: int| 0 <= a < b < p.len() && #[trigger] p[a] == e.emitted(receiver as int) && #[trigger] p[b] == e.emitted(name as int)),
            _ => false,
        },
{
    lemma_emitted_is_shaped(e, id);
    assert(refers_forward(e.tree.nodes@[id], id, e.len()));
    match e.shape(id) {
        Shape::Field { receiver, name } => {
            let p = e.shaped(id)->Sequence_0;
            assert(p[0] == e.emitted(receiver as int));
            assert(p[2] == e.emitted(name as int));
        },
        _ => {},
    }
}

proof fn lemma_keeps_index<'a>(e: Emitter<'a>, id: int)
    requires
        e.wf(),
        0 <= id < e.len(),
        !e.own_comments(id),
        !e.held_over(e.start(id), e.end(id)),
        e.chain(id) is None,
        e.shape(id) is Index,
    ensures
        match e.shape(id) {
            Shape::Index { receiver, key } => (e.emitted(id) matches Doc::Sequence(p) && exists|a: int, b: int| 0 <= a < b < p.len() && #[trigger] p[a] == e.emitted(receiver as int) && #[trigger] p[b] == e.emitted(key as int)),
            _ => false,
        },
{
    lemma_emitted_is_shaped(e, id);
    assert(refers_forward(e.tree.nodes@[id], id, e.len()));
    match e.shape(id) {
        Shape::Index { receiver, key } => {
            let p = e.shaped(id)->Sequence_0;
            assert(p[0] == e.emitted(receiver as int));
            assert(p[2] == e.emitted(key as int));
        },
        _ => {},
    }
}

proof fn lemma_keeps_instantiate<'a>(e: Emitter<'a>, id: int)
    requires
        e.wf(),
        0 <= id < e.len(),
        !e.own_comments(id),
        !e.held_over(e.start(id), e.end(id)),
        e.chain(id) is None,
        e.shape(id) is Instantiate,
    ensures
        match e.shape(id) {
            Shape::Instantiate { expression, arguments } => (e.emitted(id) matches Doc::Sequence(p) && exists|a: int, b: int| 0 <= a < b < p.len() && #[trigger] p[a] == e.emitted(expression as int) && #[trigger] p[b] == e.emitted(arguments as int)),
            _ => false,
        },
{
    lemma_emitted_is_shaped(e, id);
    assert(refers_forward(e.tree.nodes@[id], id, e.len()));
    match e.shape(id) {
        Shape::Instantiate { expression, arguments } => {
            let p = e.shaped(id)->Sequence_0;
            assert(p[0] == e.emitted(expression as int));
            assert(p[2] == e.emitted(arguments as int));
        },
        _ => {},
    }
}

proof fn lemma_keeps_assertion<'a>(e: Emitter<'a>, id: int)
    requires
        e.wf(),
        0 <= id < e.len(),
        !e.own_comments(id),
        !e.held_over(e.start(id), e.end(id)),
        e.chain(id) is None,
        e.shape(id) is Assertion,
    ensures
        match e.shape(id) {
            Shape::Assertion { expression, annotation } => (e.emitted(id) matches Doc::Sequence(p) && exists|a: int, b: int| 0 <= a < b < p.len() && #[trigger] p[a] == e.emitted(expression as int) && #[trigger] p[b] == e.emitted(annotation as int)),
            _ => false,
        },
{
    lemma_emitted_is_shaped(e, id);
    assert(refers_forward(e.tree.nodes@[id], id, e.len()));
    match e.shape(id) {
        Shape::Assertion { expression, annotation } => {
            let p = e.shaped(id)->Sequence_0;
            assert(p[0] == e.emitted(expression as int));
            assert(p[2] == e.emitted(annotation as int));
        },
        _ => {},
    }
}

proof fn lemma_keeps_unary<'a>(e: Emitter<'a>, id: int)
    requires
        e.wf(),
        0 <= id < e.len(),
        !e.own_comments(id),
        !e.held_over(e.start(id), e.end(id)),
        e.chain(id) is None,
        e.shape(id) is Unary,
    ensures
        match e.shape(id) {
            Shape::Unary { operator, operand } => (e.emitted(id) matches Doc::Sequence(p) && exists|a: int, b: int| 0 <= a < b < p.len() && #[trigger] p[a] == e.emitted(operator as int) && #[trigger] p[b] == e.emitted(operand as int)),
            _ => false,
        },
{
    lemma_emitted_is_shaped(e, id);
    assert(refers_forward(e.tree.nodes@[id], id, e.len()));
    match e.shape(id) {
        Shape::Unary { operator, operand } => {
            let p = e.shaped(id)->Sequence_0;
            assert(p[0] == e.emitted(operator as int));
            assert(p[2] == e.emitted(operand as int));
        },
        _ => {},
    }
}

proof fn lemma_keeps_declaration<'a>(e: Emitter<'a>, id: int)
    requires
        e.wf(),
        0 <= id < e.len(),
        !e.own_comments(id),
        !e.held_over(e.start(id), e.end(id)),
        e.chain(id) is None,
        e.shape(id) is Declaration,
    ensures
        match e.shape(id) {
            Shape::Declaration { name, annotation } => (e.emitted(id) matches Doc::Sequence(p) && exists|a: int, b: int| 0 <= a < b < p.len() && #[trigger] p[a] == e.emitted(name as int) && #[trigger] p[b] == e.emitted(annotation as int)),
            _ => false,
        },
{
    lemma_emitted_is_shaped(e, id);
    assert(refers_forward(e.tree.nodes@[id], id, e.len()));
    match e.shape(id) {
        Shape::Declaration { name, annotation } => {
            let p = e.shaped(id)->Sequence_0;
            assert(p[1] == e.emitted(name as int));
            assert(p[3] == e.emitted(annotation as int));
        },
        _ => {},
    }
}

proof fn lemma_keeps_type_parameter<'a>(e: Emitter<'a>, id: int)
    requires
        e.wf(),
        0 <= id < e.len(),
        !e.own_comments(id),
        !e.held_over(e.start(id), e.end(id)),
        e.chain(id) is None,
        e.shape(id) is TypeParameter,
    ensures
        match e.shape(id) {
            Shape::TypeParameter { name, annotation } => (e.emitted(id) matches Doc::Sequence(p) && exists|a: int, b: int| 0 <= a < b < p.len() && #[trigger] p[a] == e.emitted(name as int) && #[trigger] p[b] == e.emitted(annotation as int)),
            _ => false,
        },
{
    lemma_emitted_is_shaped(e, id);
    assert(refers_forward(e.tree.nodes@[id], id, e.len()));
    match e.shape(id) {
        Shape::TypeParameter { name, annotation } => {
            let p = e.shaped(id)->Sequence_0;
            assert(p[0] == e.emitted(name as int));
            assert(p[2] == e.emitted(annotation as int));
        },
        _ => {},
    }
}

proof fn lemma_keeps_export<'a>(e: Emitter<'a>, id: int)
    requires
        e.wf(),
        0 <= id < e.len(),
        !e.own_comments(id),
        !e.held_over(e.start(id), e.end(id)),
        e.chain(id) is None,
        e.shape(id) is Export,
    ensures
        match e.shape(id) {
            Shape::Export { declaration, .. } => (e.emitted(id) matches Doc::Sequence(p) && exists|a: int| 0 <= a < p.len() && #[trigger] p[a] == e.emitted(declaration as int)),
            _ => false,
        },
{
    lemma_emitted_is_shaped(e, id);
    assert(refers_forward(e.tree.nodes@[id], id, e.len()));
    match e.shape(id) {
        Shape::Export { declaration, .. } => {
            let p = e.shaped(id)->Sequence_0;
            assert(p[2] == e.emitted(declaration as int));
        },
        _ => {},
    }
}

proof fn lemma_keeps_extends<'a>(e: Emitter<'a>, id: int)
    requires
        e.wf(),
        0 <= id < e.len(),
        !e.own_comments(id),
        !e.held_over(e.start(id), e.end(id)),
        e.chain(id) is None,
        e.shape(id) is Extends,
    ensures
        match e.shape(id) {
            Shape::Extends { superclass } => (e.emitted(id) matches Doc::Sequence(p) && exists|a: int| 0 <= a < p.len() && #[trigger] p[a] == e.emitted(superclass as int)),
            _ => false,
        },
{
    lemma_emitted_is_shaped(e, id);
    assert(refers_forward(e.tree.nodes@[id], id, e.len()));
    match e.shape(id) {
        Shape::Extends { superclass } => {
            let p = e.shaped(id)->Sequence_0;
            assert(p[1] == e.emitted(superclass as int));
        },
        _ => {},
    }
}

proof fn lemma_keeps_class_declaration<'a>(e: Emitter<'a>, id: int)
    requires
        e.wf(),
        0 <= id < e.len(),
        !e.own_comments(id),
        !e.held_over(e.start(id), e.end(id)),
        e.chain(id) is None,
        e.shape(id) is ClassDeclaration,
    ensures
        match e.shape(id) {
            Shape::ClassDeclaration { class } => (e.emitted(id) matches Doc::Sequence(p) && exists|a: int| 0 <= a < p.len() && #[trigger] p[a] == e.emitted(class as int)),
            _ => false,
        },
{
    lemma_emitted_is_shaped(e, id);
    assert(refers_forward(e.tree.nodes@[id], id, e.len()));
    match e.shape(id) {
        Shape::ClassDeclaration { class } => {
            let p = e.shaped(id)->Sequence_0;
            assert(p[1] == e.emitted(class as int));
        },
        _ => {},
    }
}

proof fn lemma_keeps_type_optional<'a>(e: Emitter<'a>, id: int)
    requires
        e.wf(),
        0 <= id < e.len(),
        !e.own_comments(id),
        !e.held_over(e.start(id), e.end(id)),
        e.chain(id) is None,
        e.shape(id) is TypeOptional,
    ensures
        match e.shape(id) {
            Shape::TypeOptional { annotation } => (e.emitted(id) matches Doc::Sequence(p) && exists|a: int| 0 <= a < p.len() && #[trigger] p[a] == e.emitted(annotation as int)),
            _ => false,
        },
{
    lemma_emitted_is_shaped(e, id);
    assert(refers_forward(e.tree.nodes@[id], id, e.len()));
    match e.shape(id) {
        Shape::TypeOptional { annotation } => {
            let p = e.shaped(id)->Sequence_0;
            assert(p[0] == e.emitted(annotation as int));
        },
        _ => {},
    }
}

proof fn lemma_keeps_variadic_type<'a>(e: Emitter<'a>, id: int)
    requires
        e.wf(),
        0 <= id < e.len(),
        !e.own_comments(id),
        !e.held_over(e.start(id), e.end(id)),
        e.chain(id) is None,
        e.shape(id) is VariadicType,
    ensures
        match e.shape(id) {
            Shape::VariadicType { annotation } => (e.emitted(id) matches Doc::Sequence(p) && exists|a: int| 0 <= a < p.len() && #[trigger] p[a] == e.emitted(annotation as int)),
            _ => false,
        },
{
    lemma_emitted_is_shaped(e, id);
    assert(refers_forward(e.tree.nodes@[id], id, e.len()));
    match e.shape(id) {
        Shape::VariadicType { annotation } => {
            let p = e.shaped(id)->Sequence_0;
            assert(p[1] == e.emitted(annotation as int));
        },
        _ => {},
    }
}

proof fn lemma_keeps_type_group<'a>(e: Emitter<'a>, id: int)
    requires
        e.wf(),
        0 <= id < e.len(),
        !e.own_comments(id),
        !e.held_over(e.start(id), e.end(id)),
        e.chain(id) is None,
        e.shape(id) is TypeGroup,
    ensures
        match e.shape(id) {
            Shape::TypeGroup { annotation } => (e.emitted(id) matches Doc::Sequence(p) && exists|a: int| 0 <= a < p.len() && #[trigger] p[a] == e.emitted(annotation as int)),
            _ => false,
        },
{
    lemma_emitted_is_shaped(e, id);
    assert(refers_forward(e.tree.nodes@[id], id, e.len()));
    match e.shape(id) {
        Shape::TypeGroup { annotation } => {
            let p = e.shaped(id)->Sequence_0;
            assert(p[1] == e.emitted(annotation as int));
        },
        _ => {},
    }
}

/// A node keeps each of its expressions, in source order: the emitted
/// document of a numeric `for`, a loop or branch, a call, a field or index,
/// an operator, a declaration or an annotation holds the emitted document of
/// each of its parts one after another, and a numeric `for` with a step
/// holds `, ` and the step right after its end bound.
pub proof fn law_nodes_keep_their_expressions<'a>(e: Emitter<'a>, id: int)
    requires
        e.wf(),
        0 <= id < e.len(),
        !e.own_comments(id),
        !e.held_over(e.start(id), e.end(id)),
        e.chain(id) is None,
    ensures
        match e.shape(id) {
            Shape::NumericFor { binding, start, end, step, .. } => (e.emitted(id) matches Doc::Sequence(p) && exists|a: int, b: int, c: int| 0 <= a < b < c < p.len() && #[trigger] p[a] == e.emitted(binding as int) && #[trigger] p[b] == e.emitted(start as int) && #[trigger] p[c] == e.emitted(end as int) && (step matches Some(st) ==> c + 2 < p.len() && p[c + 1] == text(", "@) && p[c + 2] == e.emitted(st as int))),
            Shape::While { condition, .. } => (e.emitted(id) matches Doc::Sequence(p) && exists|a: int| 0 <= a < p.len() && #[trigger] p[a] == e.emitted(condition as int)),
            Shape::Repeat { condition, .. } => (e.emitted(id) matches Doc::Sequence(p) && exists|a: int| 0 <= a < p.len() && #[trigger] p[a] == e.emitted(condition as int)),
            Shape::Branch { condition, .. } => (e.emitted(id) matches Doc::Sequence(p) && exists|a: int| 0 <= a < p.len() && #[trigger] p[a] == e.emitted(condition as int)),
            Shape::Call { callee, arguments } => (e.emitted(id) matches Doc::Sequence(p) && exists|a: int, b: int| 0 <= a < b < p.len() && #[trigger] p[a] == e.emitted(callee as int) && #[trigger] p[b] == e.emitted(arguments as int)),
            Shape::MethodCall { receiver, method, arguments, .. } => (e.emitted(id) matches Doc::Sequence(p) && exists|a: int, b: int, c: int| 0 <= a < b < c < p.len() && #[trigger] p[a] == e.emitted(receiver as int) && #[trigger] p[b] == e.emitted(method as int) && #[trigger] p[c] == e.emitted(arguments as int)),
            Shape::Field { receiver, name } => (e.emitted(id) matches Doc::Sequence(p) && exists|a: int, b: int| 0 <= a < b < p.len() && #[trigger] p[a] == e.emitted(receiver as int) && #[trigger] p[b] == e.emitted(name as int)),
            Shape::Index { receiver, key } => (e.emitted(id) matches Doc::Sequence(p) && exists|a: int, b: int| 0 <= a < b < p.len() && #[trigger] p[a] == e.emitted(receiver as int) && #[trigger] p[b] == e.emitted(key as int)),
            Shape::Instantiate { expression, arguments } => (e.emitted(id) matches Doc::Sequence(p) && exists|a: int, b: int| 0 <= a < b < p.len() && #[trigger] p[a] == e.emitted(expression as int) && #[trigger] p[b] == e.emitted(arguments as int)),
            Shape::Assertion { expression, annotation } => (e.emitted(id) matches Doc::Sequence(p) && exists|a: int, b: int| 0 <= a < b < p.len() && #[trigger] p[a] == e.emitted(expression as int) && #[trigger] p[b] == e.emitted(annotation as int)),
            Shape::Unary { operator, operand } => (e.emitted(id) matches Doc::Sequence(p) && exists|a: int, b: int| 0 <= a < b < p.len() && #[trigger] p[a] == e.emitted(operator as int) && #[trigger] p[b] == e.emitted(operand as int)),
            Shape::Declaration { name, annotation } => (e.emitted(id) matches Doc::Sequence(p) && exists|a: int, b: int| 0 <= a < b < p.len() && #[trigger] p[a] == e.emitted(name as int) && #[trigger] p[b] == e.emitted(annotation as int)),
            Shape::TypeParameter { name, annotation } => (e.emitted(id) matches Doc::Sequence(p) && exists|a: int, b: int| 0 <= a < b < p.len() && #[trigger] p[a] == e.emitted(name as int) && #[trigger] p[b] == e.emitted(annotation as int)),
            Shape::Export { declaration, .. } => (e.emitted(id) matches Doc::Sequence(p) && exists|a: int| 0 <= a < p.len() && #[trigger] p[a] == e.emitted(declaration as int)),
            Shape::Extends { superclass } => (e.emitted(id) matches Doc::Sequence(p) && exists|a: int| 0 <= a < p.len() && #[trigger] p[a] == e.emitted(superclass as int)),
            Shape::ClassDeclaration { class } => (e.emitted(id) matches Doc::Sequence(p) && exists|a: int| 0 <= a < p.len() && #[trigger] p[a] == e.emitted(class as int)),
            Shape::TypeOptional { annotation } => (e.emitted(id) matches Doc::Sequence(p) && exists|a: int| 0 <= a < p.len() && #[trigger] p[a] == e.emitted(annotation as int)),
            Shape::VariadicType { annotation } => (e.emitted(id) matches Doc::Sequence(p) && exists|a: int| 0 <= a < p.len() && #[trigger] p[a] == e.emitted(annotation as int)),
            Shape::TypeGroup { annotation } => (e.emitted(id) matches Doc::Sequence(p) && exists|a: int| 0 <= a < p.len() && #[trigger] p[a] == e.emitted(annotation as int)),
            _ => true,
        },
{
    match e.shape(id) {
        Shape::NumericFor { .. } => lemma_keeps_numeric_for(e, id),
        Shape::While { .. } => lemma_keeps_while(e, id),
        Shape::Repeat { .. } => lemma_keeps_repeat(e, id),
        Shape::Branch { .. } => lemma_keeps_branch(e, id),
        Shape::Call { .. } => lemma_keeps_call(e, id),
        Shape::MethodCall { .. } => lemma_keeps_method_call(e, id),
        Shape::Field { .. } => lemma_keeps_field(e, id),
        Shape::Index { .. } => lemma_keeps_index(e, id),
        Shape::Instantiate { .. } => lemma_keeps_instantiate(e, id),
        Shape::Assertion { .. } => lemma_keeps_assertion(e, id),
        Shape::Unary { .. } => lemma_keeps_unary(e, id),
        Shape::Declaration { .. } => lemma_keeps_declaration(e, id),
        Shape::TypeParameter { .. } => lemma_keeps_type_parameter(e, id),
        Shape::Export { .. } => lemma_keeps_export(e, id),
        Shape::Extends { .. } => lemma_keeps_extends(e, id),
        Shape::ClassDeclaration { .. } => lemma_keeps_class_declaration(e, id),
        Shape::TypeOptional { .. } => lemma_keeps_type_optional(e, id),
        Shape::VariadicType { .. } => lemma_keeps_variadic_type(e, id),
        Shape::TypeGroup { .. } => lemma_keeps_type_group(e, id),
        _ => {},
    }
}

} // verus!
