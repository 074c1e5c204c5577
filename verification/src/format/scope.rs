//! Scope resolution for the formatter's binding rewrites: which declaration
//! each name refers to, and how often each local is read, written and
//! mutated.

use vstd::prelude::*;
use crate::text::{chars_of, same, string_of};

verus! {

/// The parts of a Luau syntax node. Every position is that of another node
/// of the same tree; a node's other children are in its `children`.
pub enum Shape {
    /// The whole chunk: its block.
    Root { block: usize },
    /// A block: a scope of its own around its statements, its children.
    Block,
    /// A local declaration; `constant` when it is written with `const`.
    Local { constant: bool, bindings: Vec<usize>, values: Vec<usize> },
    /// An assignment; `compound` for `+=` and the like, whose operator is
    /// the node `operator`.
    Assignment { compound: bool, targets: Vec<usize>, operator: usize, values: Vec<usize> },
    /// A call standing as a statement.
    CallStatement { call: usize },
    /// A function declaration or expression: `statement` for a declaration
    /// statement, `local` for `local function`, `method` for a method of a
    /// class declaration, `typed` for `type function`, `declared` for
    /// `declare function`; `parameters` and `body` are nodes whose children
    /// are the parameters and the statements.
    Function {
        statement: bool,
        local: bool,
        method: bool,
        typed: bool,
        declared: bool,
        attributes: Option<usize>,
        name: Option<usize>,
        generics: Option<usize>,
        parameters: usize,
        result_type: Option<usize>,
        body: Option<usize>,
    },
    /// The parameter list of a function; the parameters are its children.
    Parameters,
    /// The argument list of a call; the arguments are its children.
    Arguments,
    /// The return type of a function.
    Returns { annotation: usize },
    /// The name of a declared function: `a.b.c` or `a.b:c`.
    FunctionName { path: Vec<usize>, method: Option<usize> },
    /// An `if` statement: its `if` and `elseif` branches, and its `else` body.
    If { branches: Vec<usize>, otherwise: Option<usize> },
    /// A condition and its body.
    Branch { condition: usize, body: usize },
    /// A `do` block, or the `else` part of an `if` (`otherwise`).
    Body { body: usize, otherwise: bool },
    While { condition: usize, body: usize },
    NumericFor { binding: usize, start: usize, end: usize, step: Option<usize>, body: usize },
    GenericFor { bindings: Vec<usize>, values: Vec<usize>, body: usize },
    Repeat { body: usize, condition: usize },
    Return { values: Vec<usize> },
    Export { attributes: Option<usize>, declaration: usize },
    TypeAlias { name: usize, generics: Option<usize>, annotation: usize },
    Declaration { name: usize, annotation: usize },
    ClassDeclaration { class: usize },
    /// A class: `type ... with` (`typed`), `open class` (`open`) or `class`.
    Class { typed: bool, open: bool, name: usize, extends: Option<usize>, members: Vec<usize> },
    Property { binding: usize },
    Extends { superclass: usize },
    /// Generic parameters; the parameters are its children.
    Generics,
    /// A generic parameter; `pack` for `T...`.
    Generic { name: usize, pack: bool, default: Option<usize> },
    Variadic { annotation: Option<usize> },
    Unary { operator: usize, operand: usize },
    Binary { left: usize, operator: usize, right: usize },
    Group { expression: usize },
    TypeOf { expression: usize },
    /// A call; the children of `arguments` are the arguments.
    Call { callee: usize, arguments: usize },
    MethodCall { receiver: usize, method: usize, types: Option<usize>, arguments: usize },
    Field { receiver: usize, name: usize },
    Index { receiver: usize, key: usize },
    Instantiate { expression: usize, arguments: usize },
    Assertion { expression: usize, annotation: usize },
    /// `if c then a else b` as an expression; `falsy` may be an `elseif`.
    Conditional { condition: usize, truthy: usize, falsy: usize },
    /// An interpolated string; its segments are its children.
    Interpolation,
    /// A table constructor; its fields are its children.
    Table,
    TableField { key: Option<usize>, value: usize, indexed: bool },
    TypeName { namespace: Option<usize>, name: usize, arguments: Option<usize> },
    /// A table type; its fields are its children unless it is an array type
    /// of `element`.
    TypeTable { access: Option<usize>, element: Option<usize> },
    /// A field of a table type; `indexer` for `[key]: value`.
    TypeField { indexer: bool, access: Option<usize>, key: usize, annotation: usize },
    TypeFunction { attributes: Option<usize>, generics: Option<usize>, parameters: usize, result_type: usize },
    TypeGroup { annotation: usize },
    /// A type pack; its types are its children.
    TypePack,
    VariadicType { annotation: usize },
    TypeParameter { name: usize, annotation: usize },
    /// Type arguments; the types are its children.
    TypeArguments,
    /// A union type; its members are its children.
    TypeUnion,
    /// An intersection type; its members are its children.
    TypeIntersection,
    TypeOptional { annotation: usize },
    Binding { name: usize, annotation: Option<usize> },
    /// A name.
    Name,
    /// A string literal.
    Literal,
    /// A number literal.
    Number,
    /// `break` or `continue`.
    Jump,
    /// Attributes such as `@native`.
    Attributes,
    /// Any other token of text: keywords, operators, `nil`, booleans, `...`.
    Other,
}

/// The kind of a token of the source.
#[derive(Debug, Clone, Copy, PartialEq, Eq, Structural)]
pub enum TokenKind {
    Whitespace,
    Comment,
    Other,
}

/// A token of the source: where it starts and ends, and its kind.
#[derive(Debug, Clone, Copy, PartialEq, Eq, Structural)]
pub struct Token {
    pub start: usize,
    pub end: usize,
    pub kind: TokenKind,
}

/// A syntax node: where it starts and ends, its text, its children in order and its
/// parts.
pub struct Node {
    pub start: usize,
    pub end: usize,
    pub text: String,
    pub children: Vec<usize>,
    pub shape: Shape,
}

/// A syntax tree and the tokens of its source: the root is node 0, and
/// every node refers only to nodes after it.
pub struct Tree {
    pub nodes: Vec<Node>,
    pub tokens: Vec<Token>,
}

/// `j` is a node after `i`.
pub open spec fn later(i: int, j: usize, n: int) -> bool {
    i < j && j < n
}

pub open spec fn all_later(i: int, ids: Seq<usize>, n: int) -> bool {
    forall|k: int| 0 <= k < ids.len() ==> #[trigger] later(i, ids[k], n)
}

pub open spec fn maybe_later(i: int, o: Option<usize>, n: int) -> bool {
    match o {
        Some(j) => later(i, j, n),
        None => true,
    }
}

/// Every node that node `i` refers to comes after it.
pub open spec fn refers_forward(node: Node, i: int, n: int) -> bool {
    &&& all_later(i, node.children@, n)
    &&& match node.shape {
        Shape::Root { block } => later(i, block, n),
        Shape::Local { bindings, values, .. } => all_later(i, bindings@, n) && all_later(i, values@, n),
        Shape::Assignment { targets, operator, values, .. } => all_later(i, targets@, n) && later(i, operator, n)
            && all_later(i, values@, n),
        Shape::CallStatement { call } => later(i, call, n),
        Shape::Function { attributes, name, generics, parameters, result_type, body, .. } => maybe_later(
            i,
            attributes,
            n,
        ) && maybe_later(i, name, n) && maybe_later(i, generics, n) && later(i, parameters, n) && maybe_later(
            i,
            result_type,
            n,
        ) && maybe_later(i, body, n),
        Shape::Returns { annotation } => later(i, annotation, n),
        Shape::FunctionName { path, method } => all_later(i, path@, n) && maybe_later(i, method, n),
        Shape::If { branches, otherwise } => all_later(i, branches@, n) && maybe_later(i, otherwise, n),
        Shape::Branch { condition, body } => later(i, condition, n) && later(i, body, n),
        Shape::Body { body, .. } => later(i, body, n),
        Shape::While { condition, body } => later(i, condition, n) && later(i, body, n),
        Shape::NumericFor { binding, start, end, step, body } => later(i, binding, n) && later(i, start, n)
            && later(i, end, n) && maybe_later(i, step, n) && later(i, body, n),
        Shape::GenericFor { bindings, values, body } => all_later(i, bindings@, n) && all_later(i, values@, n)
            && later(i, body, n),
        Shape::Repeat { body, condition } => later(i, body, n) && later(i, condition, n),
        Shape::Return { values } => all_later(i, values@, n),
        Shape::Export { attributes, declaration } => maybe_later(i, attributes, n) && later(i, declaration, n),
        Shape::TypeAlias { name, generics, annotation } => later(i, name, n) && maybe_later(i, generics, n)
            && later(i, annotation, n),
        Shape::Declaration { name, annotation } => later(i, name, n) && later(i, annotation, n),
        Shape::ClassDeclaration { class } => later(i, class, n),
        Shape::Class { name, extends, members, .. } => later(i, name, n) && maybe_later(i, extends, n) && all_later(
            i,
            members@,
            n,
        ),
        Shape::Property { binding } => later(i, binding, n),
        Shape::Extends { superclass } => later(i, superclass, n),
        Shape::Generic { name, default, .. } => later(i, name, n) && maybe_later(i, default, n),
        Shape::Variadic { annotation } => maybe_later(i, annotation, n),
        Shape::Unary { operator, operand } => later(i, operator, n) && later(i, operand, n),
        Shape::Binary { left, operator, right } => later(i, left, n) && later(i, operator, n) && later(i, right, n),
        Shape::Group { expression } => later(i, expression, n),
        Shape::TypeOf { expression } => later(i, expression, n),
        Shape::Call { callee, arguments } => later(i, callee, n) && later(i, arguments, n),
        Shape::MethodCall { receiver, method, types, arguments } => later(i, receiver, n) && later(i, method, n)
            && maybe_later(i, types, n) && later(i, arguments, n),
        Shape::Field { receiver, name } => later(i, receiver, n) && later(i, name, n),
        Shape::Index { receiver, key } => later(i, receiver, n) && later(i, key, n),
        Shape::Instantiate { expression, arguments } => later(i, expression, n) && later(i, arguments, n),
        Shape::Assertion { expression, annotation } => later(i, expression, n) && later(i, annotation, n),
        Shape::Conditional { condition, truthy, falsy, .. } => later(i, condition, n) && later(i, truthy, n)
            && later(i, falsy, n),
        Shape::TableField { key, value, .. } => maybe_later(i, key, n) && later(i, value, n),
        Shape::TypeName { namespace, name, arguments } => maybe_later(i, namespace, n) && later(i, name, n)
            && maybe_later(i, arguments, n),
        Shape::TypeTable { access, element } => maybe_later(i, access, n) && maybe_later(i, element, n),
        Shape::TypeField { access, key, annotation, .. } => maybe_later(i, access, n) && later(i, key, n) && later(
            i,
            annotation,
            n,
        ),
        Shape::TypeFunction { attributes, generics, parameters, result_type } => maybe_later(i, attributes, n)
            && maybe_later(i, generics, n) && later(i, parameters, n) && later(i, result_type, n),
        Shape::TypeGroup { annotation } => later(i, annotation, n),
        Shape::VariadicType { annotation } => later(i, annotation, n),
        Shape::TypeParameter { name, annotation } => later(i, name, n) && later(i, annotation, n),
        Shape::TypeOptional { annotation } => later(i, annotation, n),
        Shape::Binding { name, annotation } => later(i, name, n) && maybe_later(i, annotation, n),
        _ => true,
    }
}

impl Tree {
    /// Every node refers only to nodes after it.
    pub open spec fn wf(&self) -> bool {
        forall|i: int| 0 <= i < self.nodes@.len() ==> #[trigger] refers_forward(self.nodes@[i], i, self.nodes@.len() as int)
    }

    pub open spec fn len(&self) -> int {
        self.nodes@.len() as int
    }
}

/// How often a local is read and written, and whether a table it holds is
/// changed in place.
#[derive(Debug, Clone, Copy, PartialEq, Eq, Structural)]
pub struct Usage {
    pub reads: usize,
    pub writes: usize,
    pub mutated: bool,
}

/// The resolution so far: the usage of each local, by the position of its
/// name; how often each global is assigned; the names in scope, innermost
/// last.
pub struct Names {
    pub bindings: Vec<(usize, Usage)>,
    pub globals: Vec<(String, usize)>,
    pub scopes: Vec<Vec<(String, usize)>>,
}

/// Names as plain values.
pub struct NamesView {
    pub bindings: Seq<(usize, Usage)>,
    pub globals: Seq<(Seq<char>, usize)>,
    pub scopes: Seq<Seq<(Seq<char>, usize)>>,
}

pub open spec fn pairs(m: Seq<(String, usize)>) -> Seq<(Seq<char>, usize)> {
    m.map_values(|e: (String, usize)| (e.0@, e.1))
}

impl View for Names {
    type V = NamesView;

    open spec fn view(&self) -> NamesView {
        NamesView {
            bindings: self.bindings@,
            globals: pairs(self.globals@),
            scopes: self.scopes@.map_values(|s: Vec<(String, usize)>| pairs(s@)),
        }
    }
}

/// Position `i` holds the first entry under `k`.
pub open spec fn first_at<K, V>(m: Seq<(K, V)>, k: K, i: int) -> bool {
    0 <= i < m.len() && m[i].0 == k && forall|j: int| 0 <= j < i ==> m[j].0 != k
}

/// The position of the first entry under `k`.
pub open spec fn key_index<K, V>(m: Seq<(K, V)>, k: K) -> Option<int> {
    if exists|i: int| first_at(m, k, i) {
        Some(choose|i: int| first_at(m, k, i))
    } else {
        None
    }
}

/// `m` with the value under `k` set to `v`: in place, or as a new last entry.
pub open spec fn put<K, V>(m: Seq<(K, V)>, k: K, v: V) -> Seq<(K, V)> {
    match key_index(m, k) {
        Some(i) => m.update(i, (k, v)),
        None => m.push((k, v)),
    }
}

/// The declaration that `name` refers to in `scopes`, innermost first.
pub open spec fn lookup(scopes: Seq<Seq<(Seq<char>, usize)>>, name: Seq<char>) -> Option<usize>
    decreases scopes.len(),
{
    if scopes.len() == 0 {
        None
    } else {
        match key_index(scopes.last(), name) {
            Some(i) => Some(scopes.last()[i].1),
            None => lookup(scopes.drop_last(), name),
        }
    }
}

pub open spec fn bumped(n: usize) -> usize {
    if n < usize::MAX { (n + 1) as usize } else { n }
}

/// A new scope, innermost.
pub open spec fn opened(v: NamesView) -> NamesView {
    NamesView { scopes: v.scopes.push(seq![]), ..v }
}

/// The innermost scope closed.
pub open spec fn closed(v: NamesView) -> NamesView {
    if v.scopes.len() > 0 {
        NamesView { scopes: v.scopes.drop_last(), ..v }
    } else {
        v
    }
}

/// A local declared at `start` under `name`, unused so far.
pub open spec fn declared(v: NamesView, start: usize, name: Seq<char>) -> NamesView {
    let bindings = put(v.bindings, start, Usage { reads: 0, writes: 0, mutated: false });
    if v.scopes.len() > 0 {
        NamesView {
            bindings,
            scopes: v.scopes.update(v.scopes.len() - 1, put(v.scopes.last(), name, start)),
            ..v
        }
    } else {
        NamesView { bindings, ..v }
    }
}

/// The usage of the local that `name` refers to, if it refers to one.
pub open spec fn resolved(v: NamesView, name: Seq<char>) -> Option<(int, Usage)> {
    match lookup(v.scopes, name) {
        Some(d) => match key_index(v.bindings, d) {
            Some(j) => Some((j, v.bindings[j].1)),
            None => None,
        },
        None => None,
    }
}

/// A read of `name`.
pub open spec fn read(v: NamesView, name: Seq<char>) -> NamesView {
    match resolved(v, name) {
        Some((j, u)) => NamesView {
            bindings: v.bindings.update(j, (v.bindings[j].0, Usage { reads: bumped(u.reads), ..u })),
            ..v
        },
        None => v,
    }
}

/// A write of `name`: to its local, or else to the global of that name.
pub open spec fn written(v: NamesView, name: Seq<char>) -> NamesView {
    match resolved(v, name) {
        Some((j, u)) => NamesView {
            bindings: v.bindings.update(j, (v.bindings[j].0, Usage { writes: bumped(u.writes), ..u })),
            ..v
        },
        None => {
            let count = match key_index(v.globals, name) {
                Some(g) => v.globals[g].1,
                None => 0,
            };
            NamesView { globals: put(v.globals, name, bumped(count)), ..v }
        },
    }
}

/// The node that `id` changes in place: past fields and indexes to what they
/// belong to.
pub open spec fn base(tree: Tree, id: int) -> int
    decreases tree.len() - id,
    when tree.wf() && 0 <= id < tree.len()
{
    proof {
        assert(refers_forward(tree.nodes@[id], id, tree.len()));
    }
    match tree.nodes@[id].shape {
        Shape::Field { receiver, .. } => base(tree, receiver as int),
        Shape::Index { receiver, .. } => base(tree, receiver as int),
        _ => id,
    }
}

/// A change in place of the table at node `id`.
pub open spec fn mutated(tree: Tree, v: NamesView, id: int) -> NamesView {
    let b = base(tree, id);
    if tree.nodes@[b].shape is Name {
        match resolved(v, tree.nodes@[b].text@) {
            Some((j, u)) => NamesView {
                bindings: v.bindings.update(j, (v.bindings[j].0, Usage { mutated: true, ..u })),
                ..v
            },
            None => v,
        }
    } else {
        v
    }
}


/// The children of node `id`.
pub open spec fn kids(tree: Tree, id: int) -> Seq<usize> {
    tree.nodes@[id].children@
}

pub open spec fn text_of(tree: Tree, id: int) -> Seq<char> {
    tree.nodes@[id].text@
}

/// The annotation of a parameter or binding.
pub open spec fn annotation_of(tree: Tree, id: int) -> Option<usize> {
    match tree.nodes@[id].shape {
        Shape::Binding { annotation, .. } => annotation,
        Shape::Variadic { annotation } => annotation,
        _ => None,
    }
}

/// A call of `table.insert`, `table.remove`, `table.sort`, `table.clear` or
/// `table.move`, which change their first argument in place.
pub open spec fn changes_table(tree: Tree, callee: int) -> bool {
    match tree.nodes@[callee].shape {
        Shape::Field { receiver, name } => text_of(tree, receiver as int) == "table"@ && {
            let n = text_of(tree, name as int);
            n == "insert"@ || n == "remove"@ || n == "sort"@ || n == "clear"@ || n == "move"@
        },
        _ => false,
    }
}

/// The bindings of `bs` declared, in order.
pub open spec fn declare_all(tree: Tree, bs: Seq<usize>, v: NamesView) -> NamesView
    decreases bs.len(),
{
    if bs.len() == 0 {
        v
    } else {
        let next = match tree.nodes@[bs[0] as int].shape {
            Shape::Binding { name, .. } => declared(v, tree.nodes@[name as int].start, text_of(tree, name as int)),
            _ => v,
        };
        declare_all(tree, bs.drop_first(), next)
    }
}

/// The resolution after node `id` is visited.
pub open spec fn visit(tree: Tree, id: int, v: NamesView) -> NamesView
    decreases tree.len() - id + 1, 1int,
    when tree.wf() && 0 <= id < tree.len()
{
    proof {
        assert(refers_forward(tree.nodes@[id], id, tree.len()));
    }
    let node = tree.nodes@[id];
    match node.shape {
        Shape::Block => closed(visit_list(tree, id, node.children@, opened(v))),
        Shape::Local { bindings, values, .. } => declare_all(
            tree,
            bindings@,
            annotations(tree, id, bindings@, visit_list(tree, id, values@, v)),
        ),
        Shape::Assignment { compound, targets, values, .. } => assign(
            tree,
            id,
            targets@,
            compound,
            visit_list(tree, id, values@, v),
        ),
        Shape::Function { .. } => function(tree, id, v),
        Shape::NumericFor { binding, start, end, step, body } => {
            let v1 = visit(tree, end as int, visit(tree, start as int, v));
            let v2 = match step {
                Some(s) => visit(tree, s as int, v1),
                None => v1,
            };
            let v3 = opened(annotations(tree, id, seq![binding], v2));
            closed(visit_list(tree, body as int, kids(tree, body as int), declare_all(tree, seq![binding], v3)))
        },
        Shape::GenericFor { bindings, values, body } => {
            let v1 = opened(annotations(tree, id, bindings@, visit_list(tree, id, values@, v)));
            closed(visit_list(tree, body as int, kids(tree, body as int), declare_all(tree, bindings@, v1)))
        },
        Shape::Repeat { body, condition } => closed(
            visit(tree, condition as int, visit_list(tree, body as int, kids(tree, body as int), opened(v))),
        ),
        Shape::Call { callee, arguments } => {
            let first = kids(tree, arguments as int);
            let v1 = if changes_table(tree, callee as int) && first.len() > 0 {
                mutated(tree, v, first[0] as int)
            } else {
                v
            };
            visit(tree, arguments as int, visit(tree, callee as int, v1))
        },
        Shape::MethodCall { receiver, types, arguments, .. } => {
            let v1 = visit(tree, receiver as int, v);
            let v2 = match types {
                Some(t) => visit(tree, t as int, v1),
                None => v1,
            };
            visit(tree, arguments as int, v2)
        },
        Shape::Field { receiver, .. } => visit(tree, receiver as int, v),
        Shape::TableField { key, value, indexed } => {
            let v1 = match key {
                Some(k) => if indexed { visit(tree, k as int, v) } else { v },
                None => v,
            };
            visit(tree, value as int, v1)
        },
        Shape::TypeName { namespace, arguments, .. } => {
            let v1 = match namespace {
                Some(n) => read(v, text_of(tree, n as int)),
                None => v,
            };
            match arguments {
                Some(a) => visit(tree, a as int, v1),
                None => v1,
            }
        },
        Shape::TypeField { indexer, key, annotation, .. } => {
            let v1 = if indexer { visit(tree, key as int, v) } else { v };
            visit(tree, annotation as int, v1)
        },
        Shape::TypeAlias { generics, annotation, .. } => visit(tree, annotation as int, defaults(tree, id, generics, v)),
        Shape::TypeParameter { annotation, .. } => visit(tree, annotation as int, v),
        Shape::Name => read(v, node.text@),
        _ => visit_list(tree, id, node.children@, v),
    }
}

/// The resolution after the nodes `ids`, all after `parent`, are visited in order.
pub open spec fn visit_list(tree: Tree, parent: int, ids: Seq<usize>, v: NamesView) -> NamesView
    decreases tree.len() - parent, ids.len() + 2,
    when tree.wf() && 0 <= parent && all_later(parent, ids, tree.len())
{
    if ids.len() == 0 {
        v
    } else {
        proof {
            assert(later(parent, ids[0], tree.len()));
            assert(all_later(parent, ids.drop_first(), tree.len())) by {
                assert forall|k: int| 0 <= k < ids.drop_first().len() implies #[trigger] later(parent, ids.drop_first()[k], tree.len()) by {
                    assert(later(parent, ids[k + 1], tree.len()));
                }
            }
        }
        visit_list(tree, parent, ids.drop_first(), visit(tree, ids[0] as int, v))
    }
}

/// The annotations of the bindings `bs`, all after `parent`, visited in order.
pub open spec fn annotations(tree: Tree, parent: int, bs: Seq<usize>, v: NamesView) -> NamesView
    decreases tree.len() - parent, bs.len() + 2,
    when tree.wf() && 0 <= parent && all_later(parent, bs, tree.len())
{
    if bs.len() == 0 {
        v
    } else {
        proof {
            assert(later(parent, bs[0], tree.len()));
            assert(refers_forward(tree.nodes@[bs[0] as int], bs[0] as int, tree.len()));
            assert(all_later(parent, bs.drop_first(), tree.len())) by {
                assert forall|k: int| 0 <= k < bs.drop_first().len() implies #[trigger] later(parent, bs.drop_first()[k], tree.len()) by {
                    assert(later(parent, bs[k + 1], tree.len()));
                }
            }
        }
        let next = match annotation_of(tree, bs[0] as int) {
            Some(a) => visit(tree, a as int, v),
            None => v,
        };
        annotations(tree, parent, bs.drop_first(), next)
    }
}

/// The defaults of the generic parameters of `generics` visited in order.
pub open spec fn defaults(tree: Tree, parent: int, generics: Option<usize>, v: NamesView) -> NamesView
    decreases tree.len() - parent, 1int,
    when tree.wf() && 0 <= parent && maybe_later(parent, generics, tree.len())
{
    match generics {
        Some(g) => default_list(tree, g as int, kids(tree, g as int), v),
        None => v,
    }
}

pub open spec fn default_list(tree: Tree, parent: int, gs: Seq<usize>, v: NamesView) -> NamesView
    decreases tree.len() - parent, gs.len() + 2,
    when tree.wf() && 0 <= parent && all_later(parent, gs, tree.len())
{
    if gs.len() == 0 {
        v
    } else {
        proof {
            assert(later(parent, gs[0], tree.len()));
            assert(refers_forward(tree.nodes@[gs[0] as int], gs[0] as int, tree.len()));
            assert(all_later(parent, gs.drop_first(), tree.len())) by {
                assert forall|k: int| 0 <= k < gs.drop_first().len() implies #[trigger] later(parent, gs.drop_first()[k], tree.len()) by {
                    assert(later(parent, gs[k + 1], tree.len()));
                }
            }
        }
        let next = match tree.nodes@[gs[0] as int].shape {
            Shape::Generic { default: Some(d), .. } => visit(tree, d as int, v),
            _ => v,
        };
        default_list(tree, parent, gs.drop_first(), next)
    }
}

/// The targets of an assignment, all after `parent`: a name is written (and
/// read, for a compound assignment); anything else is changed in place and
/// visited.
pub open spec fn assign(tree: Tree, parent: int, ts: Seq<usize>, compound: bool, v: NamesView) -> NamesView
    decreases tree.len() - parent, ts.len() + 2,
    when tree.wf() && 0 <= parent && all_later(parent, ts, tree.len())
{
    if ts.len() == 0 {
        v
    } else {
        proof {
            assert(later(parent, ts[0], tree.len()));
            assert(all_later(parent, ts.drop_first(), tree.len())) by {
                assert forall|k: int| 0 <= k < ts.drop_first().len() implies #[trigger] later(parent, ts.drop_first()[k], tree.len()) by {
                    assert(later(parent, ts[k + 1], tree.len()));
                }
            }
        }
        let t = ts[0] as int;
        let next = if tree.nodes@[t].shape is Name {
            let w = written(v, text_of(tree, t));
            if compound { read(w, text_of(tree, t)) } else { w }
        } else {
            visit(tree, t, mutated(tree, v, t))
        };
        assign(tree, parent, ts.drop_first(), compound, next)
    }
}

/// The name of a function declaration: declared for `local function`,
/// written for a global function, read as the table of a field or method.
pub open spec fn named(tree: Tree, local: bool, name: Option<usize>, v: NamesView) -> NamesView {
    match name {
        Some(n) => match tree.nodes@[n as int].shape {
            Shape::FunctionName { path, method } => if path@.len() > 0 {
                let first = path@[0] as int;
                if path@.len() == 1 && method is None {
                    if local {
                        declared(v, tree.nodes@[first].start, text_of(tree, first))
                    } else {
                        written(v, text_of(tree, first))
                    }
                } else {
                    read(v, text_of(tree, first))
                }
            } else {
                v
            },
            _ => if local {
                declared(v, tree.nodes@[n as int].start, text_of(tree, n as int))
            } else {
                v
            },
        },
        None => v,
    }
}

/// The function has a `self`: it is a method, or declared with `:`.
pub open spec fn has_self(tree: Tree, method: bool, name: Option<usize>) -> bool {
    method || match name {
        Some(n) => match tree.nodes@[n as int].shape {
            Shape::FunctionName { method: Some(_), .. } => true,
            _ => false,
        },
        None => false,
    }
}

/// A function: generic defaults, its name, parameter annotations and return
/// type outside; `self`, the parameters and the body in a scope of its own.
pub open spec fn function(tree: Tree, id: int, v: NamesView) -> NamesView
    decreases tree.len() - id + 1, 0int,
    when tree.wf() && 0 <= id < tree.len()
{
    proof {
        assert(refers_forward(tree.nodes@[id], id, tree.len()));
    }
    match tree.nodes@[id].shape {
        Shape::Function { local, method, name, generics, parameters, result_type, body, .. } => {
            let v1 = named(tree, local, name, defaults(tree, id, generics, v));
            let v2 = annotations(tree, parameters as int, kids(tree, parameters as int), v1);
            let v3 = opened(match result_type {
                Some(r) => visit(tree, r as int, v2),
                None => v2,
            });
            let v4 = if has_self(tree, method, name) {
                declared(v3, tree.nodes@[id].start, "self"@)
            } else {
                v3
            };
            let v5 = declare_all(tree, kids(tree, parameters as int), v4);
            closed(match body {
                Some(b) => visit_list(tree, b as int, kids(tree, b as int), v5),
                None => v5,
            })
        },
        _ => v,
    }
}

/// The resolution of a whole tree: one outer scope, then the root.
pub open spec fn resolution(tree: Tree) -> NamesView {
    visit(tree, 0, NamesView { bindings: seq![], globals: seq![], scopes: seq![seq![]] })
}

proof fn lemma_first_unique<K, V>(m: Seq<(K, V)>, k: K, i: int, j: int)
    requires
        first_at(m, k, i),
        first_at(m, k, j),
    ensures
        i == j,
{
    if i < j {
        assert(m[i].0 == k);
    } else if j < i {
        assert(m[j].0 == k);
    }
}

pub(crate) fn usage_index(m: &Vec<(usize, Usage)>, k: usize) -> (r: Option<usize>)
    ensures
        match r {
            Some(i) => key_index(m@, k) == Some(i as int),
            None => key_index(m@, k) is None,
        },
{
    let mut i: usize = 0;
    while i < m.len()
        invariant
            i <= m@.len(),
            forall|j: int| 0 <= j < i ==> m@[j].0 != k,
        decreases m@.len() - i,
    {
        if m[i].0 == k {
            proof {
                assert(first_at(m@, k, i as int));
                let c = choose|c: int| first_at(m@, k, c);
                lemma_first_unique(m@, k, i as int, c);
            }
            return Some(i);
        }
        i = i + 1;
    }
    None
}

pub(crate) fn text_index(m: &Vec<(String, usize)>, k: &[char]) -> (r: Option<usize>)
    ensures
        match r {
            Some(i) => key_index(pairs(m@), k@) == Some(i as int),
            None => key_index(pairs(m@), k@) is None,
        },
{
    let ghost p = pairs(m@);
    let mut i: usize = 0;
    while i < m.len()
        invariant
            i <= m@.len(),
            p == pairs(m@),
            forall|j: int| 0 <= j < i ==> p[j].0 != k@,
        decreases m@.len() - i,
    {
        let t = chars_of(m[i].0.as_str());
        if same(t.as_slice(), k) {
            proof {
                assert(first_at(p, k@, i as int));
                let c = choose|c: int| first_at(p, k@, c);
                lemma_first_unique(p, k@, i as int, c);
            }
            return Some(i);
        }
        i = i + 1;
    }
    None
}

fn put_usage(m: &mut Vec<(usize, Usage)>, k: usize, u: Usage)
    ensures
        final(m)@ == put(old(m)@, k, u),
{
    match usage_index(m, k) {
        Some(i) => {
            m[i] = (k, u);
        },
        None => {
            m.push((k, u));
        },
    }
}

fn put_text(m: &mut Vec<(String, usize)>, k: &String, v: usize)
    ensures
        pairs(final(m)@) == put(pairs(old(m)@), k@, v),
{
    let key = chars_of(k.as_str());
    let ghost before = m@;
    match text_index(m, key.as_slice()) {
        Some(i) => {
            m[i] = (k.clone(), v);
            proof {
                assert(pairs(m@) =~= pairs(before).update(i as int, (k@, v)));
            }
        },
        None => {
            m.push((k.clone(), v));
            proof {
                assert(pairs(m@) =~= pairs(before).push((k@, v)));
            }
        },
    }
}

fn passes_through(shape: &Shape) -> (r: bool)
    ensures
        r == (shape is Field || shape is Index),
{
    match shape {
        Shape::Field { .. } => true,
        Shape::Index { .. } => true,
        _ => false,
    }
}

impl Names {
    /// No locals, no globals, one outer scope.
    pub fn new() -> (r: Self)
        ensures
            r@ == (NamesView { bindings: seq![], globals: seq![], scopes: seq![seq![]] }),
    {
        let mut scopes: Vec<Vec<(String, usize)>> = Vec::new();
        scopes.push(Vec::new());
        let r = Names { bindings: Vec::new(), globals: Vec::new(), scopes };
        proof {
            assert(r@.scopes.len() == 1);
            assert(r@.scopes[0] =~= seq![]);
            assert(r@.scopes =~= seq![seq![]]);
            assert(r@.globals =~= seq![]);
        }
        r
    }

    fn lookup_name(&self, name: &[char]) -> (r: Option<usize>)
        ensures
            r == lookup(self@.scopes, name@),
    {
        let ghost all = self@.scopes;
        let mut i: usize = self.scopes.len();
        proof {
            assert(all.subrange(0, i as int) =~= all);
        }
        while i > 0
            invariant
                i <= self.scopes@.len() == all.len(),
                all == self@.scopes,
                lookup(all, name@) == lookup(all.subrange(0, i as int), name@),
            decreases i,
        {
            let ghost sub = all.subrange(0, i as int);
            proof {
                assert(sub.last() == pairs(self.scopes@[i - 1]@));
                assert(sub.drop_last() =~= all.subrange(0, i - 1));
            }
            match text_index(&self.scopes[i - 1], name) {
                Some(p) => {
                    return Some(self.scopes[i - 1][p].1);
                },
                None => {},
            }
            i = i - 1;
        }
        None
    }

    fn resolve_name(&self, name: &[char]) -> (r: Option<usize>)
        ensures
            match r {
                Some(j) => resolved(self@, name@) == Some((j as int, self@.bindings[j as int].1)),
                None => resolved(self@, name@) is None,
            },
    {
        match self.lookup_name(name) {
            Some(d) => usage_index(&self.bindings, d),
            None => None,
        }
    }

    fn open(&mut self)
        ensures
            final(self)@ == opened(old(self)@),
    {
        self.scopes.push(Vec::new());
        proof {
            assert(self@.scopes[self@.scopes.len() - 1] =~= seq![]);
            assert(self@.scopes =~= old(self)@.scopes.push(seq![]));
        }
    }

    fn close(&mut self)
        ensures
            final(self)@ == closed(old(self)@),
    {
        if self.scopes.len() > 0 {
            self.scopes.pop();
            proof {
                assert(self@.scopes =~= old(self)@.scopes.drop_last());
            }
        }
    }

    fn declare(&mut self, start: usize, name: &String)
        ensures
            final(self)@ == declared(old(self)@, start, name@),
    {
        put_usage(&mut self.bindings, start, Usage { reads: 0, writes: 0, mutated: false });
        if self.scopes.len() > 0 {
            let ghost before = self.scopes@;
            let mut last = self.scopes.pop().unwrap();
            put_text(&mut last, name, start);
            self.scopes.push(last);
            proof {
                assert(self@.scopes =~= old(self)@.scopes.update(
                    old(self)@.scopes.len() - 1,
                    put(old(self)@.scopes.last(), name@, start),
                ));
            }
        }
    }

    fn read(&mut self, name: &[char])
        ensures
            final(self)@ == read(old(self)@, name@),
    {
        if let Some(j) = self.resolve_name(name) {
            let (k, u) = self.bindings[j];
            let reads = if u.reads < usize::MAX { u.reads + 1 } else { u.reads };
            self.bindings[j] = (k, Usage { reads, ..u });
        }
    }

    fn write(&mut self, name: &String)
        ensures
            final(self)@ == written(old(self)@, name@),
    {
        let text = chars_of(name.as_str());
        if let Some(j) = self.resolve_name(text.as_slice()) {
            let (k, u) = self.bindings[j];
            let writes = if u.writes < usize::MAX { u.writes + 1 } else { u.writes };
            self.bindings[j] = (k, Usage { writes, ..u });
        } else {
            let count = match text_index(&self.globals, text.as_slice()) {
                Some(g) => self.globals[g].1,
                None => 0,
            };
            let next = if count < usize::MAX { count + 1 } else { count };
            put_text(&mut self.globals, name, next);
        }
    }

    fn mutate(&mut self, tree: &Tree, id: usize)
        requires
            tree.wf(),
            id < tree.len(),
        ensures
            final(self)@ == mutated(*tree, old(self)@, id as int),
    {
        let mut b = id;
        while passes_through(&tree.nodes[b].shape)
            invariant
                tree.wf(),
                b < tree.len(),
                base(*tree, b as int) == base(*tree, id as int),
            decreases tree.len() - b,
        {
            proof {
                assert(refers_forward(tree.nodes@[b as int], b as int, tree.len()));
            }
            b = match tree.nodes[b].shape {
                Shape::Field { receiver, .. } => receiver,
                Shape::Index { receiver, .. } => receiver,
                _ => b,
            };
        }
        if let Shape::Name = tree.nodes[b].shape {
            let text = chars_of(tree.nodes[b].text.as_str());
            if let Some(j) = self.resolve_name(text.as_slice()) {
                let (k, u) = self.bindings[j];
                self.bindings[j] = (k, Usage { mutated: true, ..u });
            }
        }
    }
}


proof fn lemma_later_suffix(parent: int, ids: Seq<usize>, k: int, n: int)
    requires
        all_later(parent, ids, n),
        0 <= k <= ids.len(),
    ensures
        all_later(parent, ids.subrange(k, ids.len() as int), n),
{
    assert forall|j: int| 0 <= j < ids.subrange(k, ids.len() as int).len() implies #[trigger] later(
        parent,
        ids.subrange(k, ids.len() as int)[j],
        n,
    ) by {
        assert(later(parent, ids[k + j], n));
    }
}

proof fn lemma_step(ids: Seq<usize>, k: int)
    requires
        0 <= k < ids.len(),
    ensures
        ids.subrange(k, ids.len() as int).drop_first() =~= ids.subrange(k + 1, ids.len() as int),
        ids.subrange(k, ids.len() as int)[0] == ids[k],
        ids.subrange(k, ids.len() as int).len() > 0,
{
}

pub(crate) proof fn lemma_forward(tree: Tree, i: int)
    requires
        tree.wf(),
        0 <= i < tree.len(),
    ensures
        refers_forward(tree.nodes@[i], i, tree.len()),
{
}

fn changes_table_at(tree: &Tree, callee: usize) -> (r: bool)
    requires
        tree.wf(),
        callee < tree.len(),
    ensures
        r == changes_table(*tree, callee as int),
{
    proof {
        lemma_forward(*tree, callee as int);
    }
    match &tree.nodes[callee].shape {
        Shape::Field { receiver, name } => {
            let r = chars_of(tree.nodes[*receiver].text.as_str());
            let n = chars_of(tree.nodes[*name].text.as_str());
            same(r.as_slice(), chars_of("table").as_slice()) && (same(n.as_slice(), chars_of("insert").as_slice())
                || same(n.as_slice(), chars_of("remove").as_slice()) || same(n.as_slice(), chars_of("sort").as_slice())
                || same(n.as_slice(), chars_of("clear").as_slice()) || same(n.as_slice(), chars_of("move").as_slice()))
        },
        _ => false,
    }
}

fn self_of(tree: &Tree, method: bool, name: Option<usize>) -> (r: bool)
    requires
        match name {
            Some(n) => n < tree.len(),
            None => true,
        },
    ensures
        r == has_self(*tree, method, name),
{
    if method {
        return true;
    }
    match name {
        Some(n) => match &tree.nodes[n].shape {
            Shape::FunctionName { method: Some(_), .. } => true,
            _ => false,
        },
        None => false,
    }
}

impl Names {
    fn declare_all(&mut self, tree: &Tree, parent: usize, bs: &Vec<usize>)
        requires
            tree.wf(),
            all_later(parent as int, bs@, tree.len()),
        ensures
            final(self)@ == declare_all(*tree, bs@, old(self)@),
    {
        let mut k: usize = 0;
        proof {
            assert(bs@.subrange(0, bs@.len() as int) =~= bs@);
        }
        while k < bs.len()
            invariant
                tree.wf(),
                all_later(parent as int, bs@, tree.len()),
                k <= bs@.len(),
                declare_all(*tree, bs@, old(self)@) == declare_all(*tree, bs@.subrange(k as int, bs@.len() as int), self@),
            decreases bs@.len() - k,
        {
            proof {
                lemma_step(bs@, k as int);
                assert(later(parent as int, bs@[k as int], tree.len()));
                lemma_forward(*tree, bs@[k as int] as int);
            }
            match &tree.nodes[bs[k]].shape {
                Shape::Binding { name, .. } => {
                    self.declare(tree.nodes[*name].start, &tree.nodes[*name].text);
                },
                _ => {},
            }
            k = k + 1;
        }
        proof {
            assert(bs@.subrange(k as int, bs@.len() as int) =~= seq![]);
        }
    }

    fn visit_list(&mut self, tree: &Tree, parent: usize, ids: &Vec<usize>)
        requires
            tree.wf(),
            parent < tree.len(),
            all_later(parent as int, ids@, tree.len()),
        ensures
            final(self)@ == visit_list(*tree, parent as int, ids@, old(self)@),
        decreases tree.len() - parent, ids@.len() + 2,
    {
        let mut k: usize = 0;
        proof {
            assert(ids@.subrange(0, ids@.len() as int) =~= ids@);
        }
        while k < ids.len()
            invariant
                tree.wf(),
                parent < tree.len(),
                all_later(parent as int, ids@, tree.len()),
                k <= ids@.len(),
                visit_list(*tree, parent as int, ids@, old(self)@) == visit_list(
                    *tree,
                    parent as int,
                    ids@.subrange(k as int, ids@.len() as int),
                    self@,
                ),
            decreases ids@.len() - k,
        {
            proof {
                lemma_step(ids@, k as int);
                lemma_later_suffix(parent as int, ids@, k as int, tree.len());
                lemma_later_suffix(parent as int, ids@, k + 1, tree.len());
                assert(later(parent as int, ids@[k as int], tree.len()));
            }
            self.visit(tree, ids[k]);
            k = k + 1;
        }
        proof {
            assert(ids@.subrange(k as int, ids@.len() as int) =~= seq![]);
        }
    }

    fn annotations(&mut self, tree: &Tree, parent: usize, bs: &Vec<usize>)
        requires
            tree.wf(),
            parent < tree.len(),
            all_later(parent as int, bs@, tree.len()),
        ensures
            final(self)@ == annotations(*tree, parent as int, bs@, old(self)@),
        decreases tree.len() - parent, bs@.len() + 2,
    {
        let mut k: usize = 0;
        proof {
            assert(bs@.subrange(0, bs@.len() as int) =~= bs@);
        }
        while k < bs.len()
            invariant
                tree.wf(),
                parent < tree.len(),
                all_later(parent as int, bs@, tree.len()),
                k <= bs@.len(),
                annotations(*tree, parent as int, bs@, old(self)@) == annotations(
                    *tree,
                    parent as int,
                    bs@.subrange(k as int, bs@.len() as int),
                    self@,
                ),
            decreases bs@.len() - k,
        {
            proof {
                lemma_step(bs@, k as int);
                lemma_later_suffix(parent as int, bs@, k as int, tree.len());
                lemma_later_suffix(parent as int, bs@, k + 1, tree.len());
                assert(later(parent as int, bs@[k as int], tree.len()));
                lemma_forward(*tree, bs@[k as int] as int);
            }
            match &tree.nodes[bs[k]].shape {
                Shape::Binding { annotation: Some(a), .. } => {
                    self.visit(tree, *a);
                },
                Shape::Variadic { annotation: Some(a) } => {
                    self.visit(tree, *a);
                },
                _ => {},
            }
            k = k + 1;
        }
        proof {
            assert(bs@.subrange(k as int, bs@.len() as int) =~= seq![]);
        }
    }

    fn defaults(&mut self, tree: &Tree, parent: usize, generics: Option<usize>)
        requires
            tree.wf(),
            parent < tree.len(),
            maybe_later(parent as int, generics, tree.len()),
        ensures
            final(self)@ == defaults(*tree, parent as int, generics, old(self)@),
        decreases tree.len() - parent, 1int,
    {
        if let Some(g) = generics {
            proof {
                lemma_forward(*tree, g as int);
            }
            let gs = &tree.nodes[g].children;
            let mut k: usize = 0;
            proof {
                assert(gs@.subrange(0, gs@.len() as int) =~= gs@);
            }
            while k < gs.len()
                invariant
                    tree.wf(),
                    parent < g < tree.len(),
                    gs@ == kids(*tree, g as int),
                    all_later(g as int, gs@, tree.len()),
                    k <= gs@.len(),
                    defaults(*tree, parent as int, generics, old(self)@) == default_list(
                        *tree,
                        g as int,
                        gs@.subrange(k as int, gs@.len() as int),
                        self@,
                    ),
                decreases gs@.len() - k,
            {
                proof {
                    lemma_step(gs@, k as int);
                    lemma_later_suffix(g as int, gs@, k as int, tree.len());
                    lemma_later_suffix(g as int, gs@, k + 1, tree.len());
                    assert(later(g as int, gs@[k as int], tree.len()));
                    lemma_forward(*tree, gs@[k as int] as int);
                }
                match &tree.nodes[gs[k]].shape {
                    Shape::Generic { default: Some(d), .. } => {
                        self.visit(tree, *d);
                    },
                    _ => {},
                }
                k = k + 1;
            }
            proof {
                assert(gs@.subrange(k as int, gs@.len() as int) =~= seq![]);
            }
        }
    }

    fn assign(&mut self, tree: &Tree, parent: usize, ts: &Vec<usize>, compound: bool)
        requires
            tree.wf(),
            parent < tree.len(),
            all_later(parent as int, ts@, tree.len()),
        ensures
            final(self)@ == assign(*tree, parent as int, ts@, compound, old(self)@),
        decreases tree.len() - parent, ts@.len() + 2,
    {
        let mut k: usize = 0;
        proof {
            assert(ts@.subrange(0, ts@.len() as int) =~= ts@);
        }
        while k < ts.len()
            invariant
                tree.wf(),
                parent < tree.len(),
                all_later(parent as int, ts@, tree.len()),
                k <= ts@.len(),
                assign(*tree, parent as int, ts@, compound, old(self)@) == assign(
                    *tree,
                    parent as int,
                    ts@.subrange(k as int, ts@.len() as int),
                    compound,
                    self@,
                ),
            decreases ts@.len() - k,
        {
            proof {
                lemma_step(ts@, k as int);
                lemma_later_suffix(parent as int, ts@, k as int, tree.len());
                lemma_later_suffix(parent as int, ts@, k + 1, tree.len());
                assert(later(parent as int, ts@[k as int], tree.len()));
            }
            let t = ts[k];
            if let Shape::Name = tree.nodes[t].shape {
                self.write(&tree.nodes[t].text);
                if compound {
                    self.read(chars_of(tree.nodes[t].text.as_str()).as_slice());
                }
            } else {
                self.mutate(tree, t);
                self.visit(tree, t);
            }
            k = k + 1;
        }
        proof {
            assert(ts@.subrange(k as int, ts@.len() as int) =~= seq![]);
        }
    }

    fn name_function(&mut self, tree: &Tree, parent: usize, local: bool, name: Option<usize>)
        requires
            tree.wf(),
            maybe_later(parent as int, name, tree.len()),
        ensures
            final(self)@ == named(*tree, local, name, old(self)@),
    {
        if let Some(n) = name {
            proof {
                lemma_forward(*tree, n as int);
            }
            match &tree.nodes[n].shape {
                Shape::FunctionName { path, method } => {
                    if path.len() > 0 {
                        proof {
                            assert(later(n as int, path@[0], tree.len()));
                        }
                        let first = path[0];
                        if path.len() == 1 && method.is_none() {
                            if local {
                                self.declare(tree.nodes[first].start, &tree.nodes[first].text);
                            } else {
                                self.write(&tree.nodes[first].text);
                            }
                        } else {
                            self.read(chars_of(tree.nodes[first].text.as_str()).as_slice());
                        }
                    }
                },
                _ => {
                    if local {
                        self.declare(tree.nodes[n].start, &tree.nodes[n].text);
                    }
                },
            }
        }
    }

    fn function(&mut self, tree: &Tree, id: usize)
        requires
            tree.wf(),
            id < tree.len(),
        ensures
            final(self)@ == function(*tree, id as int, old(self)@),
        decreases tree.len() - id + 1, 0int,
    {
        proof {
            lemma_forward(*tree, id as int);
        }
        match &tree.nodes[id].shape {
            Shape::Function { local, method, name, generics, parameters, result_type, body, .. } => {
                self.defaults(tree, id, *generics);
                self.name_function(tree, id, *local, *name);
                proof {
                    lemma_forward(*tree, *parameters as int);
                }
                self.annotations(tree, *parameters, &tree.nodes[*parameters].children);
                if let Some(r) = result_type {
                    self.visit(tree, *r);
                }
                self.open();
                if self_of(tree, *method, *name) {
                    let this = string_of(chars_of("self").as_slice());
                    self.declare(tree.nodes[id].start, &this);
                }
                self.declare_all(tree, *parameters, &tree.nodes[*parameters].children);
                if let Some(b) = body {
                    proof {
                        lemma_forward(*tree, *b as int);
                    }
                    self.visit_list(tree, *b, &tree.nodes[*b].children);
                }
                self.close();
            },
            _ => {},
        }
    }

    /// Visit node `id` and everything below it.
    pub fn visit(&mut self, tree: &Tree, id: usize)
        requires
            tree.wf(),
            id < tree.len(),
        ensures
            final(self)@ == visit(*tree, id as int, old(self)@),
        decreases tree.len() - id + 1, 1int,
    {
        proof {
            lemma_forward(*tree, id as int);
        }
        match &tree.nodes[id].shape {
            Shape::Block => {
                self.open();
                self.visit_list(tree, id, &tree.nodes[id].children);
                self.close();
            },
            Shape::Local { bindings, values, .. } => {
                self.visit_list(tree, id, values);
                self.annotations(tree, id, bindings);
                self.declare_all(tree, id, bindings);
            },
            Shape::Assignment { compound, targets, values, .. } => {
                self.visit_list(tree, id, values);
                self.assign(tree, id, targets, *compound);
            },
            Shape::Function { .. } => {
                self.function(tree, id);
            },
            Shape::NumericFor { binding, start, end, step, body } => {
                self.visit(tree, *start);
                self.visit(tree, *end);
                if let Some(s) = step {
                    self.visit(tree, *s);
                }
                let one = vec![*binding];
                proof {
                    assert(one@ =~= seq![*binding]);
                    assert(later(id as int, one@[0], tree.len()));
                    lemma_forward(*tree, *body as int);
                }
                self.annotations(tree, id, &one);
                self.open();
                self.declare_all(tree, id, &one);
                self.visit_list(tree, *body, &tree.nodes[*body].children);
                self.close();
            },
            Shape::GenericFor { bindings, values, body } => {
                self.visit_list(tree, id, values);
                self.annotations(tree, id, bindings);
                self.open();
                self.declare_all(tree, id, bindings);
                proof {
                    lemma_forward(*tree, *body as int);
                }
                self.visit_list(tree, *body, &tree.nodes[*body].children);
                self.close();
            },
            Shape::Repeat { body, condition } => {
                self.open();
                proof {
                    lemma_forward(*tree, *body as int);
                }
                self.visit_list(tree, *body, &tree.nodes[*body].children);
                self.visit(tree, *condition);
                self.close();
            },
            Shape::Call { callee, arguments } => {
                proof {
                    lemma_forward(*tree, *arguments as int);
                }
                if changes_table_at(tree, *callee) && tree.nodes[*arguments].children.len() > 0 {
                    proof {
                        assert(later(*arguments as int, tree.nodes@[*arguments as int].children@[0], tree.len()));
                    }
                    self.mutate(tree, tree.nodes[*arguments].children[0]);
                }
                self.visit(tree, *callee);
                self.visit(tree, *arguments);
            },
            Shape::MethodCall { receiver, types, arguments, .. } => {
                self.visit(tree, *receiver);
                if let Some(t) = types {
                    self.visit(tree, *t);
                }
                self.visit(tree, *arguments);
            },
            Shape::Field { receiver, .. } => {
                self.visit(tree, *receiver);
            },
            Shape::TableField { key, value, indexed } => {
                if let Some(k) = key {
                    if *indexed {
                        self.visit(tree, *k);
                    }
                }
                self.visit(tree, *value);
            },
            Shape::TypeName { namespace, arguments, .. } => {
                if let Some(n) = namespace {
                    self.read(chars_of(tree.nodes[*n].text.as_str()).as_slice());
                }
                if let Some(a) = arguments {
                    self.visit(tree, *a);
                }
            },
            Shape::TypeField { indexer, key, annotation, .. } => {
                if *indexer {
                    self.visit(tree, *key);
                }
                self.visit(tree, *annotation);
            },
            Shape::TypeAlias { generics, annotation, .. } => {
                self.defaults(tree, id, *generics);
                self.visit(tree, *annotation);
            },
            Shape::TypeParameter { annotation, .. } => {
                self.visit(tree, *annotation);
            },
            Shape::Name => {
                self.read(chars_of(tree.nodes[id].text.as_str()).as_slice());
            },
            _ => {
                self.visit_list(tree, id, &tree.nodes[id].children);
            },
        }
    }
}

/// The scope resolution of a tree: the usage of every local, by the position
/// of its name, and how often each global is assigned, after the whole tree
/// is walked from its root with one outer scope.
pub fn resolve(tree: &Tree) -> (r: Names)
    requires
        tree.wf(),
        tree.len() > 0,
    ensures
        r@ == resolution(*tree),
{
    let mut names = Names::new();
    names.visit(tree, 0);
    names
}


/// The functions of the `table` library that change their first argument
/// in place.
pub open spec fn in_place_table_functions() -> Seq<Seq<char>> {
    seq!["insert"@, "remove"@, "sort"@, "clear"@, "move"@]
}

/// Node `id` calls `table.f(x, ...)` for one of the functions that change
/// a table in place, and `x` is a name.
pub open spec fn table_call(tree: Tree, id: int) -> bool {
    tree.nodes@[id].shape matches Shape::Call { callee, arguments } && tree.nodes@[callee as int].shape matches Shape::Field {
        receiver,
        name,
    } && text_of(tree, receiver as int) == "table"@ && in_place_table_functions().contains(text_of(tree, name as int))
        && kids(tree, arguments as int).len() > 0 && tree.nodes@[kids(tree, arguments as int)[0] as int].shape is Name
}

/// A call of `table.insert`, `table.remove`, `table.sort`, `table.clear` or
/// `table.move` whose first argument names a local marks that local as
/// changed in place, and nothing else, before the callee and the arguments
/// are visited.
pub proof fn law_table_calls_mark_their_local(tree: Tree, id: int, v: NamesView)
    requires
        tree.wf(),
        0 <= id < tree.len(),
        table_call(tree, id),
    ensures
        match tree.nodes@[id].shape {
            Shape::Call { callee, arguments } => {
                let x = kids(tree, arguments as int)[0] as int;
                match resolved(v, text_of(tree, x)) {
                    Some((j, u)) => visit(tree, id, v) == visit(
                        tree,
                        arguments as int,
                        visit(
                            tree,
                            callee as int,
                            NamesView {
                                bindings: v.bindings.update(j, (v.bindings[j].0, Usage { mutated: true, ..u })),
                                ..v
                            },
                        ),
                    ),
                    None => visit(tree, id, v) == visit(tree, arguments as int, visit(tree, callee as int, v)),
                }
            },
            _ => false,
        },
{
    reveal_strlit("insert");
    reveal_strlit("remove");
    reveal_strlit("sort");
    reveal_strlit("clear");
    reveal_strlit("move");
    assert(refers_forward(tree.nodes@[id], id, tree.len()));
    match tree.nodes@[id].shape {
        Shape::Call { callee, arguments } => {
            assert(refers_forward(tree.nodes@[arguments as int], arguments as int, tree.len()));
            let x = kids(tree, arguments as int)[0] as int;
            assert(later(arguments as int, kids(tree, arguments as int)[0], tree.len()));
            let n = text_of(tree, tree.nodes@[callee as int].shape->Field_name as int);
            let l = in_place_table_functions();
            let k = choose|k: int| 0 <= k < l.len() && l[k] == n;
            assert(changes_table(tree, callee as int));
            assert(base(tree, x) == x);
        },
        _ => {},
    }
}

} // verus!
