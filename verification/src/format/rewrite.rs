//! The formatter's binding rewrites: locals that become constants, require
//! bindings whose keyword changes, unused requires that are renamed or
//! removed, and top-level functions whose declaration changes.

use vstd::prelude::*;
use crate::format::configuration::{Binding, Constants, Functions, Imports};
use crate::format::scope::{
    key_index, kids, later, lemma_forward, resolution, resolve, text_index, text_of, usage_index, NamesView,
    Shape, Tree, Usage,
};
use crate::text::{chars_of, same};

verus! {

/// What the binding rewrites are asked to do.
pub struct Rewrites {
    /// The keyword of require bindings.
    pub binding: Binding,
    /// What becomes of require bindings that are never used.
    pub unused: Imports,
    /// Locals never assigned again become constants.
    pub constants: Constants,
    /// The declaration of top-level functions.
    pub functions: Functions,
}

/// A declaration keyword; `Global` is none at all.
#[derive(Debug, Clone, Copy, PartialEq, Eq, Structural)]
pub enum Keyword {
    Const,
    Local,
    Global,
}

/// One rewrite, at a node of the tree.
#[derive(Debug, Clone, Copy, PartialEq, Eq, Structural)]
pub enum Rewrite {
    /// The keyword that opens local statement `node` becomes `keyword`.
    Keyword { node: usize, keyword: Keyword },
    /// The unused require bound at name `name` gets a leading underscore.
    Underscore { name: usize },
    /// The unused require statement `node` is removed.
    Remove { node: usize },
    /// The declaration keyword of top-level function `node` becomes `keyword`.
    Declaration { node: usize, keyword: Keyword },
}

/// The tree has no root.
#[derive(Debug, Clone, Copy, PartialEq, Eq, Structural)]
pub enum RewriteError {
    MissingRoot,
}

/// The usage of the local declared at `start`.
pub open spec fn usage_at(v: NamesView, start: usize) -> Option<Usage> {
    match key_index(v.bindings, start) {
        Some(j) => Some(v.bindings[j].1),
        None => None,
    }
}

/// A held range overlaps `start..end`.
pub open spec fn held_over(held: Seq<(usize, usize)>, start: usize, end: usize) -> bool {
    exists|k: int| 0 <= k < held.len() && #[trigger] held[k].0 < end && held[k].1 > start
}

/// Binding `b` may not become a constant: it is no plain name, unresolved,
/// assigned again, or (when such tables stay local) a table changed in place.
pub open spec fn binding_mutable(tree: Tree, v: NamesView, r: Rewrites, b: usize) -> bool {
    match tree.nodes@[b as int].shape {
        Shape::Binding { name, .. } => match usage_at(v, tree.nodes@[name as int].start) {
            Some(u) => u.writes > 0 || (r.constants.mutated_tables_stay_local && u.mutated),
            None => true,
        },
        _ => true,
    }
}

pub open spec fn any_mutable(tree: Tree, v: NamesView, r: Rewrites, bs: Seq<usize>) -> bool {
    exists|k: int| 0 <= k < bs.len() && #[trigger] binding_mutable(tree, v, r, bs[k])
}

/// The name that local statement `id` binds to `require(...)`: one binding,
/// without annotation, and one value, a call of the name `require`.
pub open spec fn required_name(tree: Tree, id: int) -> Option<usize> {
    match tree.nodes@[id].shape {
        Shape::Local { bindings, values, .. } => if bindings@.len() == 1 && values@.len() == 1 {
            match tree.nodes@[bindings@[0] as int].shape {
                Shape::Binding { name, annotation: None } => match tree.nodes@[values@[0] as int].shape {
                    Shape::Call { callee, .. } => if tree.nodes@[callee as int].shape is Name && text_of(
                        tree,
                        callee as int,
                    ) == "require"@ {
                        Some(name)
                    } else {
                        None
                    },
                    _ => None,
                },
                _ => None,
            }
        } else {
            None
        },
        _ => None,
    }
}

/// The keyword rewrite, if any.
pub open spec fn keyword_edit(id: int, k: Option<Keyword>) -> Seq<Rewrite> {
    match k {
        Some(kw) => seq![Rewrite::Keyword { node: id as usize, keyword: kw }],
        None => seq![],
    }
}

/// The rewrites of local statement `id`.
pub open spec fn local_rewrites(tree: Tree, v: NamesView, r: Rewrites, id: int) -> Seq<Rewrite> {
    match tree.nodes@[id].shape {
        Shape::Local { bindings, values, .. } => {
            let constant = if r.constants.enabled && values@.len() > 0 && !any_mutable(tree, v, r, bindings@) {
                Some(Keyword::Const)
            } else {
                None
            };
            match required_name(tree, id) {
                Some(name) => {
                    let u = usage_at(v, tree.nodes@[name as int].start);
                    let k = match r.binding {
                        Binding::Local => Some(Keyword::Local),
                        Binding::Const => if u is Some && u->0.writes == 0 {
                            Some(Keyword::Const)
                        } else {
                            constant
                        },
                        Binding::Preserve => constant,
                    };
                    let t = text_of(tree, name as int);
                    let unused = !(t.len() > 0 && t[0] == '_') && u is Some && u->0.reads == 0 && u->0.writes == 0;
                    if unused && r.unused == Imports::Remove && k is None {
                        seq![Rewrite::Remove { node: id as usize }]
                    } else if unused && r.unused == Imports::Underscore {
                        seq![Rewrite::Underscore { name }] + keyword_edit(id, k)
                    } else {
                        keyword_edit(id, k)
                    }
                },
                None => keyword_edit(id, constant),
            }
        },
        _ => seq![],
    }
}

/// How often the global `name` is assigned.
pub open spec fn global_count(v: NamesView, name: Seq<char>) -> int {
    match key_index(v.globals, name) {
        Some(g) => v.globals[g].1 as int,
        None => 0,
    }
}

/// The keyword that function statement `id` is declared with under `decl`:
/// its name must be one plain name; a local that is assigned again, or a
/// global assigned more than once, stays as it is under `Const`.
pub open spec fn declaration(tree: Tree, v: NamesView, id: int, decl: Functions) -> Option<Keyword> {
    match tree.nodes@[id].shape {
        Shape::Function { statement, local, name: Some(n), .. } => if !statement {
            None
        } else {
            let named = match tree.nodes@[n as int].shape {
                Shape::FunctionName { path, method: None } => if path@.len() == 1 {
                    Some(path@[0])
                } else {
                    None
                },
                Shape::Name => Some(n),
                _ => None,
            };
            match named {
                Some(x) => {
                    let mutable = if local {
                        match usage_at(v, tree.nodes@[x as int].start) {
                            Some(u) => u.writes > 0,
                            None => true,
                        }
                    } else {
                        global_count(v, text_of(tree, x as int)) > 1
                    };
                    match decl {
                        Functions::Const => if mutable { None } else { Some(Keyword::Const) },
                        Functions::Local => Some(Keyword::Local),
                        Functions::Global => Some(Keyword::Global),
                        Functions::Preserve => None,
                    }
                },
                None => None,
            }
        },
        _ => None,
    }
}

/// Node `i` is a statement of the root's top-level block.
pub open spec fn top_level(tree: Tree, i: int) -> bool {
    exists|c: int| 0 <= c < kids(tree, 0).len() && kids(tree, kids(tree, 0)[c] as int).contains(i as usize)
}

/// The rewrites at node `i`.
pub open spec fn node_rewrites(tree: Tree, v: NamesView, r: Rewrites, held: Seq<(usize, usize)>, i: int) -> Seq<
    Rewrite,
> {
    let node = tree.nodes@[i];
    if held_over(held, node.start, node.end) {
        seq![]
    } else if node.shape is Local {
        local_rewrites(tree, v, r, i)
    } else if top_level(tree, i) && r.functions != Functions::Preserve {
        match declaration(tree, v, i, r.functions) {
            Some(k) => seq![Rewrite::Declaration { node: i as usize, keyword: k }],
            None => seq![],
        }
    } else {
        seq![]
    }
}

/// The rewrites at the first `k` nodes, in order.
pub open spec fn rewrites_upto(tree: Tree, v: NamesView, r: Rewrites, held: Seq<(usize, usize)>, k: int) -> Seq<
    Rewrite,
>
    decreases k,
{
    if k <= 0 {
        seq![]
    } else {
        rewrites_upto(tree, v, r, held, k - 1) + node_rewrites(tree, v, r, held, k - 1)
    }
}

/// Nothing is to be rewritten.
pub open spec fn preserves_all(r: Rewrites) -> bool {
    r.binding == Binding::Preserve && !r.constants.enabled && r.unused == Imports::Ignore && r.functions
        == Functions::Preserve
}

fn usage_of(names: &crate::format::scope::Names, start: usize) -> (u: Option<Usage>)
    ensures
        u == usage_at(names@, start),
{
    match usage_index(&names.bindings, start) {
        Some(j) => Some(names.bindings[j].1),
        None => None,
    }
}

fn any_mutable_at(tree: &Tree, names: &crate::format::scope::Names, r: &Rewrites, parent: usize, bs: &Vec<usize>) -> (m: bool)
    requires
        tree.wf(),
        forall|k: int| 0 <= k < bs@.len() ==> #[trigger] later(parent as int, bs@[k], tree.len()),
    ensures
        m == any_mutable(*tree, names@, *r, bs@),
{
    let mut k: usize = 0;
    while k < bs.len()
        invariant
            tree.wf(),
            forall|j: int| 0 <= j < bs@.len() ==> #[trigger] later(parent as int, bs@[j], tree.len()),
            k <= bs@.len(),
            forall|j: int| 0 <= j < k ==> !#[trigger] binding_mutable(*tree, names@, *r, bs@[j]),
        decreases bs@.len() - k,
    {
        proof {
            assert(later(parent as int, bs@[k as int], tree.len()));
            lemma_forward(*tree, bs@[k as int] as int);
        }
        let b = bs[k];
        let mutable = match &tree.nodes[b].shape {
            Shape::Binding { name, .. } => match usage_of(names, tree.nodes[*name].start) {
                Some(u) => u.writes > 0 || (r.constants.mutated_tables_stay_local && u.mutated),
                None => true,
            },
            _ => true,
        };
        if mutable {
            proof {
                assert(binding_mutable(*tree, names@, *r, bs@[k as int]));
            }
            return true;
        }
        k = k + 1;
    }
    false
}

fn is_text(tree: &Tree, id: usize, lit: &str) -> (r: bool)
    requires
        id < tree.len(),
    ensures
        r == (text_of(*tree, id as int) == lit@),
{
    same(chars_of(tree.nodes[id].text.as_str()).as_slice(), chars_of(lit).as_slice())
}

fn required_at(tree: &Tree, id: usize) -> (r: Option<usize>)
    requires
        tree.wf(),
        id < tree.len(),
    ensures
        r == required_name(*tree, id as int),
        match r {
            Some(n) => n < tree.len(),
            None => true,
        },
{
    proof {
        lemma_forward(*tree, id as int);
    }
    match &tree.nodes[id].shape {
        Shape::Local { bindings, values, .. } => {
            if bindings.len() == 1 && values.len() == 1 {
                proof {
                    assert(later(id as int, bindings@[0], tree.len()));
                    assert(later(id as int, values@[0], tree.len()));
                    lemma_forward(*tree, bindings@[0] as int);
                    lemma_forward(*tree, values@[0] as int);
                }
                match &tree.nodes[bindings[0]].shape {
                    Shape::Binding { name, annotation: None } => match &tree.nodes[values[0]].shape {
                        Shape::Call { callee, .. } => {
                            if let Shape::Name = tree.nodes[*callee].shape {
                                if is_text(tree, *callee, "require") {
                                    return Some(*name);
                                }
                            }
                            None
                        },
                        _ => None,
                    },
                    _ => None,
                }
            } else {
                None
            }
        },
        _ => None,
    }
}

fn local_at(tree: &Tree, names: &crate::format::scope::Names, r: &Rewrites, id: usize) -> (out: Vec<Rewrite>)
    requires
        tree.wf(),
        id < tree.len(),
    ensures
        out@ == local_rewrites(*tree, names@, *r, id as int),
{
    proof {
        lemma_forward(*tree, id as int);
    }
    let mut out: Vec<Rewrite> = Vec::new();
    match &tree.nodes[id].shape {
        Shape::Local { bindings, values, .. } => {
            let constant = if r.constants.enabled && values.len() > 0 && !any_mutable_at(tree, names, r, id, bindings) {
                Some(Keyword::Const)
            } else {
                None
            };
            match required_at(tree, id) {
                Some(name) => {
                    let u = usage_of(names, tree.nodes[name].start);
                    let k = match r.binding {
                        Binding::Local => Some(Keyword::Local),
                        Binding::Const => match u {
                            Some(x) => if x.writes == 0 { Some(Keyword::Const) } else { constant },
                            None => constant,
                        },
                        Binding::Preserve => constant,
                    };
                    let t = chars_of(tree.nodes[name].text.as_str());
                    let unused = !(t.len() > 0 && t[0] == '_') && match u {
                        Some(x) => x.reads == 0 && x.writes == 0,
                        None => false,
                    };
                    let remove = match r.unused {
                        Imports::Remove => true,
                        _ => false,
                    };
                    let underscore = match r.unused {
                        Imports::Underscore => true,
                        _ => false,
                    };
                    if unused && remove && k.is_none() {
                        out.push(Rewrite::Remove { node: id });
                    } else {
                        if unused && underscore {
                            out.push(Rewrite::Underscore { name });
                        }
                        if let Some(kw) = k {
                            out.push(Rewrite::Keyword { node: id, keyword: kw });
                        }
                    }
                },
                None => {
                    if let Some(kw) = constant {
                        out.push(Rewrite::Keyword { node: id, keyword: kw });
                    }
                },
            }
        },
        _ => {},
    }
    proof {
        assert(out@ =~= local_rewrites(*tree, names@, *r, id as int));
    }
    out
}

fn declaration_at(tree: &Tree, names: &crate::format::scope::Names, id: usize, decl: Functions) -> (k: Option<Keyword>)
    requires
        tree.wf(),
        id < tree.len(),
    ensures
        k == declaration(*tree, names@, id as int, decl),
{
    proof {
        lemma_forward(*tree, id as int);
    }
    match &tree.nodes[id].shape {
        Shape::Function { statement, local, name: Some(n), .. } => {
            if !*statement {
                return None;
            }
            proof {
                lemma_forward(*tree, *n as int);
            }
            let named: Option<usize> = match &tree.nodes[*n].shape {
                Shape::FunctionName { path, method: None } => {
                    if path.len() == 1 {
                        proof {
                            assert(later(*n as int, path@[0], tree.len()));
                        }
                        Some(path[0])
                    } else {
                        None
                    }
                },
                Shape::Name => Some(*n),
                _ => None,
            };
            match named {
                Some(x) => {
                    let mutable = if *local {
                        match usage_of(names, tree.nodes[x].start) {
                            Some(u) => u.writes > 0,
                            None => true,
                        }
                    } else {
                        let t = chars_of(tree.nodes[x].text.as_str());
                        match text_index(&names.globals, t.as_slice()) {
                            Some(g) => names.globals[g].1 > 1,
                            None => false,
                        }
                    };
                    match decl {
                        Functions::Const => if mutable { None } else { Some(Keyword::Const) },
                        Functions::Local => Some(Keyword::Local),
                        Functions::Global => Some(Keyword::Global),
                        Functions::Preserve => None,
                    }
                },
                None => None,
            }
        },
        _ => None,
    }
}

fn top_level_at(tree: &Tree, i: usize) -> (r: bool)
    requires
        tree.wf(),
        tree.len() > 0,
    ensures
        r == top_level(*tree, i as int),
{
    proof {
        lemma_forward(*tree, 0);
    }
    let top = &tree.nodes[0].children;
    proof {
        assert forall|k: int| 0 <= k < top@.len() implies #[trigger] later(0, top@[k], tree.len()) by {
            assert(later(0, kids(*tree, 0)[k], tree.len()));
        }
    }
    let mut c: usize = 0;
    while c < top.len()
        invariant
            tree.wf(),
            tree.len() > 0,
            top@ == kids(*tree, 0),
            forall|k: int| 0 <= k < top@.len() ==> #[trigger] later(0, top@[k], tree.len()),
            c <= top@.len(),
            forall|d: int| 0 <= d < c ==> !#[trigger] kids(*tree, top@[d] as int).contains(i),
        decreases top@.len() - c,
    {
        proof {
            assert(later(0, top@[c as int], tree.len()));
        }
        let inner = &tree.nodes[top[c]].children;
        let mut j: usize = 0;
        while j < inner.len()
            invariant
                c < top@.len(),
                top@ == kids(*tree, 0),
                inner@ == kids(*tree, top@[c as int] as int),
                j <= inner@.len(),
                forall|e: int| 0 <= e < j ==> inner@[e] != i,
            decreases inner@.len() - j,
        {
            if inner[j] == i {
                proof {
                    assert(kids(*tree, top@[c as int] as int)[j as int] == i);
                    assert(kids(*tree, kids(*tree, 0)[c as int] as int).contains(i));
                }
                return true;
            }
            j = j + 1;
        }
        proof {
            assert(!kids(*tree, top@[c as int] as int).contains(i));
        }
        c = c + 1;
    }
    false
}

fn overlaps(held: &Vec<(usize, usize)>, start: usize, end: usize) -> (r: bool)
    ensures
        r == held_over(held@, start, end),
{
    let mut k: usize = 0;
    while k < held.len()
        invariant
            k <= held@.len(),
            forall|j: int| 0 <= j < k ==> !(#[trigger] held@[j].0 < end && held@[j].1 > start),
        decreases held@.len() - k,
    {
        if held[k].0 < end && held[k].1 > start {
            return true;
        }
        k = k + 1;
    }
    false
}

/// The binding rewrites of a tree: every node outside the held ranges, in
/// order, with the scope resolution of the whole tree. A local statement may
/// become a constant or, when it binds a require, change keyword, or, unused,
/// be renamed or removed; a function statement of the top-level block may
/// change its declaration. Nothing is rewritten when every option preserves.
pub fn bindings(tree: &Tree, r: &Rewrites, held: &Vec<(usize, usize)>) -> (out: Result<Vec<Rewrite>, RewriteError>)
    requires
        tree.wf(),
    ensures
        preserves_all(*r) ==> out is Ok && out->Ok_0@ == Seq::<Rewrite>::empty(),
        !preserves_all(*r) && tree.len() == 0 ==> out is Err && out->Err_0 == RewriteError::MissingRoot,
        !preserves_all(*r) && tree.len() > 0 ==> out is Ok && out->Ok_0@ == rewrites_upto(
            *tree,
            resolution(*tree),
            *r,
            held@,
            tree.len(),
        ),
{
    let keep_binding = match r.binding {
        Binding::Preserve => true,
        _ => false,
    };
    let keep_unused = match r.unused {
        Imports::Ignore => true,
        _ => false,
    };
    let keep_functions = match r.functions {
        Functions::Preserve => true,
        _ => false,
    };
    if keep_binding && !r.constants.enabled && keep_unused && keep_functions {
        let none: Vec<Rewrite> = Vec::new();
        proof {
            assert(none@ =~= Seq::<Rewrite>::empty());
        }
        return Ok(none);
    }
    if tree.nodes.len() == 0 {
        return Err(RewriteError::MissingRoot);
    }
    let names = resolve(tree);
    let mut out: Vec<Rewrite> = Vec::new();
    let mut i: usize = 0;
    while i < tree.nodes.len()
        invariant
            tree.wf(),
            tree.len() > 0,
            names@ == resolution(*tree),
            !preserves_all(*r),
            i <= tree.len(),
            out@ == rewrites_upto(*tree, names@, *r, held@, i as int),
        decreases tree.len() - i,
    {
        let ghost before = out@;
        let node = &tree.nodes[i];
        if !overlaps(held, node.start, node.end) {
            if let Shape::Local { .. } = node.shape {
                let more = local_at(tree, &names, r, i);
                let mut k: usize = 0;
                while k < more.len()
                    invariant
                        k <= more@.len(),
                        out@ == before + more@.subrange(0, k as int),
                    decreases more@.len() - k,
                {
                    out.push(more[k]);
                    proof {
                        assert(more@.subrange(0, k + 1) =~= more@.subrange(0, k as int).push(more@[k as int]));
                    }
                    k = k + 1;
                }
                proof {
                    assert(more@.subrange(0, more@.len() as int) =~= more@);
                }
            } else {
                let functions = match r.functions {
                    Functions::Preserve => false,
                    _ => true,
                };
                if functions && top_level_at(tree, i) {
                    if let Some(k) = declaration_at(tree, &names, i, r.functions) {
                        out.push(Rewrite::Declaration { node: i, keyword: k });
                    }
                }
            }
        }
        proof {
            assert(out@ =~= before + node_rewrites(*tree, names@, *r, held@, i as int));
        }
        i = i + 1;
    }
    Ok(out)
}


/// Every binding of local statement `id` is a plain name whose resolved
/// usage counts no write.
pub open spec fn never_written(tree: Tree, v: NamesView, id: int) -> bool {
    tree.nodes@[id].shape matches Shape::Local { bindings, .. } && forall|b: int|
        0 <= b < bindings@.len() ==> (tree.nodes@[#[trigger] bindings@[b] as int].shape matches Shape::Binding {
            name,
            ..
        } && usage_at(v, tree.nodes@[name as int].start) matches Some(u) && u.writes == 0)
}

/// The local bound at name `name` is never read nor written, and its name
/// does not start with `_`.
pub open spec fn unused_name(tree: Tree, v: NamesView, name: int) -> bool {
    usage_at(v, tree.nodes@[name].start) matches Some(u) && u.reads == 0 && u.writes == 0 && !(
    tree.nodes@[name].text@.len() > 0 && tree.nodes@[name].text@[0] == '_')
}

/// A rewrite that makes a statement `const` goes to a statement whose
/// bindings are never written; one that renames or removes a binding goes to
/// a name that is never used.
pub open spec fn const_only_unwritten(tree: Tree, v: NamesView, x: Rewrite) -> bool {
    &&& (x matches Rewrite::Keyword { node, keyword: Keyword::Const } ==> never_written(tree, v, node as int))
    &&& (x matches Rewrite::Underscore { name } ==> unused_name(tree, v, name as int))
    &&& (x matches Rewrite::Remove { node } ==> (tree.nodes@[node as int].shape matches Shape::Local {
        bindings,
        ..
    } && bindings@.len() == 1 && (tree.nodes@[bindings@[0] as int].shape matches Shape::Binding { name, .. }
        && unused_name(tree, v, name as int))))
}

proof fn lemma_node_const(tree: Tree, v: NamesView, r: Rewrites, held: Seq<(usize, usize)>, i: int)
    requires
        tree.wf(),
        tree.len() <= usize::MAX,
        0 <= i < tree.len(),
    ensures
        forall|k: int|
            0 <= k < node_rewrites(tree, v, r, held, i).len() ==> const_only_unwritten(
                tree,
                v,
                #[trigger] node_rewrites(tree, v, r, held, i)[k],
            ),
{
    let node = tree.nodes@[i];
    let s = node_rewrites(tree, v, r, held, i);
    if !held_over(held, node.start, node.end) && node.shape is Local {
        assert(s == local_rewrites(tree, v, r, i));
        match node.shape {
            Shape::Local { bindings, values, .. } => {
                let constant = if r.constants.enabled && values@.len() > 0 && !any_mutable(tree, v, r, bindings@) {
                    Some(Keyword::Const)
                } else {
                    None
                };
                if constant == Some(Keyword::Const) {
                    assert forall|b: int| 0 <= b < bindings@.len() implies (tree.nodes@[#[trigger] bindings@[
                        b
                    ] as int].shape matches Shape::Binding { name, .. } && usage_at(
                        v,
                        tree.nodes@[name as int].start,
                    ) matches Some(u) && u.writes == 0) by {
                        assert(!binding_mutable(tree, v, r, bindings@[b]));
                    }
                    assert(never_written(tree, v, i));
                }
                match required_name(tree, i) {
                    Some(name) => {
                        let u = usage_at(v, tree.nodes@[name as int].start);
                        let k = match r.binding {
                            Binding::Local => Some(Keyword::Local),
                            Binding::Const => if u is Some && u->0.writes == 0 {
                                Some(Keyword::Const)
                            } else {
                                constant
                            },
                            Binding::Preserve => constant,
                        };
                        if k == Some(Keyword::Const) && constant != Some(Keyword::Const) {
                            assert(bindings@.len() == 1);
                            assert(tree.nodes@[bindings@[0] as int].shape matches Shape::Binding { name: n, .. }
                                && n == name);
                            assert forall|b: int| 0 <= b < bindings@.len() implies (tree.nodes@[
                                #[trigger] bindings@[b] as int
                            ].shape matches Shape::Binding { name, .. } && usage_at(
                                v,
                                tree.nodes@[name as int].start,
                            ) matches Some(u) && u.writes == 0) by {
                                assert(b == 0);
                            }
                            assert(never_written(tree, v, i));
                        }
                        assert((i as usize) as int == i);
                        let t = text_of(tree, name as int);
                        let unused = !(t.len() > 0 && t[0] == '_') && u is Some && u->0.reads == 0 && u->0.writes == 0;
                        assert forall|j: int| 0 <= j < s.len() implies const_only_unwritten(tree, v, #[trigger] s[j]) by {
                            if unused && r.unused == Imports::Remove && k is None {
                                assert(s == seq![Rewrite::Remove { node: i as usize }]);
                                assert(tree.nodes@[bindings@[0] as int].shape matches Shape::Binding { name: n, .. }
                                    && n == name);
                            } else if unused && r.unused == Imports::Underscore {
                                assert(s == seq![Rewrite::Underscore { name }] + keyword_edit(i, k));
                                if j > 0 {
                                    assert(s[j] == keyword_edit(i, k)[j - 1]);
                                }
                            } else {
                                assert(s == keyword_edit(i, k));
                            }
                        }
                    },
                    None => {
                        assert((i as usize) as int == i);
                        assert(s == keyword_edit(i, constant));
                    },
                }
            },
            _ => {},
        }
    } else if !held_over(held, node.start, node.end) && top_level(tree, i) && r.functions != Functions::Preserve {
        assert forall|j: int| 0 <= j < s.len() implies !(#[trigger] s[j] is Keyword) by {}
    }
}

proof fn lemma_upto_const(tree: Tree, v: NamesView, r: Rewrites, held: Seq<(usize, usize)>, m: int)
    requires
        tree.wf(),
        tree.len() <= usize::MAX,
        0 <= m <= tree.len(),
    ensures
        forall|k: int|
            0 <= k < rewrites_upto(tree, v, r, held, m).len() ==> const_only_unwritten(
                tree,
                v,
                #[trigger] rewrites_upto(tree, v, r, held, m)[k],
            ),
    decreases m,
{
    if m > 0 {
        lemma_upto_const(tree, v, r, held, m - 1);
        lemma_node_const(tree, v, r, held, m - 1);
        let a = rewrites_upto(tree, v, r, held, m - 1);
        let b = node_rewrites(tree, v, r, held, m - 1);
        assert forall|k: int| 0 <= k < (a + b).len() implies const_only_unwritten(tree, v, #[trigger] (a + b)[k]) by {
            if k < a.len() {
                assert((a + b)[k] == a[k]);
            } else {
                assert((a + b)[k] == b[k - a.len()]);
            }
        }
    }
}

/// A local statement is made `const` only when every name it binds is a
/// plain binding that scope resolution counts as never written: whatever the
/// options and held ranges, no `Keyword { keyword: Const }` rewrite of
/// `bindings` goes to a statement one of whose locals is assigned again. And
/// a require binding is renamed or removed only when its local is never read
/// nor written and its name does not start with `_`.
pub proof fn law_constants_are_never_written(tree: Tree, r: Rewrites, held: Seq<(usize, usize)>, k: int)
    requires
        tree.wf(),
        tree.len() <= usize::MAX,
        0 <= k < rewrites_upto(tree, resolution(tree), r, held, tree.len()).len(),
    ensures
        rewrites_upto(tree, resolution(tree), r, held, tree.len())[k] matches Rewrite::Keyword {
            node,
            keyword: Keyword::Const,
        } ==> (tree.nodes@[node as int].shape matches Shape::Local { bindings, .. } && forall|b: int|
            0 <= b < bindings@.len() ==> (tree.nodes@[#[trigger] bindings@[b] as int].shape matches Shape::Binding {
                name,
                ..
            } && usage_at(resolution(tree), tree.nodes@[name as int].start) matches Some(u) && u.writes == 0)),
        rewrites_upto(tree, resolution(tree), r, held, tree.len())[k] matches Rewrite::Underscore { name } ==> (usage_at(
            resolution(tree),
            tree.nodes@[name as int].start,
        ) matches Some(u) && u.reads == 0 && u.writes == 0 && !(tree.nodes@[name as int].text@.len() > 0
            && tree.nodes@[name as int].text@[0] == '_')),
        rewrites_upto(tree, resolution(tree), r, held, tree.len())[k] matches Rewrite::Remove { node } ==> (
        tree.nodes@[node as int].shape matches Shape::Local { bindings, .. } && bindings@.len() == 1 && (tree.nodes@[
            bindings@[0] as int
        ].shape matches Shape::Binding { name, .. } && (usage_at(
            resolution(tree),
            tree.nodes@[name as int].start,
        ) matches Some(u) && u.reads == 0 && u.writes == 0 && !(tree.nodes@[name as int].text@.len() > 0
            && tree.nodes@[name as int].text@[0] == '_')))),
{
    lemma_upto_const(tree, resolution(tree), r, held, tree.len());
    assert(const_only_unwritten(tree, resolution(tree), rewrites_upto(tree, resolution(tree), r, held, tree.len())[k]));
}

} // verus!
