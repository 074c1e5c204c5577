//! Require graphs between modules: which modules lie on a dependency cycle.
//!
//! Modules are numbered from zero; an edge `(from, to)` says that `from`
//! requires `to`.

use vstd::prelude::*;
use petgraph::graph::{DiGraph, NodeIndex};

verus! {

/// Module `from` requires module `to` directly.
pub open spec fn linked(edges: Seq<(usize, usize)>, from: int, to: int) -> bool {
    exists|i: int| 0 <= i < edges.len() && edges[i].0 == from && edges[i].1 == to
}

/// Step `i` of `path` follows an edge.
pub open spec fn step(edges: Seq<(usize, usize)>, path: Seq<int>, i: int) -> bool {
    linked(edges, path[i], path[i + 1])
}

/// `path` is a nonempty chain of modules, each requiring the next.
pub open spec fn walk(edges: Seq<(usize, usize)>, path: Seq<int>) -> bool {
    &&& path.len() > 0
    &&& forall|i: int| 0 <= i < path.len() - 1 ==> #[trigger] step(edges, path, i)
}

/// Module `from` requires module `to`, directly or through others, or is `to`.
pub open spec fn reaches(edges: Seq<(usize, usize)>, from: int, to: int) -> bool {
    exists|path: Seq<int>| #[trigger] walk(edges, path) && path[0] == from && path.last() == to
}

/// Each of `a` and `b` reaches the other.
pub open spec fn strongly_connected(edges: Seq<(usize, usize)>, a: int, b: int) -> bool {
    reaches(edges, a, b) && reaches(edges, b, a)
}

/// `members`, in ascending order, are exactly the modules below `modules`
/// strongly connected to the first of them.
pub open spec fn is_component(modules: int, edges: Seq<(usize, usize)>, members: Seq<usize>) -> bool {
    &&& members.len() > 0
    &&& forall|i: int, j: int| 0 <= i < j < members.len() ==> members[i] < members[j]
    &&& forall|i: int| 0 <= i < members.len() ==> members[i] < modules
    &&& forall|w: int|
        0 <= w < modules ==> (members.contains(w as usize) <==> strongly_connected(
            edges,
            members[0] as int,
            w,
        ))
}

/// Module `v` lies on a dependency cycle: it requires itself, or it is
/// strongly connected to another module.
pub open spec fn on_cycle(modules: int, edges: Seq<(usize, usize)>, v: int) -> bool {
    ||| linked(edges, v, v)
    ||| exists|w: int| 0 <= w < modules && w != v && strongly_connected(edges, v, w)
}

/// Every edge joins two of the first `count` modules.
pub open spec fn edges_within(count: int, edges: Seq<(usize, usize)>) -> bool {
    forall|i: int| 0 <= i < edges.len() ==> edges[i].0 < count && edges[i].1 < count
}

/// Module `v` is listed in one of `components`.
pub open spec fn placed(components: Seq<Vec<usize>>, v: int) -> bool {
    exists|k: int, j: int|
        0 <= k < components.len() && 0 <= j < components[k].len() && #[trigger] components[k][j]
            == v
}

/// `components` are nonempty lists of modules below `count` in which every
/// such module is listed exactly once.
pub open spec fn partition(count: int, components: Seq<Vec<usize>>) -> bool {
    &&& forall|k: int| 0 <= k < components.len() ==> #[trigger] components[k].len() > 0
    &&& forall|k: int, j: int|
        0 <= k < components.len() && 0 <= j < components[k].len() ==> #[trigger] components[k][j]
            < count
    &&& forall|v: int| 0 <= v < count ==> #[trigger] placed(components, v)
    &&& forall|k1: int, j1: int, k2: int, j2: int|
        0 <= k1 < components.len() && 0 <= j1 < components[k1].len() && 0 <= k2 < components.len()
            && 0 <= j2 < components[k2].len() && #[trigger] components[k1][j1]
            == #[trigger] components[k2][j2] ==> k1 == k2 && j1 == j2
}

/// `petgraph::algo::kosaraju_scc` on a graph of `count` nodes and the given
/// edges, each node given by its index. As its documentation says, the
/// result holds the strongly connected components: every node lies in
/// exactly one of them, and two nodes share one exactly when each reaches
/// the other. The order of the components and of their nodes is not stated.
#[verifier::external_body]
fn strong_components(count: usize, edges: &Vec<(usize, usize)>) -> (components: Vec<Vec<usize>>)
    requires
        edges_within(count as int, edges@),
    ensures
        partition(count as int, components@),
        forall|k1: int, j1: int, k2: int, j2: int|
            0 <= k1 < components.len() && 0 <= j1 < components[k1].len() && 0 <= k2
                < components.len() && 0 <= j2 < components[k2].len() ==> (k1 == k2
                <==> strongly_connected(
                edges@,
                #[trigger] components[k1][j1] as int,
                #[trigger] components[k2][j2] as int,
            )),
{
    let mut graph = DiGraph::<(), (), usize>::with_capacity(count, edges.len());
    for _ in 0..count {
        graph.add_node(());
    }
    for &(from, to) in edges.iter() {
        graph.add_edge(NodeIndex::new(from), NodeIndex::new(to), ());
    }
    let components = petgraph::algo::kosaraju_scc(&graph);
    components.into_iter().map(|nodes| nodes.into_iter().map(|node| node.index()).collect()).collect()
}

/// For each module, the index of the component that lists it.
fn owners(count: usize, components: &Vec<Vec<usize>>) -> (owner: Vec<usize>)
    requires
        partition(count as int, components@),
    ensures
        owner.len() == count,
        forall|k: int, j: int|
            0 <= k < components.len() && 0 <= j < components[k].len() ==> owner[(
            #[trigger] components[k][j]) as int] == k,
{
    let mut owner: Vec<usize> = Vec::new();
    let mut v: usize = 0;
    while v < count
        invariant
            v <= count,
            owner.len() == v,
        decreases count - v,
    {
        owner.push(0);
        v += 1;
    }
    let mut k: usize = 0;
    while k < components.len()
        invariant
            k <= components.len(),
            owner.len() == count,
            partition(count as int, components@),
            forall|k2: int, j2: int|
                0 <= k2 < k && 0 <= j2 < components[k2].len() ==> owner[(
                #[trigger] components[k2][j2]) as int] == k2,
        decreases components.len() - k,
    {
        let mut j: usize = 0;
        while j < components[k].len()
            invariant
                k < components.len(),
                j <= components[k as int].len(),
                owner.len() == count,
                partition(count as int, components@),
                forall|k2: int, j2: int|
                    0 <= k2 < k && 0 <= j2 < components[k2].len() ==> owner[(
                    #[trigger] components[k2][j2]) as int] == k2,
                forall|j2: int|
                    0 <= j2 < j ==> owner[(#[trigger] components[k as int][j2]) as int] == k,
            decreases components[k as int].len() - j,
        {
            let m = components[k][j];
            owner.set(m, k);
            j += 1;
        }
        k += 1;
    }
    owner
}

/// Some edge before position `end` joins module `v` to itself.
pub open spec fn looped_before(edges: Seq<(usize, usize)>, v: int, end: int) -> bool {
    exists|e: int| 0 <= e < end && #[trigger] edges[e].0 == v && edges[e].1 == v
}

/// For each module, whether some edge joins it to itself.
fn self_loops(count: usize, edges: &Vec<(usize, usize)>) -> (looped: Vec<bool>)
    requires
        edges_within(count as int, edges@),
    ensures
        looped.len() == count,
        forall|v: int| 0 <= v < count ==> looped[v] == linked(edges@, v, v),
{
    let mut looped: Vec<bool> = Vec::new();
    let mut v: usize = 0;
    while v < count
        invariant
            v <= count,
            looped.len() == v,
            forall|w: int| 0 <= w < v ==> !looped[w],
        decreases count - v,
    {
        looped.push(false);
        v += 1;
    }
    let mut e: usize = 0;
    while e < edges.len()
        invariant
            e <= edges.len(),
            looped.len() == count,
            edges_within(count as int, edges@),
            forall|w: int| 0 <= w < count ==> looped[w] == looped_before(edges@, w, e as int),
        decreases edges.len() - e,
    {
        let (from, to) = edges[e];
        if from == to {
            looped.set(from, true);
        }
        assert forall|w: int| 0 <= w < count implies looped[w] == looped_before(
            edges@,
            w,
            e + 1,
        ) by {
            if looped_before(edges@, w, e as int) {
                let x = choose|x: int| 0 <= x < e && #[trigger] edges@[x].0 == w && edges@[x].1 == w;
                assert(0 <= x < e + 1 && edges@[x].0 == w && edges@[x].1 == w);
            }
            if looped_before(edges@, w, e + 1) && !looped_before(edges@, w, e as int) {
                let x = choose|x: int|
                    0 <= x < e + 1 && #[trigger] edges@[x].0 == w && edges@[x].1 == w;
                assert(x == e);
            }
            if from == to && w == from {
                assert(edges@[e as int].0 == w && edges@[e as int].1 == w);
            }
        }
        e += 1;
    }
    assert forall|w: int| 0 <= w < count implies looped_before(edges@, w, edges.len() as int)
        == linked(edges@, w, w) by {
        if linked(edges@, w, w) {
            let x = choose|x: int| 0 <= x < edges.len() && edges@[x].0 == w && edges@[x].1 == w;
            assert(edges@[x].0 == w && edges@[x].1 == w);
        }
    }
    looped
}

/// The modules from `first` on whose owner is `k`, in ascending order.
fn members(owner: &Vec<usize>, k: usize, first: usize) -> (found: Vec<usize>)
    requires
        first < owner.len(),
        owner[first as int] == k,
    ensures
        found.len() > 0,
        found[0] == first,
        forall|i: int, j: int| 0 <= i < j < found.len() ==> found[i] < found[j],
        forall|i: int| 0 <= i < found.len() ==> first <= #[trigger] found[i] < owner.len(),
        forall|x: int|
            first <= x < owner.len() ==> (found@.contains(x as usize) <==> owner[x] == k),
        forall|x: int| 0 <= x < first ==> !(#[trigger] found@.contains(x as usize)),
{
    let mut found: Vec<usize> = Vec::new();
    let mut x: usize = first;
    while x < owner.len()
        invariant
            first <= x <= owner.len(),
            owner[first as int] == k,
            x > first ==> found.len() > 0 && found[0] == first,
            forall|i: int, j: int| 0 <= i < j < found.len() ==> found[i] < found[j],
            forall|i: int| 0 <= i < found.len() ==> first <= #[trigger] found[i] < x,
            forall|i: int| 0 <= i < found.len() ==> owner[found[i] as int] == k,
            forall|y: int| first <= y < x && owner[y] == k ==> found@.contains(y as usize),
        decreases owner.len() - x,
    {
        if owner[x] == k {
            let ghost before = found@;
            found.push(x);
            assert forall|y: int| first <= y < x + 1 && owner[y] == k implies found@.contains(
                y as usize,
            ) by {
                if y < x {
                    let i = choose|i: int| 0 <= i < before.len() && before[i] == y as usize;
                    assert(found@[i] == y as usize);
                } else {
                    assert(found@[before.len() as int] == y as usize);
                }
            }
        }
        x += 1;
    }
    assert forall|y: int| first <= y < owner.len() && found@.contains(y as usize) implies owner[y]
        == k by {
        let i = choose|i: int| 0 <= i < found.len() && found@[i] == y as usize;
        assert(owner[found[i] as int] == k);
    }
    found
}

/// A sequence holding two different values has at least two items.
proof fn lemma_two_items(s: Seq<usize>, a: usize, b: usize)
    requires
        s.contains(a),
        s.contains(b),
        a != b,
    ensures
        s.len() > 1,
{
    let i = choose|i: int| 0 <= i < s.len() && s[i] == a;
    let j = choose|j: int| 0 <= j < s.len() && s[j] == b;
    assert(i != j);
}

/// A walk to `b` followed by a walk from `b` is a walk.
proof fn lemma_reaches_transitive(edges: Seq<(usize, usize)>, a: int, b: int, c: int)
    requires
        reaches(edges, a, b),
        reaches(edges, b, c),
    ensures
        reaches(edges, a, c),
{
    let p = choose|p: Seq<int>| #[trigger] walk(edges, p) && p[0] == a && p.last() == b;
    let q = choose|q: Seq<int>| #[trigger] walk(edges, q) && q[0] == b && q.last() == c;
    let r = p + q.skip(1);
    assert forall|i: int| 0 <= i < r.len() - 1 implies #[trigger] step(edges, r, i) by {
        if i < p.len() - 1 {
            assert(step(edges, p, i));
            assert(r[i] == p[i] && r[i + 1] == p[i + 1]);
        } else {
            let j = i - (p.len() - 1);
            assert(step(edges, q, j));
            assert(r[i] == q[j]);
            assert(r[i + 1] == q[j + 1]);
        }
    }
    if q.len() == 1 {
        assert(r =~= p);
    } else {
        assert(r.last() == q.last());
    }
    assert(walk(edges, r) && r[0] == a && r.last() == c);
}

/// Two components whose first modules differ share no module.
proof fn lemma_components_disjoint(
    modules: int,
    edges: Seq<(usize, usize)>,
    a: Seq<usize>,
    b: Seq<usize>,
)
    requires
        is_component(modules, edges, a),
        is_component(modules, edges, b),
        a[0] < b[0],
    ensures
        forall|i: int, j: int| 0 <= i < a.len() && 0 <= j < b.len() ==> a[i] != b[j],
{
    assert forall|i: int, j: int| 0 <= i < a.len() && 0 <= j < b.len() implies a[i] != b[j] by {
        if a[i] == b[j] {
            let w = a[i] as int;
            assert(a.contains(w as usize));
            assert(b.contains(w as usize));
            assert(strongly_connected(edges, a[0] as int, w));
            assert(strongly_connected(edges, b[0] as int, w));
            lemma_reaches_transitive(edges, b[0] as int, w, a[0] as int);
            lemma_reaches_transitive(edges, a[0] as int, w, b[0] as int);
            let first = a[0] as int;
            assert(strongly_connected(edges, b[0] as int, first));
            assert(b.contains(first as usize));
            let m = choose|m: int| 0 <= m < b.len() && b[m] == a[0];
            if m > 0 {
                assert(b[0] < b[m]);
            }
        }
    }
}

/// Every module of a component that holds a cycle lies on a cycle.
proof fn lemma_members_on_cycle(modules: int, edges: Seq<(usize, usize)>, a: Seq<usize>)
    requires
        is_component(modules, edges, a),
        a.len() > 1 || linked(edges, a[0] as int, a[0] as int),
    ensures
        forall|i: int| 0 <= i < a.len() ==> on_cycle(modules, edges, #[trigger] a[i] as int),
{
    assert forall|i: int| 0 <= i < a.len() implies on_cycle(modules, edges, #[trigger] a[i] as int) by {
        if a.len() > 1 {
            if i == 0 {
                let w = a[1] as int;
                assert(a.contains(w as usize));
                assert(a[0] < a[1]);
                assert(0 <= a[1] < modules && a[1] != a[0] && strongly_connected(
                    edges,
                    a[0] as int,
                    a[1] as int,
                ));
            } else {
                let w = a[i] as int;
                assert(a.contains(w as usize));
                assert(strongly_connected(edges, a[0] as int, w));
                assert(a[0] < a[i]);
                assert(0 <= a[0] < modules && a[0] != a[i] && strongly_connected(
                    edges,
                    a[i] as int,
                    a[0] as int,
                ));
            }
        }
    }
}

/// A graph of `modules` modules, numbered from zero, and the edges between
/// them; an edge `(from, to)` says that `from` requires `to`.
pub struct Graph {
    pub modules: usize,
    pub edges: Vec<(usize, usize)>,
}

impl Graph {
    /// Every edge joins two modules of the graph.
    pub open spec fn wf(&self) -> bool {
        edges_within(self.modules as int, self.edges@)
    }

    /// A graph with no modules.
    pub fn new() -> (graph: Graph)
        ensures
            graph.modules == 0,
            graph.edges@.len() == 0,
            graph.wf(),
    {
        Graph { modules: 0, edges: Vec::new() }
    }

    /// The strongly connected components that hold a dependency cycle: those
    /// of two or more modules, and single modules that require themselves.
    /// Each lists its modules in ascending order, and the components come in
    /// the order of their smallest module, which, as they share no module, is
    /// their lexicographic order.
    pub fn cycles(&self) -> (cycles: Vec<Vec<usize>>)
        requires
            self.wf(),
        ensures
            forall|c: int|
                0 <= c < cycles.len() ==> is_component(
                    self.modules as int,
                    self.edges@,
                    #[trigger] cycles[c]@,
                ) && (cycles[c].len() > 1 || linked(
                    self.edges@,
                    cycles[c][0] as int,
                    cycles[c][0] as int,
                )),
            forall|c: int, d: int| 0 <= c < d < cycles.len() ==> cycles[c][0] < cycles[d][0],
            forall|v: int|
                0 <= v < self.modules && #[trigger] on_cycle(self.modules as int, self.edges@, v)
                    ==> exists|c: int| 0 <= c < cycles.len() && cycles[c]@.contains(v as usize),
            forall|c: int, i: int|
                0 <= c < cycles.len() && 0 <= i < cycles[c].len() ==> on_cycle(
                    self.modules as int,
                    self.edges@,
                    #[trigger] cycles[c][i] as int,
                ),
            forall|c: int, d: int, i: int, j: int|
                0 <= c < d < cycles.len() && 0 <= i < cycles[c].len() && 0 <= j < cycles[d].len()
                    ==> #[trigger] cycles[c][i] != #[trigger] cycles[d][j],
    {
        let count = self.modules;
        let components = strong_components(count, &self.edges);
        let owner = owners(count, &components);
        let looped = self_loops(count, &self.edges);
        let ghost edges = self.edges@;
        let ghost n = count as int;
        proof {
            assert forall|v: int| 0 <= v < n implies owner[v] < components.len()
                && components[owner[v] as int]@.contains(v as usize) by {
                assert(placed(components@, v));
                let (k, j) = choose|k: int, j: int|
                    0 <= k < components.len() && 0 <= j < components[k].len()
                        && #[trigger] components[k][j] == v;
                assert(owner[(components[k][j]) as int] == k);
                assert(components[k]@[j] == v as usize);
            }
            assert forall|u: int, w: int| 0 <= u < n && 0 <= w < n implies (owner[u] == owner[w]
                <==> strongly_connected(edges, u, w)) by {
                let ju = choose|j: int|
                    0 <= j < components[owner[u] as int].len() && components[owner[u] as int]@[j]
                        == u as usize;
                let jw = choose|j: int|
                    0 <= j < components[owner[w] as int].len() && components[owner[w] as int]@[j]
                        == w as usize;
                assert(components[owner[u] as int][ju] == u);
                assert(components[owner[w] as int][jw] == w);
            }
        }
        let mut started: Vec<bool> = Vec::new();
        let mut k: usize = 0;
        while k < components.len()
            invariant
                k <= components.len(),
                started.len() == k,
                forall|c: int| 0 <= c < k ==> !started[c],
            decreases components.len() - k,
        {
            started.push(false);
            k += 1;
        }
        let mut cycles: Vec<Vec<usize>> = Vec::new();
        let mut v: usize = 0;
        while v < count
            invariant
                v <= count,
                n == count,
                edges == self.edges@,
                owner.len() == count,
                looped.len() == count,
                started.len() == components.len(),
                partition(n, components@),
                forall|k2: int, j: int|
                    0 <= k2 < components.len() && 0 <= j < components[k2].len() ==> owner[(
                    #[trigger] components[k2][j]) as int] == k2,
                forall|w: int| 0 <= w < n ==> looped[w] == linked(edges, w, w),
                forall|w: int|
                    0 <= w < n ==> owner[w] < components.len() && components[owner[w] as int]@.contains(
                        w as usize,
                    ),
                forall|u: int, w: int|
                    0 <= u < n && 0 <= w < n ==> (owner[u] == owner[w] <==> strongly_connected(
                        edges,
                        u,
                        w,
                    )),
                forall|c: int|
                    0 <= c < components.len() ==> (started[c] <==> exists|u: int|
                        0 <= u < v && #[trigger] owner[u] == c),
                forall|c: int|
                    0 <= c < cycles.len() ==> is_component(n, edges, #[trigger] cycles[c]@) && (
                    cycles[c].len() > 1 || linked(edges, cycles[c][0] as int, cycles[c][0] as int))
                        && cycles[c][0] < v,
                forall|c: int, d: int| 0 <= c < d < cycles.len() ==> cycles[c][0] < cycles[d][0],
                forall|w: int|
                    0 <= w < n && started[owner[w] as int] && #[trigger] on_cycle(n, edges, w)
                        ==> exists|c: int| 0 <= c < cycles.len() && cycles[c]@.contains(w as usize),
            decreases count - v,
        {
            let k = owner[v];
            let ghost old_started = started@;
            let ghost old_cycles = cycles@;
            if !started[k] {
                assert forall|u: int| 0 <= u < v implies owner[u] != k by {
                    if owner[u] == k {
                        assert(exists|x: int| 0 <= x < v && #[trigger] owner[x] == k as int);
                    }
                }
                started.set(k, true);
                if components[k].len() > 1 || looped[v] {
                    let found = members(&owner, k, v);
                    proof {
                        assert forall|w: int| 0 <= w < n implies (found@.contains(w as usize)
                            <==> strongly_connected(edges, found[0] as int, w)) by {
                            if w < v {
                                assert(owner[w] != k);
                            }
                        }
                        if components[k as int].len() > 1 {
                            let a = components[k as int][0];
                            let b = components[k as int][1];
                            assert(a != b);
                            assert(owner[(components[k as int][0]) as int] == k);
                            assert(owner[(components[k as int][1]) as int] == k);
                            assert(a >= v) by {
                                if a < v {
                                    assert(owner[a as int] != k);
                                }
                            }
                            assert(b >= v) by {
                                if b < v {
                                    assert(owner[b as int] != k);
                                }
                            }
                            lemma_two_items(found@, a, b);
                        }
                        assert(is_component(n, edges, found@));
                    }
                    cycles.push(found);
                    proof {
                        assert forall|c: int| 0 <= c < cycles.len() implies is_component(
                            n,
                            edges,
                            #[trigger] cycles[c]@,
                        ) && (cycles[c].len() > 1 || linked(
                            edges,
                            cycles[c][0] as int,
                            cycles[c][0] as int,
                        )) && cycles[c][0] < v + 1 by {
                            if c < old_cycles.len() {
                                assert(cycles[c] == old_cycles[c]);
                            }
                        }
                        assert forall|w: int|
                            0 <= w < n && started[owner[w] as int] && #[trigger] on_cycle(
                                n,
                                edges,
                                w,
                            ) implies exists|c: int|
                            0 <= c < cycles.len() && cycles[c]@.contains(w as usize) by {
                            if owner[w] == k {
                                assert(w >= v);
                                assert(cycles[old_cycles.len() as int]@.contains(w as usize));
                            } else {
                                assert(old_started[owner[w] as int]);
                                let c = choose|c: int|
                                    0 <= c < old_cycles.len() && old_cycles[c]@.contains(
                                        w as usize,
                                    );
                                assert(cycles[c] == old_cycles[c]);
                            }
                        }
                    }
                } else {
                    proof {
                        assert forall|w: int|
                            0 <= w < n && owner[w] == k implies !on_cycle(n, edges, w) by {
                            assert(components[k as int]@.contains(w as usize));
                            assert(components[k as int]@.contains(v as usize));
                            if linked(edges, w, w) {
                                if w != v {
                                    lemma_two_items(components[k as int]@, w as usize, v as usize);
                                }
                            }
                            if exists|x: int| 0 <= x < n && x != w && strongly_connected(edges, w, x) {
                                let x = choose|x: int|
                                    0 <= x < n && x != w && strongly_connected(edges, w, x);
                                assert(owner[x] == owner[w]);
                                assert(components[k as int]@.contains(x as usize));
                                lemma_two_items(components[k as int]@, w as usize, x as usize);
                            }
                        }
                    }
                }
            }
            proof {
                assert forall|c: int| 0 <= c < components.len() implies (started[c] <==> exists|u: int|
                    0 <= u < v + 1 && #[trigger] owner[u] == c) by {
                    if started[c] && c == owner[v as int] {
                        assert(0 <= v < v + 1 && owner[v as int] == c);
                    }
                    if started[c] && c != owner[v as int] {
                        assert(old_started[c]);
                        let u = choose|u: int| 0 <= u < v && #[trigger] owner[u] == c;
                        assert(0 <= u < v + 1 && owner[u] == c);
                    }
                    if exists|u: int| 0 <= u < v + 1 && #[trigger] owner[u] == c {
                        let u = choose|u: int| 0 <= u < v + 1 && #[trigger] owner[u] == c;
                        if u < v {
                            assert(old_started[c]);
                        }
                    }
                }
            }
            v += 1;
        }
        proof {
            assert forall|c: int, i: int|
                0 <= c < cycles.len() && 0 <= i < cycles[c].len() implies on_cycle(
                n,
                edges,
                #[trigger] cycles[c][i] as int,
            ) by {
                lemma_members_on_cycle(n, edges, cycles[c]@);
                assert(cycles[c]@[i] == cycles[c][i]);
            }
            assert forall|c: int, d: int, i: int, j: int|
                0 <= c < d < cycles.len() && 0 <= i < cycles[c].len() && 0 <= j
                    < cycles[d].len() implies #[trigger] cycles[c][i] != #[trigger] cycles[d][j] by {
                lemma_components_disjoint(n, edges, cycles[c]@, cycles[d]@);
                assert(cycles[c]@[i] == cycles[c][i]);
                assert(cycles[d]@[j] == cycles[d][j]);
            }
        }
        cycles
    }
}

} // verus!
