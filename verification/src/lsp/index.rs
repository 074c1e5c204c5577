//! The index of workspace files, their symbols, calls and dependencies, and
//! its invalidation when a file changes.

use vstd::prelude::*;

verus! {

/// What the index holds for one file.
pub struct File<E> {
    /// Symbols the file declares.
    pub symbols: Vec<E>,
    /// Calls the file makes.
    pub calls: Vec<E>,
    /// Paths of the files this one depends on.
    pub dependencies: Vec<String>,
}

/// Indexed files by path, in ascending path order (`wf`), so each path at
/// most once.
pub struct Index<E> {
    pub files: Vec<(String, File<E>)>,
}

/// Path `a` comes before path `b`: compared character by character with the
/// separator ranked first, which for paths without empty or `.` components is
/// the order `Path` gives them, component by component.
pub open spec fn path_lt(a: Seq<char>, b: Seq<char>) -> bool
    decreases a.len(),
{
    if a.len() == 0 {
        b.len() > 0
    } else if b.len() == 0 {
        false
    } else if a[0] != b[0] {
        if a[0] == '/' {
            true
        } else if b[0] == '/' {
            false
        } else {
            a[0] < b[0]
        }
    } else {
        path_lt(a.drop_first(), b.drop_first())
    }
}

pub proof fn lemma_path_irreflexive(a: Seq<char>)
    ensures
        !path_lt(a, a),
    decreases a.len(),
{
    if a.len() > 0 {
        lemma_path_irreflexive(a.drop_first());
    }
}

pub proof fn lemma_path_transitive(a: Seq<char>, b: Seq<char>, c: Seq<char>)
    requires
        path_lt(a, b),
        path_lt(b, c),
    ensures
        path_lt(a, c),
    decreases a.len(),
{
    if a.len() > 0 && b.len() > 0 && c.len() > 0 && a[0] == b[0] && b[0] == c[0] {
        lemma_path_transitive(a.drop_first(), b.drop_first(), c.drop_first());
    }
}

pub proof fn lemma_path_total(a: Seq<char>, b: Seq<char>)
    requires
        a != b,
    ensures
        path_lt(a, b) || path_lt(b, a),
    decreases a.len(),
{
    if a.len() > 0 && b.len() > 0 {
        if a[0] == b[0] {
            if a.drop_first() =~= b.drop_first() {
                assert forall|k: int| 0 <= k < a.len() implies a[k] == b[k] by {
                    if k > 0 {
                        assert(a[k] == a.drop_first()[k - 1]);
                        assert(b[k] == b.drop_first()[k - 1]);
                    }
                }
                assert(a =~= b);
            }
            lemma_path_total(a.drop_first(), b.drop_first());
        }
    } else if a.len() == 0 && b.len() == 0 {
        assert(a =~= b);
    }
}

/// The files are in strictly ascending path order.
pub open spec fn ascending_paths<E>(files: Seq<(String, File<E>)>) -> bool {
    forall|i: int, j: int| 0 <= i < j < files.len() ==> path_lt(#[trigger] files[i].0@, #[trigger] files[j].0@)
}

/// Whether path `a` comes before path `b`.
pub(crate) fn path_less(a: &str, b: &str) -> (r: bool)
    ensures
        r == path_lt(a@, b@),
{
    let x = crate::text::chars_of(a);
    let y = crate::text::chars_of(b);
    let mut i: usize = 0;
    assert(x@.skip(0) =~= x@);
    assert(y@.skip(0) =~= y@);
    while i < x.len() && i < y.len() && x[i] == y[i]
        invariant
            i <= x@.len(),
            i <= y@.len(),
            path_lt(a@, b@) == path_lt(x@.skip(i as int), y@.skip(i as int)),
            x@ == a@,
            y@ == b@,
        decreases x@.len() - i,
    {
        assert(x@.skip(i as int).drop_first() =~= x@.skip(i + 1));
        assert(y@.skip(i as int).drop_first() =~= y@.skip(i + 1));
        i = i + 1;
    }
    if i == x.len() {
        i < y.len()
    } else if i == y.len() {
        false
    } else {
        let c = x[i];
        let d = y[i];
        if c == d {
            false
        } else if c == '/' {
            true
        } else if d == '/' {
            false
        } else {
            c < d
        }
    }
}

/// Files in strictly ascending path order stay so when some are dropped.
proof fn lemma_filter_ascending<E>(files: Seq<(String, File<E>)>, keep: spec_fn((String, File<E>)) -> bool)
    requires
        ascending_paths(files),
    ensures
        ascending_paths(files.filter(keep)),
        forall|i: int| 0 <= i < files.filter(keep).len() ==> files.contains(#[trigger] files.filter(keep)[i]),
    decreases files.len(),
{
    reveal(Seq::filter);
    if files.len() > 0 {
        let front = files.drop_last();
        assert(ascending_paths(front)) by {
            assert forall|i: int, j: int| 0 <= i < j < front.len() implies path_lt(#[trigger] front[i].0@, #[trigger] front[j].0@) by {
                assert(front[i] == files[i] && front[j] == files[j]);
            }
        }
        lemma_filter_ascending(front, keep);
        let sub = front.filter(keep);
        let last = files.last();
        assert forall|i: int| 0 <= i < sub.len() implies path_lt(#[trigger] sub[i].0@, last.0@) by {
            assert(front.contains(sub[i]));
            let k = choose|k: int| 0 <= k < front.len() && front[k] == sub[i];
            assert(files[k] == front[k]);
            assert(files[files.len() - 1] == last);
        }
        if keep(last) {
            let out = sub.push(last);
            assert forall|i: int, j: int| 0 <= i < j < out.len() implies path_lt(#[trigger] out[i].0@, #[trigger] out[j].0@) by {
                if j == out.len() - 1 {
                    assert(out[i] == sub[i]);
                } else {
                    assert(out[i] == sub[i] && out[j] == sub[j]);
                }
            }
            assert forall|i: int| 0 <= i < out.len() implies files.contains(#[trigger] out[i]) by {
                if i == out.len() - 1 {
                    assert(files[files.len() - 1] == out[i]);
                } else {
                    assert(out[i] == sub[i]);
                    assert(front.contains(sub[i]));
                    let k = choose|k: int| 0 <= k < front.len() && front[k] == sub[i];
                    assert(files[k] == front[k]);
                }
            }
        } else {
            assert forall|i: int| 0 <= i < sub.len() implies files.contains(#[trigger] sub[i]) by {
                assert(front.contains(sub[i]));
                let k = choose|k: int| 0 <= k < front.len() && front[k] == sub[i];
                assert(files[k] == front[k]);
            }
        }
    }
}

/// The paths of a file's dependencies.
pub open spec fn dependency_paths<E>(f: File<E>) -> Set<Seq<char>> {
    Set::new(|p: Seq<char>| exists|i: int| 0 <= i < f.dependencies@.len() && #[trigger] f.dependencies@[i]@ == p)
}

/// Every file that depends on a path of `s` has its own path in `s`.
pub open spec fn closed<E>(files: Seq<(String, File<E>)>, s: Set<Seq<char>>) -> bool {
    forall|i: int|
        0 <= i < files.len() && !dependency_paths(#[trigger] files[i].1).disjoint(s) ==> s.contains(files[i].0@)
}

/// The paths invalidated by a change of `path`: `path` and every file that
/// depends, directly or through other files, on it; the least set that holds
/// `path` and every dependent of its members.
pub open spec fn invalidated<E>(files: Seq<(String, File<E>)>, path: Seq<char>) -> Set<Seq<char>> {
    Set::new(|k: Seq<char>| forall|t: Set<Seq<char>>| #[trigger] t.contains(path) && closed(files, t) ==> t.contains(k))
}

/// The paths of the indexed files, in order.
pub open spec fn paths<E>(files: Seq<(String, File<E>)>) -> Seq<Seq<char>> {
    files.map_values(|e: (String, File<E>)| e.0@)
}

/// How many files have their path in `s`.
pub open spec fn count_in<E>(files: Seq<(String, File<E>)>, s: Set<Seq<char>>) -> nat
    decreases files.len(),
{
    if files.len() == 0 {
        0
    } else {
        count_in(files.drop_last(), s) + if s.contains(files.last().0@) {
            1nat
        } else {
            0nat
        }
    }
}

proof fn lemma_count_in<E>(files: Seq<(String, File<E>)>, s: Set<Seq<char>>, u: Set<Seq<char>>)
    requires
        s.subset_of(u),
    ensures
        count_in(files, s) <= count_in(files, u) <= files.len(),
        (exists|i: int| 0 <= i < files.len() && u.contains(#[trigger] files[i].0@) && !s.contains(files[i].0@))
            ==> count_in(files, s) < count_in(files, u),
    decreases files.len(),
{
    if files.len() > 0 {
        let front = files.drop_last();
        lemma_count_in(front, s, u);
        if exists|i: int| 0 <= i < files.len() && u.contains(#[trigger] files[i].0@) && !s.contains(files[i].0@) {
            let i = choose|i: int| 0 <= i < files.len() && u.contains(#[trigger] files[i].0@) && !s.contains(files[i].0@);
            if i < front.len() {
                assert(front[i] == files[i]);
            }
        }
    }
}

/// The paths held by a vector of strings.
pub open spec fn path_set(v: Seq<String>) -> Set<Seq<char>> {
    Set::new(|p: Seq<char>| exists|i: int| 0 <= i < v.len() && #[trigger] v[i]@ == p)
}

/// The paths held by the first `k` strings of `v`.
pub open spec fn prefix_set(v: Seq<String>, k: int) -> Set<Seq<char>> {
    Set::new(|p: Seq<char>| exists|m: int| 0 <= m < k && #[trigger] v[m]@ == p)
}

fn holds(v: &Vec<String>, x: &String) -> (r: bool)
    ensures
        r == path_set(v@).contains(x@),
{
    let mut i: usize = 0;
    while i < v.len()
        invariant
            i <= v@.len(),
            forall|k: int| 0 <= k < i ==> v@[k]@ != x@,
        decreases v@.len() - i,
    {
        if v[i] == *x {
            assert(v@[i as int]@ == x@);
            return true;
        }
        i = i + 1;
    }
    false
}

fn touches<E>(f: &File<E>, changed: &Vec<String>) -> (r: bool)
    ensures
        r == !dependency_paths(*f).disjoint(path_set(changed@)),
{
    let mut i: usize = 0;
    while i < f.dependencies.len()
        invariant
            i <= f.dependencies@.len(),
            forall|k: int| 0 <= k < i ==> !path_set(changed@).contains(#[trigger] f.dependencies@[k]@),
        decreases f.dependencies@.len() - i,
    {
        if holds(changed, &f.dependencies[i]) {
            assert(dependency_paths(*f).contains(f.dependencies@[i as int]@));
            return true;
        }
        i = i + 1;
    }
    assert(dependency_paths(*f).disjoint(path_set(changed@)));
    false
}

impl<E> Index<E> {
    /// The indexed paths, in order.
    pub fn keys(&self) -> (r: Vec<String>)
        ensures
            r@.map_values(|k: String| k@) == paths(self.files@),
    {
        let mut r: Vec<String> = Vec::new();
        let mut i: usize = 0;
        while i < self.files.len()
            invariant
                i <= self.files@.len(),
                r@.len() == i,
                forall|j: int| 0 <= j < i ==> #[trigger] r@[j]@ == self.files@[j].0@,
            decreases self.files@.len() - i,
        {
            let c = self.files[i].0.clone();
            r.push(c);
            i = i + 1;
        }
        assert(r@.map_values(|k: String| k@) =~= paths(self.files@));
        r
    }

    /// Forgets `path` and every file that depends on it, directly or through
    /// other files, keeping the other files in order.
    pub fn invalidate(&mut self, path: &str)
        requires
            old(self).wf(),
        ensures
            final(self).wf(),
            final(self).files@ == old(self).files@.filter(|e: (String, File<E>)| !invalidated(old(self).files@, path@).contains(e.0@)),
    {
        let ghost files = self.files@;
        let mut changed: Vec<String> = Vec::new();
        changed.push(path.to_owned());
        assert(path_set(changed@).contains(path@)) by {
            assert(changed@[0]@ == path@);
        }
        loop
            invariant
                self.files@ == files,
                path_set(changed@).contains(path@),
                forall|t: Set<Seq<char>>| #[trigger] t.contains(path@) && closed(files, t) ==> path_set(changed@).subset_of(t),
            ensures
                closed(files, path_set(changed@)),
                path_set(changed@).contains(path@),
                forall|t: Set<Seq<char>>| #[trigger] t.contains(path@) && closed(files, t) ==> path_set(changed@).subset_of(t),
            decreases files.len() - count_in(files, path_set(changed@)),
        {
            let ghost before = path_set(changed@);
            let previous = changed.len();
            let mut i: usize = 0;
            let mut grown: Vec<String> = Vec::new();
            let ghost mut origin: Seq<int> = Seq::empty();
            while i < self.files.len()
                invariant
                    self.files@ == files,
                    i <= files.len(),
                    before == path_set(changed@),
                    origin.len() == grown@.len(),
                    forall|q: int| 0 <= q < grown@.len() ==> 0 <= #[trigger] origin[q] < i && grown@[q]@ == files[origin[q]].0@ && !dependency_paths(files[origin[q]].1).disjoint(before),
                    forall|j: int| 0 <= j < i && !dependency_paths(#[trigger] files[j].1).disjoint(before) ==> path_set(grown@).contains(files[j].0@),
                decreases files.len() - i,
            {
                if touches(&self.files[i].1, &changed) {
                    let ghost g = grown@;
                    assert(!dependency_paths(files[i as int].1).disjoint(before));
                    let c = self.files[i].0.clone();
                    grown.push(c);
                    assert(grown@[g.len() as int]@ == files[i as int].0@);
                    proof {
                        origin = origin.push(i as int);
                    }
                    assert forall|j: int| 0 <= j < i && !dependency_paths(#[trigger] files[j].1).disjoint(before) implies path_set(grown@).contains(files[j].0@) by {
                        let k = choose|k: int| 0 <= k < g.len() && #[trigger] g[k]@ == files[j].0@;
                        assert(grown@[k]@ == files[j].0@);
                    }
                }
                i = i + 1;
            }
            let mut k: usize = 0;
            let mut added = false;
            while k < grown.len()
                invariant
                    self.files@ == files,
                    k <= grown@.len(),
                    origin.len() == grown@.len(),
                    forall|q: int| 0 <= q < grown@.len() ==> 0 <= #[trigger] origin[q] < files.len() && grown@[q]@ == files[origin[q]].0@ && !dependency_paths(files[origin[q]].1).disjoint(before),
                    path_set(changed@) =~= before.union(prefix_set(grown@, k as int)),
                    added ==> exists|j: int| 0 <= j < files.len() && path_set(changed@).contains(#[trigger] files[j].0@) && !before.contains(files[j].0@),
                    !added ==> path_set(changed@) == before,
                decreases grown@.len() - k,
            {
                let ghost c = changed@;
                let x = grown[k].clone();
                assert(x@ == grown@[k as int]@);
                if !holds(&changed, &x) {
                    changed.push(x);
                    assert(changed@[c.len() as int]@ == grown@[k as int]@);
                    let ghost j = origin[k as int];
                    assert(path_set(changed@).contains(files[j].0@));
                    added = true;
                }
                assert(path_set(c).subset_of(path_set(changed@))) by {
                    assert forall|p: Seq<char>| path_set(c).contains(p) implies path_set(changed@).contains(p) by {
                        let m = choose|m: int| 0 <= m < c.len() && #[trigger] c[m]@ == p;
                        assert(changed@[m]@ == p);
                    }
                }
                assert(path_set(changed@) =~= before.union(prefix_set(grown@, k + 1))) by {
                    assert forall|p: Seq<char>| prefix_set(grown@, k + 1).contains(p) implies path_set(changed@).contains(p) by {
                        let m = choose|m: int| 0 <= m < k + 1 && #[trigger] grown@[m]@ == p;
                        if m < k {
                            assert(prefix_set(grown@, k as int).contains(p));
                        }
                    }
                    assert forall|p: Seq<char>| path_set(changed@).contains(p) implies before.union(prefix_set(grown@, k + 1)).contains(p) by {
                        let m = choose|m: int| 0 <= m < changed@.len() && #[trigger] changed@[m]@ == p;
                        if m < c.len() {
                            assert(c[m]@ == p);
                            assert(path_set(c).contains(p));
                            if !before.contains(p) {
                                let q = choose|q: int| 0 <= q < k && #[trigger] grown@[q]@ == p;
                                assert(grown@[q]@ == p);
                            }
                        } else {
                            assert(grown@[k as int]@ == p);
                        }
                    }
                }
                k = k + 1;
            }
            assert(path_set(grown@) =~= prefix_set(grown@, grown@.len() as int));
            if !added {
                assert(closed(files, path_set(changed@))) by {
                    assert forall|j: int| 0 <= j < files.len() && !dependency_paths(#[trigger] files[j].1).disjoint(path_set(changed@)) implies path_set(changed@).contains(files[j].0@) by {
                        assert(path_set(grown@).contains(files[j].0@));
                    }
                }
                break;
            }
            assert forall|t: Set<Seq<char>>| #[trigger] t.contains(path@) && closed(files, t) implies path_set(changed@).subset_of(t) by {
                assert forall|p: Seq<char>| path_set(changed@).contains(p) implies t.contains(p) by {
                    if !before.contains(p) {
                        assert(prefix_set(grown@, grown@.len() as int).contains(p));
                        let q = choose|q: int| 0 <= q < grown@.len() && #[trigger] grown@[q]@ == p;
                        let j = origin[q];
                        assert(before.subset_of(t));
                        assert(!dependency_paths(files[j].1).disjoint(t));
                    }
                }
            }
            proof {
                lemma_count_in(files, before, path_set(changed@));
            }
        }
        let ghost s = path_set(changed@);
        assert(s =~= invalidated(files, path@)) by {
            assert forall|p: Seq<char>| s.contains(p) implies invalidated(files, path@).contains(p) by {
                assert forall|t: Set<Seq<char>>| #[trigger] t.contains(path@) && closed(files, t) implies t.contains(p) by {
                    assert(s.subset_of(t));
                }
            }
            assert forall|p: Seq<char>| invalidated(files, path@).contains(p) implies s.contains(p) by {
                assert(s.contains(path@) && closed(files, s));
            }
        }
        let mut kept: Vec<(String, File<E>)> = Vec::new();
        let mut rest: Vec<(String, File<E>)> = Vec::new();
        std::mem::swap(&mut rest, &mut self.files);
        let mut i: usize = 0;
        let n = rest.len();
        while i < n
            invariant
                n == files.len(),
                i <= n,
                rest@ == files.skip(i as int),
                kept@ == files.take(i as int).filter(|e: (String, File<E>)| !s.contains(e.0@)),
                s == path_set(changed@),
            decreases n - i,
        {
            let e = rest.remove(0);
            assert(rest@ =~= files.skip(i + 1));
            assert(e == files[i as int]);
            let ghost before = kept@;
            let gone = holds(&changed, &e.0);
            if !gone {
                kept.push(e);
            }
            proof {
                let t = files.take(i + 1);
                assert(t.drop_last() =~= files.take(i as int));
                assert(t.last() == files[i as int]);
                reveal(Seq::filter);
                assert(t.filter(|e: (String, File<E>)| !s.contains(e.0@)) == t.drop_last().filter(|e: (String, File<E>)| !s.contains(e.0@)) + if !s.contains(t.last().0@) { seq![t.last()] } else { Seq::empty() });
                assert(kept@ =~= t.filter(|e: (String, File<E>)| !s.contains(e.0@)));
            }
            i = i + 1;
        }
        assert(files.take(n as int) =~= files);
        self.files = kept;
        proof {
            lemma_filter_ascending(files, |e: (String, File<E>)| !invalidated(files, path@).contains(e.0@));
        }
    }
}

impl<E> Index<E> {
    /// The files are in strictly ascending path order, so no path is indexed
    /// twice.
    pub open spec fn wf(&self) -> bool {
        ascending_paths(self.files@)
    }

    /// An empty index.
    pub fn new() -> (r: Index<E>)
        ensures
            r.files@.len() == 0,
            r.wf(),
    {
        Index { files: Vec::new() }
    }

    /// Indexes `file` under `path`, in place of what `path` held before, or
    /// at its place in path order.
    pub fn insert(&mut self, path: String, file: File<E>)
        requires
            old(self).wf(),
        ensures
            final(self).wf(),
            paths(old(self).files@).contains(path@) ==> exists|i: int|
                0 <= i < old(self).files@.len() && old(self).files@[i].0@ == path@ && final(self).files@
                    == old(self).files@.update(i, (old(self).files@[i].0, file)),
            !paths(old(self).files@).contains(path@) ==> exists|k: int|
                0 <= k <= old(self).files@.len() && final(self).files@ == old(self).files@.insert(
                    k,
                    (path, file),
                ),
    {
        let mut i: usize = 0;
        while i < self.files.len()
            invariant
                i <= self.files@.len(),
                self.files@ == old(self).files@,
                ascending_paths(self.files@),
                forall|k: int| 0 <= k < i ==> path_lt(#[trigger] self.files@[k].0@, path@),
            decreases self.files@.len() - i,
        {
            if self.files[i].0 == path {
                let ghost before = self.files@;
                assert(paths(old(self).files@)[i as int] == path@);
                let mut rest = self.files.split_off(i);
                let (key, _) = rest.remove(0);
                self.files.push((key, file));
                self.files.append(&mut rest);
                assert(self.files@ =~= before.update(i as int, (before[i as int].0, file)));
                assert forall|a: int, b: int| 0 <= a < b < self.files@.len() implies path_lt(
                    #[trigger] self.files@[a].0@,
                    #[trigger] self.files@[b].0@,
                ) by {
                    assert(self.files@[a].0@ == before[a].0@);
                    assert(self.files@[b].0@ == before[b].0@);
                }
                return;
            }
            if path_less(path.as_str(), self.files[i].0.as_str()) {
                let ghost before = self.files@;
                proof {
                    assert forall|k: int| i <= k < before.len() implies path_lt(path@, #[trigger] before[k].0@) by {
                        if k > i {
                            lemma_path_transitive(path@, before[i as int].0@, before[k].0@);
                        }
                    }
                    assert(!paths(before).contains(path@)) by {
                        if paths(before).contains(path@) {
                            let k = choose|k: int| 0 <= k < paths(before).len() && paths(before)[k] == path@;
                            assert(before[k].0@ == path@);
                            lemma_path_irreflexive(path@);
                        }
                    }
                }
                self.files.insert(i, (path, file));
                assert forall|a: int, b: int| 0 <= a < b < self.files@.len() implies path_lt(
                    #[trigger] self.files@[a].0@,
                    #[trigger] self.files@[b].0@,
                ) by {
                    if b < i {
                        assert(self.files@[a] == before[a] && self.files@[b] == before[b]);
                    } else if b == i {
                        assert(self.files@[a] == before[a]);
                    } else if a == i {
                        assert(self.files@[b] == before[b - 1]);
                    } else if a < i {
                        assert(self.files@[a] == before[a] && self.files@[b] == before[b - 1]);
                    } else {
                        assert(self.files@[a] == before[a - 1] && self.files@[b] == before[b - 1]);
                    }
                }
                return;
            }
            proof {
                lemma_path_total(path@, self.files@[i as int].0@);
            }
            i = i + 1;
        }
        let ghost before = self.files@;
        assert(!paths(before).contains(path@)) by {
            if paths(before).contains(path@) {
                let k = choose|k: int| 0 <= k < paths(before).len() && paths(before)[k] == path@;
                assert(before[k].0@ == path@);
                lemma_path_irreflexive(path@);
            }
        }
        self.files.push((path, file));
        assert(self.files@ =~= before.insert(before.len() as int, self.files@.last()));
        assert forall|a: int, b: int| 0 <= a < b < self.files@.len() implies path_lt(
            #[trigger] self.files@[a].0@,
            #[trigger] self.files@[b].0@,
        ) by {
            assert(self.files@[a] == before[a]);
            if b < before.len() {
                assert(self.files@[b] == before[b]);
            }
        }
    }
}

/// Invalidating `path` forgets `path` itself, and every file that depends on
/// a forgotten file is forgotten too; nothing else is, for any set with those
/// two properties holds every forgotten path.
pub proof fn law_invalidation_closed<E>(files: Seq<(String, File<E>)>, path: Seq<char>)
    ensures
        invalidated(files, path).contains(path),
        closed(files, invalidated(files, path)),
        forall|t: Set<Seq<char>>| #[trigger] t.contains(path) && closed(files, t) ==> invalidated(files, path).subset_of(t),
{
    let s = invalidated(files, path);
    assert forall|i: int| 0 <= i < files.len() && !dependency_paths(#[trigger] files[i].1).disjoint(s) implies s.contains(files[i].0@) by {
        let p = choose|p: Seq<char>| dependency_paths(files[i].1).contains(p) && s.contains(p);
        assert forall|t: Set<Seq<char>>| #[trigger] t.contains(path) && closed(files, t) implies t.contains(files[i].0@) by {
            assert(t.contains(p));
            assert(!dependency_paths(files[i].1).disjoint(t));
        }
    }
}

} // verus!
