//! The versions of the documents the editor has open, as notifications
//! change them, and whether a diagnostics publication is still current.

use vstd::prelude::*;

verus! {

/// A notification that changes the open documents.
pub enum Event {
    /// A document was opened at a version.
    Open(String, i32),
    /// A document changed to a version; a version older than the known one
    /// leaves it unchanged.
    Change(String, i32),
    /// A document was closed.
    Close(String),
    /// A document moved from the first URI to the second.
    Moved(String, String),
}

/// The version of each open document, by URI; each URI at most once (`wf`).
pub struct Versions {
    pub documents: Vec<(String, i32)>,
}

/// What to do with a publication of diagnostics.
#[derive(Debug, PartialEq, Eq, Structural)]
pub enum Publish {
    /// Send it.
    Send,
    /// Skip it: its document version is not the current one.
    Skip,
    /// Stop publishing: a newer notification has started.
    Stop,
}

/// URI and version of each entry.
pub open spec fn entries(d: Seq<(String, i32)>) -> Seq<(Seq<char>, i32)> {
    d.map_values(|e: (String, i32)| (e.0@, e.1))
}

/// The version of the first entry for `uri`.
pub open spec fn lookup(d: Seq<(Seq<char>, i32)>, uri: Seq<char>) -> Option<i32>
    decreases d.len(),
{
    if d.len() == 0 {
        None
    } else if d[0].0 == uri {
        Some(d[0].1)
    } else {
        lookup(d.drop_first(), uri)
    }
}

/// No URI has two entries.
pub open spec fn distinct(d: Seq<(Seq<char>, i32)>) -> bool {
    forall|i: int, j: int| 0 <= i < j < d.len() ==> #[trigger] d[i].0 != #[trigger] d[j].0
}

/// The version of `uri` once `event` is applied to the documents `d`.
pub open spec fn version_after(d: Seq<(Seq<char>, i32)>, event: Event, uri: Seq<char>) -> Option<i32> {
    match event {
        Event::Open(u, v) => if uri == u@ {
            Some(v)
        } else {
            lookup(d, uri)
        },
        Event::Change(u, v) => if uri == u@ {
            match lookup(d, uri) {
                Some(w) => Some(if w >= v {
                    w
                } else {
                    v
                }),
                None => None,
            }
        } else {
            lookup(d, uri)
        },
        Event::Close(u) => if uri == u@ {
            None
        } else {
            lookup(d, uri)
        },
        Event::Moved(from, to) => match lookup(d, from@) {
            None => lookup(d, uri),
            Some(w) => if uri == to@ {
                if to@ != from@ && lookup(d, to@) is Some {
                    lookup(d, to@)
                } else {
                    Some(w)
                }
            } else if uri == from@ {
                None
            } else {
                lookup(d, uri)
            },
        },
    }
}

proof fn lemma_lookup_at(d: Seq<(Seq<char>, i32)>, i: int)
    requires
        distinct(d),
        0 <= i < d.len(),
    ensures
        lookup(d, d[i].0) == Some(d[i].1),
    decreases i,
{
    if i > 0 {
        let rest = d.drop_first();
        assert(d[0].0 != d[i].0);
        assert(rest[i - 1] == d[i]);
        assert forall|a: int, b: int| 0 <= a < b < rest.len() implies #[trigger] rest[a].0 != #[trigger] rest[b].0 by {
            assert(rest[a] == d[a + 1] && rest[b] == d[b + 1]);
        }
        lemma_lookup_at(rest, i - 1);
    }
}

proof fn lemma_lookup_absent(d: Seq<(Seq<char>, i32)>, uri: Seq<char>)
    requires
        forall|i: int| 0 <= i < d.len() ==> #[trigger] d[i].0 != uri,
    ensures
        lookup(d, uri) is None,
    decreases d.len(),
{
    if d.len() > 0 {
        let rest = d.drop_first();
        assert forall|i: int| 0 <= i < rest.len() implies #[trigger] rest[i].0 != uri by {
            assert(rest[i] == d[i + 1]);
        }
        lemma_lookup_absent(rest, uri);
    }
}

/// In distinct entries, the version of `uri` is that of its entry, if any.
proof fn lemma_lookup(d: Seq<(Seq<char>, i32)>, uri: Seq<char>)
    requires
        distinct(d),
    ensures
        (exists|i: int| 0 <= i < d.len() && #[trigger] d[i].0 == uri && lookup(d, uri) == Some(d[i].1))
            || ((forall|i: int| 0 <= i < d.len() ==> #[trigger] d[i].0 != uri) && lookup(d, uri) is None),
{
    if exists|i: int| 0 <= i < d.len() && #[trigger] d[i].0 == uri {
        let i = choose|i: int| 0 <= i < d.len() && #[trigger] d[i].0 == uri;
        lemma_lookup_at(d, i);
    } else {
        lemma_lookup_absent(d, uri);
    }
}

proof fn lemma_update(d: Seq<(Seq<char>, i32)>, i: int, v: i32)
    requires
        distinct(d),
        0 <= i < d.len(),
    ensures
        distinct(d.update(i, (d[i].0, v))),
        forall|uri: Seq<char>| #[trigger] lookup(d.update(i, (d[i].0, v)), uri) == if uri == d[i].0 {
            Some(v)
        } else {
            lookup(d, uri)
        },
{
    let n = d.update(i, (d[i].0, v));
    assert forall|a: int, b: int| 0 <= a < b < n.len() implies #[trigger] n[a].0 != #[trigger] n[b].0 by {
        assert(n[a].0 == d[a].0 && n[b].0 == d[b].0);
    }
    assert forall|uri: Seq<char>| #[trigger] lookup(n, uri) == if uri == d[i].0 {
        Some(v)
    } else {
        lookup(d, uri)
    } by {
        lemma_lookup(d, uri);
        lemma_lookup(n, uri);
        if uri == d[i].0 {
            lemma_lookup_at(n, i);
        } else if exists|j: int| 0 <= j < d.len() && #[trigger] d[j].0 == uri {
            let j = choose|j: int| 0 <= j < d.len() && #[trigger] d[j].0 == uri;
            assert(n[j] == d[j]);
            lemma_lookup_at(n, j);
            lemma_lookup_at(d, j);
        } else {
            assert forall|j: int| 0 <= j < n.len() implies #[trigger] n[j].0 != uri by {
                assert(n[j].0 == d[j].0);
            }
            lemma_lookup_absent(n, uri);
        }
    }
}

proof fn lemma_push(d: Seq<(Seq<char>, i32)>, k: Seq<char>, v: i32)
    requires
        distinct(d),
        forall|j: int| 0 <= j < d.len() ==> #[trigger] d[j].0 != k,
    ensures
        distinct(d.push((k, v))),
        forall|uri: Seq<char>| #[trigger] lookup(d.push((k, v)), uri) == if uri == k {
            Some(v)
        } else {
            lookup(d, uri)
        },
{
    let n = d.push((k, v));
    assert forall|a: int, b: int| 0 <= a < b < n.len() implies #[trigger] n[a].0 != #[trigger] n[b].0 by {
        assert(n[a] == d[a]);
        if b < d.len() {
            assert(n[b] == d[b]);
        }
    }
    assert forall|uri: Seq<char>| #[trigger] lookup(n, uri) == if uri == k {
        Some(v)
    } else {
        lookup(d, uri)
    } by {
        lemma_lookup(d, uri);
        lemma_lookup(n, uri);
        if uri == k {
            lemma_lookup_at(n, d.len() as int);
        } else if exists|j: int| 0 <= j < d.len() && #[trigger] d[j].0 == uri {
            let j = choose|j: int| 0 <= j < d.len() && #[trigger] d[j].0 == uri;
            assert(n[j] == d[j]);
            lemma_lookup_at(n, j);
            lemma_lookup_at(d, j);
        } else {
            assert forall|j: int| 0 <= j < n.len() implies #[trigger] n[j].0 != uri by {
                if j < d.len() {
                    assert(n[j] == d[j]);
                }
            }
            lemma_lookup_absent(n, uri);
        }
    }
}

proof fn lemma_remove(d: Seq<(Seq<char>, i32)>, i: int)
    requires
        distinct(d),
        0 <= i < d.len(),
    ensures
        distinct(d.remove(i)),
        forall|uri: Seq<char>| #[trigger] lookup(d.remove(i), uri) == if uri == d[i].0 {
            None
        } else {
            lookup(d, uri)
        },
{
    let n = d.remove(i);
    assert forall|a: int| 0 <= a < n.len() implies #[trigger] n[a] == d[if a < i { a } else { a + 1 }] by {}
    assert forall|a: int, b: int| 0 <= a < b < n.len() implies #[trigger] n[a].0 != #[trigger] n[b].0 by {
        assert(n[a] == d[if a < i { a } else { a + 1 }]);
        assert(n[b] == d[if b < i { b } else { b + 1 }]);
    }
    assert forall|uri: Seq<char>| #[trigger] lookup(n, uri) == if uri == d[i].0 {
        None
    } else {
        lookup(d, uri)
    } by {
        lemma_lookup(d, uri);
        lemma_lookup(n, uri);
        if uri != d[i].0 && exists|j: int| 0 <= j < d.len() && #[trigger] d[j].0 == uri {
            let j = choose|j: int| 0 <= j < d.len() && #[trigger] d[j].0 == uri;
            let m = if j < i { j } else { j - 1 };
            assert(n[m] == d[j]);
            lemma_lookup_at(n, m);
            lemma_lookup_at(d, j);
        } else {
            assert forall|a: int| 0 <= a < n.len() implies #[trigger] n[a].0 != uri by {
                let j = if a < i { a } else { a + 1 };
                assert(n[a] == d[j]);
                if uri == d[i].0 {
                    assert(j != i);
                }
            }
            lemma_lookup_absent(n, uri);
        }
    }
}

impl Versions {
    /// Each URI has at most one entry.
    pub open spec fn wf(&self) -> bool {
        distinct(entries(self.documents@))
    }

    /// The version of the document `uri`, where it is open.
    pub open spec fn version(&self, uri: Seq<char>) -> Option<i32> {
        lookup(entries(self.documents@), uri)
    }

    /// No document open.
    pub fn new() -> (r: Versions)
        ensures
            r.wf(),
            forall|uri: Seq<char>| #[trigger] r.version(uri) is None,
    {
        let r = Versions { documents: Vec::new() };
        assert forall|uri: Seq<char>| #[trigger] r.version(uri) is None by {
            lemma_lookup_absent(entries(r.documents@), uri);
        }
        r
    }

    fn position(&self, uri: &String) -> (r: Option<usize>)
        requires
            self.wf(),
        ensures
            match r {
                Some(i) => i < self.documents@.len() && self.documents@[i as int].0@ == uri@,
                None => forall|i: int| 0 <= i < self.documents@.len() ==> #[trigger] self.documents@[i].0@ != uri@,
            },
    {
        let mut i: usize = 0;
        while i < self.documents.len()
            invariant
                i <= self.documents@.len(),
                forall|k: int| 0 <= k < i ==> #[trigger] self.documents@[k].0@ != uri@,
            decreases self.documents@.len() - i,
        {
            if self.documents[i].0 == *uri {
                return Some(i);
            }
            i = i + 1;
        }
        None
    }

    /// Applies a notification: what each document's version becomes is
    /// `version_after`.
    pub fn step(&mut self, event: Event)
        requires
            old(self).wf(),
        ensures
            final(self).wf(),
            forall|uri: Seq<char>| #[trigger] final(self).version(uri) == version_after(entries(old(self).documents@), event, uri),
    {
        let ghost before = entries(self.documents@);
        match event {
            Event::Open(u, v) => {
                match self.position(&u) {
                    Some(i) => {
                        proof {
                            lemma_update(before, i as int, v);
                        }
                        self.documents.set(i, (u, v));
                        assert(entries(self.documents@) =~= before.update(i as int, (before[i as int].0, v)));
                    },
                    None => {
                        proof {
                            lemma_push(before, u@, v);
                        }
                        self.documents.push((u, v));
                        assert(entries(self.documents@) =~= before.push((u@, v)));
                    },
                }
            },
            Event::Change(u, v) => {
                match self.position(&u) {
                    Some(i) => {
                        let w = self.documents[i].1;
                        let newest = if w >= v {
                            w
                        } else {
                            v
                        };
                        proof {
                            lemma_lookup_at(before, i as int);
                            lemma_update(before, i as int, newest);
                        }
                        self.documents.set(i, (u, newest));
                        assert(entries(self.documents@) =~= before.update(i as int, (before[i as int].0, newest)));
                    },
                    None => {
                        proof {
                            lemma_lookup_absent(before, u@);
                        }
                    },
                }
            },
            Event::Close(u) => {
                match self.position(&u) {
                    Some(i) => {
                        proof {
                            lemma_remove(before, i as int);
                        }
                        self.documents.remove(i);
                        assert(entries(self.documents@) =~= before.remove(i as int));
                    },
                    None => {
                        proof {
                            lemma_lookup_absent(before, u@);
                        }
                    },
                }
            },
            Event::Moved(from, to) => {
                match self.position(&from) {
                    Some(i) => {
                        let w = self.documents[i].1;
                        proof {
                            lemma_lookup_at(before, i as int);
                            lemma_remove(before, i as int);
                        }
                        self.documents.remove(i);
                        let ghost removed = before.remove(i as int);
                        assert(entries(self.documents@) =~= removed);
                        match self.position(&to) {
                            Some(j) => {
                                proof {
                                    lemma_lookup_at(removed, j as int);
                                }
                            },
                            None => {
                                proof {
                                    lemma_lookup_absent(removed, to@);
                                    lemma_push(removed, to@, w);
                                }
                                self.documents.push((to, w));
                                assert(entries(self.documents@) =~= removed.push((to@, w)));
                            },
                        }
                    },
                    None => {
                        proof {
                            lemma_lookup_absent(before, from@);
                        }
                    },
                }
            },
        }
    }

    /// What to do with a publication for the document `uri` at `version`,
    /// made by notification `generation` while `current` is the latest.
    pub fn publication(&self, generation: u64, current: u64, uri: &String, version: Option<i32>) -> (r: Publish)
        requires
            self.wf(),
        ensures
            r == if generation != current {
                Publish::Stop
            } else if self.version(uri@) == version {
                Publish::Send
            } else {
                Publish::Skip
            },
    {
        if generation != current {
            return Publish::Stop;
        }
        let known = match self.position(uri) {
            Some(i) => {
                proof {
                    lemma_lookup_at(entries(self.documents@), i as int);
                }
                Some(self.documents[i].1)
            },
            None => {
                proof {
                    lemma_lookup_absent(entries(self.documents@), uri@);
                }
                None
            },
        };
        if known == version {
            Publish::Send
        } else {
            Publish::Skip
        }
    }
}

} // verus!
