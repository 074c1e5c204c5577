//! Paths as sequences of parts, and their lexical normalization.

use vstd::prelude::*;

verus! {

/// One part of a path, as `Path::components` yields it.
#[derive(Debug, Clone)]
pub enum PathPart {
    /// A Windows prefix such as `C:`.
    Prefix(String),
    /// The root directory.
    RootDir,
    /// `.`
    CurDir,
    /// `..`
    ParentDir,
    /// A file or directory name.
    Normal(String),
}

/// `parts` without its last name, when it ends in a name: what
/// `PathBuf::pop` does to a path of prefixes, roots and names.
pub open spec fn popped(parts: Seq<PathPart>) -> Seq<PathPart> {
    if parts.len() > 0 && parts.last() is Normal {
        parts.drop_last()
    } else {
        parts
    }
}

/// The lexical normal form of an absolute path: `.` dropped, and each `..`
/// taking away the name before it, never the root.
pub open spec fn normalized(parts: Seq<PathPart>) -> Seq<PathPart>
    decreases parts.len(),
{
    if parts.len() == 0 {
        seq![]
    } else {
        let front = normalized(parts.drop_last());
        match parts.last() {
            PathPart::CurDir => front,
            PathPart::ParentDir => popped(front),
            other => front.push(other),
        }
    }
}

/// A path with no `.` or `..` part.
pub open spec fn plain(parts: Seq<PathPart>) -> bool {
    forall|i: int| 0 <= i < parts.len() ==> !(#[trigger] parts[i] is CurDir) && !(parts[i] is ParentDir)
}

/// The parts of an absolute path, lexically normalized. The spelling of
/// symbolic links is kept, as Luau's own file navigation keeps it.
pub fn absolute(parts: Vec<PathPart>) -> (r: Vec<PathPart>)
    ensures
        r@ == normalized(parts@),
{
    let ghost all = parts@;
    let mut rest = parts;
    let mut result: Vec<PathPart> = Vec::new();
    let mut i: usize = 0;
    let n = rest.len();
    while i < n
        invariant
            n == all.len(),
            i <= n,
            rest@ == all.skip(i as int),
            result@ == normalized(all.take(i as int)),
        decreases n - i,
    {
        let part = rest.remove(0);
        assert(rest@ =~= all.skip(i + 1));
        assert(part == all[i as int]);
        assert(all.take(i + 1).drop_last() =~= all.take(i as int));
        match part {
            PathPart::CurDir => {},
            PathPart::ParentDir => {
                let k = result.len();
                if k > 0 {
                    let last_is_name = match &result[k - 1] {
                        PathPart::Normal(_) => true,
                        _ => false,
                    };
                    if last_is_name {
                        result.pop();
                    }
                }
            },
            other => {
                result.push(other);
            },
        }
        i = i + 1;
    }
    assert(all.take(n as int) =~= all);
    result
}

proof fn lemma_normalized_plain(parts: Seq<PathPart>)
    ensures
        plain(normalized(parts)),
    decreases parts.len(),
{
    if parts.len() > 0 {
        lemma_normalized_plain(parts.drop_last());
    }
}

proof fn lemma_plain_fixed(parts: Seq<PathPart>)
    requires
        plain(parts),
    ensures
        normalized(parts) == parts,
    decreases parts.len(),
{
    if parts.len() > 0 {
        assert(!(parts.last() is CurDir) && !(parts.last() is ParentDir)) by {
            assert(parts[parts.len() - 1] == parts.last());
        }
        lemma_plain_fixed(parts.drop_last());
        assert(parts.drop_last().push(parts.last()) =~= parts);
    }
}

/// A normalized path holds no `.` or `..`, and normalizing it again changes
/// nothing.
pub proof fn law_absolute_idempotent(parts: Seq<PathPart>)
    ensures
        plain(normalized(parts)),
        normalized(normalized(parts)) == normalized(parts),
{
    lemma_normalized_plain(parts);
    lemma_plain_fixed(normalized(parts));
}


/// Two parts that `Path` compares equal: the same kind, and the same text
/// for prefixes and names.
pub open spec fn same_part(a: PathPart, b: PathPart) -> bool {
    match (a, b) {
        (PathPart::Prefix(x), PathPart::Prefix(y)) => x@ == y@,
        (PathPart::RootDir, PathPart::RootDir) => true,
        (PathPart::CurDir, PathPart::CurDir) => true,
        (PathPart::ParentDir, PathPart::ParentDir) => true,
        (PathPart::Normal(x), PathPart::Normal(y)) => x@ == y@,
        _ => false,
    }
}

/// `prefix` is a leading run of the parts of `path`.
pub open spec fn leads(prefix: Seq<PathPart>, path: Seq<PathPart>) -> bool {
    prefix.len() <= path.len() && forall|i: int| 0 <= i < prefix.len() ==> #[trigger] same_part(prefix[i], path[i])
}

fn part_copy(p: &PathPart) -> (r: PathPart)
    ensures
        same_part(*p, r),
{
    match p {
        PathPart::Prefix(s) => PathPart::Prefix(s.clone()),
        PathPart::RootDir => PathPart::RootDir,
        PathPart::CurDir => PathPart::CurDir,
        PathPart::ParentDir => PathPart::ParentDir,
        PathPart::Normal(s) => PathPart::Normal(s.clone()),
    }
}

fn part_equal(a: &PathPart, b: &PathPart) -> (r: bool)
    ensures
        r == same_part(*a, *b),
{
    match (a, b) {
        (PathPart::Prefix(x), PathPart::Prefix(y)) => crate::text::same(
            crate::text::chars_of(x.as_str()).as_slice(),
            crate::text::chars_of(y.as_str()).as_slice(),
        ),
        (PathPart::RootDir, PathPart::RootDir) => true,
        (PathPart::CurDir, PathPart::CurDir) => true,
        (PathPart::ParentDir, PathPart::ParentDir) => true,
        (PathPart::Normal(x), PathPart::Normal(y)) => crate::text::same(
            crate::text::chars_of(x.as_str()).as_slice(),
            crate::text::chars_of(y.as_str()).as_slice(),
        ),
        _ => false,
    }
}

/// Where a path lands when the directory or file `old` is renamed to `new`:
/// the parts of `new` followed by what is left of the path after `old`, or
/// nothing when the path does not lie under `old`.
pub fn moved(path: &Vec<PathPart>, old: &Vec<PathPart>, new: &Vec<PathPart>) -> (r: Option<Vec<PathPart>>)
    ensures
        r is None <==> !leads(old@, path@),
        r matches Some(v) ==> v@.len() == new@.len() + path@.len() - old@.len() && (forall|i: int|
            0 <= i < new@.len() ==> #[trigger] same_part(new@[i], v@[i])) && (forall|i: int|
            new@.len() <= i < v@.len() ==> #[trigger] same_part(path@[i - new@.len() + old@.len()], v@[i])),
{
    if old.len() > path.len() {
        return None;
    }
    let mut i: usize = 0;
    while i < old.len()
        invariant
            old@.len() <= path@.len(),
            i <= old@.len(),
            forall|k: int| 0 <= k < i ==> #[trigger] same_part(old@[k], path@[k]),
        decreases old@.len() - i,
    {
        if !part_equal(&old[i], &path[i]) {
            return None;
        }
        i = i + 1;
    }
    let mut out: Vec<PathPart> = Vec::new();
    let mut j: usize = 0;
    while j < new.len()
        invariant
            j <= new@.len(),
            out@.len() == j,
            forall|k: int| 0 <= k < j ==> #[trigger] same_part(new@[k], out@[k]),
        decreases new@.len() - j,
    {
        out.push(part_copy(&new[j]));
        j = j + 1;
    }
    let mut k = old.len();
    while k < path.len()
        invariant
            old@.len() <= k <= path@.len(),
            out@.len() == new@.len() + k - old@.len(),
            forall|m: int| 0 <= m < new@.len() ==> #[trigger] same_part(new@[m], out@[m]),
            forall|m: int|
                new@.len() <= m < out@.len() ==> #[trigger] same_part(path@[m - new@.len() + old@.len()], out@[m]),
        decreases path@.len() - k,
    {
        out.push(part_copy(&path[k]));
        k = k + 1;
    }
    Some(out)
}

} // verus!
