//! Require specifiers for import completion: the relative path from one
//! module to another, and the aliased forms under configured roots.

use vstd::prelude::*;
use crate::paths::PathPart;
use crate::text::{chars_of, push_all, string_of};

verus! {

/// A path part as plain data.
pub enum Part {
    Prefix(Seq<char>),
    Root,
    Current,
    Parent,
    Name(Seq<char>),
}

pub open spec fn part_of(p: PathPart) -> Part {
    match p {
        PathPart::Prefix(s) => Part::Prefix(s@),
        PathPart::RootDir => Part::Root,
        PathPart::CurDir => Part::Current,
        PathPart::ParentDir => Part::Parent,
        PathPart::Normal(s) => Part::Name(s@),
    }
}

/// The plain data of a path.
pub open spec fn path_of(p: Seq<PathPart>) -> Seq<Part> {
    p.map_values(|x: PathPart| part_of(x))
}

/// `Path::parent`: the path without its last part, unless it is empty or
/// ends in a root or prefix.
pub open spec fn parent_of(p: Seq<Part>) -> Option<Seq<Part>> {
    if p.len() > 0 && !(p.last() is Root) && !(p.last() is Prefix) {
        Some(p.drop_last())
    } else {
        None
    }
}

/// The index of the last `.` at or before `i`.
pub open spec fn last_dot(name: Seq<char>, i: int) -> Option<int>
    decreases i + 1,
{
    if i < 0 || i >= name.len() {
        None
    } else if name[i] == '.' {
        Some(i)
    } else {
        last_dot(name, i - 1)
    }
}

/// `Path::file_stem` of a file name: the text before its last `.`, or the
/// whole name when it has no `.` other than a leading one.
pub open spec fn stem_of(name: Seq<char>) -> Seq<char> {
    match last_dot(name, name.len() - 1) {
        Some(i) => if i == 0 {
            name
        } else {
            name.take(i)
        },
        None => name,
    }
}

/// `Path::file_stem`: the stem of the last part, when it is a name.
pub open spec fn file_stem_of(p: Seq<Part>) -> Option<Seq<char>> {
    if p.len() > 0 && p.last() is Name {
        Some(stem_of(p.last()->Name_0))
    } else {
        None
    }
}

/// `Path::with_extension("")`: the last name without its extension.
pub open spec fn without_extension(p: Seq<Part>) -> Seq<Part> {
    if p.len() > 0 && p.last() is Name {
        p.drop_last().push(Part::Name(stem_of(p.last()->Name_0)))
    } else {
        p
    }
}

pub open spec fn init_name() -> Seq<char> {
    seq!['i', 'n', 'i', 't']
}

/// The module a file stands for: its directory for an `init` file, else the
/// file without its extension.
pub open spec fn identity_of(target: Seq<Part>) -> Seq<Part> {
    if file_stem_of(target) == Some(init_name()) {
        match parent_of(target) {
            Some(d) => d,
            None => target,
        }
    } else {
        without_extension(target)
    }
}

/// Whether `p` begins with all the parts of `prefix`.
pub open spec fn begins_with(p: Seq<Part>, prefix: Seq<Part>) -> bool {
    prefix.len() <= p.len() && p.take(prefix.len() as int) == prefix
}

/// The nearest of `directory` and its ancestors that `target` begins with.
pub open spec fn common(directory: Seq<Part>, target: Seq<Part>) -> Option<Seq<Part>>
    decreases directory.len(),
{
    if begins_with(target, directory) {
        Some(directory)
    } else {
        match parent_of(directory) {
            Some(d) => common(d, target),
            None => None,
        }
    }
}

/// The text of a relative path: its parts joined by `/`.
pub open spec fn text_of(p: Seq<Part>) -> Seq<char>
    decreases p.len(),
{
    if p.len() == 0 {
        seq![]
    } else {
        let piece = match p.last() {
            Part::Prefix(s) => s,
            Part::Root => seq!['/'],
            Part::Current => seq!['.'],
            Part::Parent => seq!['.', '.'],
            Part::Name(s) => s,
        };
        if p.len() == 1 {
            piece
        } else {
            text_of(p.drop_last()) + seq!['/'] + piece
        }
    }
}

/// `s` with each backslash made a slash.
pub open spec fn slashed(s: Seq<char>) -> Seq<char> {
    s.map_values(|c: char| if c == '\\' { '/' } else { c })
}

/// `../` repeated `n` times.
pub open spec fn ups(n: nat) -> Seq<char>
    decreases n,
{
    if n == 0 {
        seq![]
    } else {
        ups((n - 1) as nat) + seq!['.', '.', '/']
    }
}

/// The relative require specifier from the module file `from` to the file
/// `target`: `./` or as many `../` as the directory of `from` lies below the
/// nearest common ancestor, then the rest of the target's module path.
pub open spec fn specifier_of(from: Seq<Part>, target: Seq<Part>) -> Option<Seq<char>> {
    match (parent_of(from), file_stem_of(from), file_stem_of(target)) {
        (Some(d0), Some(stem), Some(tstem)) => {
            let directory = if stem == init_name() {
                match parent_of(d0) {
                    Some(d) => d,
                    None => d0,
                }
            } else {
                d0
            };
            let t = if tstem == init_name() {
                parent_of(target)
            } else {
                Some(without_extension(target))
            };
            match t {
                None => None,
                Some(t) => match common(directory, t) {
                    None => None,
                    Some(c) => {
                        let up = (directory.len() - c.len()) as nat;
                        let lead = if up == 0 {
                            seq!['.', '/']
                        } else {
                            ups(up)
                        };
                        Some(lead + slashed(text_of(t.skip(c.len() as int))))
                    },
                },
            }
        },
        _ => None,
    }
}

fn copy_part(p: &PathPart) -> (r: PathPart)
    ensures
        part_of(r) == part_of(*p),
{
    match p {
        PathPart::Prefix(s) => PathPart::Prefix(s.clone()),
        PathPart::RootDir => PathPart::RootDir,
        PathPart::CurDir => PathPart::CurDir,
        PathPart::ParentDir => PathPart::ParentDir,
        PathPart::Normal(s) => PathPart::Normal(s.clone()),
    }
}

/// The first `n` parts of `p`.
fn first_parts(p: &Vec<PathPart>, n: usize) -> (r: Vec<PathPart>)
    requires
        n <= p@.len(),
    ensures
        path_of(r@) == path_of(p@).take(n as int),
{
    let mut r: Vec<PathPart> = Vec::new();
    let mut i: usize = 0;
    while i < n
        invariant
            i <= n <= p@.len(),
            r@.len() == i,
            forall|k: int| 0 <= k < i ==> #[trigger] part_of(r@[k]) == part_of(p@[k]),
        decreases n - i,
    {
        r.push(copy_part(&p[i]));
        i = i + 1;
    }
    assert(path_of(r@) =~= path_of(p@).take(n as int));
    r
}

fn parent(p: &Vec<PathPart>) -> (r: Option<Vec<PathPart>>)
    ensures
        match parent_of(path_of(p@)) {
            Some(q) => r matches Some(v) && path_of(v@) == q,
            None => r is None,
        },
{
    if p.len() == 0 {
        return None;
    }
    match &p[p.len() - 1] {
        PathPart::RootDir | PathPart::Prefix(_) => None,
        _ => {
            let r = first_parts(p, p.len() - 1);
            assert(path_of(p@).take(p@.len() - 1) =~= path_of(p@).drop_last());
            Some(r)
        },
    }
}

fn stem(name: &[char]) -> (r: Vec<char>)
    ensures
        r@ == stem_of(name@),
{
    let mut i: usize = name.len();
    while i > 0 && name[i - 1] != '.'
        invariant
            i <= name@.len(),
            last_dot(name@, name@.len() - 1) == last_dot(name@, i - 1),
        decreases i,
    {
        i = i - 1;
    }
    if i <= 1 {
        let mut r: Vec<char> = Vec::new();
        push_all(&mut r, name);
        assert(r@ =~= name@);
        r
    } else {
        let r = crate::text::copy_range(name, 0, i - 1);
        assert(name@.subrange(0, i - 1) =~= name@.take(i - 1));
        r
    }
}

fn file_stem(p: &Vec<PathPart>) -> (r: Option<Vec<char>>)
    ensures
        match file_stem_of(path_of(p@)) {
            Some(s) => r matches Some(v) && v@ == s,
            None => r is None,
        },
{
    if p.len() == 0 {
        return None;
    }
    match &p[p.len() - 1] {
        PathPart::Normal(n) => Some(stem(&chars_of(n.as_str()))),
        _ => None,
    }
}

fn without_ext(p: &Vec<PathPart>) -> (r: Vec<PathPart>)
    ensures
        path_of(r@) == without_extension(path_of(p@)),
{
    if p.len() == 0 {
        return first_parts(p, 0);
    }
    match &p[p.len() - 1] {
        PathPart::Normal(n) => {
            let mut r = first_parts(p, p.len() - 1);
            let s = stem(&chars_of(n.as_str()));
            r.push(PathPart::Normal(string_of(&s)));
            assert(path_of(r@) =~= path_of(p@).drop_last().push(Part::Name(stem_of(n@))));
            r
        },
        _ => {
            let r = first_parts(p, p.len());
            assert(path_of(p@).take(p@.len() as int) =~= path_of(p@));
            r
        },
    }
}

fn is_init(s: &[char]) -> (r: bool)
    ensures
        r == (s@ == init_name()),
{
    let r = s.len() == 4 && s[0] == 'i' && s[1] == 'n' && s[2] == 'i' && s[3] == 't';
    assert(r ==> s@ =~= init_name());
    assert(s@ == init_name() ==> s@[0] == 'i' && s@[1] == 'n' && s@[2] == 'i' && s@[3] == 't');
    r
}

/// The module a file stands for: its directory for an `init` file, else the
/// file without its extension.
pub fn identity(target: &Vec<PathPart>) -> (r: Vec<PathPart>)
    ensures
        path_of(r@) == identity_of(path_of(target@)),
{
    let init = match file_stem(target) {
        Some(s) => is_init(&s),
        None => false,
    };
    if init {
        match parent(target) {
            Some(d) => d,
            None => {
                let r = first_parts(target, target.len());
                assert(path_of(target@).take(target@.len() as int) =~= path_of(target@));
                r
            },
        }
    } else {
        without_ext(target)
    }
}

fn same_part(a: &PathPart, b: &PathPart) -> (r: bool)
    ensures
        r == (part_of(*a) == part_of(*b)),
{
    match (a, b) {
        (PathPart::Prefix(x), PathPart::Prefix(y)) => *x == *y,
        (PathPart::RootDir, PathPart::RootDir) => true,
        (PathPart::CurDir, PathPart::CurDir) => true,
        (PathPart::ParentDir, PathPart::ParentDir) => true,
        (PathPart::Normal(x), PathPart::Normal(y)) => *x == *y,
        _ => false,
    }
}

fn begins(p: &Vec<PathPart>, prefix: &Vec<PathPart>) -> (r: bool)
    ensures
        r == begins_with(path_of(p@), path_of(prefix@)),
{
    if prefix.len() > p.len() {
        return false;
    }
    let mut i: usize = 0;
    while i < prefix.len()
        invariant
            i <= prefix@.len() <= p@.len(),
            forall|k: int| 0 <= k < i ==> path_of(p@)[k] == path_of(prefix@)[k],
        decreases prefix@.len() - i,
    {
        if !same_part(&p[i], &prefix[i]) {
            assert(path_of(p@).take(prefix@.len() as int)[i as int] != path_of(prefix@)[i as int]);
            return false;
        }
        i = i + 1;
    }
    assert(path_of(p@).take(prefix@.len() as int) =~= path_of(prefix@));
    true
}

fn common_ancestor(directory: &Vec<PathPart>, target: &Vec<PathPart>) -> (r: Option<Vec<PathPart>>)
    ensures
        match common(path_of(directory@), path_of(target@)) {
            Some(c) => r matches Some(v) && path_of(v@) == c,
            None => r is None,
        },
{
    let mut d = first_parts(directory, directory.len());
    assert(path_of(directory@).take(directory@.len() as int) =~= path_of(directory@));
    loop
        invariant
            common(path_of(directory@), path_of(target@)) == common(path_of(d@), path_of(target@)),
        decreases d@.len(),
    {
        if begins(target, &d) {
            return Some(d);
        }
        match parent(&d) {
            Some(q) => {
                d = q;
            },
            None => {
                return None;
            },
        }
    }
}

fn part_text(p: &PathPart) -> (r: Vec<char>)
    ensures
        r@ == match part_of(*p) {
            Part::Prefix(s) => s,
            Part::Root => seq!['/'],
            Part::Current => seq!['.'],
            Part::Parent => seq!['.', '.'],
            Part::Name(s) => s,
        },
{
    let mut r: Vec<char> = Vec::new();
    match p {
        PathPart::Prefix(s) => push_all(&mut r, &chars_of(s.as_str())),
        PathPart::RootDir => r.push('/'),
        PathPart::CurDir => r.push('.'),
        PathPart::ParentDir => {
            r.push('.');
            r.push('.');
        },
        PathPart::Normal(s) => push_all(&mut r, &chars_of(s.as_str())),
    }
    assert(r@ =~= match part_of(*p) {
        Part::Prefix(s) => s,
        Part::Root => seq!['/'],
        Part::Current => seq!['.'],
        Part::Parent => seq!['.', '.'],
        Part::Name(s) => s,
    });
    r
}

/// Appends the text of `p[from..]`, backslashes made slashes.
fn push_tail(out: &mut Vec<char>, p: &Vec<PathPart>, from: usize)
    requires
        from <= p@.len(),
    ensures
        final(out)@ == old(out)@ + slashed(text_of(path_of(p@).skip(from as int))),
{
    let mut text: Vec<char> = Vec::new();
    let mut i: usize = from;
    let ghost whole = path_of(p@);
    assert(whole.subrange(from as int, from as int) =~= Seq::<Part>::empty());
    while i < p.len()
        invariant
            from <= i <= p@.len(),
            whole == path_of(p@),
            text@ == text_of(whole.subrange(from as int, i as int)),
        decreases p@.len() - i,
    {
        let piece = part_text(&p[i]);
        if i > from {
            text.push('/');
        }
        push_all(&mut text, &piece);
        proof {
            let s = whole.subrange(from as int, i + 1);
            assert(s.drop_last() =~= whole.subrange(from as int, i as int));
            assert(s.last() == whole[i as int]);
            assert(whole[i as int] == part_of(p@[i as int]));
        }
        i = i + 1;
    }
    assert(whole.subrange(from as int, i as int) =~= whole.skip(from as int));
    let ghost start = out@;
    let mut k: usize = 0;
    while k < text.len()
        invariant
            k <= text@.len(),
            out@ == start + slashed(text@).take(k as int),
        decreases text@.len() - k,
    {
        let c = text[k];
        out.push(if c == '\\' { '/' } else { c });
        k = k + 1;
        assert(out@ =~= start + slashed(text@).take(k as int));
    }
    assert(slashed(text@).take(k as int) =~= slashed(text@));
}

/// The relative require specifier from the module file `from` to the file
/// `target`, when the two have a common ancestor.
pub fn specifier(from: &Vec<PathPart>, target: &Vec<PathPart>) -> (r: Option<String>)
    ensures
        match specifier_of(path_of(from@), path_of(target@)) {
            Some(s) => r matches Some(v) && v@ == s,
            None => r is None,
        },
{
    let d0 = match parent(from) {
        Some(d) => d,
        None => {
            return None;
        },
    };
    let from_stem = match file_stem(from) {
        Some(s) => s,
        None => {
            return None;
        },
    };
    let target_stem = match file_stem(target) {
        Some(s) => s,
        None => {
            return None;
        },
    };
    let directory = if is_init(&from_stem) {
        match parent(&d0) {
            Some(d) => d,
            None => d0,
        }
    } else {
        d0
    };
    let t = if is_init(&target_stem) {
        match parent(target) {
            Some(p) => p,
            None => {
                return None;
            },
        }
    } else {
        without_ext(target)
    };
    let c = match common_ancestor(&directory, &t) {
        Some(c) => c,
        None => {
            return None;
        },
    };
    proof {
        lemma_common(path_of(directory@), path_of(t@));
    }
    assert(path_of(c@).len() == c@.len());
    assert(path_of(directory@).len() == directory@.len());
    assert(path_of(t@).len() == t@.len());
    let up = directory.len() - c.len();
    let mut out: Vec<char> = Vec::new();
    if up == 0 {
        out.push('.');
        out.push('/');
    } else {
        let mut k: usize = 0;
        while k < up
            invariant
                k <= up,
                out@ == ups(k as nat),
            decreases up - k,
        {
            out.push('.');
            out.push('.');
            out.push('/');
            k = k + 1;
            assert(out@ =~= ups(k as nat));
        }
    }
    push_tail(&mut out, &t, c.len());
    Some(string_of(&out))
}

proof fn lemma_common(directory: Seq<Part>, target: Seq<Part>)
    ensures
        common(directory, target) matches Some(c) ==> c.len() <= directory.len() && c.len() <= target.len(),
    decreases directory.len(),
{
    if !begins_with(target, directory) {
        if let Some(d) = parent_of(directory) {
            lemma_common(d, target);
        }
    }
}

/// The aliased specifier of `module` under the root `root` named `prefix`:
/// the prefix alone for the root itself, else the prefix, a slash and the
/// rest of the module path.
pub open spec fn aliased(prefix: Seq<char>, root: Seq<Part>, module: Seq<Part>) -> Option<Seq<char>> {
    if begins_with(module, root) {
        let tail = slashed(text_of(module.skip(root.len() as int)));
        if tail.len() == 0 {
            Some(prefix)
        } else {
            Some(prefix + seq!['/'] + tail)
        }
    } else {
        None
    }
}

/// The specifiers that reach `target` from `from`: the relative one, when
/// there is one, then one for each root that holds the module, in order.
pub open spec fn specifiers_of(from: Seq<Part>, target: Seq<Part>, roots: Seq<(Seq<char>, Seq<Part>)>) -> Seq<Seq<char>>
    decreases roots.len(),
{
    if roots.len() == 0 {
        match specifier_of(from, target) {
            Some(s) => seq![s],
            None => seq![],
        }
    } else {
        let before = specifiers_of(from, target, roots.drop_last());
        match aliased(roots.last().0, roots.last().1, identity_of(target)) {
            Some(s) => before.push(s),
            None => before,
        }
    }
}

/// The text of each string.
pub open spec fn texts(v: Seq<String>) -> Seq<Seq<char>> {
    v.map_values(|s: String| s@)
}

/// The root names and paths as plain data.
pub open spec fn roots_of(roots: Seq<(String, Vec<PathPart>)>) -> Seq<(Seq<char>, Seq<Part>)> {
    roots.map_values(|r: (String, Vec<PathPart>)| (r.0@, path_of(r.1@)))
}

/// Every specifier that reaches `target` from `from`, relative first, then
/// through each of the aliased roots.
pub fn specifiers(from: &Vec<PathPart>, target: &Vec<PathPart>, roots: &Vec<(String, Vec<PathPart>)>) -> (r: Vec<String>)
    ensures
        texts(r@) == specifiers_of(path_of(from@), path_of(target@), roots_of(roots@)),
{
    let mut out: Vec<String> = Vec::new();
    if let Some(relative) = specifier(from, target) {
        out.push(relative);
    }
    assert(texts(out@) =~= specifiers_of(path_of(from@), path_of(target@), Seq::empty()));
    let module = identity(target);
    let ghost rs = roots_of(roots@);
    assert(rs.take(0) =~= Seq::<(Seq<char>, Seq<Part>)>::empty());
    let mut i: usize = 0;
    while i < roots.len()
        invariant
            i <= roots@.len(),
            rs == roots_of(roots@),
            path_of(module@) == identity_of(path_of(target@)),
            texts(out@) == specifiers_of(path_of(from@), path_of(target@), rs.take(i as int)),
        decreases roots@.len() - i,
    {
        let prefix = &roots[i].0;
        let root = &roots[i].1;
        let ghost before = out@;
        if begins(&module, root) {
            let mut tail: Vec<char> = Vec::new();
            push_tail(&mut tail, &module, root.len());
            assert(path_of(root@).len() == root@.len());
            let mut text = chars_of(prefix.as_str());
            if tail.len() > 0 {
                text.push('/');
                push_all(&mut text, &tail);
                assert(text@ =~= prefix@ + seq!['/'] + tail@);
            }
            assert(aliased(prefix@, path_of(root@), path_of(module@)) == Some(text@));
            let made = string_of(&text);
            out.push(made);
            assert(texts(out@) =~= texts(before).push(made@));
        }
        proof {
            if !begins_with(path_of(module@), path_of(root@)) {
                assert(out@ == before);
            }
            let t = rs.take(i + 1);
            assert(t.drop_last() =~= rs.take(i as int));
            assert(t.last() == (prefix@, path_of(root@)));
            assert(texts(out@) =~= specifiers_of(path_of(from@), path_of(target@), t));
        }
        i = i + 1;
    }
    assert(rs.take(i as int) =~= rs);
    out
}

} // verus!
