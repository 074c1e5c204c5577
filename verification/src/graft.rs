//! Grafts: project extensions that format, lint or compile through a
//! protocol. Manifest and dependency validation, release asset selection,
//! download digests, archive entry safety, and checks of graft replies.

pub mod install;
pub mod layout;
pub mod luau;

use vstd::prelude::*;
use vstd::string::StringSliceAdditionalSpecFns;
use vstd::utf8::{encode_utf8, is_char_boundary};
use crate::configuration::Json;
use crate::paths::PathPart;
use crate::text::{char_from, chars_of, find_char, lemma_char_from, same};

verus! {

/// Why a graft, its manifest, dependency, download or reply was rejected.
#[derive(Debug, Clone, Copy, PartialEq, Eq, Structural)]
pub enum GraftError {
    /// A name or repository part is not a safe path component.
    InvalidComponent,
    /// A manifest's version is not a semantic version.
    InvalidVersion,
    /// A manifest's protocol is not 1, or it exports no hook.
    InvalidHooks,
    /// A native graft names an entry.
    NativeEntry,
    /// A Luau or WebAssembly graft names no entry.
    MissingEntry,
    /// An entry path leaves the project directory.
    EntryOutsideProject,
    /// A local dependency's path is empty.
    EmptyPath,
    /// A remote dependency's repository is not `owner/repo`.
    InvalidRepository,
    /// A version requirement does not parse.
    InvalidRequirement,
    /// No release satisfies the requested version.
    NoRelease,
    /// No installed version satisfies the requested version.
    NotCached,
    /// More than one release asset has the wanted name.
    AmbiguousAssets,
    /// No release asset has a platform or portable name.
    MissingAsset,
    /// A digest is not SHA-256.
    UnsupportedDigest,
    /// A download's SHA-256 digest differs from the published one.
    DigestMismatch,
    /// A download exceeds the size limit.
    DownloadTooLarge,
    /// A release listing links to a foreign or already visited page.
    InvalidPagination,
    /// An archive entry's path is absolute, escapes, or is not portable.
    UnsafePath,
    /// An archive entry's name is reserved on Windows.
    ReservedName,
    /// An archive entry is a link or special file.
    SpecialFile,
    /// A compilation reply is malformed.
    InvalidCompilation,
    /// A compilation mapping is out of order or out of range.
    InvalidMapping,
    /// A graft's compilation produced source that does not parse as Luau.
    InvalidLuau,
    /// A graft that exports no compilation hook was asked to compile.
    NoCompileHook,
    /// A lint finding has no rule or message, or an invalid range.
    InvalidFinding,
    /// A formatting reply has a layout version other than 1.
    UnsupportedLayout,
    /// A layout names a span that is not a slice of the source.
    InvalidSpan,
    /// A template marker is empty or does not occur exactly once.
    InvalidMarker,
    /// A template marker is not found in the template's document.
    MissingMarker,
    /// The formatter could not lay out a fragment of source.
    InvalidFragment,
    /// A graft project's manifest names another graft or another version
    /// than its release or its cache directory.
    IdentityMismatch,
}

/// ASCII letters, digits, `-`, `_` and `.`: the characters a path component may hold.
pub open spec fn component_char(c: char) -> bool {
    ('a' <= c <= 'z') || ('A' <= c <= 'Z') || ('0' <= c <= '9') || c == '-' || c == '_' || c == '.'
}

pub open spec fn ascii_upper(c: char) -> char {
    if 'a' <= c <= 'z' {
        (((c as u32) - 32) as u8) as char
    } else {
        c
    }
}

/// The text before the first `.`.
pub open spec fn stem(v: Seq<char>) -> Seq<char>
    decreases v.len(),
{
    if v.len() == 0 || v[0] == '.' {
        seq![]
    } else {
        seq![v[0]] + stem(v.drop_first())
    }
}

/// Device names that Windows reserves, compared without case: `CON`, `PRN`,
/// `AUX`, `NUL`, and `COM` or `LPT` followed by a digit from 1 to 9.
pub open spec fn reserved(stem: Seq<char>) -> bool {
    let u = stem.map_values(|c: char| ascii_upper(c));
    u == "CON"@ || u == "PRN"@ || u == "AUX"@ || u == "NUL"@ || (u.len() == 4 && (u.take(3)
        == "COM"@ || u.take(3) == "LPT"@) && '1' <= u[3] <= '9')
}

/// A safe, portable path component: nonempty, not `.` or `..`, not ending in
/// `.`, made of component characters, and not a reserved device name.
pub open spec fn valid_component(v: Seq<char>) -> bool {
    &&& v.len() > 0
    &&& v != "."@
    &&& v != ".."@
    &&& v.last() != '.'
    &&& forall|i: int| 0 <= i < v.len() ==> component_char(#[trigger] v[i])
    &&& !reserved(stem(v))
}

fn upper(c: char) -> (r: char)
    ensures
        r == ascii_upper(c),
{
    if 'a' <= c && c <= 'z' {
        (((c as u32) - 32) as u8) as char
    } else {
        c
    }
}

fn reserved_name(s: &[char]) -> (r: bool)
    ensures
        r == reserved(s@),
{
    let mut u: Vec<char> = Vec::new();
    let mut i: usize = 0;
    while i < s.len()
        invariant
            i <= s@.len(),
            u@ == s@.take(i as int).map_values(|c: char| ascii_upper(c)),
        decreases s@.len() - i,
    {
        u.push(upper(s[i]));
        i = i + 1;
        assert(u@ =~= s@.take(i as int).map_values(|c: char| ascii_upper(c)));
    }
    assert(s@.take(i as int) =~= s@);
    let named = same(&u, &chars_of("CON")) || same(&u, &chars_of("PRN")) || same(
        &u,
        &chars_of("AUX"),
    ) || same(&u, &chars_of("NUL"));
    if named {
        return true;
    }
    if u.len() == 4 {
        let head = crate::text::copy_range(&u, 0, 3);
        assert(u@.subrange(0, 3) =~= u@.take(3));
        if (same(&head, &chars_of("COM")) || same(&head, &chars_of("LPT"))) && '1' <= u[3] && u[3]
            <= '9' {
            return true;
        }
    }
    false
}

/// Whether the text before the first `.` of `value` is a reserved device name.
pub(crate) fn reserved_stem(value: &str) -> (r: bool)
    ensures
        r == reserved(stem(value@)),
{
    let v = chars_of(value);
    let mut k: usize = 0;
    assert(v@.skip(0) =~= v@);
    assert(v@.take(0) =~= Seq::<char>::empty());
    assert(v@.take(0) + stem(v@.skip(0)) =~= stem(v@));
    while k < v.len() && v[k] != '.'
        invariant
            k <= v@.len(),
            stem(v@) == v@.take(k as int) + stem(v@.skip(k as int)),
        decreases v@.len() - k,
    {
        assert(v@.skip(k as int).drop_first() =~= v@.skip(k + 1));
        assert(v@.take(k + 1) =~= v@.take(k as int) + seq![v@[k as int]]);
        k = k + 1;
    }
    proof {
        if k < v@.len() {
            assert(v@.skip(k as int)[0] == '.');
        } else {
            assert(v@.skip(k as int) =~= Seq::<char>::empty());
        }
        assert(stem(v@) =~= v@.take(k as int));
    }
    let head = crate::text::copy_range(&v, 0, k);
    assert(v@.subrange(0, k as int) =~= v@.take(k as int));
    reserved_name(&head)
}

/// Checks that `value` is a safe, portable path component.
pub fn component(value: &str) -> (r: Result<(), GraftError>)
    ensures
        r is Ok <==> valid_component(value@),
        r matches Err(e) ==> e == GraftError::InvalidComponent,
{
    let v = chars_of(value);
    if v.len() == 0 || same(&v, &chars_of(".")) || same(&v, &chars_of("..")) || v[v.len() - 1]
        == '.' {
        return Err(GraftError::InvalidComponent);
    }
    let mut i: usize = 0;
    while i < v.len()
        invariant
            i <= v@.len(),
            v@ == value@,
            forall|k: int| 0 <= k < i ==> component_char(#[trigger] v@[k]),
        decreases v@.len() - i,
    {
        let c = v[i];
        if !(('a' <= c && c <= 'z') || ('A' <= c && c <= 'Z') || ('0' <= c && c <= '9') || c
            == '-' || c == '_' || c == '.') {
            assert(!component_char(v@[i as int]));
            return Err(GraftError::InvalidComponent);
        }
        i = i + 1;
    }
    if reserved_stem(value) {
        return Err(GraftError::InvalidComponent);
    }
    Ok(())
}

/// Whether `semver::Version::parse` accepts the text.
pub uninterp spec fn parses_as_version(text: Seq<char>) -> bool;

/// The text that semver prints for the version it parses from `text`.
pub uninterp spec fn printed_version(text: Seq<char>) -> Seq<char>;

/// Whether `semver::VersionReq::parse` accepts the text.
pub uninterp spec fn parses_as_requirement(text: Seq<char>) -> bool;

/// `semver::Version::parse`: whether the text is a semantic version, and the
/// version as semver prints it. Nothing is claimed of which texts parse or of
/// the printed form beyond their being the same for the same text.
#[verifier::external_body]
pub(crate) fn version(text: &str) -> (r: Option<String>)
    ensures
        r is Some <==> parses_as_version(text@),
        r matches Some(printed) ==> printed@ == printed_version(text@),
{
    match semver::Version::parse(text) {
        Ok(v) => Some(v.to_string()),
        Err(_) => None,
    }
}

/// `semver::VersionReq::parse`: whether the text is a version requirement.
/// Nothing is claimed of which texts parse.
#[verifier::external_body]
fn requirement_parses(text: &str) -> (r: bool)
    ensures
        r == parses_as_requirement(text@),
{
    semver::VersionReq::parse(text).is_ok()
}

/// The requirement a configured version stands for: an exact semantic
/// version requires that version (`=` and the version), anything else is
/// read as a requirement itself.
pub open spec fn requirement_of(value: Seq<char>) -> Seq<char> {
    if parses_as_version(value) {
        seq!['='] + printed_version(value)
    } else {
        value
    }
}

/// The requirement text for a configured version, when it parses.
pub fn requirement(value: &str) -> (r: Result<String, GraftError>)
    ensures
        match r {
            Ok(text) => parses_as_requirement(requirement_of(value@)) && text@ == requirement_of(
                value@,
            ),
            Err(e) => !parses_as_requirement(requirement_of(value@)) && e
                == GraftError::InvalidRequirement,
        },
{
    let text = match version(value) {
        Some(printed) => {
            let mut c = chars_of("=");
            proof {
                reveal_strlit("=");
            }
            crate::text::push_all(&mut c, &chars_of(printed.as_str()));
            assert(c@ =~= seq!['='] + printed_version(value@));
            crate::text::string_of(&c)
        },
        None => crate::text::string_of(&chars_of(value)),
    };
    if requirement_parses(text.as_str()) {
        Ok(text)
    } else {
        Err(GraftError::InvalidRequirement)
    }
}

/// Execution environment selected by a graft manifest.
#[derive(Debug, Clone, Copy, PartialEq, Eq, Structural)]
pub enum Runtime {
    /// Invoke a native executable through the JSON protocol.
    Native,
    /// Execute Luau code in an isolated virtual machine.
    Luau,
    /// Execute a WebAssembly module in the graft runtime.
    Wasm,
}


/// Graft identity, entry point and exported hooks.
pub struct Manifest {
    /// Graft identifier used by project configuration.
    pub name: String,
    /// Semantic version of the graft project.
    pub version: String,
    /// Graft protocol version.
    pub protocol: u32,
    /// Runtime responsible for executing the entry point.
    pub runtime: Runtime,
    /// Entry path relative to the manifest, as its parts.
    pub entry: Option<Vec<PathPart>>,
    /// Whether the graft exports a formatting hook.
    pub format: bool,
    /// Whether the graft exports a lint hook.
    pub lint: bool,
    /// Whether the graft exports a compilation hook.
    pub compile: bool,
    /// Default settings passed to exported hooks.
    pub configuration: Vec<(String, Json)>,
}

/// A path that stays inside its directory: nonempty, only names and `.`.
pub open spec fn inside(parts: Seq<PathPart>) -> bool {
    parts.len() > 0 && forall|i: int|
        0 <= i < parts.len() ==> (#[trigger] parts[i] is Normal || parts[i] is CurDir)
}

/// The first problem of a manifest, checked in order: name, version, protocol
/// and hooks, runtime and entry, entry path.
pub open spec fn manifest_problem(m: Manifest) -> Option<GraftError> {
    if !valid_component(m.name@) {
        Some(GraftError::InvalidComponent)
    } else if !parses_as_version(m.version@) {
        Some(GraftError::InvalidVersion)
    } else if m.protocol != 1 || (!m.format && !m.lint && !m.compile) {
        Some(GraftError::InvalidHooks)
    } else if m.runtime == Runtime::Native && m.entry is Some {
        Some(GraftError::NativeEntry)
    } else if m.runtime != Runtime::Native && m.entry is None {
        Some(GraftError::MissingEntry)
    } else if m.entry matches Some(parts) && !inside(parts@) {
        Some(GraftError::EntryOutsideProject)
    } else {
        None
    }
}

fn stays_inside(parts: &Vec<PathPart>) -> (r: bool)
    ensures
        r == inside(parts@),
{
    if parts.len() == 0 {
        return false;
    }
    let mut i: usize = 0;
    while i < parts.len()
        invariant
            i <= parts@.len(),
            forall|k: int| 0 <= k < i ==> (#[trigger] parts@[k] is Normal || parts@[k] is CurDir),
        decreases parts@.len() - i,
    {
        match &parts[i] {
            PathPart::Normal(_) => {},
            PathPart::CurDir => {},
            _ => {
                return false;
            },
        }
        i = i + 1;
    }
    true
}

impl Manifest {
    /// Checks the name, version, protocol, hooks and entry of a manifest.
    pub fn validate(&self) -> (r: Result<(), GraftError>)
        ensures
            match r {
                Ok(()) => manifest_problem(*self) is None,
                Err(e) => manifest_problem(*self) == Some(e),
            },
    {
        if component(self.name.as_str()).is_err() {
            return Err(GraftError::InvalidComponent);
        }
        if version(self.version.as_str()).is_none() {
            return Err(GraftError::InvalidVersion);
        }
        if self.protocol != 1 || (!self.format && !self.lint && !self.compile) {
            return Err(GraftError::InvalidHooks);
        }
        match (&self.runtime, &self.entry) {
            (Runtime::Native, Some(_)) => {
                return Err(GraftError::NativeEntry);
            },
            (Runtime::Luau, None) | (Runtime::Wasm, None) => {
                return Err(GraftError::MissingEntry);
            },
            _ => {},
        }
        if let Some(entry) = &self.entry {
            if !stays_inside(entry) {
                return Err(GraftError::EntryOutsideProject);
            }
        }
        Ok(())
    }
}

/// A local graft project or an installed GitHub release requirement.
pub enum Dependency {
    /// A project directory relative to the declaring configuration.
    Local {
        /// Directory containing the graft project's instar.toml.
        path: String,
    },
    /// A GitHub project installed into Instar's graft cache.
    Remote {
        /// GitHub owner and repository separated by a slash.
        repo: String,
        /// Exact semantic version or an explicit compatible version requirement.
        version: String,
    },
}

/// A repository `owner/repo`: one slash between two valid components.
pub open spec fn repository_problem(repo: Seq<char>) -> Option<GraftError> {
    match char_from(repo, 0, '/') {
        None => Some(GraftError::InvalidRepository),
        Some(i) => if char_from(repo, i + 1, '/') is Some {
            Some(GraftError::InvalidRepository)
        } else if !valid_component(repo.take(i)) || !valid_component(repo.skip(i + 1)) {
            Some(GraftError::InvalidComponent)
        } else {
            None
        },
    }
}

/// The first problem of a dependency named `name`.
pub open spec fn dependency_problem(d: Dependency, name: Seq<char>) -> Option<GraftError> {
    if !valid_component(name) {
        Some(GraftError::InvalidComponent)
    } else {
        match d {
            Dependency::Local { path } => if path@.len() == 0 {
                Some(GraftError::EmptyPath)
            } else {
                None
            },
            Dependency::Remote { repo, version } => match repository_problem(repo@) {
                Some(e) => Some(e),
                None => if parses_as_requirement(requirement_of(version@)) {
                    None
                } else {
                    Some(GraftError::InvalidRequirement)
                },
            },
        }
    }
}

impl Dependency {
    /// Checks the dependency's name, local path, or repository and version requirement.
    pub fn validate(&self, name: &str) -> (r: Result<(), GraftError>)
        ensures
            match r {
                Ok(()) => dependency_problem(*self, name@) is None,
                Err(e) => dependency_problem(*self, name@) == Some(e),
            },
    {
        if component(name).is_err() {
            return Err(GraftError::InvalidComponent);
        }
        match self {
            Dependency::Local { path } => {
                if path.as_str().is_empty() {
                    Err(GraftError::EmptyPath)
                } else {
                    Ok(())
                }
            },
            Dependency::Remote { repo, version } => {
                let r = chars_of(repo.as_str());
                let slash = match find_char(&r, 0, '/') {
                    None => {
                        return Err(GraftError::InvalidRepository);
                    },
                    Some(i) => i,
                };
                proof {
                    lemma_char_from(r@, 0, '/');
                }
                if find_char(&r, slash + 1, '/').is_some() {
                    return Err(GraftError::InvalidRepository);
                }
                let owner = crate::text::string_of(&crate::text::copy_range(&r, 0, slash));
                let project = crate::text::string_of(
                    &crate::text::copy_range(&r, slash + 1, r.len()),
                );
                assert(r@.subrange(0, slash as int) =~= r@.take(slash as int));
                assert(r@.subrange(slash + 1, r@.len() as int) =~= r@.skip(slash + 1));
                if component(owner.as_str()).is_err() || component(project.as_str()).is_err() {
                    return Err(GraftError::InvalidComponent);
                }
                match requirement(version.as_str()) {
                    Ok(_) => Ok(()),
                    Err(e) => Err(e),
                }
            },
        }
    }
}

/// A graft lint finding expressed in source byte offsets.
#[derive(Debug, Clone)]
pub struct Finding {
    /// Rule identifier local to the graft.
    pub rule: String,
    /// Explanation of the finding.
    pub message: String,
    /// Starting byte offset in the original source.
    pub start: usize,
    /// Exclusive ending byte offset in the original source.
    pub end: usize,
}

/// Whether `text[start..end]` is a slice of the text, as `str::get` decides:
/// in order, in bounds, and on character boundaries.
pub open spec fn slice_of(text: Seq<u8>, start: int, end: int) -> bool {
    start <= end <= text.len() && is_char_boundary(text, start) && is_char_boundary(text, end)
}

pub(crate) fn sliceable(text: &str, start: usize, end: usize) -> (r: bool)
    ensures
        r == slice_of(text.spec_bytes(), start as int, end as int),
{
    let bytes = text.as_bytes();
    start <= end && end <= bytes.len() && text.is_char_boundary(start) && text.is_char_boundary(end)
}

/// A finding a graft may report on `source`: with a rule and a message, over
/// a slice of the source.
pub open spec fn valid_finding(source: Seq<u8>, f: Finding) -> bool {
    f.rule@.len() > 0 && f.message@.len() > 0 && slice_of(source, f.start as int, f.end as int)
}

/// Accepts the findings a graft reported on `source` when every one of them
/// is valid.
pub fn findings(source: &str, reported: Vec<Finding>) -> (r: Result<Vec<Finding>, GraftError>)
    ensures
        (forall|i: int| 0 <= i < reported@.len() ==> valid_finding(source.spec_bytes(), #[trigger] reported@[i]))
            ==> (r matches Ok(v) && v@ == reported@),
        !(forall|i: int| 0 <= i < reported@.len() ==> valid_finding(source.spec_bytes(), #[trigger] reported@[i]))
            ==> r == Err::<Vec<Finding>, GraftError>(GraftError::InvalidFinding),
{
    let mut i: usize = 0;
    while i < reported.len()
        invariant
            i <= reported@.len(),
            forall|k: int| 0 <= k < i ==> valid_finding(source.spec_bytes(), #[trigger] reported@[k]),
        decreases reported@.len() - i,
    {
        let f = &reported[i];
        if f.rule.as_str().is_empty() || f.message.as_str().is_empty() || !sliceable(
            source,
            f.start,
            f.end,
        ) {
            assert(!valid_finding(source.spec_bytes(), reported@[i as int]));
            return Err(GraftError::InvalidFinding);
        }
        i = i + 1;
    }
    Ok(reported)
}

/// A generated byte range mapped to an original source byte range.
#[derive(Debug, Clone, Copy, PartialEq, Eq, Structural)]
pub struct Mapping {
    /// First byte in the generated range.
    pub start: usize,
    /// Exclusive end of the generated range.
    pub end: usize,
    /// First byte in the original range.
    pub original_start: usize,
    /// Exclusive end of the original range.
    pub original_end: usize,
}

/// Compiled Luau source and its declared dependency and mapping metadata.
#[derive(Debug, Clone)]
pub struct Compilation {
    /// Compilation response protocol version.
    pub version: u32,
    /// Generated Luau source.
    pub source: String,
    /// Additional source dependencies declared by the compiler, as paths.
    pub dependencies: Vec<String>,
    /// Generated ranges mapped back to the input source.
    pub mappings: Vec<Mapping>,
}

/// The end of the mapping before `k`, where mapping `k` may start at the
/// earliest.
pub open spec fn mapped_before(mappings: Seq<Mapping>, k: int) -> int {
    if k == 0 {
        0
    } else {
        mappings[k - 1].end as int
    }
}

/// Mapping `k` follows the one before it, covers a nonempty slice of the
/// generated source, and maps it to a slice of the original source.
pub open spec fn valid_mapping(mappings: Seq<Mapping>, k: int, generated: Seq<u8>, original: Seq<u8>) -> bool {
    let m = mappings[k];
    &&& mapped_before(mappings, k) <= m.start
    &&& m.start != m.end
    &&& slice_of(generated, m.start as int, m.end as int)
    &&& slice_of(original, m.original_start as int, m.original_end as int)
}

/// The first problem of a compilation reply for the source `original`.
pub open spec fn compilation_problem(c: Compilation, original: Seq<u8>, parses: bool) -> Option<GraftError> {
    if c.version != 1 || (exists|i: int| 0 <= i < c.dependencies@.len() && #[trigger] c.dependencies@[i]@.len() == 0)
        || (c.source@.len() > 0 && c.mappings@.len() == 0) {
        Some(GraftError::InvalidCompilation)
    } else if exists|k: int| 0 <= k < c.mappings@.len() && !#[trigger] valid_mapping(c.mappings@, k, encode_utf8(c.source@), original) {
        Some(GraftError::InvalidMapping)
    } else if !parses {
        Some(GraftError::InvalidLuau)
    } else {
        None
    }
}

impl Compilation {
    /// Checks a compilation reply for the source `original`: its version, its
    /// dependencies, that its mappings are ordered slices of both sources, and
    /// last `parses`, the Luau parser's verdict on the generated source.
    pub fn check(&self, original: &str, parses: bool) -> (r: Result<(), GraftError>)
        ensures
            match compilation_problem(*self, original.spec_bytes(), parses) {
                None => r is Ok,
                Some(e) => r == Err::<(), GraftError>(e),
            },
    {
        if self.version != 1 || (!self.source.as_str().is_empty() && self.mappings.len() == 0) {
            return Err(GraftError::InvalidCompilation);
        }
        let mut i: usize = 0;
        while i < self.dependencies.len()
            invariant
                i <= self.dependencies@.len(),
                forall|k: int| 0 <= k < i ==> #[trigger] self.dependencies@[k]@.len() > 0,
            decreases self.dependencies@.len() - i,
        {
            if self.dependencies[i].as_str().is_empty() {
                assert(self.dependencies@[i as int]@.len() == 0);
                return Err(GraftError::InvalidCompilation);
            }
            i = i + 1;
        }
        let generated = self.source.as_str();
        let mut previous: usize = 0;
        let mut k: usize = 0;
        while k < self.mappings.len()
            invariant
                k <= self.mappings@.len(),
                generated@ == self.source@,
                self.version == 1,
                !(self.source@.len() > 0 && self.mappings@.len() == 0),
                forall|j: int| 0 <= j < self.dependencies@.len() ==> #[trigger] self.dependencies@[j]@.len() > 0,
                previous == mapped_before(self.mappings@, k as int),
                forall|j: int| 0 <= j < k ==> #[trigger] valid_mapping(self.mappings@, j, encode_utf8(self.source@), original.spec_bytes()),
            decreases self.mappings@.len() - k,
        {
            let m = self.mappings[k];
            if m.start < previous || m.start == m.end || !sliceable(generated, m.start, m.end)
                || !sliceable(original, m.original_start, m.original_end) {
                assert(!valid_mapping(self.mappings@, k as int, encode_utf8(self.source@), original.spec_bytes()));
                return Err(GraftError::InvalidMapping);
            }
            previous = m.end;
            k = k + 1;
        }
        if !parses {
            return Err(GraftError::InvalidLuau);
        }
        Ok(())
    }
}

/// What to do for a hook call: invoke the graft's hook, or answer without
/// invoking it (the source unchanged for formatting, no findings for lint).
#[derive(Debug, PartialEq, Eq, Structural)]
pub enum HookStep {
    Invoke,
    Answer,
}

impl Manifest {
    /// Formatting invokes the hook only where the graft exports one; else
    /// the source stays as it is.
    pub fn format_step(&self) -> (r: HookStep)
        ensures
            r == if self.format {
                HookStep::Invoke
            } else {
                HookStep::Answer
            },
    {
        if self.format {
            HookStep::Invoke
        } else {
            HookStep::Answer
        }
    }

    /// Linting invokes the hook only where the graft exports one; else there
    /// are no findings.
    pub fn lint_step(&self) -> (r: HookStep)
        ensures
            r == if self.lint {
                HookStep::Invoke
            } else {
                HookStep::Answer
            },
    {
        if self.lint {
            HookStep::Invoke
        } else {
            HookStep::Answer
        }
    }

    /// Compiling invokes the hook where the graft exports one, and is refused
    /// before any invocation where it does not.
    pub fn compile_step(&self) -> (r: Result<(), GraftError>)
        ensures
            self.compile <==> r is Ok,
            !self.compile ==> r == Err::<(), GraftError>(GraftError::NoCompileHook),
    {
        if self.compile {
            Ok(())
        } else {
            Err(GraftError::NoCompileHook)
        }
    }
}

} // verus!
