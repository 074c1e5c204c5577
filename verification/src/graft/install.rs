//! Installing released grafts: download limits, digest checks, release asset
//! selection, release pagination and archive entry safety.

use vstd::prelude::*;
use sha2::Digest;
use vstd::string::StringSliceAdditionalSpecFns;
use crate::graft::{
    parses_as_requirement, parses_as_version, printed_version, requirement, requirement_of, reserved,
    reserved_stem, stem, version, GraftError,
};
use crate::paths::PathPart;
use crate::lint::findings::{text_before, text_lt};
use crate::literal::{capped_radix16, lemma_two_hex, radix16};
use crate::text::{
    char_from, chars_of, copy_range, find_char, lemma_char_from, piece_end, piece_end_at, push_all,
    same, starts_with, string_of, trim, trimmed,
};

verus! {

/// The largest download and the largest expanded project accepted: 512 MiB.
pub const DOWNLOAD_LIMIT: u64 = 536870912;

/// A downloaded body, read up to one byte past the limit, is accepted when it
/// holds at most `DOWNLOAD_LIMIT` bytes.
pub fn bytes(read: Vec<u8>) -> (r: Result<Vec<u8>, GraftError>)
    ensures
        read@.len() <= DOWNLOAD_LIMIT ==> (r matches Ok(b) && b@ == read@),
        read@.len() > DOWNLOAD_LIMIT ==> r == Err::<Vec<u8>, GraftError>(
            GraftError::DownloadTooLarge,
        ),
{
    if read.len() as u64 > DOWNLOAD_LIMIT {
        Err(GraftError::DownloadTooLarge)
    } else {
        Ok(read)
    }
}

/// The SHA-256 digest of some bytes.
pub uninterp spec fn sha256_of(data: Seq<u8>) -> Seq<u8>;

/// `sha2::Sha256::digest`: the SHA-256 digest of `data`, which is 32 bytes long.
#[verifier::external_body]
fn sha256(data: &[u8]) -> (r: Vec<u8>)
    ensures
        r@ == sha256_of(data@),
        r@.len() == 32,
{
    sha2::Sha256::digest(data).to_vec()
}

/// The bytes of `sha256:`, the only digest prefix accepted.
pub open spec fn sha256_tag() -> Seq<u8> {
    seq![0x73u8, 0x68u8, 0x61u8, 0x32u8, 0x35u8, 0x36u8, 0x3au8]
}

/// Whether `expected` spells `actual` as pairs of hexadecimal digits, each
/// pair read as `u8::from_str_radix(_, 16)` would.
pub open spec fn spells(expected: Seq<u8>, actual: Seq<u8>) -> bool {
    &&& expected.len() == 2 * actual.len()
    &&& forall|i: int|
        0 <= i < actual.len() ==> #[trigger] radix16(expected.subrange(2 * i, 2 * i + 2))
            == Some(actual[i] as int)
}

/// The outcome of checking a download against a published digest.
pub open spec fn digest_outcome(data: Seq<u8>, digest: Seq<u8>) -> Result<(), GraftError> {
    if digest.len() < 7 || digest.take(7) != sha256_tag() {
        Err(GraftError::UnsupportedDigest)
    } else if spells(digest.skip(7), sha256_of(data)) {
        Ok(())
    } else {
        Err(GraftError::DigestMismatch)
    }
}

fn starts_with_tag(d: &[u8]) -> (r: bool)
    ensures
        r == (d@.len() >= 7 && d@.take(7) == sha256_tag()),
{
    if d.len() < 7 {
        return false;
    }
    let r = d[0] == 0x73 && d[1] == 0x68 && d[2] == 0x61 && d[3] == 0x32 && d[4] == 0x35 && d[5]
        == 0x36 && d[6] == 0x3a;
    assert(r ==> d@.take(7) =~= sha256_tag());
    assert(d@.take(7) == sha256_tag() ==> d@.take(7)[0] == 0x73 && d@.take(7)[6] == 0x3a);
    r
}

/// Checks a download against its published digest, when there is one: the
/// digest must read `sha256:` followed by the 64 hexadecimal digits of the
/// download's SHA-256 digest.
pub fn verify(data: &[u8], digest: Option<&str>) -> (r: Result<(), GraftError>)
    ensures
        match digest {
            None => r is Ok,
            Some(d) => r == digest_outcome(data@, d.spec_bytes()),
        },
        digest matches Some(d) && d.spec_bytes().len() != 71 ==> r is Err,
{
    let d = match digest {
        None => {
            return Ok(());
        },
        Some(d) => d.as_bytes(),
    };
    if !starts_with_tag(d) {
        return Err(GraftError::UnsupportedDigest);
    }
    let actual = sha256(data);
    let ghost expected = d@.skip(7);
    if d.len() - 7 != 2 * actual.len() {
        return Err(GraftError::DigestMismatch);
    }
    let mut i: usize = 0;
    while i < actual.len()
        invariant
            i <= actual@.len() == 32,
            digest matches Some(text) && text.spec_bytes() == d@,
            actual@ == sha256_of(data@),
            d@.len() >= 7 && d@.take(7) == sha256_tag(),
            d@.len() == 7 + 2 * actual@.len(),
            expected == d@.skip(7),
            forall|k: int|
                0 <= k < i ==> #[trigger] radix16(expected.subrange(2 * k, 2 * k + 2)) == Some(
                    actual@[k] as int,
                ),
        decreases actual@.len() - i,
    {
        let start = 7 + 2 * i;
        let pair = capped_radix16(d, start, start + 2);
        assert(d@.subrange(start as int, start + 2) =~= expected.subrange(
            2 * i as int,
            2 * i + 2,
        ));
        proof {
            lemma_two_hex(expected.subrange(2 * i as int, 2 * i + 2));
        }
        match pair {
            Some(v) if v == actual[i] as u32 => {},
            _ => {
                return Err(GraftError::DigestMismatch);
            },
        }
        i = i + 1;
    }
    Ok(())
}

/// A downloadable file of a release.
#[derive(Debug, Clone)]
pub struct Asset {
    /// File name of the asset.
    pub name: String,
    /// Address the asset downloads from.
    pub browser_download_url: String,
    /// Published digest of the asset, such as `sha256:` and hexadecimal digits.
    pub digest: Option<String>,
}

/// A published release of a graft project.
#[derive(Debug, Clone)]
pub struct Release {
    /// Tag the release was made from, such as `v1.2.3`.
    pub tag_name: String,
    /// Whether the release is an unpublished draft.
    pub draft: bool,
    /// Whether the release is marked as a prerelease.
    pub prerelease: bool,
    /// Files attached to the release.
    pub assets: Vec<Asset>,
}

/// The first index at or after `k` whose asset is named `wanted`.
pub open spec fn named_from(assets: Seq<Asset>, wanted: Seq<char>, k: int) -> Option<int>
    decreases assets.len() - k,
{
    if k < 0 || k >= assets.len() {
        None
    } else if assets[k].name@ == wanted {
        Some(k)
    } else {
        named_from(assets, wanted, k + 1)
    }
}

/// The asset named `wanted`: none, the only one, or an ambiguity.
pub open spec fn pick(assets: Seq<Asset>, wanted: Seq<char>) -> Option<Result<int, GraftError>> {
    match named_from(assets, wanted, 0) {
        None => None,
        Some(i) => if named_from(assets, wanted, i + 1) is Some {
            Some(Err(GraftError::AmbiguousAssets))
        } else {
            Some(Ok(i))
        },
    }
}

/// `name.zip`, the portable project archive.
pub open spec fn portable_name(name: Seq<char>) -> Seq<char> {
    name + seq!['.', 'z', 'i', 'p']
}

/// `name-platform.zip`, the archive built for one platform.
pub open spec fn platform_name(name: Seq<char>, platform: Seq<char>) -> Seq<char> {
    name + seq!['-'] + platform + seq!['.', 'z', 'i', 'p']
}

/// The asset to install: the platform archive when the platform is known and
/// the release has it, else the portable archive; a name given to two assets
/// is an error.
pub open spec fn asset_choice(assets: Seq<Asset>, name: Seq<char>, platform: Option<Seq<char>>) -> Result<int, GraftError> {
    let portable = match pick(assets, portable_name(name)) {
        Some(r) => r,
        None => Err(GraftError::MissingAsset),
    };
    match platform {
        Some(p) => match pick(assets, platform_name(name, p)) {
            Some(r) => r,
            None => portable,
        },
        None => portable,
    }
}

proof fn lemma_named_from(assets: Seq<Asset>, wanted: Seq<char>, k: int)
    ensures
        named_from(assets, wanted, k) matches Some(i) ==> k <= i < assets.len() && assets[i].name@ == wanted,
    decreases assets.len() - k,
{
    if 0 <= k < assets.len() && assets[k].name@ != wanted {
        lemma_named_from(assets, wanted, k + 1);
    }
}

fn named(assets: &Vec<Asset>, wanted: &String, from: usize) -> (r: Option<usize>)
    ensures
        match r {
            Some(i) => named_from(assets@, wanted@, from as int) == Some(i as int),
            None => named_from(assets@, wanted@, from as int) is None,
        },
{
    let mut i = from;
    if i > assets.len() {
        return None;
    }
    while i < assets.len()
        invariant
            from <= i <= assets@.len(),
            named_from(assets@, wanted@, from as int) == named_from(assets@, wanted@, i as int),
        decreases assets@.len() - i,
    {
        if assets[i].name == *wanted {
            return Some(i);
        }
        i = i + 1;
    }
    None
}

fn pick_named(assets: &Vec<Asset>, wanted: &String) -> (r: Option<Result<usize, GraftError>>)
    ensures
        match pick(assets@, wanted@) {
            None => r is None,
            Some(Ok(i)) => r matches Some(Ok(k)) && k as int == i,
            Some(Err(e)) => r == Some(Err::<usize, GraftError>(e)),
        },
        pick(assets@, wanted@) matches Some(Ok(i)) ==> 0 <= i < assets@.len(),
{
    match named(assets, wanted, 0) {
        None => None,
        Some(i) => {
            proof {
                lemma_named_from(assets@, wanted@, 0);
            }
            assert(i < assets.len());
            if named(assets, wanted, i + 1).is_some() {
                Some(Err(GraftError::AmbiguousAssets))
            } else {
                Some(Ok(i))
            }
        },
    }
}

fn archive_name(name: &str, platform: Option<&str>) -> (r: String)
    ensures
        r@ == match platform {
            Some(p) => platform_name(name@, p@),
            None => portable_name(name@),
        },
{
    let mut v = chars_of(name);
    if let Some(p) = platform {
        v.push('-');
        push_all(&mut v, &chars_of(p));
    }
    v.push('.');
    v.push('z');
    v.push('i');
    v.push('p');
    proof {
        match platform {
            Some(p) => {
                assert(v@ =~= platform_name(name@, p@));
            },
            None => {
                assert(v@ =~= portable_name(name@));
            },
        }
    }
    string_of(&v)
}

/// Chooses the asset of `release` to install for the graft `name`: the
/// archive for `platform` when there is one, else the portable archive.
pub fn asset<'a>(release: &'a Release, name: &str, platform: Option<&str>) -> (r: Result<&'a Asset, GraftError>)
    ensures
        match asset_choice(release.assets@, name@, match platform { Some(p) => Some(p@), None => None }) {
            Ok(i) => r matches Ok(a) && *a == release.assets@[i],
            Err(e) => r == Err::<&Asset, GraftError>(e),
        },
{
    let portable = archive_name(name, None);
    let ghost wanted = match platform { Some(p) => Some(p@), None => None::<Seq<char>> };
    let ghost choice = asset_choice(release.assets@, name@, wanted);
    let first = match platform {
        Some(p) => pick_named(&release.assets, &archive_name(name, Some(p))),
        None => None,
    };
    let chosen = match first {
        Some(r) => r,
        None => match pick_named(&release.assets, &portable) {
            Some(r) => r,
            None => Err(GraftError::MissingAsset),
        },
    };
    assert(match choice {
        Ok(j) => chosen matches Ok(k) && k as int == j,
        Err(e) => chosen == Err::<usize, GraftError>(e),
    });
    match chosen {
        Ok(i) => {
            let a = &release.assets[i];
            assert(*a == release.assets@[i as int]);
            assert(choice == Ok::<int, GraftError>(i as int));
            Ok(a)
        },
        Err(e) => {
            assert(choice == Err::<int, GraftError>(e));
            Err(e)
        },
    }
}

/// A piece of an archive entry's name between slashes that is safe to
/// extract: not `.` or `..`, and not ending in `.` or a space.
pub open spec fn safe_piece(p: Seq<char>) -> bool {
    &&& p != seq!['.']
    &&& p != seq!['.', '.']
    &&& !(p.len() > 0 && (p.last() == '.' || p.last() == ' '))
}

/// Where a piece of `name` may start, when `name` is split at slashes.
pub open spec fn piece_start(name: Seq<char>, s: int) -> bool {
    0 <= s <= name.len() && (s == 0 || name[s - 1] == '/')
}

/// Whether an archive entry's name is safe as text: relative, with no
/// backslash or colon, and with only safe pieces.
pub open spec fn safe_name(name: Seq<char>) -> bool {
    &&& !(name.len() > 0 && name[0] == '/')
    &&& !name.contains('\\')
    &&& !name.contains(':')
    &&& forall|s: int| #[trigger] piece_start(name, s) ==> safe_piece(name.subrange(s, piece_end(name, s, '/')))
}

/// A Unix file type that may be extracted: unknown, a regular file or a directory.
pub open spec fn plain_mode(mode: u32) -> bool {
    let kind = mode & 0xf000u32;
    kind == 0 || kind == 0x8000 || kind == 0x4000
}

/// Why an archive entry may not be extracted, if it may not: its name is
/// unsafe, a part of its enclosed path is a reserved device name, or it is a
/// link or special file.
pub open spec fn entry_problem(name: Seq<char>, enclosed: Option<Seq<PathPart>>, mode: Option<u32>) -> Option<GraftError> {
    match enclosed {
        None => Some(GraftError::UnsafePath),
        Some(parts) => if !safe_name(name) || parts.len() == 0 || exists|i: int|
            0 <= i < parts.len() && !(#[trigger] parts[i] is Normal) {
            Some(GraftError::UnsafePath)
        } else if exists|i: int|
            0 <= i < parts.len() && (#[trigger] parts[i] matches PathPart::Normal(n) && reserved(stem(n@))) {
            Some(GraftError::ReservedName)
        } else if !plain_mode(
            match mode {
                Some(m) => m,
                None => 0,
            },
        ) {
            Some(GraftError::SpecialFile)
        } else {
            None
        },
    }
}

fn holds(v: &[char], c: char) -> (r: bool)
    ensures
        r == v@.contains(c),
{
    let mut i: usize = 0;
    while i < v.len()
        invariant
            i <= v@.len(),
            forall|k: int| 0 <= k < i ==> v@[k] != c,
        decreases v@.len() - i,
    {
        if v[i] == c {
            assert(v@[i as int] == c);
            return true;
        }
        i = i + 1;
    }
    false
}

#[verifier::spinoff_prover]
fn safe_piece_at(v: &[char], start: usize, end: usize) -> (r: bool)
    requires
        start <= end <= v@.len(),
    ensures
        r == safe_piece(v@.subrange(start as int, end as int)),
{
    let ghost p = v@.subrange(start as int, end as int);
    let n = end - start;
    let r = !(n == 1 && v[start] == '.') && !(n == 2 && v[start] == '.' && v[start + 1] == '.')
        && !(n > 0 && (v[end - 1] == '.' || v[end - 1] == ' '));
    proof {
        if n > 0 {
            assert(p.last() == v@[end - 1]);
        }
        assert(p.len() == n);
        if p == seq!['.'] {
            assert(seq!['.'].len() == 1);
            assert(p[0] == v@[start as int]);
        }
        if p == seq!['.', '.'] {
            assert(p.len() == 2 && p[0] == v@[start as int] && p[1] == v@[start + 1]);
        }
        if n == 1 && v@[start as int] == '.' {
            assert(p =~= seq!['.']);
        }
        if n == 2 && v@[start as int] == '.' && v@[start + 1] == '.' {
            assert(p =~= seq!['.', '.']);
        }
    }
    r
}

fn safe_text(v: &[char]) -> (r: bool)
    ensures
        r == safe_name(v@),
{
    if v.len() > 0 && v[0] == '/' {
        return false;
    }
    if holds(v, '\\') || holds(v, ':') {
        return false;
    }
    let mut start: usize = 0;
    loop
        invariant
            !(v@.len() > 0 && v@[0] == '/'),
            !v@.contains('\\'),
            !v@.contains(':'),
            piece_start(v@, start as int),
            forall|s: int| #[trigger] piece_start(v@, s) && s < start ==> safe_piece(
                v@.subrange(s, piece_end(v@, s, '/')),
            ),
        decreases v@.len() - start,
    {
        let end = piece_end_at(v, start, '/');
        if !safe_piece_at(v, start, end) {
            return false;
        }
        if end == v.len() {
            assert forall|s: int| #[trigger] piece_start(v@, s) implies safe_piece(
                v@.subrange(s, piece_end(v@, s, '/')),
            ) by {
                if start < s {
                    assert(v@[s - 1] != '/');
                }
            }
            return true;
        }
        assert forall|s: int| #[trigger] piece_start(v@, s) && s < end + 1 implies safe_piece(
            v@.subrange(s, piece_end(v@, s, '/')),
        ) by {
            if start < s {
                assert(v@[s - 1] != '/');
            }
        }
        start = end + 1;
    }
}

fn reserved_part(parts: &Vec<PathPart>) -> (r: bool)
    ensures
        r == exists|i: int|
            0 <= i < parts@.len() && (#[trigger] parts@[i] matches PathPart::Normal(n) && reserved(stem(n@))),
{
    let mut i: usize = 0;
    while i < parts.len()
        invariant
            i <= parts@.len(),
            forall|k: int|
                0 <= k < i ==> !(#[trigger] parts@[k] matches PathPart::Normal(n) && reserved(stem(n@))),
        decreases parts@.len() - i,
    {
        if let PathPart::Normal(n) = &parts[i] {
            if reserved_stem(n.as_str()) {
                return true;
            }
        }
        i = i + 1;
    }
    false
}

/// Checks that an archive entry may be extracted: `name` is the entry's name
/// as stored, `enclosed` the parts of the path it names inside the
/// destination (none when the archive reader finds it unsafe), and `mode` its
/// Unix mode, when the archive records one.
pub fn entry(name: &str, enclosed: Option<&Vec<PathPart>>, mode: Option<u32>) -> (r: Result<(), GraftError>)
    ensures
        match entry_problem(name@, match enclosed { Some(p) => Some(p@), None => None }, mode) {
            None => r is Ok,
            Some(e) => r == Err::<(), GraftError>(e),
        },
{
    let parts = match enclosed {
        None => {
            return Err(GraftError::UnsafePath);
        },
        Some(parts) => parts,
    };
    let v = chars_of(name);
    if !safe_text(&v) || parts.len() == 0 || !normal_parts(parts) {
        return Err(GraftError::UnsafePath);
    }
    if reserved_part(parts) {
        return Err(GraftError::ReservedName);
    }
    let m = match mode {
        Some(m) => m,
        None => 0,
    };
    let kind = m & 0xf000u32;
    if !(kind == 0 || kind == 0x8000 || kind == 0x4000) {
        return Err(GraftError::SpecialFile);
    }
    Ok(())
}

fn normal_parts(parts: &Vec<PathPart>) -> (r: bool)
    ensures
        r == forall|i: int| 0 <= i < parts@.len() ==> #[trigger] parts@[i] is Normal,
{
    let mut i: usize = 0;
    while i < parts.len()
        invariant
            i <= parts@.len(),
            forall|k: int| 0 <= k < i ==> #[trigger] parts@[k] is Normal,
        decreases parts@.len() - i,
    {
        match &parts[i] {
            PathPart::Normal(_) => {},
            _ => {
                return false;
            },
        }
        i = i + 1;
    }
    true
}

/// `rel="next"`, the relation of the link to the following page.
pub open spec fn next_relation() -> Seq<char> {
    seq!['r', 'e', 'l', '=', '"', 'n', 'e', 'x', 't', '"']
}

/// The address of one link of a `Link` header, `<address>; rel="next"`,
/// when its relation is the next page.
pub open spec fn link_target(link: Seq<char>) -> Option<Seq<char>> {
    let t = trim(link);
    match char_from(t, 0, ';') {
        None => None,
        Some(i) => if trim(t.skip(i + 1)) == next_relation() {
            let a = trim(t.take(i));
            if a.len() >= 2 && a[0] == '<' && a.last() == '>' {
                Some(a.subrange(1, a.len() - 1))
            } else {
                None
            }
        } else {
            None
        },
    }
}

/// The first next-page address among the comma separated links of `header`
/// that start at or after `s`.
pub open spec fn next_from(header: Seq<char>, s: int) -> Option<Seq<char>>
    decreases header.len() - s,
{
    if s < 0 || s > header.len() {
        None
    } else {
        let e = piece_end(header, s, ',');
        match link_target(header.subrange(s, e)) {
            Some(a) => Some(a),
            None => if e < header.len() {
                proof {
                    lemma_char_from(header, s, ',');
                }
                next_from(header, e + 1)
            } else {
                None
            },
        }
    }
}

fn target(link: &[char]) -> (r: Option<Vec<char>>)
    ensures
        match r {
            Some(a) => link_target(link@) == Some(a@),
            None => link_target(link@) is None,
        },
{
    let t = trimmed(link);
    let i = match find_char(&t, 0, ';') {
        None => {
            return None;
        },
        Some(i) => i,
    };
    proof {
        lemma_char_from(t@, 0, ';');
    }
    let relation = trimmed(&copy_range(&t, i + 1, t.len()));
    assert(t@.subrange(i + 1, t@.len() as int) =~= t@.skip(i + 1));
    let expected = chars_of("rel=\"next\"");
    proof {
        reveal_strlit("rel=\"next\"");
        assert(expected@ =~= next_relation());
    }
    if !same(&relation, &expected) {
        return None;
    }
    let a = trimmed(&copy_range(&t, 0, i));
    assert(t@.subrange(0, i as int) =~= t@.take(i as int));
    if a.len() >= 2 && a[0] == '<' && a[a.len() - 1] == '>' {
        Some(copy_range(&a, 1, a.len() - 1))
    } else {
        None
    }
}

/// The address of the next page named by a `Link` header: the first of its
/// comma separated links whose relation is `rel="next"` and whose address
/// stands in angle brackets.
pub fn next_link(header: &str) -> (r: Option<String>)
    ensures
        match r {
            Some(a) => next_from(header@, 0) == Some(a@),
            None => next_from(header@, 0) is None,
        },
{
    let h = chars_of(header);
    let mut start: usize = 0;
    loop
        invariant
            start <= h@.len(),
            h@ == header@,
            next_from(h@, 0) == next_from(h@, start as int),
        decreases h@.len() - start,
    {
        let end = piece_end_at(&h, start, ',');
        let piece = copy_range(&h, start, end);
        match target(&piece) {
            Some(a) => {
                return Some(string_of(&a));
            },
            None => {},
        }
        if end == h.len() {
            return None;
        }
        start = end + 1;
    }
}

/// `https://api.github.com/repos/`, where release listings are fetched.
pub open spec fn releases_prefix() -> Seq<char> {
    seq![
        'h', 't', 't', 'p', 's', ':', '/', '/', 'a', 'p', 'i', '.', 'g', 'i', 't', 'h', 'u', 'b',
        '.', 'c', 'o', 'm', '/', 'r', 'e', 'p', 'o', 's', '/'
    ]
}

/// The listing of a repository's releases.
pub open spec fn releases_endpoint(repository: Seq<char>) -> Seq<char> {
    releases_prefix() + repository + seq!['/', 'r', 'e', 'l', 'e', 'a', 's', 'e', 's']
}

/// An address that lists releases of the same repository: the endpoint
/// itself, or the endpoint with a query.
pub open spec fn within(address: Seq<char>, endpoint: Seq<char>) -> bool {
    address == endpoint || starts_with(address, endpoint + seq!['?'])
}

/// The pages of a release listing visited so far.
pub struct Pages {
    /// The first page of the listing.
    pub endpoint: String,
    /// The addresses fetched so far, in order.
    pub visited: Vec<String>,
}

impl Pages {
    /// The addresses visited, as text.
    pub open spec fn addresses(&self) -> Seq<Seq<char>> {
        self.visited@.map_values(|a: String| a@)
    }

    /// Every address visited is within the listing, and none twice.
    pub open spec fn wf(&self) -> bool {
        &&& forall|i: int| 0 <= i < self.addresses().len() ==> within(#[trigger] self.addresses()[i], self.endpoint@)
        &&& self.addresses().no_duplicates()
    }

    /// No page visited yet of the releases of `repository`.
    pub fn new(repository: &str) -> (p: Pages)
        ensures
            p.endpoint@ == releases_endpoint(repository@),
            p.visited@.len() == 0,
            p.wf(),
    {
        let mut v = chars_of("https://api.github.com/repos/");
        proof {
            reveal_strlit("https://api.github.com/repos/");
            assert(v@ =~= releases_prefix());
        }
        push_all(&mut v, &chars_of(repository));
        push_all(&mut v, &chars_of("/releases"));
        proof {
            reveal_strlit("/releases");
            assert(v@ =~= releases_endpoint(repository@));
        }
        let p = Pages { endpoint: string_of(&v), visited: Vec::new() };
        assert(p.addresses() =~= Seq::<Seq<char>>::empty());
        p
    }

    /// Records a visit of `address`, refused when it leaves the listing or
    /// was visited before.
    pub fn visit(&mut self, address: &str) -> (r: Result<(), GraftError>)
        requires
            old(self).wf(),
        ensures
            final(self).wf(),
            final(self).endpoint == old(self).endpoint,
            if within(address@, old(self).endpoint@) && !old(self).addresses().contains(address@) {
                r is Ok && final(self).addresses() == old(self).addresses().push(address@)
            } else {
                r == Err::<(), GraftError>(GraftError::InvalidPagination) && final(self).visited@
                    == old(self).visited@
            },
    {
        let a = chars_of(address);
        let e = chars_of(self.endpoint.as_str());
        let mut query = chars_of(self.endpoint.as_str());
        query.push('?');
        assert(query@ =~= self.endpoint@ + seq!['?']);
        if !(same(&a, &e) || starts(&a, &query)) {
            return Err(GraftError::InvalidPagination);
        }
        let owned = string_of(&a);
        let mut i: usize = 0;
        while i < self.visited.len()
            invariant
                i <= self.visited@.len(),
                owned@ == address@,
                self.wf(),
                self.visited@ == old(self).visited@,
                self.endpoint == old(self).endpoint,
                within(address@, self.endpoint@),
                forall|k: int| 0 <= k < i ==> self.addresses()[k] != address@,
            decreases self.visited@.len() - i,
        {
            if self.visited[i] == owned {
                assert(self.addresses()[i as int] == address@);
                return Err(GraftError::InvalidPagination);
            }
            i = i + 1;
        }
        let ghost before = self.addresses();
        self.visited.push(owned);
        assert(self.addresses() =~= before.push(address@));
        Ok(())
    }
}

fn starts(s: &[char], prefix: &[char]) -> (r: bool)
    ensures
        r == starts_with(s@, prefix@),
{
    if prefix.len() > s.len() {
        return false;
    }
    let head = copy_range(s, 0, prefix.len());
    assert(s@.subrange(0, prefix@.len() as int) =~= s@.take(prefix@.len() as int));
    same(&head, prefix)
}

/// Whether the version `version` satisfies the requirement `requirement`,
/// both read by semver.
pub uninterp spec fn satisfies(requirement: Seq<char>, version: Seq<char>) -> bool;

/// Whether semver reads `version` as a version with a pre-release part.
pub uninterp spec fn has_prerelease(version: Seq<char>) -> bool;

/// Whether semver reads `a` and `b` as versions and orders `a` after `b`.
pub uninterp spec fn later_version(a: Seq<char>, b: Seq<char>) -> bool;

/// Whether semver reads `a` and `b` as the same version.
pub uninterp spec fn same_version(a: Seq<char>, b: Seq<char>) -> bool;

/// `semver::VersionReq::matches` on the requirement and version that
/// `semver::VersionReq::parse` and `semver::Version::parse` read from the
/// texts; false when either does not parse. Which versions satisfy which
/// requirements is not claimed.
#[verifier::external_body]
fn requirement_matches(requirement: &str, version: &str) -> (r: bool)
    ensures
        r == satisfies(requirement@, version@),
{
    match (semver::VersionReq::parse(requirement), semver::Version::parse(version)) {
        (Ok(req), Ok(v)) => req.matches(&v),
        _ => false,
    }
}

/// Whether `semver::Version::parse` reads a version whose `pre` is not
/// empty; false when the text does not parse.
#[verifier::external_body]
fn prerelease(version: &str) -> (r: bool)
    ensures
        r == has_prerelease(version@),
{
    match semver::Version::parse(version) {
        Ok(v) => !v.pre.is_empty(),
        Err(_) => false,
    }
}

/// Whether both texts parse as versions and the first is greater by
/// semver's ordering of `Version`; false when either does not parse.
#[verifier::external_body]
fn version_greater(a: &str, b: &str) -> (r: bool)
    ensures
        r == later_version(a@, b@),
{
    match (semver::Version::parse(a), semver::Version::parse(b)) {
        (Ok(x), Ok(y)) => x > y,
        _ => false,
    }
}

/// Whether both texts parse as versions that are equal, build metadata
/// included; false when either does not parse.
#[verifier::external_body]
fn version_equal(a: &str, b: &str) -> (r: bool)
    ensures
        r == same_version(a@, b@),
{
    match (semver::Version::parse(a), semver::Version::parse(b)) {
        (Ok(x), Ok(y)) => x == y,
        _ => false,
    }
}

/// Whether a graft project's manifest is the release it was installed as:
/// its name must be the graft's, and its version, read by semver, the
/// release's. The names are compared first; a version that does not parse
/// is refused.
pub fn identity(manifest_name: &str, manifest_version: &str, name: &str, release: &str) -> (r: Result<(), GraftError>)
    ensures
        manifest_name@ != name@ ==> r == Err::<(), GraftError>(GraftError::IdentityMismatch),
        manifest_name@ == name@ && !(parses_as_version(manifest_version@) && parses_as_version(release@)) ==> r
            == Err::<(), GraftError>(GraftError::InvalidVersion),
        manifest_name@ == name@ && parses_as_version(manifest_version@) && parses_as_version(release@) ==> (r is Ok
            <==> same_version(manifest_version@, release@)),
        r is Err ==> r == Err::<(), GraftError>(GraftError::IdentityMismatch) || r == Err::<(), GraftError>(
            GraftError::InvalidVersion,
        ),
{
    let a = chars_of(manifest_name);
    let b = chars_of(name);
    if !same(a.as_slice(), b.as_slice()) {
        return Err(GraftError::IdentityMismatch);
    }
    if version(manifest_version).is_none() || version(release).is_none() {
        return Err(GraftError::InvalidVersion);
    }
    if version_equal(manifest_version, release) {
        Ok(())
    } else {
        Err(GraftError::IdentityMismatch)
    }
}

/// A release tag without its leading `v`.
pub open spec fn tag_text(tag: Seq<char>) -> Seq<char> {
    if tag.len() > 0 && tag[0] == 'v' {
        tag.drop_first()
    } else {
        tag
    }
}

/// The version a release was tagged with, as semver prints it.
pub open spec fn release_version(r: Release) -> Option<Seq<char>> {
    if parses_as_version(tag_text(r.tag_name@)) {
        Some(printed_version(tag_text(r.tag_name@)))
    } else {
        None
    }
}

/// A release that may be installed for `requested`: published, tagged with
/// a version that meets the requirement, the very version when `requested`
/// is one, and with a pre-release version when marked as a prerelease.
pub open spec fn eligible(r: Release, requested: Seq<char>) -> bool {
    &&& !r.draft
    &&& match release_version(r) {
        None => false,
        Some(v) => {
            &&& satisfies(requirement_of(requested), v)
            &&& (parses_as_version(requested) ==> same_version(requested, v))
            &&& (!r.prerelease || has_prerelease(v))
        },
    }
}

/// Among the first `n` releases, the eligible one with the greatest
/// version; of equal versions the last.
pub open spec fn best(releases: Seq<Release>, requested: Seq<char>, n: int) -> Option<int>
    decreases n,
{
    if n <= 0 || n > releases.len() {
        None
    } else {
        let before = best(releases, requested, n - 1);
        if eligible(releases[n - 1], requested) {
            match before {
                Some(b) => if later_version(
                    release_version(releases[b])->0,
                    release_version(releases[n - 1])->0,
                ) {
                    Some(b)
                } else {
                    Some(n - 1)
                },
                None => Some(n - 1),
            }
        } else {
            before
        }
    }
}

proof fn lemma_best(releases: Seq<Release>, requested: Seq<char>, n: int)
    ensures
        best(releases, requested, n) matches Some(b) ==> 0 <= b < n && eligible(releases[b], requested),
    decreases n,
{
    if 0 < n <= releases.len() {
        lemma_best(releases, requested, n - 1);
    }
}

/// The release to install for the requested version: the requirement must
/// parse, and some release must be eligible; the version printed by semver
/// and the index of the release are returned.
pub fn select(releases: &Vec<Release>, requested: &str) -> (r: Result<(String, usize), GraftError>)
    ensures
        !parses_as_requirement(requirement_of(requested@)) ==> r == Err::<(String, usize), GraftError>(GraftError::InvalidRequirement),
        parses_as_requirement(requirement_of(requested@)) ==> match best(releases@, requested@, releases@.len() as int) {
            None => r == Err::<(String, usize), GraftError>(GraftError::NoRelease),
            Some(b) => r matches Ok((v, i)) && i == b && v@ == release_version(releases@[b])->0,
        },
{
    let exact = version(requested).is_some();
    let req = match requirement(requested) {
        Ok(req) => req,
        Err(e) => {
            return Err(e);
        },
    };
    let mut chosen: Option<(String, usize)> = None;
    let mut i: usize = 0;
    while i < releases.len()
        invariant
            i <= releases@.len(),
            exact == parses_as_version(requested@),
            req@ == requirement_of(requested@),
            match best(releases@, requested@, i as int) {
                None => chosen is None,
                Some(b) => chosen matches Some((v, k)) && k == b && v@ == release_version(releases@[b])->0,
            },
        decreases releases@.len() - i,
    {
        let release = &releases[i];
        proof {
            lemma_best(releases@, requested@, i as int);
        }
        if !release.draft {
            let tag = chars_of(release.tag_name.as_str());
            let text = if tag.len() > 0 && tag[0] == 'v' {
                copy_range(&tag, 1, tag.len())
            } else {
                tag
            };
            assert(text@ == tag_text(release.tag_name@)) by {
                if tag@.len() > 0 && tag@[0] == 'v' {
                    assert(tag@.subrange(1, tag@.len() as int) =~= tag@.drop_first());
                }
            }
            let text = string_of(&text);
            if let Some(printed) = version(text.as_str()) {
                let fits = requirement_matches(req.as_str(), printed.as_str()) && (!exact
                    || version_equal(requested, printed.as_str())) && (!release.prerelease
                    || prerelease(printed.as_str()));
                if fits {
                    let keep = match &chosen {
                        Some((v, _)) => version_greater(v.as_str(), printed.as_str()),
                        None => false,
                    };
                    if !keep {
                        chosen = Some((printed, i));
                    }
                }
            }
        }
        i = i + 1;
    }
    match chosen {
        Some(c) => Ok(c),
        None => Err(GraftError::NoRelease),
    }
}

/// The selected release is eligible, and the selected version is later than
/// that of every eligible release after it; there is no selection exactly
/// when no release is eligible.
pub proof fn law_selection(releases: Seq<Release>, requested: Seq<char>)
    ensures
        best(releases, requested, releases.len() as int) is None <==> forall|j: int|
            0 <= j < releases.len() ==> !eligible(#[trigger] releases[j], requested),
        best(releases, requested, releases.len() as int) matches Some(b) ==> {
            &&& eligible(releases[b], requested)
            &&& forall|j: int|
                b < j < releases.len() && eligible(#[trigger] releases[j], requested) ==> later_version(
                    release_version(releases[b])->0,
                    release_version(releases[j])->0,
                )
        },
{
    lemma_selection(releases, requested, releases.len() as int);
}

proof fn lemma_selection(releases: Seq<Release>, requested: Seq<char>, n: int)
    requires
        0 <= n <= releases.len(),
    ensures
        best(releases, requested, n) is None <==> forall|j: int| 0 <= j < n ==> !eligible(#[trigger] releases[j], requested),
        best(releases, requested, n) matches Some(b) ==> {
            &&& 0 <= b < n
            &&& eligible(releases[b], requested)
            &&& forall|j: int|
                b < j < n && eligible(#[trigger] releases[j], requested) ==> later_version(
                    release_version(releases[b])->0,
                    release_version(releases[j])->0,
                )
        },
    decreases n,
{
    if n > 0 {
        lemma_selection(releases, requested, n - 1);
        if !eligible(releases[n - 1], requested) {
            if best(releases, requested, n - 1) is None {
                assert forall|j: int| 0 <= j < n implies !eligible(#[trigger] releases[j], requested) by {
                    if j < n - 1 {
                    }
                }
            }
        }
    }
}

/// A cached version directory that may serve `requested`: named by a
/// version that meets the requirement, and the very version when
/// `requested` is one.
pub open spec fn usable(name: Seq<char>, requested: Seq<char>) -> bool {
    &&& parses_as_version(name)
    &&& satisfies(requirement_of(requested), name)
    &&& (parses_as_version(requested) ==> same_version(requested, name))
}

/// Among the first `n` directory names, the usable one that is greatest by
/// version, then by name; of equal ones the last.
pub open spec fn newest(names: Seq<Seq<char>>, requested: Seq<char>, n: int) -> Option<int>
    decreases n,
{
    if n <= 0 || n > names.len() {
        None
    } else {
        let before = newest(names, requested, n - 1);
        if usable(names[n - 1], requested) {
            match before {
                Some(b) => if later_version(names[b], names[n - 1]) || (same_version(names[b], names[n - 1])
                    && text_lt(names[n - 1], names[b])) {
                    Some(b)
                } else {
                    Some(n - 1)
                },
                None => Some(n - 1),
            }
        } else {
            before
        }
    }
}

proof fn lemma_newest(names: Seq<Seq<char>>, requested: Seq<char>, n: int)
    ensures
        newest(names, requested, n) matches Some(b) ==> 0 <= b < n && usable(names[b], requested),
    decreases n,
{
    if 0 < n <= names.len() {
        lemma_newest(names, requested, n - 1);
    }
}

/// The names of some strings.
pub open spec fn name_texts(names: Seq<String>) -> Seq<Seq<char>> {
    names.map_values(|s: String| s@)
}

/// The installed version directory to use for `requested`, among the names
/// of the version directories of a graft: the requirement must parse, and
/// some directory must be usable.
pub fn newest_cached(names: &Vec<String>, requested: &str) -> (r: Result<usize, GraftError>)
    ensures
        !parses_as_requirement(requirement_of(requested@)) ==> r == Err::<usize, GraftError>(GraftError::InvalidRequirement),
        parses_as_requirement(requirement_of(requested@)) ==> match newest(name_texts(names@), requested@, names@.len() as int) {
            None => r == Err::<usize, GraftError>(GraftError::NotCached),
            Some(b) => r == Ok::<usize, GraftError>(b as usize),
        },
{
    let exact = version(requested).is_some();
    let req = match requirement(requested) {
        Ok(req) => req,
        Err(e) => {
            return Err(e);
        },
    };
    let ghost texts = name_texts(names@);
    let mut chosen: Option<usize> = None;
    let mut i: usize = 0;
    while i < names.len()
        invariant
            i <= names@.len(),
            texts == name_texts(names@),
            exact == parses_as_version(requested@),
            req@ == requirement_of(requested@),
            match newest(texts, requested@, i as int) {
                None => chosen is None,
                Some(b) => chosen == Some(b as usize),
            },
        decreases names@.len() - i,
    {
        proof {
            lemma_newest(texts, requested@, i as int);
        }
        let name = names[i].as_str();
        assert(name@ == texts[i as int]);
        let fits = version(name).is_some() && requirement_matches(req.as_str(), name) && (!exact
            || version_equal(requested, name));
        if fits {
            let keep = match chosen {
                Some(b) => {
                    let best = names[b].as_str();
                    version_greater(best, name) || (version_equal(best, name) && text_before(
                        &chars_of(name),
                        &chars_of(best),
                    ))
                },
                None => false,
            };
            if !keep {
                chosen = Some(i);
            }
        }
        i = i + 1;
    }
    match chosen {
        Some(b) => Ok(b),
        None => Err(GraftError::NotCached),
    }
}

} // verus!
