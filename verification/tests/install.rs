use instar_core::graft::install::{
    asset, bytes, entry, identity, newest_cached, next_link, select, verify, Asset, Pages, Release,
    DOWNLOAD_LIMIT,
};
use instar_core::graft::GraftError;
use instar_core::paths::PathPart;

fn release(tag: &str, assets: &[&str]) -> Release {
    Release {
        tag_name: tag.to_owned(),
        draft: false,
        prerelease: false,
        assets: assets
            .iter()
            .map(|name| Asset {
                name: (*name).to_owned(),
                browser_download_url: "fixture".to_owned(),
                digest: None,
            })
            .collect(),
    }
}

#[test]
fn versions_and_assets_select_exact_compatible_and_platform_projects() {
    let mut releases = vec![
        release("v0.2.0", &["example.zip"]),
        release(
            "0.2.1",
            &["example.zip", "example-x86_64-pc-windows-msvc.zip"],
        ),
        release("v0.3.0", &["example.zip"]),
        release("unrelated", &[]),
        release("v0.2.9", &[]),
        release("v0.2.2-preview.1", &[]),
    ];

    let variants = vec![release("v0.2.1+first", &[]), release("v0.2.1+second", &[])];

    assert_eq!(
        select(&variants, "0.2.1+first").unwrap().0.split('+').nth(1),
        Some("first")
    );

    assert!(select(&variants, "0.2.1").is_err());
    releases[4].draft = true;
    releases[5].prerelease = true;
    assert_eq!(select(&releases, "0.2.0").unwrap().0, "0.2.0");

    assert_eq!(select(&releases, "=0.2.0").unwrap().0, "0.2.0");

    let (version, index) = select(&releases, "^0.2.0").unwrap();
    assert_eq!(version, "0.2.1");
    let selected = &releases[index];

    assert_eq!(
        select(&releases, "0.2.2-preview.1").unwrap().0.split_once('-').unwrap().1,
        "preview.1"
    );

    assert!(select(&releases, "0.2.5").is_err());

    assert_eq!(
        asset(selected, "example", Some("x86_64-pc-windows-msvc"))
            .unwrap()
            .name,
        "example-x86_64-pc-windows-msvc.zip"
    );

    assert_eq!(
        asset(selected, "example", Some("aarch64-apple-darwin"))
            .unwrap()
            .name,
        "example.zip"
    );

    assert_eq!(
        asset(selected, "example", None).unwrap().name,
        "example.zip"
    );

    assert!(asset(selected, "another", None).is_err());

    assert!(
        asset(
            &release("v0.2.1", &["example.zip", "example.zip"]),
            "example",
            None
        )
        .is_err()
    );
}

#[test]
fn selection_errors_name_their_cause() {
    let releases = vec![release("v1.0.0", &[]), release("v1.2.0", &[]), release("v1.1.0", &[])];
    assert_eq!(select(&releases, "latest"), Err(GraftError::InvalidRequirement));
    assert_eq!(select(&releases, "^2"), Err(GraftError::NoRelease));
    assert_eq!(select(&releases, "^1"), Ok(("1.2.0".to_owned(), 1)));
    let drafts = vec![Release { draft: true, ..release("v1.0.0", &[]) }];
    assert_eq!(select(&drafts, "^1"), Err(GraftError::NoRelease));
}

#[test]
fn digests_accept_verified_or_absent_hashes_and_reject_invalid_downloads() {
    let digest = "sha256:ba7816bf8f01cfea414140de5dae2223b00361a396177a9cb410ff61f20015ad";
    assert!(verify(b"abc", Some(digest)).is_ok());
    assert!(verify(b"abc", None).is_ok());
    assert!(verify(b"changed", Some(digest)).is_err());

    for digest in ["sha256:", "sha256:invalid", "sha512:abc", ""] {
        assert!(verify(b"abc", Some(digest)).is_err());
    }

    assert_eq!(bytes(b"abc".to_vec()).unwrap(), b"abc");
}

#[test]
fn digest_errors_tell_unsupported_from_mismatched() {
    let digest = "sha256:BA7816BF8F01CFEA414140DE5DAE2223B00361A396177A9CB410FF61F20015AD";
    assert_eq!(verify(b"abc", Some(digest)), Ok(()));
    assert_eq!(verify(b"abc", Some("sha512:abc")), Err(GraftError::UnsupportedDigest));
    assert_eq!(verify(b"abc", Some("sha256")), Err(GraftError::UnsupportedDigest));
    assert_eq!(verify(b"abc", Some("sha256:invalid")), Err(GraftError::DigestMismatch));
    assert_eq!(
        verify(b"changed", Some("sha256:ba7816bf8f01cfea414140de5dae2223b00361a396177a9cb410ff61f20015ad")),
        Err(GraftError::DigestMismatch)
    );
}

#[test]
fn downloads_over_the_limit_are_refused() {
    assert_eq!(DOWNLOAD_LIMIT, 512 * 1024 * 1024);
    assert_eq!(bytes(Vec::new()).unwrap(), Vec::<u8>::new());
}

#[test]
fn assets_prefer_the_platform_archive() {
    let selected = release(
        "0.2.1",
        &["example.zip", "example-x86_64-pc-windows-msvc.zip"],
    );

    assert_eq!(
        asset(&selected, "example", Some("x86_64-pc-windows-msvc"))
            .unwrap()
            .name,
        "example-x86_64-pc-windows-msvc.zip"
    );
    assert_eq!(
        asset(&selected, "example", Some("aarch64-apple-darwin"))
            .unwrap()
            .name,
        "example.zip"
    );
    assert_eq!(asset(&selected, "example", None).unwrap().name, "example.zip");
    assert_eq!(
        asset(&selected, "another", None).unwrap_err(),
        GraftError::MissingAsset
    );
    assert_eq!(
        asset(&release("v0.2.1", &["example.zip", "example.zip"]), "example", None).unwrap_err(),
        GraftError::AmbiguousAssets
    );
}

fn names(text: &str) -> Vec<PathPart> {
    text.split('/')
        .map(|part| PathPart::Normal(part.to_owned()))
        .collect()
}

#[test]
fn archive_entries_reject_traversal_absolute_paths_and_reserved_names() {
    assert_eq!(entry("../escape", None, None), Err(GraftError::UnsafePath));
    assert_eq!(entry("/escape", None, None), Err(GraftError::UnsafePath));
    assert_eq!(
        entry("nested/../escape", Some(&names("escape")), None),
        Err(GraftError::UnsafePath)
    );
    assert_eq!(
        entry("C:escape", Some(&names("C:escape")), None),
        Err(GraftError::UnsafePath)
    );
    assert_eq!(
        entry("nested\\escape", Some(&names("nested\\escape")), None),
        Err(GraftError::UnsafePath)
    );
    assert_eq!(entry("trailing.", Some(&names("trailing.")), None), Err(GraftError::UnsafePath));
    assert_eq!(entry("space ", Some(&names("space ")), None), Err(GraftError::UnsafePath));
    assert_eq!(entry("./file", Some(&names("file")), None), Err(GraftError::UnsafePath));
    assert_eq!(entry("NUL", Some(&names("NUL")), None), Err(GraftError::ReservedName));
    assert_eq!(entry("CON.txt", Some(&names("CON.txt")), None), Err(GraftError::ReservedName));
    assert_eq!(entry("dir/com1", Some(&names("dir/com1")), None), Err(GraftError::ReservedName));
    assert_eq!(entry("", Some(&Vec::new()), None), Err(GraftError::UnsafePath));
    assert_eq!(
        entry("link", Some(&names("link")), Some(0o120777)),
        Err(GraftError::SpecialFile)
    );
    assert_eq!(entry("file", Some(&names("file")), Some(0o100644)), Ok(()));
    assert_eq!(entry("dir/", Some(&names("dir")), Some(0o040755)), Ok(()));
    assert_eq!(entry("dist/module.luau", Some(&names("dist/module.luau")), None), Ok(()));
    assert_eq!(
        entry("COM10", Some(&names("COM10")), None),
        Ok(())
    );
}

#[test]
fn pagination_follows_next_links() {
    assert_eq!(
        next_link("<https://a/releases?page=2>; rel=\"next\", <https://a/releases?page=5>; rel=\"last\""),
        Some("https://a/releases?page=2".to_owned())
    );
    assert_eq!(
        next_link(" <https://a/releases?page=1>; rel=\"prev\" ,  <https://a/releases?page=3> ;  rel=\"next\" "),
        Some("https://a/releases?page=3".to_owned())
    );
    assert_eq!(next_link("https://a; rel=\"next\", <b>; rel=\"next\""), Some("b".to_owned()));
    assert_eq!(next_link("<https://a>; rel=\"last\""), None);
    assert_eq!(next_link("<; rel=\"next\""), None);
    assert_eq!(next_link(""), None);
}

#[test]
fn pagination_stays_within_the_listing_and_never_repeats() {
    let mut pages = Pages::new("owner/project");
    assert_eq!(pages.endpoint, "https://api.github.com/repos/owner/project/releases");
    assert_eq!(pages.visit("https://api.github.com/repos/owner/project/releases"), Ok(()));
    assert_eq!(
        pages.visit("https://api.github.com/repos/owner/project/releases?page=2"),
        Ok(())
    );
    assert_eq!(
        pages.visit("https://api.github.com/repos/owner/project/releases?page=2"),
        Err(GraftError::InvalidPagination)
    );
    assert_eq!(
        pages.visit("https://api.github.com/repos/owner/other/releases"),
        Err(GraftError::InvalidPagination)
    );
    assert_eq!(
        pages.visit("https://api.github.com/repos/owner/project/releases/latest"),
        Err(GraftError::InvalidPagination)
    );
    assert_eq!(pages.visited.len(), 2);
}

#[test]
fn cached_versions_pick_the_newest_usable_directory() {
    let names: Vec<String> = ["0.2.0", "0.3.0", "notes", "0.2.5", "0.2.5-beta.1"]
        .iter()
        .map(|name| (*name).to_owned())
        .collect();
    assert_eq!(newest_cached(&names, "^0.2.0"), Ok(3));
    assert_eq!(newest_cached(&names, "0.2.0"), Ok(0));
    assert_eq!(newest_cached(&names, "*"), Ok(1));
    assert_eq!(newest_cached(&names, "0.4.0"), Err(GraftError::NotCached));
    assert_eq!(newest_cached(&names, "latest"), Err(GraftError::InvalidRequirement));
    assert_eq!(newest_cached(&Vec::new(), "^1"), Err(GraftError::NotCached));
}

#[test]
fn a_manifest_matches_its_release_only_by_name_and_version() {
    assert_eq!(identity("fmt", "1.2.0", "fmt", "1.2.0"), Ok(()));
    assert_eq!(identity("fmt", "1.2.0", "lint", "1.2.0"), Err(GraftError::IdentityMismatch));
    assert_eq!(identity("fmt", "1.2.0", "fmt", "1.3.0"), Err(GraftError::IdentityMismatch));
    assert_eq!(identity("fmt", "1.2", "fmt", "1.2.0"), Err(GraftError::InvalidVersion));
    assert_eq!(identity("fmt", "1.2.0+build", "fmt", "1.2.0"), Err(GraftError::IdentityMismatch));
}
