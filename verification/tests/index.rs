use instar_core::lsp::index::{File, Index};

fn file(dependency: &str) -> File<()> {
    File {
        symbols: Vec::new(),
        calls: Vec::new(),
        dependencies: vec![dependency.to_owned()],
    }
}

#[test]
fn invalidation_follows_dependencies_and_retains_unrelated_files() {
    let mut index = Index::new();

    for (name, dependency) in [
        ("first", "second"),
        ("second", "third"),
        ("third", "first"),
        ("unrelated", "outside"),
    ] {
        index.insert(name.into(), file(dependency));
    }

    index.invalidate("third");

    assert_eq!(index.keys(), ["unrelated".to_owned()]);
}

#[test]
fn invalidation_keeps_files_that_the_changed_file_depends_on() {
    let mut index = Index::new();
    index.insert("app".into(), file("lib"));
    index.insert("lib".into(), file("core"));
    index.insert("core".into(), file("std"));
    index.insert("tool".into(), file("app"));

    index.invalidate("lib");

    assert_eq!(index.keys(), ["core".to_owned()]);
}

#[test]
fn invalidating_an_unindexed_path_changes_nothing_unrelated() {
    let mut index = Index::new();
    index.insert("a".into(), file("b"));
    index.insert("c".into(), file("d"));
    index.insert("a".into(), file("e"));

    assert_eq!(index.keys(), ["a".to_owned(), "c".to_owned()]);
    index.invalidate("b");
    assert_eq!(index.keys(), ["a".to_owned(), "c".to_owned()]);
    index.invalidate("e");
    assert_eq!(index.keys(), ["c".to_owned()]);
}

#[test]
fn files_are_kept_in_path_order() {
    let mut index = Index::new();
    for name in ["b", "a-b", "a/b", "a", "a/b"] {
        index.insert(name.into(), file("x"));
    }
    assert_eq!(
        index.keys(),
        ["a".to_owned(), "a/b".to_owned(), "a-b".to_owned(), "b".to_owned()]
    );
}
