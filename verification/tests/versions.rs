use instar_core::lsp::versions::{Event, Publish, Versions};

fn uri(name: &str) -> String {
    format!("file:///project/{name}")
}

fn version(versions: &Versions, name: &str) -> Option<i32> {
    versions
        .documents
        .iter()
        .find(|(key, _)| *key == uri(name))
        .map(|(_, version)| *version)
}

#[test]
fn versions_follow_open_change_and_close() {
    let mut versions = Versions::new();
    versions.step(Event::Open(uri("a.luau"), 1));
    versions.step(Event::Change(uri("a.luau"), 3));
    versions.step(Event::Change(uri("a.luau"), 2));
    assert_eq!(version(&versions, "a.luau"), Some(3));
    versions.step(Event::Change(uri("b.luau"), 7));
    assert_eq!(version(&versions, "b.luau"), None);
    versions.step(Event::Open(uri("a.luau"), 1));
    assert_eq!(version(&versions, "a.luau"), Some(1));
    versions.step(Event::Close(uri("a.luau")));
    assert_eq!(version(&versions, "a.luau"), None);
    assert!(versions.documents.is_empty());
}

#[test]
fn moved_documents_keep_their_version_unless_the_target_is_open() {
    let mut versions = Versions::new();
    versions.step(Event::Open(uri("a.luau"), 4));
    versions.step(Event::Open(uri("c.luau"), 9));
    versions.step(Event::Moved(uri("a.luau"), uri("b.luau")));
    assert_eq!(version(&versions, "a.luau"), None);
    assert_eq!(version(&versions, "b.luau"), Some(4));
    versions.step(Event::Moved(uri("b.luau"), uri("c.luau")));
    assert_eq!(version(&versions, "b.luau"), None);
    assert_eq!(version(&versions, "c.luau"), Some(9));
    versions.step(Event::Moved(uri("missing.luau"), uri("d.luau")));
    assert_eq!(version(&versions, "d.luau"), None);
    assert_eq!(versions.documents.len(), 1);
}

#[test]
fn publications_are_sent_only_while_current() {
    let mut versions = Versions::new();
    versions.step(Event::Open(uri("a.luau"), 2));
    assert_eq!(versions.publication(5, 5, &uri("a.luau"), Some(2)), Publish::Send);
    assert_eq!(versions.publication(5, 5, &uri("a.luau"), Some(1)), Publish::Skip);
    assert_eq!(versions.publication(5, 5, &uri("b.luau"), None), Publish::Send);
    assert_eq!(versions.publication(5, 5, &uri("b.luau"), Some(1)), Publish::Skip);
    assert_eq!(versions.publication(4, 5, &uri("a.luau"), Some(2)), Publish::Stop);
}
