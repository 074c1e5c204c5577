use instar_core::lsp::diagnostics::{Position, Range};
use instar_core::lsp::kinds::Severity;
use instar_core::lsp::publish::{clearing, publications, uri_for, Incoming};

fn at(line: u32) -> Range {
    Range {
        start: Position { line, character: 0 },
        end: Position { line, character: 4 },
    }
}

fn incoming(path: &str, absolute: bool, is_error: bool, message: &str) -> Incoming {
    Incoming {
        path: path.to_owned(),
        absolute,
        is_error,
        message: message.to_owned(),
        range: at(3),
        related: Vec::new(),
    }
}

fn paths(names: &[&str]) -> Vec<String> {
    names.iter().map(|name| (*name).to_owned()).collect()
}

#[test]
fn nothing_is_published_when_nothing_was_requested() {
    assert!(publications(&Vec::new(), Ok(vec![incoming("/a.luau", true, true, "E1: x")])).is_empty());
}

#[test]
fn failures_reach_every_requested_file() {
    let out = publications(&paths(&["/b.luau", "/a.luau", "/b.luau"]), Err("worker failed".to_owned()));
    let keys: Vec<&str> = out.iter().map(|(path, _)| path.as_str()).collect();
    assert_eq!(keys, ["/a.luau", "/b.luau"]);
    for (_, items) in &out {
        assert_eq!(items.len(), 1);
        assert_eq!(items[0].message, "worker failed");
        assert_eq!(items[0].severity, Some(Severity::Error));
    }
}

#[test]
fn diagnostics_go_to_their_files_and_unplaced_ones_to_every_listed_file() {
    let out = publications(
        &paths(&["/main.luau"]),
        Ok(vec![
            incoming("config", false, false, "early warning"),
            incoming("/lib/util.luau", true, true, "TypeError: mismatch"),
            incoming("/main.luau", true, false, "no code here"),
            incoming("config", false, true, "late error"),
        ]),
    );
    let keys: Vec<&str> = out.iter().map(|(path, _)| path.as_str()).collect();
    assert_eq!(keys, ["/lib/util.luau", "/main.luau"]);
    let util: Vec<&str> = out[0].1.iter().map(|d| d.message.as_str()).collect();
    assert_eq!(util, ["TypeError: mismatch", "late error"]);
    assert_eq!(out[0].1[0].code.as_deref(), Some("TypeError"));
    assert_eq!(out[0].1[0].source.as_deref(), Some("instar"));
    assert_eq!(out[0].1[0].range, at(3));
    let main: Vec<&str> = out[1].1.iter().map(|d| d.message.as_str()).collect();
    assert_eq!(main, ["early warning", "no code here", "late error"]);
    assert_eq!(out[1].1[0].severity, Some(Severity::Warning));
    assert_eq!(out[1].1[0].source, None);
    assert_eq!(out[1].1[1].code, None);
}

fn entries(items: &[(&str, &str)]) -> Vec<(String, String)> {
    items.iter().map(|(p, u)| (p.to_string(), u.to_string())).collect()
}

#[test]
fn uris_come_from_open_documents_then_earlier_publications() {
    let documents = entries(&[("/a.luau", "file:///open/a.luau")]);
    let published = entries(&[("/a.luau", "file:///old/a.luau"), ("/b.luau", "file:///old/b.luau")]);
    assert_eq!(uri_for(&documents, &published, &"/a.luau".to_owned()), Some("file:///open/a.luau".to_owned()));
    assert_eq!(uri_for(&documents, &published, &"/b.luau".to_owned()), Some("file:///old/b.luau".to_owned()));
    assert_eq!(uri_for(&documents, &published, &"/c.luau".to_owned()), None);
}

#[test]
fn files_no_longer_published_to_the_same_uri_are_cleared() {
    let previous = entries(&[("/a.luau", "file:///a"), ("/b.luau", "file:///b"), ("/c.luau", "file:///c")]);
    let now = entries(&[("/a.luau", "file:///a"), ("/c.luau", "file:///moved/c")]);
    assert_eq!(clearing(&previous, &now), vec!["file:///b".to_owned(), "file:///c".to_owned()]);
    assert!(clearing(&previous, &previous).is_empty());
}
