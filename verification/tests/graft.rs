use instar_core::graft::layout::{finish, substitute};
use instar_core::graft::{
    component, findings, requirement, Compilation, Dependency, Finding, GraftError, Manifest,
    Mapping, Runtime,
};
use instar_core::format::configuration::{Endings, Options};
use instar_core::format::document::Document;
use instar_core::paths::{absolute, PathPart};

fn manifest() -> Manifest {
    Manifest {
        name: "example".to_owned(),
        version: "0.2.1".to_owned(),
        protocol: 1,
        runtime: Runtime::Luau,
        entry: Some(vec![
            PathPart::Normal("dist".to_owned()),
            PathPart::Normal("module.luau".to_owned()),
        ]),
        format: false,
        lint: true,
        compile: false,
        configuration: Vec::new(),
    }
}

#[test]
fn components_are_portable_names() {
    assert_eq!(component("example"), Ok(()));
    assert_eq!(component("my-graft_1.2"), Ok(()));
    for value in ["", ".", "..", "trailing.", "with space", "a/b", "CON", "nul.txt", "Com1", "lpt9.x"] {
        assert_eq!(component(value), Err(GraftError::InvalidComponent), "{value}");
    }
    assert_eq!(component("COM0"), Ok(()));
    assert_eq!(component("CONSOLE"), Ok(()));
}

#[test]
fn manifests_validate_identity_hooks_and_entries() {
    assert_eq!(manifest().validate(), Ok(()));

    let mut m = manifest();
    m.name = "../bad".to_owned();
    assert_eq!(m.validate(), Err(GraftError::InvalidComponent));

    let mut m = manifest();
    m.version = "one".to_owned();
    assert_eq!(m.validate(), Err(GraftError::InvalidVersion));

    let mut m = manifest();
    m.protocol = 2;
    assert_eq!(m.validate(), Err(GraftError::InvalidHooks));

    let mut m = manifest();
    m.lint = false;
    assert_eq!(m.validate(), Err(GraftError::InvalidHooks));

    let mut m = manifest();
    m.runtime = Runtime::Native;
    assert_eq!(m.validate(), Err(GraftError::NativeEntry));

    let mut m = manifest();
    m.entry = None;
    assert_eq!(m.validate(), Err(GraftError::MissingEntry));

    let mut m = manifest();
    m.runtime = Runtime::Native;
    m.entry = None;
    assert_eq!(m.validate(), Ok(()));

    let mut m = manifest();
    m.entry = Some(vec![PathPart::ParentDir, PathPart::Normal("module.luau".to_owned())]);
    assert_eq!(m.validate(), Err(GraftError::EntryOutsideProject));

    let mut m = manifest();
    m.entry = Some(Vec::new());
    assert_eq!(m.validate(), Err(GraftError::EntryOutsideProject));

    let mut m = manifest();
    m.entry = Some(vec![PathPart::CurDir, PathPart::Normal("module.luau".to_owned())]);
    assert_eq!(m.validate(), Ok(()));
}

#[test]
fn requirements_pin_exact_versions() {
    assert_eq!(requirement("0.2.1").unwrap(), "=0.2.1");
    assert_eq!(requirement("^0.2.0").unwrap(), "^0.2.0");
    assert_eq!(requirement(">=1, <2").unwrap(), ">=1, <2");
    assert_eq!(requirement("not a version"), Err(GraftError::InvalidRequirement));
}

#[test]
fn dependencies_validate_names_paths_and_repositories() {
    let local = Dependency::Local { path: "grafts/example".to_owned() };
    assert_eq!(local.validate("example"), Ok(()));
    assert_eq!(local.validate("bad name"), Err(GraftError::InvalidComponent));
    let empty = Dependency::Local { path: String::new() };
    assert_eq!(empty.validate("example"), Err(GraftError::EmptyPath));

    let remote = |repo: &str, version: &str| Dependency::Remote {
        repo: repo.to_owned(),
        version: version.to_owned(),
    };
    assert_eq!(remote("owner/project", "^0.2.0").validate("example"), Ok(()));
    assert_eq!(remote("owner/project", "0.2.1").validate("example"), Ok(()));
    assert_eq!(
        remote("owner", "0.2.1").validate("example"),
        Err(GraftError::InvalidRepository)
    );
    assert_eq!(
        remote("owner/project/extra", "0.2.1").validate("example"),
        Err(GraftError::InvalidRepository)
    );
    assert_eq!(
        remote("owner/..", "0.2.1").validate("example"),
        Err(GraftError::InvalidComponent)
    );
    assert_eq!(
        remote("/project", "0.2.1").validate("example"),
        Err(GraftError::InvalidComponent)
    );
    assert_eq!(
        remote("owner/project", "latest").validate("example"),
        Err(GraftError::InvalidRequirement)
    );
}

fn finding(rule: &str, message: &str, start: usize, end: usize) -> Finding {
    Finding {
        rule: rule.to_owned(),
        message: message.to_owned(),
        start,
        end,
    }
}

#[test]
fn findings_need_rules_messages_and_slices() {
    let source = "local caf\u{e9} = 1";
    let ok = findings(source, vec![finding("rule", "message", 0, 5), finding("r", "m", 6, 11)]);
    assert_eq!(ok.unwrap().len(), 2);
    assert!(findings(source, Vec::new()).unwrap().is_empty());
    for bad in [
        finding("", "message", 0, 5),
        finding("rule", "", 0, 5),
        finding("rule", "message", 5, 4),
        finding("rule", "message", 0, 100),
        finding("rule", "message", 0, 10),
    ] {
        assert_eq!(
            findings(source, vec![finding("rule", "message", 0, 1), bad]).unwrap_err(),
            GraftError::InvalidFinding
        );
    }
}

fn mapping(start: usize, end: usize, original_start: usize, original_end: usize) -> Mapping {
    Mapping { start, end, original_start, original_end }
}

fn compilation(source: &str, mappings: Vec<Mapping>) -> Compilation {
    Compilation {
        version: 1,
        source: source.to_owned(),
        dependencies: vec!["shared.luau".to_owned()],
        mappings,
    }
}

#[test]
fn compilations_need_ordered_mappings_within_both_sources() {
    let original = "let x = 1";
    assert_eq!(
        compilation("local x = 1", vec![mapping(0, 5, 0, 3), mapping(6, 11, 4, 9)]).check(original, true),
        Ok(())
    );
    assert_eq!(compilation("", Vec::new()).check(original, true), Ok(()));
    assert_eq!(
        compilation("local x = 1", Vec::new()).check(original, true),
        Err(GraftError::InvalidCompilation)
    );
    let mut c = compilation("local x = 1", vec![mapping(0, 5, 0, 3)]);
    c.version = 2;
    assert_eq!(c.check(original, true), Err(GraftError::InvalidCompilation));
    let mut c = compilation("local x = 1", vec![mapping(0, 5, 0, 3)]);
    c.dependencies.push(String::new());
    assert_eq!(c.check(original, true), Err(GraftError::InvalidCompilation));
    for bad in [
        vec![mapping(6, 11, 4, 9), mapping(0, 5, 0, 3)],
        vec![mapping(2, 2, 0, 3)],
        vec![mapping(0, 50, 0, 3)],
        vec![mapping(0, 5, 0, 30)],
        vec![mapping(0, 5, 3, 1)],
    ] {
        assert_eq!(
            compilation("local x = 1", bad).check(original, true),
            Err(GraftError::InvalidMapping)
        );
    }
}

#[test]
fn templates_substitute_markers_in_text() {
    let template = Document::Sequence(vec![
        Document::Text("call(@, @)".to_owned()),
        Document::Line,
        Document::Group(Box::new(Document::Text("none".to_owned()))),
    ]);
    let marker: Vec<char> = "@".chars().collect();
    let (result, found) = substitute(template, &marker, &Document::Text("x".to_owned()));
    assert!(found);
    match result {
        Document::Sequence(parts) => {
            assert_eq!(parts.len(), 3);
            match &parts[0] {
                Document::Sequence(pieces) => {
                    let texts: Vec<String> = pieces
                        .iter()
                        .map(|piece| match piece {
                            Document::Text(text) => text.clone(),
                            _ => panic!("text expected"),
                        })
                        .collect();
                    assert_eq!(texts, ["call(", "x", ", ", "x", ")"]);
                }
                _ => panic!("sequence expected"),
            }
            assert!(matches!(parts[1], Document::Line));
        }
        _ => panic!("sequence expected"),
    }

    let (same, found) = substitute(Document::Text("plain".to_owned()), &marker, &Document::Line);
    assert!(!found);
    assert!(matches!(same, Document::Text(text) if text == "plain"));

    let dedented = Document::Dedent(Box::new(Document::Text("@".to_owned())));
    let (_, found) = substitute(dedented, &marker, &Document::Line);
    assert!(!found);
}

#[test]
fn finished_layouts_trim_and_end_with_the_line_ending() {
    let mut options = Options::default();
    assert_eq!(finish("local x = 1 \n\t\r\n", &options), "local x = 1\n");
    options.line_endings = Endings::Windows;
    assert_eq!(finish("x", &options), "x\r\n");
    options.final_newline = false;
    assert_eq!(finish("x  \n", &options), "x");
    assert_eq!(finish("", &options), "");
}

#[test]
fn absolute_paths_resolve_dots_lexically() {
    let parts = vec![
        PathPart::RootDir,
        PathPart::Normal("a".to_owned()),
        PathPart::CurDir,
        PathPart::Normal("b".to_owned()),
        PathPart::ParentDir,
        PathPart::Normal("c".to_owned()),
        PathPart::ParentDir,
        PathPart::ParentDir,
        PathPart::ParentDir,
        PathPart::Normal("d".to_owned()),
    ];
    let normal = absolute(parts);
    assert_eq!(normal.len(), 2);
    assert!(matches!(normal[0], PathPart::RootDir));
    assert!(matches!(&normal[1], PathPart::Normal(name) if name == "d"));
}

use instar_core::format::document::fits_render;

#[test]
fn layout_replies_render_at_version_one() {
    let options = Options::default();
    let document = Document::Sequence(vec![
        Document::Text("local x =".to_owned()),
        Document::Line,
        Document::Text("1  ".to_owned()),
    ]);
    assert!(fits_render(&document, &options));
    assert_eq!(instar_core::graft::layout::format(1, &document, &options).unwrap(), "local x =\n1\n");
    let grouped = Document::Group(Box::new(document.copy()));
    assert_eq!(instar_core::graft::layout::format(1, &grouped, &options).unwrap(), "local x = 1\n");
    assert_eq!(instar_core::graft::layout::format(2, &document, &options), Err(GraftError::UnsupportedLayout));
}

use instar_core::graft::layout::{document, Layout, Parse, Replacement};

fn no_fragment(_text: &str, _expression: bool) -> Option<Document> {
    None
}

fn text_of(document: &Document) -> String {
    match document {
        Document::Text(text) => text.clone(),
        Document::Sequence(parts) => parts.iter().map(text_of).collect(),
        _ => panic!("text expected"),
    }
}

#[test]
fn layouts_become_documents_over_the_source() {
    let source = "local caf\u{e9} = 1";
    let layout = Layout::Sequence(vec![
        Layout::Source(0, 5),
        Layout::Text(" ".to_owned()),
        Layout::Source(6, 11),
        Layout::Empty,
    ]);
    let result = document(layout, source, &no_fragment).unwrap();
    assert_eq!(text_of(&result), "local caf\u{e9}");

    assert_eq!(
        document(Layout::Source(6, 10), source, &no_fragment).unwrap_err(),
        GraftError::InvalidSpan
    );
    assert_eq!(
        document(Layout::Source(5, 4), source, &no_fragment).unwrap_err(),
        GraftError::InvalidSpan
    );
    assert_eq!(
        document(Layout::Host { start: 0, end: 5, parse: Parse::Block }, source, &no_fragment)
            .unwrap_err(),
        GraftError::InvalidFragment
    );
}

#[test]
fn templates_replace_their_markers() {
    let fragment = |text: &str, _expression: bool| Some(Document::Text(text.to_owned()));
    let template = |marker: &str| Layout::Template {
        source: "call(@x)".to_owned(),
        replacements: vec![Replacement {
            marker: marker.to_owned(),
            document: Layout::Text("value".to_owned()),
        }],
    };
    let result = document(template("@x"), "", &fragment).unwrap();
    assert_eq!(text_of(&result), "call(value)");
    assert_eq!(document(template(""), "", &fragment).unwrap_err(), GraftError::InvalidMarker);
    assert_eq!(document(template("@y"), "", &fragment).unwrap_err(), GraftError::InvalidMarker);
    let twice = Layout::Template {
        source: "@x + @x".to_owned(),
        replacements: vec![Replacement {
            marker: "@x".to_owned(),
            document: Layout::Line,
        }],
    };
    assert_eq!(document(twice, "", &fragment).unwrap_err(), GraftError::InvalidMarker);
    let hidden = |_text: &str, _expression: bool| Some(Document::Text("other".to_owned()));
    assert_eq!(document(template("@x"), "", &hidden).unwrap_err(), GraftError::MissingMarker);
}

#[test]
fn compilations_whose_output_does_not_parse_are_refused() {
    let original = "let x = 1";
    let c = compilation("local x = 1", vec![mapping(0, 5, 0, 3)]);
    assert_eq!(c.check(original, false), Err(GraftError::InvalidLuau));
    let bad = compilation("local x = 1", vec![mapping(0, 50, 0, 3)]);
    assert_eq!(bad.check(original, false), Err(GraftError::InvalidMapping));
}
