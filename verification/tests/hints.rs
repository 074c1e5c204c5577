use instar_core::lsp::diagnostics::{Position, Range};
use instar_core::lsp::hints::{hint, hints, Entry, Names, Options};

fn position(line: u32, character: u32) -> Position {
    Position { line, character }
}

fn range() -> Range {
    Range {
        start: position(1, 0),
        end: position(3, 10),
    }
}

fn entry(kind: u32, line: u32, character: u32, description: &str) -> Entry {
    Entry {
        kind: Some(kind),
        position: Some(position(line, character)),
        description: Some(description.to_owned()),
    }
}

fn all() -> Options {
    Options {
        variable_types: true,
        parameter_types: true,
        function_return_types: true,
        parameter_names: Names::All,
        type_hint_max_length: 50,
    }
}

#[test]
fn default_options_request_nothing() {
    let options = Options::default();
    assert!(!options.requested());
    assert_eq!(options.type_hint_max_length, 50);
    assert!(hints(&options, &vec![entry(1, 2, 0, "number")], range()).is_empty());
}

#[test]
fn type_hints_are_prefixed_and_parameter_names_suffixed() {
    let shown = hint(&all(), &entry(1, 2, 4, "number"), range()).expect("shown");
    assert_eq!(shown.label, ": number");
    assert_eq!(shown.tooltip, "```luau\n: number\n```");
    assert!(!shown.parameter);
    assert_eq!(shown.position, position(2, 4));

    let named = hint(&all(), &entry(4, 2, 4, "amount"), range()).expect("shown");
    assert_eq!(named.label, "amount:");
    assert!(named.parameter);
}

#[test]
fn long_labels_are_shortened_with_an_ellipsis() {
    let mut options = all();
    options.type_hint_max_length = 5;
    let shown = hint(&options, &entry(3, 2, 0, "string"), range()).expect("shown");
    assert_eq!(shown.label, ": st…");
    assert_eq!(shown.tooltip, "```luau\n: string\n```");

    options.type_hint_max_length = 0;
    let shown = hint(&options, &entry(3, 2, 0, "x"), range()).expect("shown");
    assert_eq!(shown.label, "…");

    options.type_hint_max_length = 3;
    let shown = hint(&options, &entry(3, 2, 0, "x"), range()).expect("shown");
    assert_eq!(shown.label, ": x");
}

#[test]
fn hints_outside_the_range_or_unrequested_are_dropped() {
    let options = Options {
        variable_types: true,
        parameter_types: false,
        function_return_types: false,
        parameter_names: Names::Literals,
        type_hint_max_length: 50,
    };
    assert!(options.requested());
    let entries = vec![
        entry(1, 0, 9, "before"),
        entry(1, 1, 0, "first"),
        entry(2, 2, 0, "parameter type"),
        entry(4, 2, 0, "any argument"),
        entry(5, 2, 0, "literal"),
        entry(1, 3, 10, "last"),
        entry(1, 3, 11, "after"),
        entry(9, 2, 0, "unknown"),
        Entry {
            kind: Some(1),
            position: None,
            description: Some("nowhere".to_owned()),
        },
        Entry {
            kind: Some(1),
            position: Some(position(2, 0)),
            description: None,
        },
    ];
    let labels: Vec<String> = hints(&options, &entries, range())
        .into_iter()
        .map(|hint| hint.label)
        .collect();
    assert_eq!(labels, vec![": first", "literal:", ": last"]);
}
