use instar_core::lint::configuration::Level;
use instar_core::lint::findings::{Edit, Finding};
use instar_core::lint::report::{conclude, escape_diagnostic, graft_rule, known_globals, syntax_errors, LintError, NativeDiagnostic};

fn native(message: &str) -> NativeDiagnostic {
    NativeDiagnostic {
        path: "main.luau".to_owned(),
        message: message.to_owned(),
        line: 0,
        column: 0,
        end_line: 0,
        end_column: 1,
    }
}

fn finding(rule: &str, start: usize) -> Finding {
    Finding {
        rule: rule.to_owned(),
        level: Level::Warn,
        message: format!("{rule} message"),
        start,
        end: start + 1,
        edits: vec![Edit { start, end: start + 1, text: "x".to_owned() }],
    }
}

#[test]
fn only_syntax_errors_are_reported_as_diagnostics() {
    let kept = syntax_errors(vec![
        native("SyntaxError: expected end"),
        native("TypeError: nope"),
        native("syntaxError: lower case"),
        native("SyntaxError:"),
    ]);
    let messages: Vec<&str> = kept.iter().map(|d| d.message.as_str()).collect();
    assert_eq!(messages, ["SyntaxError: expected end", "SyntaxError:"]);
}

#[test]
fn disabled_linting_reports_nothing() {
    let report = conclude(Some(false), vec![native("SyntaxError: x")], None).unwrap();
    assert!(report.findings.is_empty() && report.diagnostics.is_empty());
}

#[test]
fn without_a_syntax_tree_only_syntax_errors_can_be_reported() {
    assert_eq!(
        conclude(None, vec![native("TypeError: x")], None).err(),
        Some(LintError::SyntaxUnavailable)
    );
    let report = conclude(Some(true), vec![native("SyntaxError: x")], None).unwrap();
    assert_eq!(report.diagnostics.len(), 1);
    assert!(report.findings.is_empty());
}

#[test]
fn findings_are_normalized_and_lose_fixes_while_syntax_fails() {
    let findings = || vec![finding("b", 5), finding("a", 1), finding("b", 5)];
    let clean = conclude(None, vec![native("Warning: x")], Some(findings())).unwrap();
    let keys: Vec<(usize, &str)> = clean.findings.iter().map(|f| (f.start, f.rule.as_str())).collect();
    assert_eq!(keys, [(1, "a"), (5, "b")]);
    assert!(clean.findings.iter().all(|f| f.edits.len() == 1));

    let broken = conclude(None, vec![native("SyntaxError: x")], Some(findings())).unwrap();
    assert_eq!(broken.findings.len(), 2);
    assert!(broken.findings.iter().all(|f| f.edits.is_empty()));
    assert_eq!(broken.diagnostics.len(), 1);
}

fn names(items: &[&str]) -> Vec<String> {
    items.iter().map(|s| s.to_string()).collect()
}

#[test]
fn known_globals_merge_in_order_once_each() {
    let parameters = names(&["game", "workspace", "game"]);
    let configured = names(&["vim", "awesome", "workspace"]);
    assert_eq!(known_globals(&parameters, &configured, false), names(&["awesome", "game", "vim", "workspace"]));
    assert_eq!(
        known_globals(&parameters, &configured, true),
        names(&["awesome", "game", "script", "vim", "workspace"])
    );
    assert!(known_globals(&vec![], &vec![], false).is_empty());
}

#[test]
fn escape_diagnostics_of_the_file_are_recognised() {
    let diagnostic = |path: &str, message: &str| NativeDiagnostic {
        path: path.to_owned(),
        message: message.to_owned(),
        line: 0,
        column: 0,
        end_line: 0,
        end_column: 1,
    };
    assert!(escape_diagnostic(&diagnostic("/a.luau", "SyntaxError: Invalid ESCAPE sequence"), &"/a.luau".to_owned()));
    assert!(escape_diagnostic(&diagnostic("/a.luau", "escape"), &"/a.luau".to_owned()));
    assert!(!escape_diagnostic(&diagnostic("/b.luau", "invalid escape"), &"/a.luau".to_owned()));
    assert!(!escape_diagnostic(&diagnostic("/a.luau", "SyntaxError: Expected 'end'"), &"/a.luau".to_owned()));
    assert!(!escape_diagnostic(&diagnostic("/a.luau", "escap"), &"/a.luau".to_owned()));
}

#[test]
fn graft_findings_are_named_after_their_graft() {
    assert_eq!(graft_rule(&"style".to_owned(), &"no-tabs".to_owned()), "style/no-tabs");
}
