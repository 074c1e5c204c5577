use instar_core::lint::calls::{format_messages, invocation, CallFinding, CallView, Callee, Index, Site};
use instar_core::lint::configuration::Settings;

fn call(path: &str) -> CallView {
    CallView {
        path: path.to_owned(),
        statement: false,
        arguments: 0,
        first_compares: false,
        first_text: None,
        last_expands: false,
        method: None,
        receiver_text: None,
        local: None,
        index: Index::Absent,
    }
}

fn summary(findings: &[CallFinding]) -> Vec<(String, Site, String)> {
    findings.iter().map(|f| (f.rule.clone(), f.site, f.message.clone())).collect()
}

fn messages(text: &str, date: bool) -> Vec<String> {
    format_messages(&text.chars().collect(), date).into_iter().map(|m| m.into_iter().collect()).collect()
}

#[test]
fn discarded_pure_results_and_protected_calls_are_reported() {
    let mut floor = call("math.floor");
    floor.statement = true;
    floor.arguments = 1;
    assert_eq!(
        summary(&invocation(&floor, &Settings::default(), false)),
        vec![("discarded_return".to_owned(), Site::Call, "The result of math.floor is discarded".to_owned())]
    );
    let mut protected = call("pcall");
    protected.statement = true;
    assert_eq!(
        summary(&invocation(&protected, &Settings::default(), false)),
        vec![(
            "ignored_protected_call".to_owned(),
            Site::Call,
            "The protected call discards its status and results".to_owned()
        )]
    );
    floor.statement = false;
    assert!(invocation(&floor, &Settings::default(), false).is_empty());
}

#[test]
fn comparisons_inside_type_and_restricted_requires_are_reported() {
    let mut typed = call("type");
    typed.first_compares = true;
    assert_eq!(summary(&invocation(&typed, &Settings::default(), false))[0].0, "misplaced_type_comparison");

    let mut settings = Settings::default();
    settings.options.restricted_import.paths.push(("legacy".to_owned(), "use modern".to_owned()));
    let mut required = call("require");
    required.arguments = 1;
    required.first_text = Some("legacy".to_owned());
    assert_eq!(
        summary(&invocation(&required, &settings, false)),
        vec![("restricted_import".to_owned(), Site::FirstArgument, "This import is restricted: use modern".to_owned())]
    );
    required.first_text = Some("other".to_owned());
    assert!(invocation(&required, &settings, false).is_empty());
}

#[test]
fn deprecated_functions_name_their_replacement() {
    let waited = call("wait");
    assert_eq!(
        summary(&invocation(&waited, &Settings::default(), false)),
        vec![("deprecated_function".to_owned(), Site::Call, "wait is deprecated; use task.wait".to_owned())]
    );
    let mut settings = Settings::default();
    settings.options.deprecated_function.additional.push(("old.api".to_owned(), "new.api".to_owned()));
    assert_eq!(
        summary(&invocation(&call("old.api"), &settings, false))[0].2,
        "old.api is deprecated; use new.api"
    );
    let mut method = call("");
    method.method = Some("getChildren".to_owned());
    assert!(invocation(&method, &Settings::default(), false).is_empty());
    assert_eq!(
        summary(&invocation(&method, &Settings::default(), true))[0].2,
        "getChildren is deprecated; use GetChildren"
    );
}

#[test]
fn argument_counts_follow_the_local_declaration() {
    let mut local = call("");
    local.local = Some(Callee { parameters: vec![Some("number".to_owned()), Some("string ".to_owned())], vararg: false });
    local.arguments = 1;
    assert_eq!(
        summary(&invocation(&local, &Settings::default(), false))[0].2,
        "Function declares 2 parameters but receives 1 arguments"
    );
    local.local = Some(Callee { parameters: vec![Some("number".to_owned()), Some("string?".to_owned())], vararg: false });
    assert!(invocation(&local, &Settings::default(), false).is_empty());
    local.arguments = 3;
    assert_eq!(
        summary(&invocation(&local, &Settings::default(), false))[0].2,
        "Function declares 2 parameters but receives 3 arguments"
    );
    local.last_expands = true;
    assert!(invocation(&local, &Settings::default(), false).is_empty());
    local.last_expands = false;
    local.local = Some(Callee { parameters: vec![], vararg: true });
    assert!(invocation(&local, &Settings::default(), false).is_empty());
}

#[test]
fn table_operations_check_their_arguments_and_position() {
    let mut insert = call("table.insert");
    insert.arguments = 1;
    assert_eq!(summary(&invocation(&insert, &Settings::default(), false))[0].0, "invalid_table_operation");
    insert.arguments = 3;
    insert.index = Index::Other;
    assert_eq!(summary(&invocation(&insert, &Settings::default(), false)).len(), 1);
    insert.index = Index::Whole;
    assert!(invocation(&insert, &Settings::default(), false).is_empty());
    let mut remove = call("table.remove");
    remove.arguments = 2;
    remove.index = Index::Other;
    assert_eq!(summary(&invocation(&remove, &Settings::default(), false)).len(), 1);
    remove.arguments = 1;
    assert!(invocation(&remove, &Settings::default(), false).is_empty());
}

#[test]
fn format_strings_are_scanned_for_conversions() {
    assert!(messages("%d and %5.2f and %%", false).is_empty());
    assert_eq!(messages("%k", false), vec!["Invalid format conversion %k".to_owned()]);
    assert_eq!(messages("total %", false), vec!["Unfinished format conversion".to_owned()]);
    assert_eq!(messages("%-5", false), vec!["Unfinished format conversion".to_owned()]);
    assert_eq!(messages("%Y-%m-%d %5", true), vec!["Invalid format conversion %5".to_owned()]);
    assert_eq!(messages("%q%z", false), vec!["Invalid format conversion %z".to_owned()]);

    let mut formatted = call("string.format");
    formatted.first_text = Some("%y".to_owned());
    assert_eq!(
        summary(&invocation(&formatted, &Settings::default(), false)),
        vec![("invalid_format_string".to_owned(), Site::FirstArgument, "Invalid format conversion %y".to_owned())]
    );
    let mut method = call("");
    method.method = Some("format".to_owned());
    method.receiver_text = Some("%s %w".to_owned());
    assert_eq!(
        summary(&invocation(&method, &Settings::default(), false)),
        vec![("invalid_format_string".to_owned(), Site::Receiver, "Invalid format conversion %w".to_owned())]
    );
}
