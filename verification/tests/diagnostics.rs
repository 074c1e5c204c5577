use instar_core::lsp::diagnostics::{decimal_text, Cache, Diagnostic, Position, Range, Report};
use instar_core::lsp::kinds::Severity;

fn diagnostic(message: &str) -> Diagnostic {
    let at = Position { line: 0, character: 0 };
    Diagnostic {
        range: Range { start: at, end: at },
        severity: Some(Severity::Warning),
        code: Some("rule".to_owned()),
        source: Some("instar".to_owned()),
        message: message.to_owned(),
        related: Vec::new(),
    }
}

fn id(report: &Report) -> String {
    match report {
        Report::Unchanged(id) | Report::Full(id, _) => id.clone(),
    }
}

#[test]
fn unchanged_diagnostics_keep_their_result_id() {
    let mut cache = Cache::new();
    let first = cache.report("a.luau", vec![diagnostic("one")], None);
    assert!(matches!(&first, Report::Full(id, items) if id == "1" && items.len() == 1));

    let again = cache.report("a.luau", vec![diagnostic("one")], Some("1"));
    assert!(matches!(&again, Report::Unchanged(id) if id == "1"));

    let stale = cache.report("a.luau", vec![diagnostic("one")], Some("0"));
    assert!(matches!(&stale, Report::Full(id, _) if id == "1"));

    let changed = cache.report("a.luau", vec![diagnostic("two")], Some("1"));
    assert!(matches!(&changed, Report::Full(id, items) if id == "2" && items[0].message == "two"));

    let other = cache.report("b.luau", Vec::new(), None);
    assert_eq!(id(&other), "3");
    assert_eq!(cache.revision, 3);
    assert_eq!(cache.reports.len(), 2);
}

#[test]
fn revisions_wrap_and_print_in_decimal() {
    assert_eq!(decimal_text(0), "0");
    assert_eq!(decimal_text(1207), "1207");
    assert_eq!(decimal_text(u64::MAX), u64::MAX.to_string());
    let mut cache = Cache::new();
    cache.revision = u64::MAX;
    let report = cache.report("a.luau", Vec::new(), None);
    assert_eq!(id(&report), "0");
}
