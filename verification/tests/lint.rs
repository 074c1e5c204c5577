use instar_core::lint::pattern::valid_pattern;
use instar_core::lint::configuration::{Level, Settings, SettingsError};
use instar_core::lint::findings::{apply, edits, splice, normalize, Edit, Finding, FixError};
use instar_core::lint::registry::{find, upstream};

fn edit(start: usize, end: usize, text: &str) -> Edit {
    Edit { start, end, text: text.to_owned() }
}

fn finding(rule: &str, start: usize, end: usize, fixes: Vec<Edit>) -> Finding {
    Finding {
        rule: rule.to_owned(),
        level: Level::Warn,
        message: format!("{rule} message"),
        start,
        end,
        edits: fixes,
    }
}

#[test]
fn registry_finds_rules_and_upstream_names() {
    let rule = find("division_by_zero").unwrap();
    assert_eq!(rule.group, "suspicious");
    assert_eq!(rule.level, Level::Warn);
    assert_eq!(find("zero_loop_step").unwrap().level, Level::Deny);
    assert!(find("no_such_rule").is_none());
    assert_eq!(upstream("LocalUnused"), Some("unused_variable"));
    assert_eq!(upstream("SameLineStatement"), Some("multiple_statements"));
    assert_eq!(upstream("Unknown"), None);
}

#[test]
fn levels_follow_overrides_groups_and_defaults() {
    let mut settings = Settings::default();
    assert_eq!(settings.level("division_by_zero"), Level::Warn);
    assert_eq!(settings.level("zero_loop_step"), Level::Deny);
    assert_eq!(settings.level("graft/custom"), Level::Warn);

    settings.groups.push(("suspicious".to_owned(), Level::Deny));
    assert_eq!(settings.level("division_by_zero"), Level::Deny);

    settings.rules.push(("division_by_zero".to_owned(), Level::Info));
    assert_eq!(settings.level("division_by_zero"), Level::Info);

    settings.enabled = Some(false);
    assert_eq!(settings.level("zero_loop_step"), Level::Allow);
}

#[test]
fn validation_reports_the_first_unknown_name() {
    let mut settings = Settings::default();
    assert_eq!(settings.validate(), Ok(()));
    settings.rules.push(("graft/anything".to_owned(), Level::Warn));
    assert_eq!(settings.validate(), Ok(()));
    settings.rules.push(("nonexistent".to_owned(), Level::Warn));
    settings.groups.push(("imaginary".to_owned(), Level::Warn));
    assert_eq!(
        settings.validate(),
        Err(SettingsError::UnknownRule("nonexistent".to_owned()))
    );
    settings.rules.pop();
    assert_eq!(
        settings.validate(),
        Err(SettingsError::UnknownGroup("imaginary".to_owned()))
    );
}

#[test]
fn findings_are_ordered_and_deduplicated() {
    let mut findings = vec![
        finding("b", 4, 6, Vec::new()),
        finding("a", 0, 2, Vec::new()),
        finding("b", 4, 6, vec![edit(4, 6, "x")]),
        finding("a", 0, 1, Vec::new()),
    ];
    normalize(&mut findings);
    let order: Vec<(usize, usize, &str, usize)> = findings
        .iter()
        .map(|f| (f.start, f.end, f.rule.as_str(), f.edits.len()))
        .collect();
    assert_eq!(order, [(0, 1, "a", 0), (0, 2, "a", 0), (4, 6, "b", 0)]);
}

#[test]
fn fixes_are_collected_in_order_and_applied() {
    let findings = vec![
        finding("a", 6, 7, vec![edit(6, 7, "2")]),
        finding("b", 0, 5, vec![edit(0, 5, "local")]),
        finding("c", 6, 7, vec![edit(6, 7, "2")]),
    ];
    let collected = edits(&findings).unwrap();
    assert_eq!(collected.len(), 2);
    assert_eq!((collected[0].start, collected[1].start), (0, 6));
    let output = splice("LOCAL=1", &collected).unwrap();
    assert_eq!(output, b"local=2");

    let overlapping = vec![
        finding("a", 0, 3, vec![edit(0, 3, "x")]),
        finding("b", 2, 4, vec![edit(2, 4, "y")]),
    ];
    assert_eq!(edits(&overlapping).unwrap_err(), FixError::Overlap);
}

#[test]
fn applying_edits_checks_ranges_and_boundaries() {
    let source = "caf\u{e9} = 1";
    assert_eq!(splice(source, &[]).unwrap(), source.as_bytes());
    assert_eq!(
        splice(source, &[edit(0, 5, "tea"), edit(8, 9, "2")]).unwrap(),
        b"tea = 2"
    );
    assert_eq!(splice(source, &[edit(0, 4, "x")]).unwrap_err(), FixError::Invalid);
    assert_eq!(splice(source, &[edit(3, 2, "x")]).unwrap_err(), FixError::Invalid);
    assert_eq!(splice(source, &[edit(0, 100, "x")]).unwrap_err(), FixError::Invalid);
    assert_eq!(
        splice(source, &[edit(0, 6, "x"), edit(5, 7, "y")]).unwrap_err(),
        FixError::Invalid
    );
}

#[test]
fn applied_fixes_must_still_parse() {
    let source = "return 1";
    let fixed = apply(source, &[edit(7, 8, "2")], |output: &Vec<u8>| !output.contains(&b'(')).unwrap();
    assert_eq!(fixed, b"return 2");
    assert_eq!(
        apply(source, &[edit(7, 8, "(")], |output: &Vec<u8>| !output.contains(&b'(')).unwrap_err(),
        FixError::Syntax
    );
    assert_eq!(
        apply(source, &[edit(7, 100, "2")], |_: &Vec<u8>| true).unwrap_err(),
        FixError::Invalid
    );
}

#[test]
fn validation_rejects_malformed_ignore_patterns() {
    let mut settings = Settings::default();
    settings.groups.push(("imaginary".to_owned(), Level::Warn));
    settings.options.unused_variable.ignore_pattern = "(".to_owned();
    assert_eq!(
        settings.validate(),
        Err(SettingsError::UnknownGroup("imaginary".to_owned()))
    );
    settings.groups.pop();
    assert_eq!(
        settings.validate(),
        Err(SettingsError::InvalidPattern("(".to_owned()))
    );
    settings.options.unused_variable.ignore_pattern = "^_%w*$".to_owned();
    assert_eq!(settings.validate(), Ok(()));
}

#[test]
fn luau_patterns_follow_the_reference_grammar() {
    for good in [
        "", "^_", "%a+", "[%w_]+", "[]]", "[^%]]", "(a)(b)%2", "()x", "%bxy", "%f[%w]foo", "a-b?c*",
        "%%", "$", "^$",
    ] {
        assert!(valid_pattern(good), "{good} should be well formed");
    }
    for bad in [
        "%", "[a", "[", "[%]", "(", ")", "(a", "%1", "(a%1)", "%0", "%b", "%bx", "%fa", "%f[a",
        "(()",
    ] {
        assert!(!valid_pattern(bad), "{bad} should be malformed");
    }
    assert!(valid_pattern(&"()".repeat(32)));
    assert!(!valid_pattern(&"()".repeat(33)));
}

#[test]
fn every_upstream_name_maps_to_a_registered_rule() {
    for name in [
        "UnknownGlobal", "DeprecatedGlobal", "GlobalUsedAsLocal", "LocalShadow", "SameLineStatement",
        "MultiLineStatement", "LocalUnused", "FunctionUnused", "ImportUnused", "BuiltinGlobalWrite",
        "PlaceholderRead", "UnreachableCode", "UnknownType", "ForRange", "UnbalancedAssignment",
        "ImplicitReturn", "DuplicateLocal", "DuplicateFunction", "TableLiteral", "TableOperations",
        "MisleadingAndOr", "CommentDirective", "IntegerParsing", "ComparisonPrecedence",
        "FormatString", "UninitializedLocal",
    ] {
        let rule = upstream(name).expect("mapped");
        assert!(find(rule).is_some(), "{rule} is registered");
    }
    assert_eq!(upstream("SameLineStatement"), Some("multiple_statements"));
    assert_eq!(upstream("MultiLineStatement"), Some("multiple_statements"));
    assert_eq!(upstream("NotALint"), None);
}
