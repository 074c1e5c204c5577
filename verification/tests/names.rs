use instar_core::format::expressions::precedence;
use instar_core::format::sorting::kind;
use instar_core::lint::configuration::Level;
use instar_core::lsp::kinds::{length, severity, symbol_kind, wants, Severity, SymbolKind};
use instar_core::lsp::names::{binding, identifier, member, quoted};

#[test]
fn identifiers_exclude_keywords_and_digits_first() {
    assert!(identifier("name"));
    assert!(identifier("_private1"));
    assert!(!identifier("1name"));
    assert!(!identifier("end"));
    assert!(!identifier("const"));
    assert!(!identifier("with-dash"));
    assert!(!identifier(""));
    assert!(identifier("ends"));
}

#[test]
fn bindings_are_always_identifiers() {
    assert_eq!(binding("module"), "module");
    assert_eq!(binding("my-module"), "my_module");
    assert_eq!(binding("3d"), "_3d");
    assert_eq!(binding("end"), "_end");
    assert_eq!(binding(""), "_");
    assert_eq!(binding("caf\u{e9}"), "caf_");
    for name in ["module", "my-module", "3d", "end", "", "a b.c"] {
        assert!(identifier(&binding(name)));
    }
}

#[test]
fn quoting_escapes_quotes_backslashes_and_controls() {
    assert_eq!(quoted("plain", '"'), "\"plain\"");
    assert_eq!(quoted("a\"b", '"'), "\"a\\\"b\"");
    assert_eq!(quoted("a'b", '"'), "\"a'b\"");
    assert_eq!(quoted("back\\slash", '"'), "\"back\\\\slash\"");
    assert_eq!(quoted("line\nbreak\ttab", '"'), "\"line\\nbreak\\ttab\"");
    assert_eq!(quoted("bell\u{7}", '"'), "\"bell\\u{7}\"");
    assert_eq!(quoted("\u{9f}\u{e9}", '"'), "\"\\u{9f}\u{e9}\"");
    assert_eq!(quoted("it's", '\''), "'it\\'s'");
}

#[test]
fn members_use_dots_for_identifiers_and_indexes_otherwise() {
    let mut expression = "script".to_owned();
    member(&mut expression, "Parent");
    member(&mut expression, "Modules");
    member(&mut expression, "my module");
    assert_eq!(
        expression,
        "script:WaitForChild(\"Parent\").Modules[\"my module\"]"
    );
}

#[test]
fn action_kinds_match_requested_prefixes() {
    let only = vec!["quickfix".to_owned(), "source.organizeImports".to_owned()];
    assert!(wants(None, "refactor.extract"));
    assert!(wants(Some(&only), "quickfix"));
    assert!(wants(Some(&only), "quickfix.instar"));
    assert!(!wants(Some(&only), "quickfixes"));
    assert!(wants(Some(&only), "source.organizeImports"));
    assert!(!wants(Some(&only), "source"));
    assert!(!wants(Some(&Vec::new()), "quickfix"));
}

#[test]
fn symbols_and_severities_map_their_codes() {
    assert_eq!(symbol_kind(Some(7)), SymbolKind::Property);
    assert_eq!(symbol_kind(Some(12)), SymbolKind::Function);
    assert_eq!(symbol_kind(Some(26)), SymbolKind::Interface);
    assert_eq!(symbol_kind(Some(13)), SymbolKind::Variable);
    assert_eq!(symbol_kind(None), SymbolKind::Variable);
    assert_eq!(severity(Level::Deny), Severity::Error);
    assert_eq!(severity(Level::Warn), Severity::Warning);
    assert_eq!(severity(Level::Info), Severity::Hint);
    assert_eq!(severity(Level::Allow), Severity::Hint);
    assert_eq!(length(), 50);
}

#[test]
fn operators_bind_by_precedence() {
    assert_eq!(precedence("or"), 1);
    assert_eq!(precedence("and"), 2);
    for op in ["<", ">", "<=", ">=", "~=", "=="] {
        assert_eq!(precedence(op), 3);
    }
    assert_eq!(precedence(".."), 4);
    assert_eq!(precedence("+"), 5);
    assert_eq!(precedence("-"), 5);
    for op in ["*", "/", "//", "%"] {
        assert_eq!(precedence(op), 6);
    }
    assert_eq!(precedence("^"), 7);
    assert_eq!(precedence("not"), 0);
    assert_eq!(precedence(""), 0);
}

#[test]
fn require_paths_group_aliases_plain_and_relative() {
    assert_eq!(kind("@pkg/module"), 0);
    assert_eq!(kind("module"), 1);
    assert_eq!(kind("./sibling"), 2);
    assert_eq!(kind("../parent"), 2);
    assert_eq!(kind(""), 1);
}

use instar_core::lsp::imports::{identity, specifier, specifiers};
use instar_core::paths::PathPart;

fn path(text: &str) -> Vec<PathPart> {
    let mut parts = vec![PathPart::RootDir];
    parts.extend(
        text.trim_start_matches('/')
            .split('/')
            .map(|name| PathPart::Normal(name.to_owned())),
    );
    parts
}

fn names(parts: &[PathPart]) -> Vec<String> {
    parts
        .iter()
        .filter_map(|part| match part {
            PathPart::Normal(name) => Some(name.clone()),
            _ => None,
        })
        .collect()
}

#[test]
fn relative_specifiers_climb_to_the_common_ancestor() {
    assert_eq!(
        specifier(&path("/p/src/client/init.luau"), &path("/p/src/shared/util.luau")),
        Some("./shared/util".to_owned())
    );
    assert_eq!(
        specifier(&path("/p/src/a/b.luau"), &path("/p/src/c/d.luau")),
        Some("../c/d".to_owned())
    );
    assert_eq!(
        specifier(&path("/p/src/main.luau"), &path("/p/src/lib/init.luau")),
        Some("./lib".to_owned())
    );
    assert_eq!(
        specifier(&path("/p/a/b/c.luau"), &path("/p/x.luau")),
        Some("../../x".to_owned())
    );
    assert_eq!(specifier(&vec![PathPart::RootDir], &path("/p/x.luau")), None);
}

#[test]
fn module_identity_drops_init_and_extensions() {
    assert_eq!(names(&identity(&path("/p/lib/init.luau"))), ["p", "lib"]);
    assert_eq!(names(&identity(&path("/p/lib/util.spec.luau"))), ["p", "lib", "util.spec"]);
    assert_eq!(names(&identity(&path("/p/.hidden"))), ["p", ".hidden"]);
}

#[test]
fn aliased_specifiers_follow_the_relative_one() {
    let roots = vec![
        ("@shared".to_owned(), path("/p/src/shared")),
        ("@other".to_owned(), path("/q")),
    ];
    assert_eq!(
        specifiers(&path("/p/src/client/main.luau"), &path("/p/src/shared/util.luau"), &roots),
        ["../shared/util".to_owned(), "@shared/util".to_owned()]
    );
    assert_eq!(
        specifiers(&path("/p/src/client/main.luau"), &path("/p/src/shared/init.luau"), &roots),
        ["../shared".to_owned(), "@shared".to_owned()]
    );
}
