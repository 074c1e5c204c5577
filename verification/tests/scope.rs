use instar_core::format::configuration::{Binding, Constants, Functions, Imports};
use instar_core::format::sorting::required_path;
use instar_core::format::rewrite::{bindings, Keyword, Rewrite, RewriteError, Rewrites};
use instar_core::format::scope::{resolve, Names, Node, Shape, Tree, Usage};

fn node(start: usize, text: &str, children: Vec<usize>, shape: Shape) -> Node {
    Node { start, end: start + text.len(), text: text.to_owned(), children, shape }
}

fn name(start: usize, text: &str) -> Node {
    node(start, text, vec![], Shape::Name)
}

fn other(start: usize, text: &str, children: Vec<usize>) -> Node {
    node(start, text, children, Shape::Other)
}

/// local x = 1; x += 2; print(x)
fn counter() -> Tree {
    Tree {
        nodes: vec![
            other(0, "local x = 1\nx += 2\nprint(x)", vec![1]),
            node(0, "local x = 1\nx += 2\nprint(x)", vec![2, 6, 9], Shape::Block),
            node(0, "local x = 1", vec![3, 5], Shape::Local { constant: false, bindings: vec![3], values: vec![5] }),
            node(6, "x", vec![4], Shape::Binding { name: 4, annotation: None }),
            name(6, "x"),
            other(10, "1", vec![]),
            node(12, "x += 2", vec![7, 8], Shape::Assignment { compound: true, targets: vec![7], operator: 13, values: vec![8] }),
            name(12, "x"),
            other(17, "2", vec![]),
            node(19, "print(x)", vec![10, 11], Shape::Call { callee: 10, arguments: 11 }),
            name(19, "print"),
            other(24, "(x)", vec![12]),
            name(25, "x"),
            other(14, "+=", vec![]),
        ],
        tokens: vec![],
    }
}

/// local t = {}; table.insert(t, 1); local unused = require("x")
fn tables() -> Tree {
    Tree {
        nodes: vec![
            other(0, "chunk", vec![1]),
            node(0, "block", vec![2, 6, 13], Shape::Block),
            node(0, "local t = {}", vec![3, 5], Shape::Local { constant: false, bindings: vec![3], values: vec![5] }),
            node(6, "t", vec![4], Shape::Binding { name: 4, annotation: None }),
            name(6, "t"),
            other(10, "{}", vec![]),
            node(13, "table.insert(t, 1)", vec![7, 10], Shape::Call { callee: 7, arguments: 10 }),
            node(13, "table.insert", vec![8, 9], Shape::Field { receiver: 8, name: 9 }),
            name(13, "table"),
            name(19, "insert"),
            other(25, "(t, 1)", vec![11, 12]),
            name(26, "t"),
            other(29, "1", vec![]),
            node(32, "local unused = require(\"x\")", vec![14, 16], Shape::Local {
                constant: false,
                bindings: vec![14],
                values: vec![16],
            }),
            node(38, "unused", vec![15], Shape::Binding { name: 15, annotation: None }),
            name(38, "unused"),
            node(47, "require(\"x\")", vec![17, 18], Shape::Call { callee: 17, arguments: 18 }),
            name(47, "require"),
            other(54, "(\"x\")", vec![19]),
            node(55, "\"x\"", vec![], Shape::Literal),
        ],
        tokens: vec![],
    }
}

/// function helper() end
fn helper() -> Tree {
    Tree {
        nodes: vec![
            other(0, "chunk", vec![1]),
            node(0, "block", vec![2], Shape::Block),
            node(0, "function helper() end", vec![3, 5, 6], Shape::Function {
                statement: true,
                local: false,
                method: false,
                typed: false,
                declared: false,
                attributes: None,
                name: Some(3),
                generics: None,
                parameters: 5,
                result_type: None,
                body: Some(6),
            }),
            node(9, "helper", vec![4], Shape::FunctionName { path: vec![4], method: None }),
            name(9, "helper"),
            other(15, "()", vec![]),
            other(18, "", vec![]),
        ],
        tokens: vec![],
    }
}

fn usage(names: &Names, start: usize) -> Option<Usage> {
    names.bindings.iter().find(|(s, _)| *s == start).map(|(_, u)| *u)
}

fn rewrites(binding: Binding, unused: Imports, constants: bool, stay_local: bool, functions: Functions) -> Rewrites {
    Rewrites {
        binding,
        unused,
        constants: Constants { enabled: constants, mutated_tables_stay_local: stay_local },
        functions,
    }
}

#[test]
fn reads_and_writes_are_counted_per_local() {
    let names = resolve(&counter());
    assert_eq!(usage(&names, 6), Some(Usage { reads: 2, writes: 1, mutated: false }));
    assert_eq!(names.bindings.len(), 1);
    assert!(names.globals.is_empty());
}

#[test]
fn tables_changed_in_place_are_marked_mutated() {
    let names = resolve(&tables());
    assert_eq!(usage(&names, 6), Some(Usage { reads: 1, writes: 0, mutated: true }));
    assert_eq!(usage(&names, 38), Some(Usage { reads: 0, writes: 0, mutated: false }));
}

#[test]
fn global_functions_are_counted_as_writes() {
    let names = resolve(&helper());
    assert_eq!(names.globals, vec![("helper".to_owned(), 1)]);
}

#[test]
fn unused_requires_become_constants_or_go() {
    let tree = tables();
    let none = vec![];
    assert_eq!(
        bindings(&tree, &rewrites(Binding::Preserve, Imports::Remove, true, true, Functions::Preserve), &none),
        Ok(vec![Rewrite::Keyword { node: 13, keyword: Keyword::Const }])
    );
    assert_eq!(
        bindings(&tree, &rewrites(Binding::Preserve, Imports::Remove, false, true, Functions::Preserve), &none),
        Ok(vec![Rewrite::Remove { node: 13 }])
    );
    assert_eq!(
        bindings(&tree, &rewrites(Binding::Local, Imports::Underscore, false, true, Functions::Preserve), &none),
        Ok(vec![Rewrite::Underscore { name: 15 }, Rewrite::Keyword { node: 13, keyword: Keyword::Local }])
    );
    assert_eq!(
        bindings(&tree, &rewrites(Binding::Preserve, Imports::Ignore, true, false, Functions::Preserve), &none),
        Ok(vec![
            Rewrite::Keyword { node: 2, keyword: Keyword::Const },
            Rewrite::Keyword { node: 13, keyword: Keyword::Const }
        ])
    );
    assert_eq!(
        bindings(&tree, &rewrites(Binding::Preserve, Imports::Remove, true, true, Functions::Preserve), &vec![(0, 100)]),
        Ok(vec![])
    );
}

#[test]
fn top_level_functions_change_declaration() {
    let tree = helper();
    let none = vec![];
    assert_eq!(
        bindings(&tree, &rewrites(Binding::Preserve, Imports::Ignore, false, false, Functions::Local), &none),
        Ok(vec![Rewrite::Declaration { node: 2, keyword: Keyword::Local }])
    );
    assert_eq!(
        bindings(&tree, &rewrites(Binding::Preserve, Imports::Ignore, false, false, Functions::Const), &none),
        Ok(vec![Rewrite::Declaration { node: 2, keyword: Keyword::Const }])
    );
}

#[test]
fn nothing_is_rewritten_when_every_option_preserves() {
    let preserve = rewrites(Binding::Preserve, Imports::Ignore, false, false, Functions::Preserve);
    assert_eq!(bindings(&tables(), &preserve, &vec![]), Ok(vec![]));
    assert_eq!(bindings(&Tree { nodes: vec![], tokens: vec![] }, &preserve, &vec![]), Ok(vec![]));
    let remove = rewrites(Binding::Preserve, Imports::Remove, false, false, Functions::Preserve);
    assert_eq!(bindings(&Tree { nodes: vec![], tokens: vec![] }, &remove, &vec![]), Err(RewriteError::MissingRoot));
}

#[test]
fn require_statements_give_their_path() {
    let tree = tables();
    assert_eq!(required_path(&tree, 13, &vec![]), Some("x".to_owned()));
    assert_eq!(required_path(&tree, 2, &vec![]), None);
    assert_eq!(required_path(&tree, 13, &vec![(40, 45)]), None);
    assert_eq!(required_path(&tree, 13, &vec![(0, 10)]), Some("x".to_owned()));
}
