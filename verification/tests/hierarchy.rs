use instar_core::lsp::diagnostics::{Position, Range};
use instar_core::lsp::hierarchy::{anonymous, enclosing, grouped_calls, module, Call, Item};

fn range(line: u32, start: u32, end: u32) -> Range {
    Range {
        start: Position { line, character: start },
        end: Position { line, character: end },
    }
}

fn item(name: &str, uri: &str, line: u32) -> Item {
    Item {
        name: name.to_owned(),
        kind: 12,
        uri: uri.to_owned(),
        range: range(line, 0, 20),
        selection: range(line, 9, 9 + name.len() as u32),
    }
}

fn call(callee: &Item, owner: &Item, at: Range) -> Call {
    let copy = |i: &Item| Item {
        name: i.name.clone(),
        kind: i.kind,
        uri: i.uri.clone(),
        range: i.range,
        selection: i.selection,
    };
    Call { callee: copy(callee), owner: copy(owner), range: at }
}

#[test]
fn incoming_calls_group_by_caller_in_document_order() {
    let target = item("target", "file:///b.luau", 1);
    let first = item("first", "file:///b.luau", 5);
    let second = item("second", "file:///a.luau", 3);
    let unrelated = item("unrelated", "file:///a.luau", 8);
    let calls = vec![
        call(&target, &first, range(6, 2, 8)),
        call(&unrelated, &second, range(4, 2, 8)),
        call(&target, &second, range(4, 2, 8)),
        call(&target, &first, range(7, 2, 8)),
        call(&target, &first, range(6, 2, 8)),
    ];
    let groups = grouped_calls(&calls, &target, true);
    let summary: Vec<(String, Vec<Range>)> =
        groups.iter().map(|g| (g.item.name.clone(), g.ranges.clone())).collect();
    assert_eq!(
        summary,
        vec![
            ("second".to_owned(), vec![range(4, 2, 8)]),
            ("first".to_owned(), vec![range(6, 2, 8), range(7, 2, 8)]),
        ]
    );
}

#[test]
fn outgoing_calls_group_by_callee() {
    let caller = item("caller", "file:///a.luau", 1);
    let helper = item("helper", "file:///a.luau", 9);
    let other = item("other", "file:///c.luau", 0);
    let calls = vec![
        call(&helper, &caller, range(2, 0, 6)),
        call(&other, &caller, range(3, 0, 5)),
        call(&helper, &other, range(1, 0, 6)),
    ];
    let groups = grouped_calls(&calls, &caller, false);
    let names: Vec<&str> = groups.iter().map(|g| g.item.name.as_str()).collect();
    assert_eq!(names, ["helper", "other"]);
    assert_eq!(groups[0].ranges, vec![range(2, 0, 6)]);
}

#[test]
fn calls_stand_in_the_enclosing_function_or_an_anonymous_one() {
    let items = vec![item("outer", "file:///a", 1), item("inner", "file:///a", 3)];
    let container = Range { start: Position { line: 3, character: 4 }, end: Position { line: 3, character: 20 } };
    assert_eq!(enclosing(&items, container), Some(1));
    let elsewhere = Range { start: Position { line: 5, character: 0 }, end: Position { line: 6, character: 3 } };
    assert_eq!(enclosing(&items, elsewhere), None);
    let made = anonymous(&"file:///a".to_owned(), elsewhere);
    assert_eq!(made.name, "(anonymous)");
    assert_eq!(made.kind, 12);
    assert_eq!(made.range, elsewhere);
    assert_eq!(made.selection, Range { start: elsewhere.start, end: elsewhere.start });
}

#[test]
fn top_level_calls_stand_in_the_module() {
    let end = Position { line: 9, character: 2 };
    let made = module(&"init.luau".to_owned(), &"file:///init.luau".to_owned(), end);
    assert_eq!(made.name, "init.luau");
    assert_eq!(made.kind, 2);
    assert_eq!(made.range, Range { start: Position { line: 0, character: 0 }, end });
    assert_eq!(made.selection, Range { start: Position { line: 0, character: 0 }, end: Position { line: 0, character: 0 } });
}
