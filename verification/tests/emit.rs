use instar_core::format::configuration::Options;
use instar_core::format::emit::Emitter;
use instar_core::format::scope::{Node, Shape, Token, TokenKind, Tree};
use instar_core::format::FormatError;

fn node(start: usize, end: usize, text: &str, children: Vec<usize>, shape: Shape) -> Node {
    Node { start, end, text: text.to_owned(), children, shape }
}

fn chars(s: &str) -> Vec<char> {
    s.chars().collect()
}

/// local x = 1
fn local_tree() -> (Tree, Vec<char>) {
    let source = "local x = 1";
    let tree = Tree {
        nodes: vec![
            node(0, 11, source, vec![1], Shape::Root { block: 1 }),
            node(0, 11, source, vec![2], Shape::Block),
            node(0, 11, source, vec![3, 5], Shape::Local { constant: false, bindings: vec![3], values: vec![5] }),
            node(6, 7, "x", vec![4], Shape::Binding { name: 4, annotation: None }),
            node(6, 7, "x", vec![], Shape::Name),
            node(10, 11, "1", vec![], Shape::Number),
        ],
        tokens: vec![],
    };
    (tree, chars(source))
}

/// print('hi')
fn call_tree() -> (Tree, Vec<char>) {
    let source = "print('hi')";
    let tree = Tree {
        nodes: vec![
            node(0, 11, source, vec![1], Shape::Root { block: 1 }),
            node(0, 11, source, vec![2], Shape::Block),
            node(0, 11, source, vec![3], Shape::CallStatement { call: 3 }),
            node(0, 11, source, vec![4, 5], Shape::Call { callee: 4, arguments: 5 }),
            node(0, 5, "print", vec![], Shape::Name),
            node(5, 11, "('hi')", vec![6], Shape::Arguments),
            node(6, 10, "'hi'", vec![], Shape::Literal),
        ],
        tokens: vec![],
    };
    (tree, chars(source))
}

/// if a then b() end
fn if_tree() -> (Tree, Vec<char>) {
    let source = "if a then b() end";
    let tree = Tree {
        nodes: vec![
            node(0, 17, source, vec![1], Shape::Root { block: 1 }),
            node(0, 17, source, vec![2], Shape::Block),
            node(0, 17, source, vec![3], Shape::If { branches: vec![3], otherwise: None }),
            node(0, 17, source, vec![4, 5], Shape::Branch { condition: 4, body: 5 }),
            node(3, 4, "a", vec![], Shape::Name),
            node(10, 13, "b()", vec![6], Shape::Block),
            node(10, 13, "b()", vec![7], Shape::CallStatement { call: 7 }),
            node(10, 13, "b()", vec![8, 9], Shape::Call { callee: 8, arguments: 9 }),
            node(10, 11, "b", vec![], Shape::Name),
            node(11, 13, "()", vec![], Shape::Arguments),
        ],
        tokens: vec![],
    };
    (tree, chars(source))
}

/// local t = {1, 2}
fn table_tree() -> (Tree, Vec<char>) {
    let source = "local t = {1, 2}";
    let tree = Tree {
        nodes: vec![
            node(0, 16, source, vec![1], Shape::Root { block: 1 }),
            node(0, 16, source, vec![2], Shape::Block),
            node(0, 16, source, vec![3, 5], Shape::Local { constant: false, bindings: vec![3], values: vec![5] }),
            node(6, 7, "t", vec![4], Shape::Binding { name: 4, annotation: None }),
            node(6, 7, "t", vec![], Shape::Name),
            node(10, 16, "{1, 2}", vec![6, 8], Shape::Table),
            node(11, 12, "1", vec![7], Shape::TableField { key: None, value: 7, indexed: false }),
            node(11, 12, "1", vec![], Shape::Number),
            node(14, 15, "2", vec![9], Shape::TableField { key: None, value: 9, indexed: false }),
            node(14, 15, "2", vec![], Shape::Number),
        ],
        tokens: vec![],
    };
    (tree, chars(source))
}

/// -- note, then local x = 1 on the next line
fn commented_tree() -> (Tree, Vec<char>) {
    let source = "-- note\nlocal x = 1";
    let tree = Tree {
        nodes: vec![
            node(0, 19, source, vec![1], Shape::Root { block: 1 }),
            node(0, 19, source, vec![2], Shape::Block),
            node(8, 19, "local x = 1", vec![3, 5], Shape::Local {
                constant: false,
                bindings: vec![3],
                values: vec![5],
            }),
            node(14, 15, "x", vec![4], Shape::Binding { name: 4, annotation: None }),
            node(14, 15, "x", vec![], Shape::Name),
            node(18, 19, "1", vec![], Shape::Number),
        ],
        tokens: vec![
            Token { start: 0, end: 7, kind: TokenKind::Comment },
            Token { start: 7, end: 8, kind: TokenKind::Whitespace },
            Token { start: 8, end: 13, kind: TokenKind::Other },
        ],
    };
    (tree, chars(source))
}

fn formatted(tree: &Tree, source: &Vec<char>, options: &Options) -> Result<String, FormatError> {
    instar_core::format::format(tree, source, options, &vec![])
}

#[test]
fn a_local_declaration_is_laid_out_with_a_final_newline() {
    let (tree, source) = local_tree();
    assert_eq!(formatted(&tree, &source, &Options::default()), Ok("local x = 1\n".to_owned()));
}

#[test]
fn string_arguments_keep_parentheses_and_prefer_double_quotes() {
    let (tree, source) = call_tree();
    assert_eq!(formatted(&tree, &source, &Options::default()), Ok("print(\"hi\")\n".to_owned()));
}

#[test]
fn an_if_body_is_indented_on_its_own_line() {
    let (tree, source) = if_tree();
    assert_eq!(formatted(&tree, &source, &Options::default()), Ok("if a then\n\tb()\nend\n".to_owned()));
}

#[test]
fn a_short_table_stays_on_one_line_with_spaced_braces() {
    let (tree, source) = table_tree();
    assert_eq!(formatted(&tree, &source, &Options::default()), Ok("local t = { 1, 2 }\n".to_owned()));
}

#[test]
fn a_table_wider_than_the_column_breaks_with_a_trailing_comma() {
    let (tree, source) = table_tree();
    let mut options = Options::default();
    options.column_width = 12;
    assert_eq!(formatted(&tree, &source, &options), Ok("local t = {\n\t1,\n\t2,\n}\n".to_owned()));
}

#[test]
fn comments_before_a_statement_are_kept() {
    let (tree, source) = commented_tree();
    assert_eq!(formatted(&tree, &source, &Options::default()), Ok("-- note\nlocal x = 1\n".to_owned()));
}

#[test]
fn disabled_options_leave_the_source_unchanged() {
    let (tree, source) = if_tree();
    let mut options = Options::default();
    options.enabled = false;
    assert_eq!(formatted(&tree, &source, &options), Ok("if a then b() end".to_owned()));
}

#[test]
fn zero_widths_are_refused() {
    let (tree, source) = local_tree();
    let mut options = Options::default();
    options.indentation.width = 0;
    assert_eq!(formatted(&tree, &source, &options), Err(FormatError::Widths));
    let mut options = Options::default();
    options.column_width = 0;
    assert_eq!(formatted(&tree, &source, &options), Err(FormatError::Widths));
}

#[test]
fn a_source_held_whole_stays_as_it_is() {
    let (tree, source) = if_tree();
    assert_eq!(
        instar_core::format::format(&tree, &source, &Options::default(), &vec![(0, source.len())]),
        Ok("if a then b() end".to_owned())
    );
}

#[test]
fn a_statement_that_overlaps_a_held_region_keeps_its_source() {
    let (tree, source) = if_tree();
    assert_eq!(
        instar_core::format::format(&tree, &source, &Options::default(), &vec![(10, 13)]),
        Ok("if a then b() end\n".to_owned())
    );
}

#[test]
fn empty_output_gets_no_final_newline() {
    let tree = Tree {
        nodes: vec![node(0, 0, "", vec![1], Shape::Root { block: 1 }), node(0, 0, "", vec![], Shape::Block)],
        tokens: vec![],
    };
    assert_eq!(formatted(&tree, &vec![], &Options::default()), Ok(String::new()));
}

#[test]
fn trees_without_a_root_are_refused() {
    let empty = Tree { nodes: vec![], tokens: vec![] };
    assert_eq!(formatted(&empty, &vec![], &Options::default()), Err(FormatError::MissingRoot));
    let rootless = Tree { nodes: vec![node(0, 0, "", vec![], Shape::Block)], tokens: vec![] };
    assert_eq!(formatted(&rootless, &vec![], &Options::default()), Err(FormatError::InvalidRoot));
}

#[test]
fn the_emitter_lays_out_a_single_node() {
    let (tree, source) = local_tree();
    let options = Options::default();
    let held = vec![];
    let emitter = Emitter { tree: &tree, source: &source, options: &options, held: &held };
    let document = emitter.node(5);
    assert_eq!(instar_core::format::document::render(&document, &options), "1");
}

#[test]
fn a_statement_holding_its_own_comment_keeps_its_source() {
    let source = "local x = --c\n1";
    let tree = Tree {
        nodes: vec![
            node(0, 15, source, vec![1], Shape::Root { block: 1 }),
            node(0, 15, source, vec![2], Shape::Block),
            node(0, 15, source, vec![3, 5], Shape::Local { constant: false, bindings: vec![3], values: vec![5] }),
            node(6, 7, "x", vec![4], Shape::Binding { name: 4, annotation: None }),
            node(6, 7, "x", vec![], Shape::Name),
            node(14, 15, "1", vec![], Shape::Number),
        ],
        tokens: vec![Token { start: 10, end: 13, kind: TokenKind::Comment }],
    };
    assert_eq!(formatted(&tree, &chars(source), &Options::default()), Ok("local x = --c\n1\n".to_owned()));
}
