use instar_core::configuration::{grafts, layer, overlay, ConfigError, Json};
use instar_core::graft::luau::{luau_value, string};

fn text(value: &str) -> Json {
    Json::Text(value.to_owned())
}

fn object(entries: Vec<(&str, Json)>) -> Json {
    Json::Object(
        entries
            .into_iter()
            .map(|(key, value)| (key.to_owned(), value))
            .collect(),
    )
}

fn entries(value: Json) -> Vec<(String, Json)> {
    match value {
        Json::Object(entries) => entries,
        _ => panic!("object expected"),
    }
}

fn render(entries: Vec<(String, Json)>) -> String {
    luau_value(&Json::Object(entries))
}

#[test]
fn nearer_layers_override_farther_ones_and_tables_merge() {
    let mut merged = entries(object(vec![
        ("column_width", Json::Number("120".to_owned())),
        ("indentation", object(vec![("style", text("spaces")), ("width", Json::Number("4".to_owned()))])),
        ("quotes", text("double")),
    ]));
    overlay(
        &mut merged,
        entries(object(vec![
            ("final_newline", Json::Bool(false)),
            ("indentation", object(vec![("width", Json::Number("2".to_owned()))])),
            ("quotes", text("single")),
        ])),
    );
    assert_eq!(
        render(merged),
        "{[\"\\099\\111\\108\\117\\109\\110\\095\\119\\105\\100\\116\\104\"]=120,\
[\"\\102\\105\\110\\097\\108\\095\\110\\101\\119\\108\\105\\110\\101\"]=false,\
[\"\\105\\110\\100\\101\\110\\116\\097\\116\\105\\111\\110\"]={[\"\\115\\116\\121\\108\\101\"]=\"\\115\\112\\097\\099\\101\\115\",[\"\\119\\105\\100\\116\\104\"]=2,},\
[\"\\113\\117\\111\\116\\101\\115\"]=\"\\115\\105\\110\\103\\108\\101\",}"
    );
}

#[test]
fn a_value_replaces_a_table_and_a_table_replaces_a_value() {
    let mut merged = entries(object(vec![("a", object(vec![("b", Json::Null)])), ("c", Json::Null)]));
    overlay(
        &mut merged,
        entries(object(vec![("a", Json::Bool(true)), ("c", object(vec![]))])),
    );
    assert!(matches!(merged[0].1, Json::Bool(true)));
    assert!(matches!(&merged[1].1, Json::Object(inner) if inner.is_empty()));
}

#[test]
fn documents_layer_only_their_section() {
    let mut merged = Vec::new();
    layer(
        &mut merged,
        object(vec![("format", object(vec![("enabled", Json::Bool(false))])), ("lint", object(vec![]))]),
        "format",
    );
    assert_eq!(merged.len(), 1);
    assert_eq!(merged[0].0, "enabled");
    layer(&mut merged, object(vec![("format", text("not a table"))]), "format");
    layer(&mut merged, text("not a document"), "format");
    assert_eq!(merged.len(), 1);
}

#[test]
fn graft_paths_must_be_strings() {
    let document = object(vec![(
        "grafts",
        object(vec![("alpha", text("grafts/alpha/instar.toml")), ("beta", text("beta.toml"))]),
    )]);
    let paths = grafts(&document).unwrap();
    assert_eq!(
        paths,
        [
            ("alpha".to_owned(), "grafts/alpha/instar.toml".to_owned()),
            ("beta".to_owned(), "beta.toml".to_owned())
        ]
    );
    assert!(grafts(&object(vec![])).unwrap().is_empty());
    assert!(grafts(&object(vec![("grafts", Json::Bool(true))])).unwrap().is_empty());
    assert_eq!(
        grafts(&object(vec![("grafts", object(vec![("alpha", Json::Number("1".to_owned()))]))])),
        Err(ConfigError::GraftPathNotText)
    );
}

#[test]
fn luau_literals_escape_every_byte() {
    let mut out = Vec::new();
    string("a\u{e9}", &mut out);
    assert_eq!(out.into_iter().collect::<String>(), "\"\\097\\195\\169\"");
    assert_eq!(luau_value(&Json::Null), "nil");
    assert_eq!(luau_value(&Json::Bool(true)), "true");
    assert_eq!(luau_value(&Json::Number("1.5".to_owned())), "1.5");
    assert_eq!(
        luau_value(&Json::Array(vec![Json::Bool(false), Json::Null])),
        "{false,nil,}"
    );
    assert_eq!(luau_value(&object(vec![("k", Json::Null)])), "{[\"\\107\"]=nil,}");
}
