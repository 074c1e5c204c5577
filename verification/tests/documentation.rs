use instar_core::moonwave::comments;

#[test]
fn moonwave_sections_preserve_examples() {
    let rendered = comments(
        "Adds values.\n@param amount number -- Amount\n@return number -- Total\n@error string -- Failure\n@within Counter\n@deprecated Use sum.\n```luau\n@param kept\n```",
    );

    assert!(rendered.contains("**Parameters**\n\n- `amount` number -- Amount"));
    assert!(rendered.contains("**Returns**\n\n- `number` -- Total"));
    assert!(rendered.contains("**Throws**\n\n- `string` -- Failure"));
    assert!(rendered.contains("**Deprecated** Use sum."));
    assert!(rendered.contains("```luau\n@param kept\n```"));
    assert!(!rendered.contains("@within"));
}

#[test]
fn moonwave_full_rendering_orders_sections() {
    let rendered = comments(
        "  Summary line.  \n@field name string The name\n@param x\n@since 1.2\n@private\n@unknown text\n@return boolean\n@throws nothing -- ever\n",
    );

    assert_eq!(
        rendered,
        "Summary line.  \n**Since** `1.2`\n**Private**\n@unknown text\n\n**Fields**\n\n- `name` string The name\n\n**Parameters**\n\n- `x`\n\n**Returns**\n\n- boolean\n\n**Throws**\n\n- `nothing` -- ever"
    );
}

#[test]
fn moonwave_fences_keep_tags_and_mismatched_markers() {
    let rendered = comments("~~~\n```\n@param hidden\n~~~\n@param shown");
    assert_eq!(
        rendered,
        "~~~\n```\n@param hidden\n~~~\n\n**Parameters**\n\n- `shown`"
    );
}

#[test]
fn moonwave_empty_comment_renders_nothing() {
    assert_eq!(comments(""), "");
    assert_eq!(comments("\r\n\r\n"), "");
    assert_eq!(comments("line one\r\nline two\r\n"), "line one\nline two");
}
