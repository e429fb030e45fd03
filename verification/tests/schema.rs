use tui_mcp::schema::flatten_enum;

fn schema(json: &str) -> schemars::Schema {
    let value: serde_json::Value = serde_json::from_str(json).unwrap();
    schemars::Schema::try_from(value).unwrap()
}

fn flattened(json: &str) -> schemars::Schema {
    let mut s = schema(json);
    flatten_enum(&mut s);
    s
}

#[test]
fn constants_become_an_enum() {
    let out = flattened(
        r#"{"description":"d","default":"text","oneOf":[
            {"const":"none","description":"x"},{"const":"text"},{"const":"ansi","type":"string"}]}"#,
    );
    assert_eq!(
        out,
        schema(r#"{"description":"d","default":"text","type":"string","enum":["none","text","ansi"]}"#)
    );
}

#[test]
fn other_schemas_stay_as_they_are() {
    for json in [
        r#"true"#,
        r#"{"type":"object"}"#,
        r#"{"oneOf":[]}"#,
        r#"{"oneOf":"x"}"#,
        r#"{"oneOf":[{"const":"a"},{"type":"string"}]}"#,
        r#"{"oneOf":[{"const":"a"},true]}"#,
    ] {
        assert_eq!(flattened(json), schema(json), "{json}");
    }
}

#[test]
fn flattening_twice_changes_nothing_more() {
    let mut s = flattened(r#"{"oneOf":[{"const":1},{"const":null}],"x":2}"#);
    let once = s.clone();
    flatten_enum(&mut s);
    assert_eq!(s, once);
    assert_eq!(s, schema(r#"{"type":"string","enum":[1,null],"x":2}"#));
}
