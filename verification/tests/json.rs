use ip_restriction::json::Json;

fn text(s: &str) -> Json {
    Json::Text(s.to_string())
}

fn number(s: &str) -> Json {
    Json::Number(s.to_string())
}

fn member(name: &str, value: Json) -> (String, Json) {
    (name.to_string(), value)
}

#[test]
fn scalars_are_read() {
    assert_eq!(Json::parse("null"), Some(Json::Null));
    assert_eq!(Json::parse(" true "), Some(Json::Bool(true)));
    assert_eq!(Json::parse("false"), Some(Json::Bool(false)));
    assert_eq!(Json::parse("12"), Some(number("12")));
    assert_eq!(Json::parse("-7"), Some(number("-7")));
    assert_eq!(Json::parse("2.5"), Some(number("2.5")));
    assert_eq!(Json::parse("\"a\\nb\""), Some(text("a\nb")));
    assert_eq!(Json::parse("\"\\u00e9\""), Some(text("\u{e9}")));
}

#[test]
fn arrays_and_objects_are_read_in_depth() {
    let document = Json::parse(r#"{"b": [1, "x", null, true, {"c": 2.5}, []], "a": "y"}"#);
    let expected = Json::Object(vec![
        member("a", text("y")),
        member(
            "b",
            Json::Array(vec![
                number("1"),
                text("x"),
                Json::Null,
                Json::Bool(true),
                Json::Object(vec![member("c", number("2.5"))]),
                Json::Array(vec![]),
            ]),
        ),
    ]);
    assert_eq!(document, Some(expected));
    assert_eq!(Json::parse("{}"), Some(Json::Object(vec![])));
    assert_eq!(Json::parse("[]"), Some(Json::Array(vec![])));
}

#[test]
fn a_member_written_twice_is_read_once() {
    let document = Json::parse(r#"{"a": 1, "a": 2}"#);
    assert_eq!(document, Some(Json::Object(vec![member("a", number("2"))])));
}

#[test]
fn text_that_is_no_document_gives_nothing() {
    for payload in ["", " ", "{", "[1,]", "{\"a\"}", "nul", "1 2", "{\"a\": 1,}", "'a'"] {
        assert_eq!(Json::parse(payload), None, "{payload}");
    }
}
