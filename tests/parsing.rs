use json_parser::model::{Container, Json, JsonArray, JsonObject, Primitive};
use json_parser::parser::{parse_json_str, Expected, SyntaxError};

fn num(n: i64) -> Json {
    Json::Primitive(Primitive::Number(n))
}

fn boolean(b: bool) -> Json {
    Json::Primitive(Primitive::Boolean(b))
}

fn text(s: &str) -> Json {
    Json::Primitive(Primitive::String(s.to_string()))
}

fn array(items: Vec<Json>) -> Json {
    Json::Container(Container::JsonArray(JsonArray::new(items)))
}

fn expected_of(r: Result<Json, SyntaxError>) -> Expected {
    match r {
        Ok(v) => panic!("parsed unexpectedly: {:?}", v),
        Err(e) => e.expected,
    }
}

#[test]
fn parses_number() {
    parse_json_str("42").unwrap();
}

#[test]
fn parses_bool() {
    parse_json_str("true").unwrap();
}

#[test]
fn parses_string() {
    parse_json_str("\"The old world is dead and the new world is struggling to be born now is the time of monsters.\"").unwrap();
}

#[test]
fn parses_arrays() {
    parse_json_str("[1, 2, 3, 4, 5]").unwrap();
}

#[test]
fn parses_json_object() {
    parse_json_str("[1, 2, 3, 4, 5]").unwrap();
}

#[test]
fn number_value_is_exact() {
    assert_eq!(parse_json_str("42").unwrap(), num(42));
    assert_eq!(parse_json_str("007").unwrap(), num(7));
    assert_eq!(parse_json_str("9223372036854775807").unwrap(), num(i64::MAX));
}

#[test]
fn integer_round_trip() {
    for n in [0i64, 7, 10, 42, 1000, 123456789, i64::MAX] {
        let text = num(n).render();
        assert_eq!(parse_json_str(&text).unwrap(), num(n));
    }
}

#[test]
fn negative_integer_renders_but_does_not_parse() {
    assert_eq!(num(-15).render(), "-15");
    assert_eq!(num(i64::MIN).render(), "-9223372036854775808");
    assert_eq!(expected_of(parse_json_str("-15")), Expected::Value);
}

#[test]
fn boolean_literals() {
    assert_eq!(parse_json_str("true").unwrap(), boolean(true));
    assert_eq!(parse_json_str("false").unwrap(), boolean(false));
    assert_eq!(expected_of(parse_json_str("True")), Expected::Value);
    assert_eq!(expected_of(parse_json_str("tru")), Expected::Value);
    assert_eq!(expected_of(parse_json_str("truex")), Expected::EndOfInput);
}

#[test]
fn scalar_array_round_trip() {
    let a = array(vec![num(1), text("two"), boolean(false), num(30)]);
    let rendered = a.render();
    assert_eq!(rendered, "[1, \"two\", false, 30]");
    assert_eq!(parse_json_str(&rendered).unwrap(), a);
}

#[test]
fn array_rendering_forms() {
    assert_eq!(array(vec![]).render(), "[]");
    assert_eq!(array(vec![num(5)]).render(), "[5]");
    assert_eq!(array(vec![num(1), num(2), num(3)]).render(), "[1, 2, 3]");
}

#[test]
fn empty_input_fails() {
    let e = parse_json_str("").unwrap_err();
    assert_eq!(e, SyntaxError { offset: 0, line: 1, column: 1, expected: Expected::Value });
    assert_eq!(expected_of(parse_json_str("  \n ")), Expected::Value);
}

#[test]
fn three_integers_in_order() {
    assert_eq!(parse_json_str("[1, 2, 3]").unwrap(), array(vec![num(1), num(2), num(3)]));
}

#[test]
fn object_with_two_entries() {
    let v = parse_json_str("{\"a\": 1, \"b\": true}").unwrap();
    match v {
        Json::Container(Container::JsonObject(o)) => {
            assert_eq!(o.len(), 2);
            assert_eq!(o.get("a"), Some(&num(1)));
            assert_eq!(o.get("b"), Some(&boolean(true)));
            assert_eq!(o.get("c"), None);
        },
        other => panic!("not an object: {:?}", other),
    }
}

#[test]
fn trailing_comma_fails() {
    let e = parse_json_str("[1, 2,]").unwrap_err();
    assert_eq!(e.expected, Expected::Value);
    assert_eq!(e.offset, 6);
    assert_eq!(expected_of(parse_json_str("{\"a\": 1,}")), Expected::Key);
}

#[test]
fn overflowing_number_fails() {
    let e = parse_json_str("99999999999999999999").unwrap_err();
    assert_eq!(e.expected, Expected::NumberInRange);
    assert_eq!(e.offset, 0);
    assert_eq!(expected_of(parse_json_str("9223372036854775808")), Expected::NumberInRange);
}

#[test]
fn surrounding_whitespace_is_skipped() {
    assert_eq!(parse_json_str(" 42 ").unwrap(), num(42));
    assert_eq!(parse_json_str("\n [ 1 ,\n 2 ] \n").unwrap(), array(vec![num(1), num(2)]));
}

#[test]
fn trailing_content_fails() {
    let e = parse_json_str("42 43").unwrap_err();
    assert_eq!(e, SyntaxError { offset: 3, line: 1, column: 4, expected: Expected::EndOfInput });
}

#[test]
fn tab_is_not_whitespace() {
    assert_eq!(expected_of(parse_json_str("\t1")), Expected::Value);
}

#[test]
fn error_positions_count_lines_and_columns() {
    let e = parse_json_str("[1,\n  2\n  x]").unwrap_err();
    assert_eq!(e, SyntaxError { offset: 10, line: 3, column: 3, expected: Expected::CommaOrCloseBracket });
}

#[test]
fn object_errors() {
    assert_eq!(expected_of(parse_json_str("{1: 2}")), Expected::Key);
    assert_eq!(expected_of(parse_json_str("{\"a\" 2}")), Expected::Colon);
    assert_eq!(expected_of(parse_json_str("{\"a\": 2 \"b\": 3}")), Expected::CommaOrCloseBrace);
    assert_eq!(expected_of(parse_json_str("{\"a\": }")), Expected::Value);
}

#[test]
fn string_errors() {
    assert_eq!(expected_of(parse_json_str("\"abc")), Expected::ClosingQuote);
    let e = parse_json_str("\"abc\\\"").unwrap_err();
    assert_eq!(e.expected, Expected::ClosingQuote);
    assert_eq!(e.offset, 5);
}

#[test]
fn string_keeps_its_characters() {
    assert_eq!(parse_json_str("\"a b\nc\"").unwrap(), text("a b\nc"));
    assert_eq!(parse_json_str("\"\"").unwrap(), text(""));
    assert_eq!(parse_json_str("\"h\u{e9}llo\"").unwrap(), text("h\u{e9}llo"));
}

#[test]
fn nested_containers() {
    let v = parse_json_str("{\"xs\": [1, [true, \"s\"], {}], \"o\": {\"k\": []}}").unwrap();
    let rendered = v.render();
    assert_eq!(
        rendered,
        "{ \n  \"xs\": [1, [true, \"s\"], { \n}],\n  \"o\": { \n  \"k\": [],\n},\n}"
    );
}

#[test]
fn duplicate_keys_last_wins() {
    let v = parse_json_str("{\"a\": 1, \"b\": 2, \"a\": 3}").unwrap();
    match v {
        Json::Container(Container::JsonObject(o)) => {
            assert_eq!(o.len(), 2);
            assert_eq!(o.get("a"), Some(&num(3)));
            assert_eq!(o.get("b"), Some(&num(2)));
            assert_eq!(o.render(), "{ \n  \"a\": 3,\n  \"b\": 2,\n}");
        },
        other => panic!("not an object: {:?}", other),
    }
}

#[test]
fn object_building() {
    let mut o = JsonObject::from_vec(vec![
        ("x".to_string(), num(1)),
        ("y".to_string(), num(2)),
        ("x".to_string(), num(9)),
    ]);
    assert_eq!(o.len(), 2);
    assert_eq!(o.get("x"), Some(&num(9)));
    o.insert(("y".to_string(), boolean(true)));
    o.insert(("z".to_string(), text("q")));
    assert_eq!(o.len(), 3);
    assert_eq!(o.get("y"), Some(&boolean(true)));
    assert_eq!(o.render(), "{ \n  \"x\": 9,\n  \"y\": true,\n  \"z\": \"q\",\n}");
}

#[test]
fn scalar_rendering() {
    assert_eq!(Primitive::Number(0).render(), "0");
    assert_eq!(Primitive::Number(120).render(), "120");
    assert_eq!(Primitive::Boolean(true).render(), "true");
    assert_eq!(Primitive::String("hi".to_string()).render(), "\"hi\"");
}
