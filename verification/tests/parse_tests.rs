use ruson::json::error::JsonErrorType;
use ruson::json::parser::JsonParser;
use ruson::json::token::{Json, Number};

fn parse(text: &str) -> Result<Json, (JsonErrorType, usize, usize, String)> {
    JsonParser::new(text)
        .parse()
        .map_err(|e| (e.error_type, e.position.row, e.position.col, e.line))
}

fn kind(text: &str) -> JsonErrorType {
    parse(text).unwrap_err().0
}

fn whole(n: i128) -> Json {
    Json::Number(Number::whole(n))
}

fn text(s: &str) -> Json {
    Json::QString(s.into())
}

#[test]
fn parses_the_literals() {
    assert_eq!(parse("null").unwrap(), Json::Null);
    assert_eq!(parse("true").unwrap(), Json::Boolean(true));
    assert_eq!(parse("false").unwrap(), Json::Boolean(false));
    assert_eq!(parse("  \t\r\n null").unwrap(), Json::Null);
}

#[test]
fn a_literal_needs_all_its_characters() {
    assert_eq!(kind("nul"), JsonErrorType::SyntaxError);
    assert_eq!(kind("n"), JsonErrorType::SyntaxError);
    assert_eq!(kind("tru"), JsonErrorType::SyntaxError);
    assert_eq!(kind("fals"), JsonErrorType::SyntaxError);
    assert_eq!(kind(""), JsonErrorType::SyntaxError);
    assert_eq!(kind("x"), JsonErrorType::SyntaxError);
}

#[test]
fn parses_numbers() {
    let float = |text: &str| match parse(text).unwrap() {
        Json::Number(number) => number.render().parse::<f64>().unwrap(),
        other => panic!("not a number: {:?}", other),
    };
    assert_eq!(float("40."), 40.0);
    assert_eq!(float("-2.12e+12"), -2.12e12);
    assert_eq!(float("2.12E-12"), 2.12e-12);
    assert_eq!(kind(".10"), JsonErrorType::SyntaxError);
    assert_eq!(kind("-.10"), JsonErrorType::SyntaxError);
}

#[test]
fn a_number_keeps_its_parts() {
    let parts = |text: &str| match parse(text).unwrap() {
        Json::Number(n) => (n.negative, n.integer, n.fraction, n.exponent_negative, n.exponent),
        other => panic!("not a number: {:?}", other),
    };
    let expect = |negative: bool, integer: &str, fraction: &str, down: bool, exponent: &str| {
        (negative, integer.to_string(), fraction.to_string(), down, exponent.to_string())
    };
    assert_eq!(parts("12"), expect(false, "12", "", false, ""));
    assert_eq!(parts("-12.0034"), expect(true, "12", "0034", false, ""));
    assert_eq!(parts("1.50"), expect(false, "1", "50", false, ""));
    assert_eq!(parts("1.000"), expect(false, "1", "000", false, ""));
    assert_eq!(parts("7e-3"), expect(false, "7", "", true, "3"));
    assert_eq!(parts("7E+3"), expect(false, "7", "", false, "3"));
    assert_eq!(parts("7.25e10"), expect(false, "7", "25", false, "10"));
    assert_eq!(parts("-0.5"), expect(true, "0", "5", false, ""));
    assert_eq!(parts("-0"), expect(true, "0", "", false, ""));
    assert_eq!(parts("3000000000"), expect(false, "3000000000", "", false, ""));
    assert_eq!(
        parts("123456789012345678901234567890.12345678901e-4000000000"),
        expect(false, "123456789012345678901234567890", "12345678901", true, "4000000000")
    );
}

#[test]
fn a_negative_number_below_one_keeps_its_sign() {
    let float = |text: &str| match parse(text).unwrap() {
        Json::Number(number) => number.render().parse::<f64>().unwrap(),
        other => panic!("not a number: {:?}", other),
    };
    assert_eq!(float("-0.5"), -0.5);
    assert_eq!(float("0.5"), 0.5);
    assert_eq!(float("-0.12345678901"), -0.12345678901);
    assert_eq!(float("3000000000"), 3000000000.0);
    assert_eq!(parse("-0.5").unwrap().render(), "-0.5");
}

#[test]
fn a_part_that_cannot_be_read_ends_the_number_before_it() {
    let read = |text: &str| {
        let mut parser = JsonParser::new(text);
        let number = parser.parse_number().unwrap();
        (number.render(), parser.0.cursor)
    };
    assert_eq!(read("40."), ("40".to_string(), 2));
    assert_eq!(read("40.]"), ("40".to_string(), 2));
    assert_eq!(read("1.-5"), ("1".to_string(), 1));
    assert_eq!(read("1e"), ("1".to_string(), 1));
    assert_eq!(read("1e+"), ("1".to_string(), 1));
    assert_eq!(read("1E-x"), ("1".to_string(), 1));
    assert_eq!(read("4.873e+-23"), ("4.873".to_string(), 5));
    assert_eq!(read("2.5e+7,"), ("2.5e7".to_string(), 6));
    assert_eq!(kind("[1e,2]"), JsonErrorType::SyntaxError);
    assert_eq!(kind("[40.]"), JsonErrorType::SyntaxError);
    assert_eq!(kind("[1.-5]"), JsonErrorType::SyntaxError);
}

#[test]
fn a_number_needs_a_digit() {
    let mut parser = JsonParser::new("-x");
    assert_eq!(parser.parse_number(), Err((JsonErrorType::SyntaxError, 0)));
    assert_eq!(parser.0.cursor, 0);
    let mut parser = JsonParser::new("-");
    assert_eq!(parser.parse_number(), Err((JsonErrorType::SyntaxError, 0)));
    let mut parser = JsonParser::new("e5");
    assert_eq!(parser.parse_number(), Err((JsonErrorType::SyntaxError, 0)));
}

#[test]
fn strings_are_stored_raw() {
    assert_eq!(parse(r#""a\nb""#).unwrap(), text(r#"a\nb"#));
    assert_eq!(parse(r#""a\"b""#).unwrap(), text(r#"a\"b"#));
    assert_eq!(parse(r#""""#).unwrap(), text(""));
    assert_eq!(parse(r#""a\"b""#).unwrap().render(), r#""a\"b""#);
    assert_eq!(kind(r#""abc"#), JsonErrorType::SyntaxError);
}

#[test]
fn a_quote_ends_the_string_unless_an_odd_run_of_backslashes_precedes_it() {
    let read = |text: &str| {
        let mut parser = JsonParser::new(text);
        (parser.parse_qstring(), parser.0.cursor)
    };
    assert_eq!(read(r#""a\\""#), (Ok(text(r#"a\\"#)), 5));
    assert_eq!(read(r#""a\""#), (Err((JsonErrorType::SyntaxError, 4)), 4));
    assert_eq!(read(r#""a\\\"b""#), (Ok(text(r#"a\\\"b"#)), 8));
    assert_eq!(read(r#""\\"b""#), (Ok(text(r#"\\"#)), 4));
    assert_eq!(read(r#""a\\\\" b""#), (Ok(text(r#"a\\\\"#)), 7));
}

#[test]
fn parses_arrays_and_objects() {
    assert_eq!(parse("[]").unwrap(), Json::Array(vec![]));
    assert_eq!(parse("[ ]").unwrap(), Json::Array(vec![]));
    assert_eq!(parse("{}").unwrap(), Json::Object(vec![]));
    assert_eq!(parse("{ }").unwrap(), Json::Object(vec![]));
    assert_eq!(
        parse("[1 , [2,3] ,{\"a\" : [ ]}]").unwrap(),
        Json::Array(vec![
            whole(1),
            Json::Array(vec![whole(2), whole(3)]),
            Json::Object(vec![("a".into(), Json::Array(vec![]))]),
        ])
    );
    assert_eq!(
        parse(r#"{"b":1,"a":2}"#).unwrap(),
        Json::Object(vec![("b".into(), whole(1)), ("a".into(), whole(2))])
    );
}

#[test]
fn what_follows_the_value_is_not_read() {
    let mut parser = JsonParser::new("1 2");
    assert_eq!(parser.parse().ok().unwrap(), whole(1));
    assert_eq!(parser.0.cursor, 1);
}

#[test]
fn duplicate_keys_are_an_error() {
    assert_eq!(kind(r#"{"a":1,"a":2}"#), JsonErrorType::DuplicateKeyError);
    assert_eq!(kind(r#"{"a":1,"b":{"c":1,"c":2}}"#), JsonErrorType::DuplicateKeyError);
    assert!(parse(r#"{"a":1,"b":{"a":2}}"#).is_ok());
}

#[test]
fn a_duplicate_key_is_reported_where_it_starts() {
    let mut parser = JsonParser::new(r#"{"a":1,  "a":2}"#);
    assert_eq!(parser.parse_object(), Err((JsonErrorType::DuplicateKeyError, 9)));
    assert_eq!(parser.0.cursor, 9);
    let mut parser = JsonParser::new("{\"é\":1,\"é\":2}");
    assert_eq!(parser.parse_object(), Err((JsonErrorType::DuplicateKeyError, 7)));
}

#[test]
fn trailing_commas_are_an_error() {
    assert_eq!(kind("[1,2,3,]"), JsonErrorType::TrailingCommaError);
    assert_eq!(kind(r#"{"a":1,}"#), JsonErrorType::TrailingCommaError);
    assert_eq!(kind("[,1,2]"), JsonErrorType::SyntaxError);
    assert_eq!(kind("[1, tru]"), JsonErrorType::TrailingCommaError);
}

#[test]
fn a_trailing_comma_is_reported_at_the_comma() {
    let mut parser = JsonParser::new("[1, 2, 3 ,  \n ]");
    assert_eq!(parser.parse_array(), Err((JsonErrorType::TrailingCommaError, 9)));
    assert_eq!(parser.0.cursor, 9);
    let mut parser = JsonParser::new("[1, tru]");
    assert_eq!(parser.parse_array(), Err((JsonErrorType::TrailingCommaError, 2)));
    let mut parser = JsonParser::new("{\"a\": 1 , 7}");
    assert_eq!(parser.parse_object(), Err((JsonErrorType::TrailingCommaError, 8)));
    assert_eq!(parser.0.cursor, 8);
}

#[test]
fn the_first_error_is_the_error_of_the_whole() {
    let read = |text: &str| JsonParser::new(text).parse_any();
    assert_eq!(read("[[1,]]"), Err((JsonErrorType::TrailingCommaError, 3)));
    assert_eq!(read("[1, [2, x]]"), Err((JsonErrorType::TrailingCommaError, 6)));
    assert_eq!(read("[{]"), Err((JsonErrorType::SyntaxError, 2)));
    assert_eq!(read(r#"[1, {"a" 1}]"#), Err((JsonErrorType::SyntaxError, 9)));
    assert_eq!(read(r#"[1,{"a":1,"a":2}]"#), Err((JsonErrorType::DuplicateKeyError, 10)));
    assert_eq!(read(r#"[{"a":1,"a":2}]"#), Err((JsonErrorType::DuplicateKeyError, 8)));
    assert_eq!(read(r#"[1, "abc]"#), Err((JsonErrorType::SyntaxError, 9)));
    assert_eq!(read(r#"{"a":1, "b}"#), Err((JsonErrorType::SyntaxError, 11)));
    assert_eq!(read(r#"{"a": [1,]}"#), Err((JsonErrorType::TrailingCommaError, 8)));
    assert_eq!(read(r#"{"a}"#), Err((JsonErrorType::SyntaxError, 4)));
    assert_eq!(read("[,1,2]"), Err((JsonErrorType::SyntaxError, 1)));
    assert_eq!(read("[tru]"), Err((JsonErrorType::SyntaxError, 1)));
    assert_eq!(read(r#"{ ,"a":1}"#), Err((JsonErrorType::SyntaxError, 2)));
}

#[test]
fn errors_carry_the_place_and_the_line() {
    assert_eq!(
        parse("{\n  \"a\": 1,\n  \"b\": tru\n}").unwrap_err(),
        (JsonErrorType::SyntaxError, 3, 8, "  \"b\": tru".to_string())
    );
    assert_eq!(
        parse("[1,\r\n2,\r\n]").unwrap_err(),
        (JsonErrorType::TrailingCommaError, 2, 2, "2,".to_string())
    );
    assert_eq!(parse("").unwrap_err(), (JsonErrorType::SyntaxError, 1, 1, String::new()));
}
