use ruson::json::error::JsonErrorType;
use ruson::json::parser::JsonParser;
use ruson::json::token::{Json, Number};

fn text(s: &str) -> Json {
    Json::QString(s.into())
}

fn number_parts(negative: bool, integer: &str, fraction: &str) -> Json {
    Json::Number(Number {
        negative,
        integer: integer.into(),
        fraction: fraction.into(),
        exponent_negative: false,
        exponent: String::new(),
    })
}

#[test]
fn success_null() {
    let mut json_parser = JsonParser::new("null");
    assert_eq!(json_parser.parse_null().unwrap(), Json::Null);
}

#[test]
fn error_null() {
    let mut json_parser: JsonParser;
    for xs in ["Null", "NULL"].iter() {
        json_parser = JsonParser::new(xs);
        match &json_parser.parse_null() {
            Ok(_) => assert!(false),
            Err((ref error_type, _)) => {
                assert_eq!(error_type, &JsonErrorType::SyntaxError)
            }
        };
    }
}

#[test]
fn success_bool() {
    let mut json_parser = JsonParser::new("true");
    assert_eq!(json_parser.parse_boolean().unwrap(), Json::Boolean(true));

    let mut json_parser = JsonParser::new("false");
    assert_eq!(json_parser.parse_boolean().unwrap(), Json::Boolean(false));
}

#[test]
fn error_bool() {
    let mut json_parser: JsonParser;
    for xs in ["False", "True"].iter() {
        json_parser = JsonParser::new(xs);
        match &json_parser.parse_boolean() {
            Ok(_) => assert!(false),
            Err((error_type, _)) => {
                assert_eq!(error_type, &JsonErrorType::SyntaxError)
            }
        };
    }
}

#[test]
fn success_string() {
    let mut json_parser: JsonParser;
    for (xs, j) in [
        (r#""string""#, text("string")),
        (r#""string with spaces""#, text("string with spaces")),
        (r#""string with 'quotes'""#, text("string with 'quotes'")),
        (
            r#""string with \"escaped double quotes\"""#,
            text("string with \\\"escaped double quotes\\\""),
        ),
    ]
    .iter()
    {
        json_parser = JsonParser::new(xs);
        assert_eq!(json_parser.parse_qstring().unwrap(), *j);
    }
}

#[test]
fn error_string() {
    let mut json_parser: JsonParser;
    for string in [r#"klasd"#, r#""#].iter() {
        json_parser = JsonParser::new(string);
        match &json_parser.parse_qstring() {
            Ok(_) => assert!(false),
            Err((error_type, _)) => {
                assert_eq!(error_type, &JsonErrorType::SyntaxError)
            }
        };
    }
}

#[test]
fn success_array() {
    let xs = r#"["string", null, 1.03, true]"#;
    let mut json_parser = JsonParser::new(xs);
    assert_eq!(
        json_parser.parse_array().unwrap(),
        Json::Array(vec![text("string"), Json::Null, number_parts(false, "1", "03"), Json::Boolean(true)])
    );
}

#[test]
fn error_array() {
    let mut json_parser: JsonParser;
    for (xs, err) in [
        // multple trailing commas.
        (r#"[1, 2, 3,]"#, JsonErrorType::TrailingCommaError),
        (r#"[1, 2, ,]"#, JsonErrorType::TrailingCommaError),
        // leading commas with empty array.
        (r#"[, ,   ,,,]"#, JsonErrorType::SyntaxError),
        // leading comma with valid array.
        (r#"[,1, 2]"#, JsonErrorType::SyntaxError),
    ]
    .iter()
    {
        json_parser = JsonParser::new(xs);
        match &json_parser.parse_array() {
            Ok(_) => assert!(false),
            Err((error_type, _)) => assert_eq!(error_type, err),
        };
    }
}

#[test]
fn success_object() {
    let xs = r#"{
        "key1": "string",
        "key2": null,
        "key3": 1.03,
        "key4": true
    }"#;
    let mut json_parser = JsonParser::new(xs);
    assert_eq!(
        json_parser.parse_object().unwrap(),
        Json::Object(vec![
            ("key1".into(), text("string")),
            ("key2".into(), Json::Null),
            ("key3".into(), number_parts(false, "1", "03")),
            ("key4".into(), Json::Boolean(true)),
        ])
    );
}

#[test]
fn error_object() {
    let mut json_parser: JsonParser;
    for (xs, err) in [
        // single trailing comma.
        (
            r#"{ "key1": "string", "key4": true, }"#,
            JsonErrorType::TrailingCommaError,
        ),
        // multiple trailig commas,
        (
            r#"{ "key1": "string", "key4": true, , }"#,
            JsonErrorType::TrailingCommaError,
        ),
        // missing value.
        (
            r#"{ "key1": "string", "key4": , }"#,
            JsonErrorType::SyntaxError,
        ),
        // missing colon.
        (
            r#"{ "key1": "string", "key4" true }"#,
            JsonErrorType::SyntaxError,
        ),
        // leading comma (missing 'key -> colon -> value').
        (
            r#"{ ,"key1": "string", "key4": true, , }"#,
            JsonErrorType::SyntaxError,
        ),
        // comma after key (missing 'colon -> value').
        (
            r#"{ "key1", : "string", "key4": true, , }"#,
            JsonErrorType::SyntaxError,
        ),
    ]
    .iter()
    {
        json_parser = JsonParser::new(xs);
        match &json_parser.parse_object() {
            Ok(_) => assert!(false),
            Err((error_type, _)) => assert_eq!(error_type, err),
        };
    }
}

fn float_of(json: &Json) -> f64 {
    match json {
        Json::Number(number) => number.render().parse::<f64>().unwrap(),
        other => panic!("not a number: {:?}", other),
    }
}

#[test]
fn success_number() {
    let mut json_parser: JsonParser;
    for (xs, j) in [
        ("10", 10.0),
        ("-91", -91.0),
        ("-9823.0", -9823.0),
        ("0.9832", 0.9832),
        ("-1.8923", -1.8923),
        ("40.2", 40.2),
        ("40.", 40.0),
        ("40 ", 40.0),
        ("-2.12e+12", -2.12e+12),
        ("-2.12e-12", -2.12e-12),
        ("-2.12e12", -2.12e12),
        ("2.12E+12", 2.12e+12),
        ("2.12E-12", 2.12E-12),
        ("2.12E12", 2.12E12),
    ]
    .iter()
    {
        json_parser = JsonParser::new(xs);
        assert_eq!(float_of(&json_parser.parse_number().unwrap()), *j);
    }
}

#[test]
fn error_number() {
    let mut json_parser: JsonParser;
    for number in [".10", "-.10"].iter() {
        json_parser = JsonParser::new(number);
        match &json_parser.parse_number() {
            Ok(_) => assert!(false),
            Err((error_type, _)) => {
                assert_eq!(error_type, &JsonErrorType::SyntaxError)
            }
        };
    }
    // an exponent that cannot be read ends the number: the part before it
    // is the value, and what follows is left to the caller.
    for number in ["4.873e+-23", "4.873e-+23", "4.873E+-23", "4.873E-+23"].iter() {
        json_parser = JsonParser::new(number);
        assert_eq!(json_parser.parse_number().unwrap(), number_parts(false, "4", "873"));
    }
}
