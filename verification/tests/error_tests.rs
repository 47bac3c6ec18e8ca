use ruson::error::ErrorString;
use ruson::json::error::{JsonErrorType, JsonParseError};
use ruson::json::parser::JsonParser;
use ruson::lexer::Position;

#[test]
fn uncamelize_separates_the_words() {
    assert_eq!("SyntaxError".to_string().uncamelize(), "Syntax Error");
    assert_eq!("DuplicateKeyError".to_string().uncamelize(), "Duplicate Key Error");
    assert_eq!("aBC".to_string().uncamelize(), "a B C");
    assert_eq!("word".to_string().uncamelize(), "word");
    assert_eq!("".to_string().uncamelize(), " ");
}

#[test]
fn shorten_cuts_long_lines() {
    let short = "a".repeat(50);
    assert_eq!(short.shorten(10), short);
    let long: String = ('a'..='z').chain('A'..='Z').collect();
    assert_eq!(long.shorten(0), format!("..{}", &long[2..50]));
    assert_eq!(long.shorten(10), format!("..{}", &long[12..52]));
    assert_eq!(long.shorten(51), ".");
    assert_eq!(long.shorten(52), "");
    assert_eq!(long.shorten(500), "");
    assert_eq!(<String as ErrorString>::SUBSTR_WIDTH, 50);
}

#[test]
fn errorfmt_names_the_program() {
    assert_eq!(" no such file".to_string().errorfmt("ruson"), "ruson:  no such file");
}

#[test]
fn kinds_have_names() {
    assert_eq!(JsonErrorType::SyntaxError.name(), "SyntaxError");
    assert_eq!(JsonErrorType::DuplicateKeyError.name(), "DuplicateKeyError");
    assert_eq!(JsonErrorType::TrailingCommaError.name(), "TrailingCommaError");
}

#[test]
fn parse_errors_have_a_message() {
    let error = JsonParser::new("{\n  \"a\": tru\n}").parse().err().unwrap();
    assert_eq!(error.message(), "2:8 Json Syntax Error \n2.\t|   \"a\": tru\n\t|        ^");
    let error = JsonParser::new("[1,]").parse().err().unwrap();
    assert_eq!(error.message(), "1:3 Json Trailing Comma Error \n1.\t| [1,]\n\t|   ^");
    let error = JsonParser::new(r#"{"a":1,"a":2}"#).parse().err().unwrap();
    assert_eq!(
        error.message(),
        "1:8 Json Duplicate Key Error \n1.\t| {\"a\":1,\"a\":2}\n\t|        ^"
    );
}

#[test]
fn long_lines_are_shown_in_part() {
    let line: String = "0123456789".repeat(6);
    let error = JsonParseError {
        line: line.clone(),
        position: Position { row: 1, col: 40 },
        error_type: JsonErrorType::SyntaxError,
    };
    let shown = format!("..{}", &line[16..60]);
    assert_eq!(
        error.message(),
        format!("1:40 Json Syntax Error \n1.\t| {}\n\t| {}^", shown, " ".repeat(24))
    );
}
