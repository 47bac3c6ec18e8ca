use ruson::json::formatter::{Formatter, PrettyJson, RawJson, TableJson};
use ruson::json::parser::JsonParser;
use ruson::json::token::{Json, Number};

fn parse(text: &str) -> Json {
    JsonParser::new(text).parse().ok().unwrap()
}

#[test]
fn numbers_are_written_as_literals() {
    let text = |negative: bool, integer: &str, fraction: &str, down: bool, exponent: &str| {
        Number {
            negative,
            integer: integer.into(),
            fraction: fraction.into(),
            exponent_negative: down,
            exponent: exponent.into(),
        }
        .render()
    };
    assert_eq!(text(false, "0", "", false, ""), "0");
    assert_eq!(text(true, "12", "0034", false, ""), "-12.0034");
    assert_eq!(text(false, "7", "", true, "3"), "7e-3");
    assert_eq!(text(false, "7", "5", false, "3"), "7.5e3");
    assert_eq!(text(true, "0", "5", false, ""), "-0.5");
    assert_eq!(Number::whole(0).render(), "0");
    assert_eq!(Number::whole(-7).render(), "-7");
    assert_eq!(Number::whole(18446744073709551615).render(), "18446744073709551615");
    assert_eq!(Number::whole(i128::MIN).render(), "-170141183460469231731687303715884105728");
    assert_eq!(Number::whole(120).clone(), Number::whole(120));
}

#[test]
fn the_canonical_text_is_compact() {
    assert_eq!(parse(" null ").render(), "null");
    assert_eq!(parse("true").render(), "true");
    assert_eq!(parse("false").render(), "false");
    assert_eq!(parse(r#""a\"b""#).render(), r#""a\"b""#);
    assert_eq!(parse("[ ]").render(), "[]");
    assert_eq!(parse("{ }").render(), "{}");
    assert_eq!(parse("[1,\n2 , [3]]").render(), "[1, 2, [3]]");
    assert_eq!(
        parse(r#"{"b":1,"a":{"c":[null,"x"]}}"#).render(),
        r#"{"b": 1, "a": {"c": [null, "x"]}}"#
    );
    assert_eq!(RawJson {}.dump(&parse("[1,2]")), "[1, 2]");
}

#[test]
fn reading_the_canonical_text_back_gives_the_same_document() {
    for text in [
        "null",
        "true",
        "-12.0034e-7",
        "1.50",
        "-0.5",
        "3000000000",
        "-0",
        "1E+5",
        "123456789012345678901234567890.000000000000000000001e-99999999999",
        r#""a\"b\\n""#,
        "[]",
        "{}",
        "[1, [2, []], {}]",
        r#"{"a": {"b": [1, 2, {"c": "d"}]}, "e": false, "": null}"#,
        "  [ 1 ,\t2.0 ,\n\"x\" ] ",
    ]
    .iter()
    {
        let first = parse(text);
        let rendered = first.render();
        let mut parser = JsonParser::new(&rendered);
        assert_eq!(parser.parse().ok().unwrap(), first);
        assert_eq!(parser.0.cursor, rendered.chars().count());
    }
}

#[test]
fn pretty_text_has_one_element_on_each_line() {
    let pretty = PrettyJson { indent: "  " };
    assert_eq!(pretty.dump(&parse("12")), "12");
    assert_eq!(pretty.dump(&parse("[]")), "[\n\n]");
    assert_eq!(pretty.dump(&parse("{}")), "{\n\n}");
    assert_eq!(pretty.dump(&parse("[1,[2,3]]")), "[\n  1,\n  [\n    2,\n    3\n  ]\n]");
    assert_eq!(
        pretty.dump(&parse(r#"{"a":1,"b":{"c":[true]}}"#)),
        "{\n  \"a\": 1,\n  \"b\": {\n    \"c\": [\n      true\n    ]\n  }\n}"
    );
    assert_eq!(PrettyJson { indent: "\t" }.dump(&parse("[null]")), "[\n\tnull\n]");
}

#[test]
fn table_text_has_one_row_on_each_line() {
    let table = TableJson {};
    assert_eq!(table.dump(&parse("12")), "12");
    assert_eq!(table.dump(&parse("[]")), "");
    assert_eq!(table.dump(&parse("[1,[2,3],\"x\"]")), "1\n[2, 3]\n\"x\"");
    assert_eq!(table.dump(&parse(r#"{"a":1,"b":[2]}"#)), "a\t1\nb\t[2]");
}
