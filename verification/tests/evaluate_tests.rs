use ruson::json::parser::JsonParser;
use ruson::json::query::JsonQuery;
use ruson::json::token::{Json, Number, Property};

fn parse(text: &str) -> Json {
    JsonParser::new(text).parse().ok().unwrap()
}

fn evaluate(text: &str, query: &str) -> Result<Json, String> {
    parse(text).apply(&JsonQuery::new(query).ok().unwrap())
}

fn whole(n: i128) -> Json {
    Json::Number(Number::whole(n))
}

#[test]
fn follows_a_path() {
    assert_eq!(evaluate(r#"{"prop":[1,2,3,4,5]}"#, ".prop[2]"), Ok(whole(3)));
    assert_eq!(evaluate(r#"{"prop":[1,2,3,4,5]}"#, r#"["prop"][0]"#), Ok(whole(1)));
    assert_eq!(evaluate(r#"{ "prop": "value" }"#, ".prop"), Ok(Json::QString("value".into())));
    assert_eq!(evaluate("[1]", ""), Ok(parse("[1]")));
}

#[test]
fn keys_and_values_of_an_object() {
    assert_eq!(
        evaluate(r#"{"one":1,"two":2}"#, ".keys()"),
        Ok(Json::Array(vec![Json::QString("one".into()), Json::QString("two".into())]))
    );
    assert_eq!(
        evaluate(r#"{"one":1,"two":2}"#, ".values()"),
        Ok(Json::Array(vec![whole(1), whole(2)]))
    );
}

#[test]
fn keys_and_values_need_an_object() {
    assert_eq!(
        evaluate("12", ".keys()"),
        Err(" '.keys()' can only be applied on 'Object', found 'Number' instead.".to_string())
    );
    assert_eq!(
        evaluate("12", ".values()"),
        Err(" '.values()' can only be applied on 'Object', found 'Number' instead.".to_string())
    );
}

#[test]
fn map_applies_a_query_to_each_element() {
    assert_eq!(
        evaluate(r#"[{"id":1},{"id":2},{"id":3}]"#, ".map(.id)"),
        Ok(Json::Array(vec![whole(1), whole(2), whole(3)]))
    );
    assert_eq!(
        evaluate(r#"{ "list": [{ "id": 1 }, { "id": 2 }, { "id": 3 }] }"#, ".list.map(.id)"),
        Ok(Json::Array(vec![whole(1), whole(2), whole(3)]))
    );
    assert_eq!(evaluate("[]", ".map(.id)"), Ok(Json::Array(vec![])));
    assert_eq!(
        evaluate("[[1,2],[3]]", ".map(.map(.length()))"),
        Err(" '.length()' can only be applied on 'Array' or 'String', found 'Number' instead."
            .to_string())
    );
    assert_eq!(
        evaluate("[[[1,2]],[[3]]]", ".map(.map(.length()))"),
        Ok(Json::Array(vec![Json::Array(vec![whole(2)]), Json::Array(vec![whole(1)])]))
    );
}

#[test]
fn map_fails_as_a_whole() {
    assert_eq!(
        evaluate(r#"[{"id":1},{"no":2},{"id":3}]"#, ".map(.id)"),
        Err(" key doesn't exist: 'id'".to_string())
    );
    assert_eq!(
        evaluate("{}", ".map(.id)"),
        Err(" '.map()' can only be applied on 'Array', found 'Object' instead.".to_string())
    );
}

#[test]
fn length_of_arrays_and_strings() {
    assert_eq!(evaluate(r#""abcd""#, ".length()"), Ok(whole(4)));
    assert_eq!(evaluate("[1,2,3]", ".length()"), Ok(whole(3)));
    assert_eq!(evaluate(r#""héllo""#, ".length()"), Ok(whole(5)));
    assert_eq!(
        evaluate("3", ".length()"),
        Err(" '.length()' can only be applied on 'Array' or 'String', found 'Number' instead."
            .to_string())
    );
}

#[test]
fn failures_say_what_went_wrong() {
    assert_eq!(evaluate("{}", ".a"), Err(" key doesn't exist: 'a'".to_string()));
    assert_eq!(
        evaluate("[1,2]", "[2]"),
        Err(" Invalid index 2 (for array of len 2)".to_string())
    );
    assert_eq!(
        evaluate("[1,2]", "[-1]"),
        Err(" Invalid index -1 (for array of len 2)".to_string())
    );
    assert_eq!(
        evaluate("null", ".a"),
        Err(" Dot/Bracket properties are only valid on 'Object', found 'Null' instead."
            .to_string())
    );
    assert_eq!(
        evaluate("true", r#"["a"]"#),
        Err(" Dot/Bracket properties are only valid on 'Object', found 'Boolean' instead."
            .to_string())
    );
    assert_eq!(
        evaluate(r#""s""#, "[0]"),
        Err(" Indexing is only valid on 'Array', found 'String' instead.".to_string())
    );
    assert_eq!(
        evaluate("[]", ".keys()"),
        Err(" '.keys()' can only be applied on 'Object', found 'Array' instead.".to_string())
    );
}

#[test]
fn update_replaces_the_value_or_leaves_it() {
    let mut json = parse(r#"{"a":[1,2]}"#);
    assert_eq!(json.update(&Property::Dot("a".into())), Ok(&parse("[1,2]")));
    assert_eq!(json, parse("[1,2]"));
    assert!(json.update(&Property::Keys).is_err());
    assert_eq!(json, parse("[1,2]"));
    assert_eq!(json.update(&Property::Index(1)), Ok(&whole(2)));
}

#[test]
fn apply_leaves_the_document_as_it_is() {
    let json = parse(r#"{"a":[1,2]}"#);
    let copy = json.clone();
    assert!(json.apply(&JsonQuery::new(".a[0]").ok().unwrap()).is_ok());
    assert!(json.apply(&JsonQuery::new(".b").ok().unwrap()).is_err());
    assert_eq!(json, copy);
}

#[test]
fn properties_are_named_as_they_are_written() {
    assert_eq!(Property::Dot("a".into()).name(), ".a");
    assert_eq!(Property::Bracket("a".into()).name(), "[\"a\"]");
    assert_eq!(Property::Index(-3).name(), "[-3]");
    assert_eq!(Property::Keys.name(), ".keys()");
    assert_eq!(Property::Values.name(), ".values()");
    assert_eq!(Property::Length.name(), ".length()");
    assert_eq!(Property::MapEach(JsonQuery(vec![])).name(), ".map()");
}
