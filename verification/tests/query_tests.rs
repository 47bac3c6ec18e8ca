use ruson::json::parser::PropertyParser;
use ruson::json::query::JsonQuery;
use ruson::json::token::Property;

#[test]
fn success_query() {
    let string = r#"[1].array.map(.obj.list.keys())[0].values()["property"].another_property["another_array"][90].length()"#;
    let query1 = JsonQuery(vec![
        Property::Index(1),
        Property::Dot("array".into()),
        Property::MapEach(JsonQuery(vec![
            Property::Dot("obj".into()),
            Property::Dot("list".into()),
            Property::Keys,
        ])),
        Property::Index(0),
        Property::Values,
        Property::Bracket("property".into()),
        Property::Dot("another_property".into()),
        Property::Bracket("another_array".into()),
        Property::Index(90),
        Property::Length,
    ]);

    let query2 = JsonQuery::new(string);
    assert!(query2.is_ok());
    assert_eq!(query2.ok().unwrap(), query1);
}

fn steps(text: &str) -> Vec<Property> {
    JsonQuery::new(text).ok().unwrap().0
}

fn offset(text: &str) -> usize {
    let error = JsonQuery::new(text).err().unwrap();
    assert_eq!(error.line, text);
    error.cursor
}

#[test]
fn reads_each_form_of_step() {
    assert_eq!(steps(""), vec![]);
    assert_eq!(steps(".a"), vec![Property::Dot("a".into())]);
    assert_eq!(steps(".a.b[0]"), vec![
        Property::Dot("a".into()),
        Property::Dot("b".into()),
        Property::Index(0),
    ]);
    assert_eq!(steps(r#"["a b"]"#), vec![Property::Bracket("a b".into())]);
    assert_eq!(steps("[-12]"), vec![Property::Index(-12)]);
    assert_eq!(steps(".keys().values().length()"), vec![
        Property::Keys,
        Property::Values,
        Property::Length,
    ]);
    assert_eq!(steps(".keys"), vec![Property::Dot("keys".into())]);
    assert_eq!(steps(".map()"), vec![Property::MapEach(JsonQuery(vec![]))]);
    assert_eq!(steps(".map(.map(.a)[1]).b"), vec![
        Property::MapEach(JsonQuery(vec![
            Property::MapEach(JsonQuery(vec![Property::Dot("a".into())])),
            Property::Index(1),
        ])),
        Property::Dot("b".into()),
    ]);
}

#[test]
fn reports_where_a_query_fails() {
    assert_eq!(offset("a"), 1);
    assert_eq!(steps(".a]"), vec![Property::Dot("a]".into())]);
    assert_eq!(steps(".a b"), vec![Property::Dot("a b".into())]);
    assert_eq!(offset(".a)"), 3);
    assert_eq!(offset("."), 1);
    assert_eq!(offset(".."), 1);
    assert_eq!(offset("[x]"), 2);
    assert_eq!(offset("["), 2);
    assert_eq!(offset("[12"), 3);
    assert_eq!(offset("[12x"), 3);
    assert_eq!(offset(r#"[""]"#), 2);
    assert_eq!(offset(r#"["a""#), 3);
    assert_eq!(offset(".map(.a)]"), 9);
    assert_eq!(offset(".map(..abc"), 6);
    assert_eq!(offset(".a[3000000000]"), 13);
}

#[test]
fn an_attempt_that_fails_reads_nothing() {
    // no mapping: the name after the dot is read from the dot on
    assert_eq!(steps(".map(.a"), vec![Property::Dot("map(".into()), Property::Dot("a".into())]);
    assert_eq!(steps(".map(x"), vec![Property::Dot("map(x".into())]);
    assert_eq!(steps(".mapper"), vec![Property::Dot("mapper".into())]);
    let mut parser = PropertyParser::new(".a[x");
    assert_eq!(parser.parse_any(), Some(Ok(Property::Dot("a".into()))));
    assert_eq!(parser.parse_any(), Some(Err(4)));
    assert_eq!(parser.0.cursor, 2);
    let mut parser = PropertyParser::new("[12x");
    assert_eq!(parser.parse_any(), Some(Err(3)));
    assert_eq!(parser.0.cursor, 0);
}

#[test]
fn the_steps_can_be_walked() {
    let query = JsonQuery::new(".a[1]").ok().unwrap();
    let walked: Vec<&Property> = query.properties().collect();
    assert_eq!(walked, vec![&Property::Dot("a".into()), &Property::Index(1)]);
    assert_eq!(query.clone(), query);
}

#[test]
fn query_errors_have_a_message() {
    let error = JsonQuery::new(".a)").err().unwrap();
    assert_eq!(error.message(), "3 JsonQuery Syntax Error\nnear: '.a)'\n         ^");
}

#[test]
fn a_production_that_fails_leaves_the_pointer() {
    let read = |text: &str, production: fn(&mut PropertyParser) -> Option<Property>| {
        let mut parser = PropertyParser::new(text);
        let found = production(&mut parser);
        (found, parser.0.cursor)
    };
    assert_eq!(read(".", PropertyParser::parse_dot_prop), (None, 0));
    assert_eq!(read(".a.b", PropertyParser::parse_dot_prop), (Some(Property::Dot("a".into())), 2));
    assert_eq!(read("[\"a\"", PropertyParser::parse_bracket_prop), (None, 0));
    assert_eq!(
        read("[\"a\"]x", PropertyParser::parse_bracket_prop),
        (Some(Property::Bracket("a".into())), 5)
    );
    assert_eq!(read("[12x", PropertyParser::parse_array_index), (None, 0));
    assert_eq!(read("[-12]", PropertyParser::parse_array_index), (Some(Property::Index(-12)), 5));
    assert_eq!(read(".map(.a", PropertyParser::parse_map_func), (None, 0));
    assert_eq!(
        read(".map(.a).b", PropertyParser::parse_map_func),
        (Some(Property::MapEach(JsonQuery(vec![Property::Dot("a".into())]))), 8)
    );
}
