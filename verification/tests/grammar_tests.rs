use json_parser::{
    get_field, parse_json, parse_number, parse_value, validate_json, JsonGrammar, JsonObject,
    JsonValue, Pair, ParseError, Rule, SyntaxError,
};

fn syntax_error(input: &str) -> String {
    match parse_json(input) {
        Err(ParseError::Syntax(text)) => text,
        other => panic!("no syntax error: {:?}", other),
    }
}

fn failure(rule: Rule, input: &str) -> SyntaxError {
    JsonGrammar::parse(rule, input).unwrap_err()
}

fn string_of_value(input: &str) -> String {
    match parse_json(input) {
        Ok(JsonValue::String(s)) => s,
        other => panic!("no string: {:?}", other),
    }
}

fn number_of_value(input: &str) -> String {
    match parse_json(input) {
        Ok(JsonValue::Number(n)) => n,
        other => panic!("no number: {:?}", other),
    }
}

#[test]
fn accepts_each_kind_of_value() {
    for input in [
        "null", "true", "false", "0", "-0", "12", "-12.5", "1e5", "1E+5", "2.5e-10", "\"\"",
        "\"a\"", "[]", "{}", "[ ]", "{ }", "[null]", "{\"k\":null}",
    ] {
        assert!(validate_json(input), "{}", input);
        assert!(parse_json(input).is_ok(), "{}", input);
    }
}

#[test]
fn accepts_whitespace_where_tokens_meet() {
    let input = " \t\r\n{ \"a\" \n: [ 1 ,\t2 ] , \"b\" : { } } \r\n";
    assert!(validate_json(input));
    let root = parse_json(input).unwrap();
    match get_field(&root, "a") {
        Some(JsonValue::Array(items)) => assert_eq!(items.len(), 2),
        other => panic!("{:?}", other),
    }
}

#[test]
fn rejects_empty_and_blank_input() {
    assert!(!validate_json(""));
    assert!(!validate_json("   "));
    assert_eq!(failure(Rule::Json, ""), SyntaxError { position: 0, rule: Rule::Value });
    assert_eq!(failure(Rule::Json, "  \n"), SyntaxError { position: 3, rule: Rule::Value });
}

#[test]
fn rejects_whitespace_inside_tokens() {
    assert!(!validate_json("- 1"));
    assert!(!validate_json("1 .5"));
    assert!(!validate_json("tr ue"));
    assert!(!validate_json("1 2"));
}

#[test]
fn rejects_leading_zeros() {
    assert!(!validate_json("01"));
    assert!(!validate_json("-012"));
    assert!(!validate_json("[00]"));
    assert_eq!(failure(Rule::Json, "01"), SyntaxError { position: 1, rule: Rule::Json });
    assert!(validate_json("0.5"));
    assert!(validate_json("10"));
}

#[test]
fn rejects_numbers_cut_short() {
    assert_eq!(failure(Rule::Json, "1."), SyntaxError { position: 2, rule: Rule::Number });
    assert_eq!(failure(Rule::Json, "1.x"), SyntaxError { position: 2, rule: Rule::Number });
    assert_eq!(failure(Rule::Json, "-"), SyntaxError { position: 1, rule: Rule::Number });
    assert_eq!(failure(Rule::Json, "-x"), SyntaxError { position: 1, rule: Rule::Number });
    assert_eq!(failure(Rule::Json, "1e"), SyntaxError { position: 2, rule: Rule::Number });
    assert_eq!(failure(Rule::Json, "1e+"), SyntaxError { position: 3, rule: Rule::Number });
    assert_eq!(failure(Rule::Json, "1E-x"), SyntaxError { position: 3, rule: Rule::Number });
    assert_eq!(failure(Rule::Json, ".5"), SyntaxError { position: 0, rule: Rule::Value });
    assert_eq!(failure(Rule::Json, "+1"), SyntaxError { position: 0, rule: Rule::Value });
}

#[test]
fn keeps_the_text_of_a_number() {
    assert_eq!(number_of_value(" -12.50e+03 "), "-12.50e+03");
    assert_eq!(number_of_value("0"), "0");
    assert_eq!(number_of_value("123456789012345"), "123456789012345");
    assert_eq!(number_of_value("1E5").parse::<f64>().unwrap(), 100000.0);
    assert_eq!(number_of_value("-0.25").parse::<f64>().unwrap(), -0.25);
}

#[test]
fn keeps_the_text_between_the_quotes() {
    assert_eq!(string_of_value("\"\""), "");
    assert_eq!(string_of_value("\"a b\""), "a b");
    assert_eq!(string_of_value("\"abc \\u1234 def\""), "abc \\u1234 def");
    assert_eq!(string_of_value("\"a\\nb\\t\\\"c\\\"\\\\\\/\""), "a\\nb\\t\\\"c\\\"\\\\\\/");
    assert_eq!(string_of_value("\"h\u{e9}llo \u{4e16}\u{754c} \u{1f600}\""), "h\u{e9}llo \u{4e16}\u{754c} \u{1f600}");
    assert_eq!(string_of_value("\"{[,:]}\""), "{[,:]}");
}

#[test]
fn counts_characters_not_bytes() {
    assert_eq!(
        failure(Rule::Json, "[\"\u{e9}\u{e9}\" x]"),
        SyntaxError { position: 6, rule: Rule::Array }
    );
    let pair = JsonGrammar::parse(Rule::String, "\"\u{4e16}\u{754c}\" tail").unwrap();
    assert_eq!((pair.start, pair.end), (0, 4));
}

#[test]
fn rejects_bad_strings() {
    assert_eq!(failure(Rule::Json, "\"abc"), SyntaxError { position: 4, rule: Rule::String });
    assert_eq!(failure(Rule::Json, "\"a\\"), SyntaxError { position: 3, rule: Rule::String });
    assert_eq!(failure(Rule::Json, "\"a\\x\""), SyntaxError { position: 3, rule: Rule::String });
    assert_eq!(failure(Rule::Json, "\"\\u12G4\""), SyntaxError { position: 5, rule: Rule::String });
    assert_eq!(failure(Rule::Json, "\"\\u12"), SyntaxError { position: 5, rule: Rule::String });
    assert_eq!(failure(Rule::Json, "\"\\u\""), SyntaxError { position: 3, rule: Rule::String });
    assert_eq!(failure(Rule::Json, "'a'"), SyntaxError { position: 0, rule: Rule::Value });
    assert!(validate_json("\"\\uabCD\""));
    assert!(validate_json("\"\\u00e9x\""));
}

#[test]
fn rejects_bad_words() {
    assert_eq!(failure(Rule::Json, "tru"), SyntaxError { position: 3, rule: Rule::Boolean });
    assert_eq!(failure(Rule::Json, "trux"), SyntaxError { position: 3, rule: Rule::Boolean });
    assert_eq!(failure(Rule::Json, "fals"), SyntaxError { position: 4, rule: Rule::Boolean });
    assert_eq!(failure(Rule::Json, "nul"), SyntaxError { position: 3, rule: Rule::Null });
    assert_eq!(failure(Rule::Json, "nulL"), SyntaxError { position: 3, rule: Rule::Null });
    assert_eq!(failure(Rule::Json, "truex"), SyntaxError { position: 4, rule: Rule::Json });
    assert_eq!(failure(Rule::Json, "True"), SyntaxError { position: 0, rule: Rule::Value });
    assert_eq!(failure(Rule::Boolean, "x"), SyntaxError { position: 0, rule: Rule::Boolean });
}

#[test]
fn says_where_a_text_departs_from_the_grammar() {
    assert_eq!(failure(Rule::Json, "{\"a\": 1"), SyntaxError { position: 7, rule: Rule::Object });
    assert_eq!(failure(Rule::Json, "{\"a\" 1}"), SyntaxError { position: 5, rule: Rule::KeyValue });
    assert_eq!(failure(Rule::Json, "{\"a\":1,}"), SyntaxError { position: 7, rule: Rule::String });
    assert_eq!(failure(Rule::Json, "[1,2,]"), SyntaxError { position: 5, rule: Rule::Value });
    assert_eq!(
        failure(Rule::Json, "{\"a\":1,,\"b\":2}"),
        SyntaxError { position: 7, rule: Rule::String }
    );
    assert_eq!(failure(Rule::Json, "{a: 1}"), SyntaxError { position: 1, rule: Rule::String });
    assert_eq!(failure(Rule::Json, "{\"a\":1} x"), SyntaxError { position: 8, rule: Rule::Json });
    assert_eq!(
        failure(Rule::Json, "{\"a\":1 \"b\":2}"),
        SyntaxError { position: 7, rule: Rule::Object }
    );
    assert_eq!(failure(Rule::Json, "[1 2]"), SyntaxError { position: 3, rule: Rule::Array });
    assert_eq!(failure(Rule::Json, "[1,"), SyntaxError { position: 3, rule: Rule::Value });
    assert_eq!(failure(Rule::Json, "["), SyntaxError { position: 1, rule: Rule::Value });
    assert_eq!(failure(Rule::Json, "{"), SyntaxError { position: 1, rule: Rule::String });
    assert_eq!(failure(Rule::Json, "{\"a\":"), SyntaxError { position: 5, rule: Rule::Value });
    assert_eq!(failure(Rule::Json, "[}"), SyntaxError { position: 1, rule: Rule::Value });
    assert_eq!(failure(Rule::Json, "]"), SyntaxError { position: 0, rule: Rule::Value });
    assert_eq!(failure(Rule::Json, "{\"a\":[1}"), SyntaxError { position: 7, rule: Rule::Array });
}

#[test]
fn describes_a_syntax_error() {
    assert_eq!(syntax_error("[1,2,]"), "at offset 5: no match for rule value");
    assert_eq!(syntax_error(""), "at offset 0: no match for rule value");
    assert_eq!(syntax_error("{\"a\":1} x"), "at offset 8: no match for rule json");
    assert_eq!(syntax_error("{\"key\" : 1 , b}"), "at offset 13: no match for rule string");
    assert_eq!(syntax_error("{\"a\" 1}"), "at offset 5: no match for rule key_value");
    assert_eq!(syntax_error("[1 2]"), "at offset 3: no match for rule array");
    assert_eq!(syntax_error("{\"a\":1 \"b\":2}"), "at offset 7: no match for rule object");
    assert_eq!(syntax_error("[tru]"), "at offset 4: no match for rule boolean");
    assert_eq!(syntax_error("[nx]"), "at offset 2: no match for rule null");
    assert_eq!(syntax_error("1."), "at offset 2: no match for rule number");
    let long = format!("[{}x]", "1,".repeat(60));
    assert_eq!(syntax_error(&long), "at offset 121: no match for rule value");
    let longer = format!("[{}x]", "1, ".repeat(4000));
    assert_eq!(syntax_error(&longer), "at offset 12001: no match for rule value");
    assert_eq!(
        SyntaxError { position: 1090, rule: Rule::Object }.message(),
        "at offset 1090: no match for rule object"
    );
}

#[test]
fn gives_each_error_its_message() {
    assert_eq!(
        ParseError::Syntax("at offset 0: no match for rule value".to_string()).message(),
        "Syntax error: at offset 0: no match for rule value"
    );
    assert_eq!(ParseError::InvalidNumber("1x".to_string()).message(), "Invalid number: 1x");
    assert_eq!(
        ParseError::UnexpectedRule("json".to_string()).message(),
        "Unexpected rule encountered: json"
    );
    assert_eq!(parse_json("[").unwrap_err().message(), "Syntax error: at offset 1: no match for rule value");
}

#[test]
fn names_the_rules() {
    let names: Vec<&str> = [
        Rule::Json,
        Rule::Value,
        Rule::Object,
        Rule::KeyValue,
        Rule::Array,
        Rule::String,
        Rule::Number,
        Rule::Boolean,
        Rule::Null,
    ]
    .iter()
    .map(|rule| rule.name())
    .collect();
    assert_eq!(
        names,
        ["json", "value", "object", "key_value", "array", "string", "number", "boolean", "null"]
    );
}

#[test]
fn builds_the_match_tree_of_a_document() {
    let input = " {\"a\": [1, true]} ";
    let json = JsonGrammar::parse(Rule::Json, input).unwrap();
    assert_eq!((json.rule, json.start, json.end, json.inner.len()), (Rule::Json, 0, 18, 1));
    let value = &json.inner[0];
    assert_eq!((value.rule, value.start, value.end, value.inner.len()), (Rule::Value, 1, 17, 1));
    let object = &value.inner[0];
    assert_eq!((object.rule, object.start, object.end, object.inner.len()), (Rule::Object, 1, 17, 1));
    let member = &object.inner[0];
    assert_eq!((member.rule, member.start, member.end, member.inner.len()), (Rule::KeyValue, 2, 16, 2));
    let key = &member.inner[0];
    assert_eq!((key.rule, key.start, key.end, key.inner.len()), (Rule::String, 2, 5, 0));
    let array = &member.inner[1].inner[0];
    assert_eq!((array.rule, array.start, array.end, array.inner.len()), (Rule::Array, 7, 16, 2));
    let one = &array.inner[0].inner[0];
    assert_eq!((one.rule, one.start, one.end), (Rule::Number, 8, 9));
    let yes = &array.inner[1].inner[0];
    assert_eq!((yes.rule, yes.start, yes.end), (Rule::Boolean, 11, 15));
}

#[test]
fn matches_a_rule_at_the_start_of_a_text() {
    let number = JsonGrammar::parse(Rule::Number, "12.5e3,").unwrap();
    assert_eq!((number.rule, number.start, number.end), (Rule::Number, 0, 6));
    let zero = JsonGrammar::parse(Rule::Number, "0123").unwrap();
    assert_eq!((zero.start, zero.end), (0, 1));
    let array = JsonGrammar::parse(Rule::Array, "[ ] rest").unwrap();
    assert_eq!((array.rule, array.end, array.inner.len()), (Rule::Array, 3, 0));
    let member = JsonGrammar::parse(Rule::KeyValue, "\"k\" : null,").unwrap();
    assert_eq!((member.rule, member.end, member.inner.len()), (Rule::KeyValue, 10, 2));
    let null = JsonGrammar::parse(Rule::Null, "nullify").unwrap();
    assert_eq!((null.rule, null.end), (Rule::Null, 4));
    assert_eq!(failure(Rule::Value, " 1"), SyntaxError { position: 0, rule: Rule::Value });
    assert_eq!(failure(Rule::Object, "[]"), SyntaxError { position: 0, rule: Rule::Object });
    assert_eq!(failure(Rule::Array, "{}"), SyntaxError { position: 0, rule: Rule::Array });
    assert_eq!(failure(Rule::String, "x"), SyntaxError { position: 0, rule: Rule::String });
    assert_eq!(failure(Rule::KeyValue, "\"k\" 1"), SyntaxError { position: 4, rule: Rule::KeyValue });
}

#[test]
fn builds_values_from_nodes() {
    let input = "{\"a\": [1, true, false, null, \"s\"]}";
    let text: Vec<char> = input.chars().collect();
    let json = JsonGrammar::parse(Rule::Json, input).unwrap();
    let object = &json.inner[0];
    let member = &object.inner[0].inner[0];
    match parse_value(member, &text) {
        Ok(JsonValue::String(key)) => assert_eq!(key, "a"),
        other => panic!("{:?}", other),
    }
    match parse_value(object, &text) {
        Ok(JsonValue::Object(members)) => match members.get("a") {
            Some(JsonValue::Array(items)) => {
                assert_eq!(items.len(), 5);
                assert!(matches!(&items[0], JsonValue::Number(n) if n == "1"));
                assert!(matches!(items[1], JsonValue::Bool(true)));
                assert!(matches!(items[2], JsonValue::Bool(false)));
                assert!(matches!(items[3], JsonValue::Null));
                assert!(matches!(&items[4], JsonValue::String(s) if s == "s"));
            },
            other => panic!("{:?}", other),
        },
        other => panic!("{:?}", other),
    }
}

#[test]
fn a_document_node_stands_for_no_value() {
    let input = "[1]";
    let text: Vec<char> = input.chars().collect();
    let json = JsonGrammar::parse(Rule::Json, input).unwrap();
    match parse_value(&json, &text) {
        Err(ParseError::UnexpectedRule(name)) => assert_eq!(name, "json"),
        other => panic!("{:?}", other),
    }
}

#[test]
fn a_number_node_over_other_text_is_an_invalid_number() {
    let text: Vec<char> = "12x4".chars().collect();
    let whole = Pair { rule: Rule::Number, start: 0, end: 4, inner: Vec::new() };
    match parse_number(&whole, &text) {
        Err(ParseError::InvalidNumber(literal)) => assert_eq!(literal, "12x4"),
        other => panic!("{:?}", other),
    }
    let short = Pair { rule: Rule::Number, start: 0, end: 1, inner: Vec::new() };
    match parse_number(&short, &text) {
        Err(ParseError::InvalidNumber(literal)) => assert_eq!(literal, "1"),
        other => panic!("{:?}", other),
    }
    let letter = Pair { rule: Rule::Number, start: 2, end: 3, inner: Vec::new() };
    match parse_value(&letter, &text) {
        Err(ParseError::InvalidNumber(literal)) => assert_eq!(literal, "x"),
        other => panic!("{:?}", other),
    }
    let exact = Pair { rule: Rule::Number, start: 0, end: 2, inner: Vec::new() };
    match parse_number(&exact, &text) {
        Ok(JsonValue::Number(literal)) => assert_eq!(literal, "12"),
        other => panic!("{:?}", other),
    }
}

#[test]
fn the_first_failing_element_decides() {
    let text: Vec<char> = "[1,x,y]".chars().collect();
    let element = |at: usize| Pair {
        rule: Rule::Value,
        start: at,
        end: at + 1,
        inner: vec![Pair { rule: Rule::Number, start: at, end: at + 1, inner: Vec::new() }],
    };
    let array = Pair {
        rule: Rule::Array,
        start: 0,
        end: 7,
        inner: vec![element(1), element(3), element(5)],
    };
    match parse_value(&array, &text) {
        Err(ParseError::InvalidNumber(literal)) => assert_eq!(literal, "x"),
        other => panic!("{:?}", other),
    }
}

#[test]
fn a_later_member_replaces_an_earlier_one() {
    let root = parse_json("{\"a\":1,\"b\":2,\"a\":3}").unwrap();
    assert!(matches!(get_field(&root, "a"), Some(JsonValue::Number(n)) if n == "3"));
    assert!(matches!(get_field(&root, "b"), Some(JsonValue::Number(n)) if n == "2"));
    assert!(get_field(&root, "c").is_none());
}

#[test]
fn an_object_holds_what_was_put_last() {
    let mut object = JsonObject::new();
    assert!(!object.contains_key("k"));
    assert!(object.get("k").is_none());
    object.insert("k".to_string(), JsonValue::Null);
    object.insert("other".to_string(), JsonValue::Bool(false));
    object.insert("k".to_string(), JsonValue::Bool(true));
    assert!(object.contains_key("k"));
    assert!(object.contains_key("other"));
    assert!(!object.contains_key("K"));
    assert!(matches!(object.get("k"), Some(JsonValue::Bool(true))));
    assert!(matches!(object.get("other"), Some(JsonValue::Bool(false))));
    assert!(matches!(get_field(&JsonValue::Object(object), "k"), Some(JsonValue::Bool(true))));
}

#[test]
fn keys_are_the_text_between_the_quotes() {
    let root = parse_json("{\"\":1,\"a b\":2,\"\\n\":3}").unwrap();
    assert!(matches!(get_field(&root, ""), Some(JsonValue::Number(n)) if n == "1"));
    assert!(matches!(get_field(&root, "a b"), Some(JsonValue::Number(n)) if n == "2"));
    assert!(matches!(get_field(&root, "\\n"), Some(JsonValue::Number(n)) if n == "3"));
    assert!(get_field(&root, "\n").is_none());
}

#[test]
fn only_an_object_has_fields() {
    for input in ["[1,2]", "53", "\"a\"", "true", "null", "[{\"a\":1}]"] {
        let value = parse_json(input).unwrap();
        assert!(get_field(&value, "a").is_none(), "{}", input);
        assert!(get_field(&value, "").is_none(), "{}", input);
        assert!(get_field(&value, "0").is_none(), "{}", input);
    }
}

#[test]
fn a_field_is_looked_up_in_one_object_only() {
    let root = parse_json("{\"a\":{\"b\":1}}").unwrap();
    assert!(get_field(&root, "b").is_none());
    assert!(get_field(&root, "a.b").is_none());
    let inner = get_field(&root, "a").unwrap();
    assert!(matches!(get_field(inner, "b"), Some(JsonValue::Number(n)) if n == "1"));
}

#[test]
fn nested_arrays_keep_their_shape() {
    let value = parse_json("[1, [2, [3]], 4]").unwrap();
    let JsonValue::Array(outer) = value else { panic!("not an array") };
    assert_eq!(outer.len(), 3);
    assert!(matches!(&outer[0], JsonValue::Number(n) if n == "1"));
    assert!(matches!(&outer[2], JsonValue::Number(n) if n == "4"));
    let JsonValue::Array(middle) = &outer[1] else { panic!("not an array") };
    assert_eq!(middle.len(), 2);
    assert!(matches!(&middle[0], JsonValue::Number(n) if n == "2"));
    let JsonValue::Array(inner) = &middle[1] else { panic!("not an array") };
    assert_eq!(inner.len(), 1);
    assert!(matches!(&inner[0], JsonValue::Number(n) if n == "3"));
}

#[test]
fn unclosed_brackets_are_rejected() {
    for input in ["[", "{", "[[1]", "{\"a\":[1,2}", "{\"a\":{\"b\":1}", "[\"]\"", "[1,[2,[3]]", "{\"a\":\"}\""] {
        assert!(!validate_json(input), "{}", input);
        assert!(parse_json(input).is_err(), "{}", input);
    }
    for input in ["[\"[\"]", "{\"{\":\"[\"}", "[\"\\\"[\"]"] {
        assert!(validate_json(input), "{}", input);
    }
}

#[test]
fn validation_and_parsing_agree() {
    for input in [
        "", "1", "[1,2]", "[1,2,]", "{\"a\":1}", "{\"a\":1,}", "{a:1}", "nul", "null", " true ",
        "\"x", "\"x\"", "[[[[]]]]", "[[[[]]]", "-", "-1e-1", "1.5.5", "{\"a\":{\"b\":[]}}",
    ] {
        assert_eq!(validate_json(input), parse_json(input).is_ok(), "{}", input);
    }
}

#[test]
fn deep_nesting_is_followed() {
    let depth = 200;
    let input = format!("{}{}", "[".repeat(depth), "]".repeat(depth));
    assert!(validate_json(&input));
    let mut value = parse_json(&input).unwrap();
    let mut levels = 0;
    while let JsonValue::Array(mut items) = value {
        levels += 1;
        match items.pop() {
            Some(inner) => value = inner,
            None => break,
        }
    }
    assert_eq!(levels, depth);
}

#[test]
fn a_comma_is_followed_by_a_value() {
    for input in ["[1,]", "[1,,2]", "[,1]", "[1, ]", "{\"a\":1,}", "{\"a\":1,,\"b\":2}", "[1,\n]", "[1,:2]"] {
        assert!(!validate_json(input), "{}", input);
    }
    for input in ["[\",]\"]", "[\",\",\",,\"]", "{\",\":\",}\"}"] {
        assert!(validate_json(input), "{}", input);
    }
}

#[test]
fn a_brace_is_followed_by_a_key_or_closed() {
    for input in ["{a: 1}", "{1:2}", "{,}", "{:1}", "{[]}", "{true:1}", "{ x }"] {
        assert!(!validate_json(input), "{}", input);
    }
    for input in ["{}", "{ }", "{\"a\":{}}", "\"{a: 1}\""] {
        assert!(validate_json(input), "{}", input);
    }
}

#[test]
fn a_point_is_followed_by_a_digit() {
    for input in ["1.", "1.e5", "[1.]", "1. 5", "-1.", "0.x", "1..2"] {
        assert!(!validate_json(input), "{}", input);
    }
    for input in ["1.0", "\"1.\"", "[0.5e1]"] {
        assert!(validate_json(input), "{}", input);
    }
}

#[test]
fn a_value_is_followed_by_a_comma_or_a_closing_bracket() {
    for input in [
        "{\"a\":1} x", "[] []", "{}{}", "[1] 2", "[\"a\" \"b\"]", "{\"a\":1 \"b\":2}",
        "{\"a\":\"x\" \"b\":2}", "[1 2]", "[[] []]", "\"a\" \"b\"", "1 1", "[1]]", "{\"a\":[]]",
    ] {
        assert!(!validate_json(input), "{}", input);
    }
    for input in ["[[],[]]", "[{},{}] ", "[\"a\",\"b\"]", "\"] x\""] {
        assert!(validate_json(input), "{}", input);
    }
}

#[test]
fn a_copy_stands_for_the_same_value() {
    let value = parse_json("{\"a\":[1,{\"b\":\"c\"},null,true],\"a\":2,\"d\":{}}").unwrap();
    let copy = value.clone();
    assert_eq!(format!("{:?}", copy), format!("{:?}", value));
    assert!(matches!(get_field(&copy, "a"), Some(JsonValue::Number(n)) if n == "2"));
    assert!(matches!(get_field(&copy, "d"), Some(JsonValue::Object(_))));
    let JsonValue::Object(object) = value else { panic!("not an object") };
    let members = object.clone();
    assert_eq!(members.entries.len(), 3);
    assert!(members.contains_key("d"));
}

#[test]
fn equal_values_stand_for_the_same_thing() {
    let a = parse_json("{\"a\":1,\"b\":[true,null,\"x\"],\"a\":2}").unwrap();
    let b = parse_json(" { \"b\" : [ true , null , \"x\" ] , \"a\" : 2 } ").unwrap();
    assert!(a == b);
    assert!(b == a);
    assert!(a == a.clone());
    for other in [
        "{\"a\":1,\"b\":[true,null,\"x\"]}",
        "{\"a\":2,\"b\":[true,null]}",
        "{\"a\":2,\"b\":[true,null,\"y\"]}",
        "{\"a\":2,\"b\":[null,true,\"x\"]}",
        "{\"a\":2}",
        "{\"a\":2,\"b\":[true,null,\"x\"],\"c\":null}",
        "[true,null,\"x\"]",
        "{}",
        "null",
    ] {
        let c = parse_json(other).unwrap();
        assert!(a != c, "{}", other);
        assert!(c != a, "{}", other);
    }
    assert!(parse_json("[]").unwrap() == parse_json("[ ]").unwrap());
    assert!(parse_json("[]").unwrap() != parse_json("{}").unwrap());
    assert!(parse_json("[[]]").unwrap() != parse_json("[]").unwrap());
    assert!(parse_json("true").unwrap() != parse_json("false").unwrap());
    assert!(parse_json("\"1\"").unwrap() != parse_json("1").unwrap());
    assert!(parse_json("1").unwrap() == parse_json(" 1 ").unwrap());
    assert!(parse_json("1.0").unwrap() != parse_json("1").unwrap());
    assert!(parse_json("\"\\u0041\"").unwrap() != parse_json("\"A\"").unwrap());
}
