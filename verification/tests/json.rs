use cache_core::json::{count_json, json_of, parse_json, print_json, sort_keys, value_from, Json};
use serde_json::Value;

#[test]
fn parse_and_print_give_compact_sorted_text() {
    let text = r#" { "b" : [1, -2, 3.5, 18446744073709551615, true, null], "a" : {"z":"\n", "y":{}} } "#;
    let json = parse_json(text).unwrap();
    assert_eq!(
        print_json(&json),
        r#"{"a":{"y":{},"z":"\n"},"b":[1,-2,3.5,18446744073709551615,true,null]}"#
    );
    assert_eq!(
        parse_json(r#"{"b":1,"a":2}"#),
        Some(Json::Object(vec![
            ("a".to_string(), Json::Int(2)),
            ("b".to_string(), Json::Int(1)),
        ]))
    );
    assert!(parse_json("{").is_none());
    assert!(parse_json("").is_none());
}

#[test]
fn numbers_are_told_apart() {
    assert_eq!(parse_json("7"), Some(Json::Int(7)));
    assert_eq!(parse_json("-7").unwrap().as_i64(), Some(-7));
    assert_eq!(parse_json("9223372036854775808"), Some(Json::Big(9_223_372_036_854_775_808)));
    assert_eq!(parse_json("9223372036854775808").unwrap().as_i64(), None);
    assert_eq!(Json::Big(7).as_i64(), Some(7));
    assert!(matches!(parse_json("7.0"), Some(Json::Other(_))));
    assert_eq!(parse_json("7.0").unwrap().as_i64(), None);
    assert_eq!(count_json(u64::MAX), Json::Big(u64::MAX));
    assert_eq!(count_json(3), Json::Int(3));
}

#[test]
fn members_are_found_by_name() {
    let json = parse_json(r#"{"a":{"b":["x"]},"c":"t"}"#).unwrap();
    assert_eq!(json.get("c").and_then(|c| c.as_str()), Some("t"));
    assert!(json.get("d").is_none());
    assert_eq!(json.get("a").unwrap().get("b").unwrap().as_array().unwrap().len(), 1);
    assert!(json.as_array().is_none());
    assert!(json.as_str().is_none());
    assert!(Json::Null.get("a").is_none());
}

#[test]
fn of_two_members_with_one_name_the_last_counts() {
    let json = Json::Object(vec![
        ("b".to_string(), Json::Int(1)),
        ("a".to_string(), Json::Int(2)),
        ("b".to_string(), Json::Int(3)),
    ]);
    assert_eq!(json.get("b"), Some(&Json::Int(3)));
    assert_eq!(
        sort_keys(&json),
        Json::Object(vec![("a".to_string(), Json::Int(2)), ("b".to_string(), Json::Int(3))])
    );
    assert_eq!(print_json(&json), r#"{"a":2,"b":3}"#);
}

#[test]
fn sorting_twice_is_sorting_once() {
    let json = Json::Array(vec![Json::Object(vec![
        ("яб".to_string(), Json::Null),
        ("я".to_string(), Json::Null),
        ("Z".to_string(), Json::Bool(false)),
        ("".to_string(), Json::Null),
    ])]);
    let once = sort_keys(&json);
    assert_eq!(sort_keys(&once), once);
    assert_eq!(print_json(&json), r#"[{"":null,"Z":false,"я":null,"яб":null}]"#);
    assert_eq!(print_json(&json.clone()), print_json(&json));
}

#[test]
fn values_are_converted_both_ways() {
    let value: Value = serde_json::from_str(r#"{"a":[1,2.5,"x",null,true],"b":{"c":-1}}"#).unwrap();
    let json = json_of(value.clone());
    assert_eq!(value_from(&json), value);
}

#[test]
fn printed_text_reads_back() {
    let json = parse_json(r#"{"a":["\u0000\"\\", -9223372036854775808, {}], "б":{"c":[[]]}}"#).unwrap();
    assert_eq!(parse_json(&print_json(&json)), Some(json));
    // Nested too deep for the parser.
    let mut deep = Json::Null;
    for _ in 0..127 {
        deep = Json::Array(vec![deep]);
    }
    assert_eq!(parse_json(&print_json(&deep)), Some(deep.clone()));
    assert_eq!(parse_json(&print_json(&Json::Array(vec![deep]))), None);
}

#[test]
fn member_with_the_raw_name_does_not_read_back() {
    let name = "$serde_json::private::RawValue".to_string();
    let json = Json::Object(vec![(name.clone(), Json::Text("[1]".to_string()))]);
    let text = print_json(&json);
    assert_eq!(text, r#"{"$serde_json::private::RawValue":"[1]"}"#);
    // The parser takes the text of the member in the place of the object.
    assert_eq!(parse_json(&text), parse_json("[1]"));
    let more = Json::Object(vec![(name, Json::Text("1".to_string())), ("a".to_string(), Json::Null)]);
    assert_eq!(parse_json(&print_json(&more)), None);
}

#[test]
fn fractions_come_back_as_fractions() {
    for text in ["0.1", "-0.0", "100.0", "1e300", "5e-324", "18446744073709551616", "2.5e-7"] {
        let json = parse_json(text).unwrap();
        assert!(matches!(json, Json::Other(_)), "{text} is a fraction to the parser");
        match parse_json(&print_json(&json)) {
            Some(again) => assert!(matches!(again, Json::Other(_)), "{text} printed and parsed"),
            None => panic!("{text} does not read back"),
        }
    }
    // A member with the raw name that does not come first is an ordinary one.
    let later = Json::Object(vec![
        ("!".to_string(), Json::Null),
        ("$serde_json::private::RawValue".to_string(), Json::Text("[1]".to_string())),
    ]);
    assert_eq!(parse_json(&print_json(&later)), Some(later));
}
