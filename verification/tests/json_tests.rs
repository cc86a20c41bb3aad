use dynamic_json::JsonObject;
use dynamic_json::JsonType;
use dynamic_json::parse;

#[test]
fn parse_json() {
    let s = r#"{ "a" : 123, "b": false }"#;
    let json = parse(&s).unwrap();

    let mut obj = JsonObject::new();
    obj.insert("a", JsonType::Number("123".to_string()));
    obj.insert("b", JsonType::Bool(false));
    let espect = JsonType::Object(obj);
    assert_eq!(json, espect);
}

#[test]
fn get_path() {
    let s = r#"{ "a": { "b": 123, "c": [1, 2, 3] } }"#;
    let json = parse(&s).unwrap();
    let b = json.get("a.b").unwrap();
    if let JsonType::Number(num) = b {
        assert_eq!(num.as_str(), "123");
    } else {
        panic!("get path error");
    }

    let value = json.get("a.c.1").unwrap();
    if let JsonType::Number(num) = value {
        assert_eq!(num.as_str(), "2");
    } else {
        panic!("get path error");
    }
}

#[test]
fn serialize_json() {
    let s = r#"{ "a": { "c": [1, 2, "3"] } }"#;
    let json = parse(&s).unwrap();
    let serialized = json.serialize();
    let espect = r#"{"a":{"c":[1,2,"3"]}}"#;
    assert_eq!(serialized, espect);
}

#[test]
fn pertty_serialize_json() {
    let s = r#"{ "a": { "c": [1, 2, "3"] } }"#;
    let json = parse(&s).unwrap();
    let serialized = json.pretty_serialize(4);
    let espect = r#"{
    "a": {
        "c": [
            1,
            2,
            "3"
        ]
    }
}"#;
    assert_eq!(serialized, espect);
}

#[test]
fn equalize() {
    let json1 = parse(r#"{"a": {"b": 1, "c": 2}}"#).unwrap();
    let json2 = parse(r#"{"a": {"c": 2, "b": 1}}"#).unwrap();
    assert_eq!(json1, json2);
    assert!(json1 == json2);
}

#[test]
fn round_trip_compact() {
    let s = r#"{ "a": [1, 2.5, null, true, false, "x", { "b": [] }, {} ] }"#;
    let json = parse(&s).unwrap();
    let text = json.serialize();
    let again = parse(&text).unwrap();
    assert_eq!(json, again);
    assert_eq!(text, again.serialize());
}

#[test]
fn round_trip_pretty() {
    let s = r#"{ "a": { "b": [1, 2, 3], "c": "x" }, "d": null }"#;
    let json = parse(&s).unwrap();
    for indent in [0u32, 1, 2, 4, 8] {
        let text = json.pretty_serialize(indent);
        let again = parse(&text).unwrap();
        assert_eq!(json, again);
    }
}

#[test]
fn get_path_miss_reports_prefix() {
    let s = r#"{"a":{"b":123,"c":[1,2,3]}}"#;
    let json = parse(&s).unwrap();
    let err = json.get("a.x").unwrap_err();
    assert_eq!(err, "can not found item a.x");
    let err = json.get("a.x.y").unwrap_err();
    assert_eq!(err, "can not found item a.x");
    let err = json.get("a.b.z").unwrap_err();
    assert_eq!(err, "can not found item a.b.z");
}

// An out-of-range array index was a fatal, aborting condition in this
// design; here that hard failure boundary surfaces as its own error kind
// rather than a lookup miss.
#[test]
fn get_path_index_out_of_range() {
    let s = r#"{"a":{"b":123,"c":[1,2,3]}}"#;
    let json = parse(&s).unwrap();
    let err = json.get("a.c.9").unwrap_err();
    assert_eq!(err, "index out of range a.c.9");
    let err = json.get("a.c.notanumber").unwrap_err();
    assert_eq!(err, "can not found item a.c.notanumber");
}

#[test]
fn number_canonical_form() {
    assert_eq!(parse("1").unwrap(), parse("1.0").unwrap());
    assert_eq!(parse("1.0").unwrap().serialize(), "1");
    assert_eq!(parse("007").unwrap().serialize(), "7");
    assert_eq!(parse("0.50").unwrap().serialize(), "0.5");
    assert_eq!(parse("0.0").unwrap().serialize(), "0");
    assert_eq!(parse("12.25").unwrap().serialize(), "12.25");
    assert!(parse("1").unwrap() != parse("2").unwrap());
}

#[test]
fn parse_rejects_malformed() {
    assert!(parse("xyz").is_err());
    assert!(parse("").is_err());
    assert!(parse("[1, 2").is_err());
    assert!(parse(r#"{"a": 1"#).is_err());
    assert!(parse(r#""never ending"#).is_err());
    assert!(parse("[1.2.3]").is_err());
    assert!(parse("nope").is_err());
    assert!(parse("tru").is_err());
    assert!(parse("fals").is_err());
}

#[test]
fn parse_error_context() {
    // The diagnostic holds up to 50 characters before the failure plus the
    // failing character itself.
    let err = parse("[1, x]").unwrap_err();
    assert_eq!(err, "[1, x");
    let long = format!("[{}x", "1, ".repeat(40));
    let err = parse(&long).unwrap_err();
    assert_eq!(err.len(), 51);
    assert!(err.ends_with("x"));
}

#[test]
fn duplicate_key_overwrite() {
    let mut obj = JsonObject::new();
    let first = obj.insert("k", JsonType::Number("1".to_string()));
    assert!(first.is_none());
    let prev = obj.insert("k", JsonType::Number("2".to_string()));
    assert_eq!(prev, Some(JsonType::Number("1".to_string())));
    let json = JsonType::Object(obj);
    assert_eq!(json.serialize(), r#"{"k":2}"#);

    let parsed = parse(r#"{"k": 1, "k": 2}"#).unwrap();
    assert_eq!(parsed, json);
}

#[test]
fn object_operations() {
    let mut obj = JsonObject::new();
    obj.insert("a", JsonType::Null);
    obj.insert("b", JsonType::Bool(true));
    assert!(obj.contains("a"));
    assert!(!obj.contains("c"));
    assert_eq!(obj.get("b"), Some(&JsonType::Bool(true)));
    assert_eq!(obj.get("c"), None);
    assert_eq!(obj.remove("a"), Some(JsonType::Null));
    assert_eq!(obj.remove("a"), None);
    assert!(!obj.contains("a"));
    assert_eq!(obj.len(), 1);
}

#[test]
fn serialize_empty_containers() {
    assert_eq!(parse("[]").unwrap().serialize(), "[]");
    assert_eq!(parse("{}").unwrap().serialize(), "{}");
    assert_eq!(parse("[ ]").unwrap().serialize(), "[]");
    assert_eq!(parse("{ }").unwrap().serialize(), "{}");
    assert_eq!(parse("[]").unwrap().pretty_serialize(4), "[\n\n]");
}

#[test]
fn scalars_parse_and_serialize() {
    assert_eq!(parse("null").unwrap(), JsonType::Null);
    assert_eq!(parse(" true ").unwrap(), JsonType::Bool(true));
    assert_eq!(parse("false").unwrap(), JsonType::Bool(false));
    assert_eq!(parse("null").unwrap().serialize(), "null");
    assert_eq!(parse("true").unwrap().serialize(), "true");
    assert_eq!(parse("false").unwrap().serialize(), "false");
    assert_eq!(
        parse(r#""hello""#).unwrap(),
        JsonType::String("hello".to_string())
    );
    assert_eq!(parse(r#""hello""#).unwrap().serialize(), r#""hello""#);
}

// Escaped quotes end up verbatim in the stored string: no unescaping
// happens while parsing.
#[test]
fn escaped_quote_kept_verbatim() {
    let json = parse(r#""a\"b""#).unwrap();
    assert_eq!(json, JsonType::String("a\\\"b".to_string()));
    let json = parse(r#""a\\""#).unwrap();
    assert_eq!(json, JsonType::String("a\\\\".to_string()));
}

#[test]
fn whole_array_get() {
    let json = parse(r#"[10, [20, 30]]"#).unwrap();
    let inner = json.get("1.0").unwrap();
    assert_eq!(inner, &JsonType::Number("20".to_string()));
    let root = json.get("0").unwrap();
    assert_eq!(root, &JsonType::Number("10".to_string()));
    // A leading plus sign is tolerated on an index segment.
    assert_eq!(json.get("+1.1").unwrap(), &JsonType::Number("30".to_string()));
}
