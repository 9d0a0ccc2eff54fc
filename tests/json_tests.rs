use rust_web::{ErrorKind, Json, JsonType};

fn decimal_of(t: &JsonType) -> f64 {
    t.as_decimal().unwrap().parse::<f64>().unwrap()
}

#[test]
fn set_and_get_val() {
    let mut json = Json::new(JsonType::Object(Default::default()));

    json.set_val("asd", Json::new(JsonType::i64(123))).unwrap();

    assert_eq!(json.get_val("asd").unwrap().as_i64().unwrap(), 123);
}

#[test]
fn get_null_val() {
    let json = Json::new(JsonType::Null);

    assert!(json.get_val("asd").is_none());
}

#[test]
fn parse_json() {
    let json_str = " { \"a\": 123, \"fgfgfg\": 444.2, \"complex\": { \"son\": 123}, \"c\": \"aaad\" } ";
    let json = Json::parse(json_str).unwrap();

    println!("test_display:\n{}", json.to_string());

    assert_eq!(json.get_val("a").unwrap().as_i64().unwrap(), 123);
}

#[test]
fn null_json() {
    let json_str = "null";

    let json = Json::parse(json_str).unwrap();

    println!("test_display:\n{}", json.to_string());
    assert_eq!("null", json.get().as_string());
}

#[test]
fn array_json_number() {
    let json_str = "[  703,26,322]";

    let json = Json::parse(json_str).unwrap();

    assert_eq!(JsonType::i64(703), *json.index(0).unwrap().get());
    assert_eq!(JsonType::i64(26), *json.index(1).unwrap().get());
    assert_eq!(JsonType::i64(322), *json.index(2).unwrap().get());
}

#[test]
fn array_json_decimal() {
    let json_str = "[7.4,20.3,3.6]";

    let json = Json::parse(json_str).unwrap();

    assert_eq!(7.4, decimal_of(json.index(0).unwrap().get()));
    assert_eq!(20.3, decimal_of(json.index(1).unwrap().get()));
    assert_eq!(3.6, decimal_of(json.index(2).unwrap().get()));
}

#[test]
fn array_json_string() {
    let json_str = "[\"first\", \"second\", \"第三个\"]";

    let json = Json::parse(json_str).unwrap();

    println!("{}", json.to_string());
    assert_eq!(JsonType::String("first".into()), *json.index(0).unwrap().get());
    assert_eq!(JsonType::String("second".into()), *json.index(1).unwrap().get());
    assert_eq!(JsonType::String("第三个".into()), *json.index(2).unwrap().get());
}

#[test]
fn parse_complex_json_1() {
    let json_str = " { \"a\": 123, \"c\": \"a\\\"ha\\\"aad\", \"fgfgfg\": 444.2, \"complex\": { \"son\": 123}, \"zzz\": null} ";
    let json = Json::parse(json_str).unwrap();

    println!("test_display:\n{}", json.to_string());

    assert_eq!(json.get_val("c").unwrap().as_string(), "a\"ha\"aad");
}

#[test]
fn parse_complex_json_2() {
    let json_str = "[{\"a\": 123, \"bb\": \"abc\"}, {\"a\": 456}, {\"a\": 789}]";

    let json = Json::parse(json_str).unwrap();

    assert_eq!(JsonType::i64(123), *json.index(0).unwrap().get_val("a").unwrap());
    assert_eq!(JsonType::String("abc".into()), *json.index(0).unwrap().get_val("bb").unwrap());

    assert_eq!(JsonType::i64(456), *json.index(1).unwrap().get_val("a").unwrap());

    assert_eq!(JsonType::i64(789), *json.index(2).unwrap().get_val("a").unwrap());
}

#[test]
fn parse_complex_json_3() {
    let json_str = "{\"www\": \"中文♥\", \"lalala\": [1, 2, 3]}";

    let json = Json::parse(json_str).unwrap();

    assert_eq!(JsonType::String("中文♥".into()), *json.get_val("www").unwrap());
}

fn kind_of(text: &str) -> ErrorKind {
    Json::parse(text).unwrap_err().kind()
}

#[test]
fn escape_in_string() {
    let json = Json::parse("\"a\\\"b\"").unwrap();
    assert_eq!(JsonType::String("a\"b".into()), *json.get());
}

#[test]
fn escape_table() {
    let json = Json::parse("\"\\a\\b\\f\\n\\r\\t\\v\\\\\\'\\\"\\?\\0\"").unwrap();
    assert_eq!(
        JsonType::String("\u{7}\u{8}\u{c}\n\r\t\u{b}\\'\"?\0".into()),
        *json.get()
    );
}

#[test]
fn double_decimal_point() {
    assert_eq!(kind_of("1.2.3"), ErrorKind::DoubleDecimalPoint);
}

#[test]
fn integer_array() {
    let json = Json::parse("[1,2,3]").unwrap();
    let items: Vec<JsonType> = vec![JsonType::i64(1), JsonType::i64(2), JsonType::i64(3)];
    match json.get() {
        JsonType::Vec(v) => {
            assert_eq!(v.len(), 3);
            for (j, t) in v.iter().zip(items.iter()) {
                assert_eq!(j.get(), t);
            }
        }
        _ => panic!("not an array"),
    }
}

#[test]
fn parse_errors() {
    assert_eq!(kind_of("\"abc"), ErrorKind::UnterminatedString);
    assert_eq!(kind_of("{\"a\": 1"), ErrorKind::UnterminatedObject);
    assert_eq!(kind_of("[1, 2"), ErrorKind::UnterminatedArray);
    assert_eq!(kind_of("{a: 1}"), ErrorKind::InvalidKeyStart);
    assert_eq!(kind_of("{}"), ErrorKind::InvalidKeyStart);
    assert_eq!(kind_of("{\"a\" 1}"), ErrorKind::ExpectedColon);
    assert_eq!(kind_of("{\"a\": 1 \"b\": 2}"), ErrorKind::InvalidObjectEnd);
    assert_eq!(kind_of("\"\\x\""), ErrorKind::UnknownEscape);
    assert_eq!(kind_of("true"), ErrorKind::InvalidValue);
    assert_eq!(kind_of("-1"), ErrorKind::InvalidValue);
    assert_eq!(kind_of("nul"), ErrorKind::InvalidNull);
    assert_eq!(kind_of("nope"), ErrorKind::InvalidNull);
    assert_eq!(kind_of("1 2"), ErrorKind::TrailingCharacters);
    assert_eq!(kind_of("1\r"), ErrorKind::TrailingCharacters);
    assert_eq!(kind_of("9223372036854775808"), ErrorKind::IntegerOverflow);
}

#[test]
fn parse_edges() {
    assert_eq!(JsonType::Null, *Json::parse("").unwrap().get());
    assert_eq!(JsonType::Null, *Json::parse(" \n\t").unwrap().get());
    assert_eq!(
        JsonType::i64(9223372036854775807),
        *Json::parse("9223372036854775807").unwrap().get()
    );
    let empty = Json::parse("[ ]").unwrap();
    assert_eq!(JsonType::Vec(vec![]), *empty.get());
    let sparse = Json::parse("[1 2,,3 ]").unwrap();
    assert_eq!(JsonType::i64(3), *sparse.index(2).unwrap().get());
    assert!(sparse.index(3).is_none());
    let dup = Json::parse("{\"a\": 1, \"b\": 2, \"a\": 3}").unwrap();
    assert_eq!(JsonType::i64(3), *dup.get_val("a").unwrap());
    assert_eq!(dup.to_string(), "{\"a\": 3, \"b\": 2}");
}

#[test]
fn serialize_compact() {
    let json = Json::parse("{\"a\": [1, 2.50, \"x\\ny\"], \"b\": null, \"c\": {\"d\": 0}}").unwrap();
    assert_eq!(
        json.to_string(),
        "{\"a\": [1, 2.50, \"x\\ny\"], \"b\": null, \"c\": {\"d\": 0}}"
    );
    assert_eq!(Json::new(JsonType::i64(-42)).to_string(), "-42");
    assert_eq!(Json::new(JsonType::String("q\"\\\t".into())).to_string(), "\"q\\\"\\\\\\t\"");
}

#[test]
fn round_trip_sample() {
    let mut inner = Json::new(JsonType::Object(Default::default()));
    inner.set_val("k", Json::new(JsonType::String("line\nbreak \"q\" \u{7}".into()))).unwrap();
    let mut arr = Json::new(JsonType::Vec(vec![]));
    arr.push(Json::new(JsonType::i64(0))).unwrap();
    arr.push(Json::new(JsonType::Float("12.5".into()))).unwrap();
    arr.push(Json::new(JsonType::Null)).unwrap();
    arr.push(inner).unwrap();
    let mut root = Json::new(JsonType::Object(Default::default()));
    root.set_val("list", arr).unwrap();
    root.set_val("n", Json::new(JsonType::i64(9007199254740993))).unwrap();
    let text = root.to_string();
    let back = Json::parse(&text).unwrap();
    assert_eq!(back, root);
}

#[test]
fn key_operations_on_wrong_kinds() {
    let mut n = Json::new(JsonType::i64(1));
    assert_eq!(n.set_val("a", Json::new(JsonType::Null)).unwrap_err().kind(), ErrorKind::NotObject);
    assert_eq!(n.push(Json::new(JsonType::Null)).unwrap_err().kind(), ErrorKind::NotArray);
    assert!(n.index(0).is_none());
    assert_eq!(*n.get(), JsonType::i64(1));
    let mut obj = Json::new(JsonType::Object(Default::default()));
    obj.set_val("a", Json::new(JsonType::i64(1))).unwrap();
    obj.set_val("b", Json::new(JsonType::i64(2))).unwrap();
    obj.set_val("a", Json::new(JsonType::i64(3))).unwrap();
    assert_eq!(obj.to_string(), "{\"a\": 3, \"b\": 2}");
    *obj.get_mut() = JsonType::Null;
    assert_eq!(obj.to_string(), "null");
}

#[test]
fn typed_extraction() {
    assert_eq!(JsonType::i64(5).as_i64(), Some(5));
    assert_eq!(JsonType::Null.as_i64(), None);
    assert_eq!(JsonType::Null.as_string(), "null");
    assert_eq!(JsonType::i64(5).as_string(), "");
    assert_eq!(JsonType::Float("1.5".into()).as_decimal().unwrap(), "1.5");
}

#[test]
fn change_member_in_place() {
    let mut json = Json::parse("{\"a\": [1], \"b\": 2}").unwrap();
    match json.get_val_mut("a").unwrap() {
        JsonType::Vec(items) => items.push(Json::new(JsonType::i64(5))),
        _ => panic!("not an array"),
    }
    *json.get_val_mut("b").unwrap() = JsonType::String("x".into());
    assert!(json.get_val_mut("c").is_none());
    assert!(Json::new(JsonType::Null).get_val_mut("a").is_none());
    assert_eq!(json.to_string(), "{\"a\": [1, 5], \"b\": \"x\"}");
}
