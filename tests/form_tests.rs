use rust_web::{urldecode, ErrorKind, Json, JsonType};

#[test]
fn test_decode() {
    let code = "name=123&aaa=444&www=%E4%B8%AD%E6%96%87test%F0%9F%92%96";

    let result = urldecode(code);
    assert_eq!("name=123&aaa=444&www=中文test💖", result.unwrap());
}

#[test]
fn form_data() {
    let temp = "w=%E4%B8%AD%E6%96%87test%F0%9F%92%96&foo=bar&lalala=123&ids%5B%5D=1&ids%5B%5D=2&ids%5B%5D=3";
    println!("string:\n{}", temp);

    let json = Json::parse_form_data(temp).unwrap();

    assert_eq!("中文test💖", json.get_val("w").unwrap().as_string());
    assert_eq!("bar", json.get_val("foo").unwrap().as_string());
    assert_eq!("123", json.get_val("lalala").unwrap().as_string());

    match json.get_val("ids").unwrap() {
        JsonType::Vec(arr) => {
            assert_eq!("1", arr[0].get().as_string());
            assert_eq!("2", arr[1].get().as_string());
            assert_eq!("3", arr[2].get().as_string());
        }
        _ => {
            assert!(false, "wrong type")
        }
    }

    println!("form_data:\n{}", json.to_string());
}

#[test]
fn percent_multibyte() {
    assert_eq!(urldecode("%E4%B8%AD%E6%96%87").unwrap(), "中文");
}

#[test]
fn percent_plus_and_plain() {
    assert_eq!(urldecode("a+b%20c").unwrap(), "a b c");
    assert_eq!(urldecode("").unwrap(), "");
    assert_eq!(urldecode("%41%62").unwrap(), "Ab");
}

#[test]
fn percent_errors() {
    assert_eq!(urldecode("%4").unwrap_err().kind(), ErrorKind::InvalidPercentEscape);
    assert_eq!(urldecode("%zz").unwrap_err().kind(), ErrorKind::InvalidPercentEscape);
    assert_eq!(urldecode("%E4%B8x").unwrap_err().kind(), ErrorKind::InvalidUtf8);
    assert_eq!(urldecode("%FF").unwrap_err().kind(), ErrorKind::InvalidUtf8);
}

#[test]
fn form_bracket_array() {
    let json = Json::parse_form_data("ids%5B%5D=1&ids%5B%5D=2").unwrap();
    assert_eq!(json.to_string(), "{\"ids\": [\"1\", \"2\"]}");
}

#[test]
fn form_bracket_object() {
    let json = Json::parse_form_data("u%5Bname%5D=bob").unwrap();
    assert_eq!(json.to_string(), "{\"u\": {\"name\": \"bob\"}}");
}

#[test]
fn form_nested_and_merge() {
    let json = Json::parse_form_data("u%5Ba%5D=1&u%5Bb%5D=2&m%5Bx%5D%5B%5D=3&p=%2B+q").unwrap();
    assert_eq!(
        json.to_string(),
        "{\"u\": {\"a\": \"1\", \"b\": \"2\"}, \"m\": {\"x\": [\"3\"]}, \"p\": \"+ q\"}"
    );
    let empty = Json::parse_form_data("").unwrap();
    assert_eq!(empty.to_string(), "{}");
    let plain = Json::parse_form_data("a=1&noeq&a=2").unwrap();
    assert_eq!(plain.to_string(), "{\"a\": \"2\"}");
}

#[test]
fn form_conflicts() {
    let e = Json::parse_form_data("a=1&a%5B%5D=2").unwrap_err();
    assert_eq!(e.kind(), ErrorKind::ExpectedArray);
    let e = Json::parse_form_data("a%5B%5D=1&a%5Bk%5D=2").unwrap_err();
    assert_eq!(e.kind(), ErrorKind::ExpectedObject);
    let e = Json::parse_form_data("a=%ZZ").unwrap_err();
    assert_eq!(e.kind(), ErrorKind::InvalidPercentEscape);
}
