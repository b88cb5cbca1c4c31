use small_http::query::{Parameter, Query, QueryParseError};

#[test]
fn query_has_and_values() {
    let query: Query = "key=value&boolean".parse().unwrap();
    assert!(query.has("key"));
    assert!(query.has("boolean"));
    assert!(!query.has("notakey"));
    assert!(query.has_value("key"));
    assert!(!query.has_value("boolean"));
    assert!(query.has_bool("boolean"));
    assert!(!query.has_bool("key"));
    assert_eq!(query.get_first_value("key"), Some("value"));
    assert_eq!(query.get_first_value("boolean"), None);
}

#[test]
fn query_first_value_wins_and_values_decode() {
    let query: Query = "a=1&a=2&b=x+y%21&c=".parse().unwrap();
    assert_eq!(query.get_first_value("a"), Some("1"));
    assert_eq!(query.get_first_value("b"), Some("x y!"));
    assert_eq!(query.get_first_value("c"), Some(""));
    let params = query.into_parameters();
    assert_eq!(params.len(), 4);
    assert_eq!(params[0], Parameter::Value("a".to_string(), "1".to_string()));
}

#[test]
fn query_with_invalid_utf8_fails() {
    let r: Result<Query, QueryParseError> = "a=%ff".parse();
    assert_eq!(r.unwrap_err(), QueryParseError::InvalidUtf8);
}

#[test]
fn url_decode_examples() {
    assert_eq!(Query::url_decode("a+space+two%20ways%21", true), Ok(String::from("a space two ways!")));
    assert_eq!(Query::url_decode("invalid%1Z", true), Ok(String::from("invalid%1Z")));
    assert_eq!(Query::url_decode("a%20plus+sign", false), Ok(String::from("a plus+sign")));
    assert_eq!(Query::url_decode("100%", true), Ok(String::from("100%")));
    assert_eq!(Query::url_decode("%2B", true), Ok(String::from("+")));
    assert_eq!(Query::url_decode("%c3%a9", true), Ok(String::from("é")));
    assert_eq!(Query::url_decode("%ff", true), Err(QueryParseError::InvalidUtf8));
}

#[test]
fn url_encode_examples() {
    assert_eq!(Query::url_encode("encode me spaces!"), String::from("encode%20me%20spaces%21"));
    assert_eq!(Query::url_encode("🥺"), String::from("%f0%9f%a5%ba"));
    assert_eq!(Query::url_encode("one+two"), String::from("one%2btwo"));
    assert_eq!(Query::url_encode("plain-text_~."), String::from("plain-text_~."));
}

#[test]
fn query_error_message() {
    assert_eq!(QueryParseError::InvalidUtf8.message(), "the query did not resolve to valid utf8");
}
