use bempline::{Document, Options};
use small_http::template::Template;

#[test]
fn template_renders_with_variables() {
    let doc = Document::from_str("Hello {name}!", Options::default()).unwrap();
    let mut page = Template::from_document(doc, "page.html");
    page.set("name", "World");
    let resp = page.as_response();
    assert_eq!(resp.status, 200);
    assert_eq!(
        resp.headers,
        vec![("content-type".to_string(), "text/html; charset=utf-8".to_string())]
    );
    assert_eq!(resp.body, b"Hello World!".to_vec());
}

#[test]
fn template_without_known_type_has_no_header() {
    let doc = Document::from_str("{missing}", Options::default()).unwrap();
    let page = Template::from_document(doc, "page.unknownext");
    let resp = page.as_response();
    assert!(resp.headers.is_empty());
    assert_eq!(resp.body, b"{missing}".to_vec());
}

#[test]
fn page_response_from_text() {
    let r = small_http::template::page_response(Some("text/css".to_string()), "a{}".to_string());
    assert_eq!(r.headers, vec![("content-type".to_string(), "text/css; charset=utf-8".to_string())]);
    assert_eq!(r.body, b"a{}".to_vec());
    let r = small_http::template::page_response(None, "é".to_string());
    assert!(r.headers.is_empty());
    assert_eq!(r.body, vec![0xc3, 0xa9]);
}
