use oob_tui::model::parse_all;

const HTTP: &str = r#"{"protocol":"http","unique-id":"abc","full-id":"abc.oob.example.com","raw-request":"GET /steal?x=1 HTTP/1.1\r\nHost: h\r\n\r\n","raw-response":"HTTP/1.1 200 OK\r\n\r\nhi","remote-address":"1.2.3.4","timestamp":"2026-06-14T20:59:01.662306966Z"}"#;
const DNS: &str = r#"{"protocol":"dns","q-type":"A","unique-id":"xyz","full-id":"xyz.oob.example.com","raw-request":";; QUESTION","raw-response":"","remote-address":"8.8.8.8","timestamp":"2026-06-14T21:00:00Z"}"#;

#[test]
fn parses_and_sorts() {
    let data = format!("{DNS}\n{HTTP}\n\n");
    let v = parse_all(&data);
    assert_eq!(v.len(), 2);
    assert_eq!(v[0].protocol, "http");
    assert_eq!(v[0].summary, "GET /steal?x=1");
    assert_eq!(v[1].protocol, "dns");
    assert_eq!(v[1].summary, "A xyz.oob.example.com");
}

#[test]
fn matching_is_case_insensitive_and_searches_raw() {
    let v = parse_all(HTTP);
    let it = &v[0];
    assert!(it.matches("steal"));
    assert!(it.matches("1.2.3.4"));
    assert!(it.matches("get /steal"));
    assert!(!it.matches("nonexistent"));
    assert!(it.matches(""));
}

#[test]
fn identical_requests_share_a_signature() {
    let a = HTTP;
    let b = HTTP.replace("20:59:01.662306966", "21:05:00.000000000").replace("hi", "HI");
    let v = parse_all(&format!("{a}\n{b}"));
    assert_eq!(v.len(), 2);
    assert_eq!(v[0].group_signature(), v[1].group_signature());
    let c = HTTP.replace("/steal?x=1", "/other");
    let w = parse_all(c.as_str());
    assert_ne!(v[0].group_signature(), w[0].group_signature());
    let d = HTTP.replace("1.2.3.4", "9.9.9.9");
    let x = parse_all(d.as_str());
    assert_ne!(v[0].group_signature(), x[0].group_signature());
}

#[test]
fn bad_lines_are_skipped() {
    let data = format!("not json\n{HTTP}\n{{\"partial\":true}}\n");
    let v = parse_all(&data);
    assert_eq!(v.len(), 1);
}
