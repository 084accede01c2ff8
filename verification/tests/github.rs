use fairlead::replay::github::{header, location, split_response, status_of, Reply};

fn parts(text: &str) -> (u16, String, String) {
    split_response(text)
}

#[test]
fn a_proxy_connect_reply_is_skipped_before_the_response() {
    let text =
        "HTTP/1.1 200 Connection Established\r\n\r\nHTTP/1.1 404 Not Found\r\nx: y\r\n\r\n{}";
    assert_eq!(
        parts(text),
        (404, "HTTP/1.1 404 Not Found\r\nx: y".to_string(), "{}".to_string())
    );
    let plain = "HTTP/2 200\r\nx: y\r\n\r\nHTTP/1.1 is in the body";
    assert_eq!(parts(plain).0, 200);
    assert_eq!(parts(plain).2, "HTTP/1.1 is in the body");
}

#[test]
fn the_location_header_is_found_whatever_its_case() {
    let head = "HTTP/2 302\r\nlocation: https://storage.example/log?sig=x\r\nx: y";
    assert_eq!(
        location(head).as_deref(),
        Some("https://storage.example/log?sig=x")
    );
}

#[test]
fn a_status_is_the_second_word_of_the_first_line() {
    assert_eq!(status_of("HTTP/2 403\r\nRetry-After: 42"), 403);
    assert_eq!(status_of("garbage"), 0);
    assert_eq!(status_of(""), 0);
    assert_eq!(header("HTTP/2 403\r\nRetry-After: 42", "retry-after").as_deref(), Some("42"));
    assert_eq!(header("HTTP/2 403", "retry-after"), None);
    let r: Reply<()> = Reply::new(410, ());
    assert_eq!((r.status, r.retry_after, r.remaining), (410, None, None));
}
