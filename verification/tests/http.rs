use localserver::config::ServerConfig;
use localserver::http::{
    body_offset, error_page_path,
    file_response, get_error_response, no_content_response, output_head, parse_request, session_response,
};

#[test]
fn test_status_code_generation() {
    // Verify error response string formatting
    let response_404 = get_error_response(404, "Not Found", None);
    let response_str = String::from_utf8_lossy(response_404.as_bytes());

    assert!(response_str.contains("HTTP/1.1 404 Not Found"));
    assert!(response_str.contains("Content-Length:"));

    let response_500 = get_error_response(500, "Internal Server Error", None);
    let response_500_str = String::from_utf8_lossy(response_500.as_bytes());
    assert!(response_500_str.contains("HTTP/1.1 500 Internal Server Error"));
}

#[test]
fn error_response_exact_text() {
    let body = "<html><body><h1>404 - Not Found</h1></body></html>";
    assert_eq!(
        get_error_response(404, "Not Found", None),
        format!("HTTP/1.1 404 Not Found\r\nContent-Type: text/html\r\nContent-Length: {}\r\n\r\n{}", body.len(), body)
    );
    assert_eq!(
        get_error_response(405, "Method Not Allowed", Some("é!")),
        "HTTP/1.1 405 Method Not Allowed\r\nContent-Type: text/html\r\nContent-Length: 3\r\n\r\né!"
    );
}

#[test]
fn other_responses() {
    assert_eq!(file_response("hi"), "HTTP/1.1 200 OK\r\nContent-Length: 2\r\n\r\nhi");
    assert_eq!(no_content_response(), "HTTP/1.1 204 No Content\r\nContent-Length: 0\r\n\r\n");
    assert_eq!(output_head(12), "HTTP/1.1 200 OK\r\nContent-Length: 12\r\n\r\n");
    assert_eq!(
        session_response("Set-Cookie: a=b", "xyz"),
        "HTTP/1.1 200 OK\r\nContent-Type: text/html\r\nSet-Cookie: a=b\r\nContent-Length: 3\r\n\r\nxyz"
    );
    assert_eq!(
        session_response("", "xyz"),
        "HTTP/1.1 200 OK\r\nContent-Type: text/html\r\nContent-Length: 3\r\n\r\nxyz"
    );
}

#[test]
fn request_line_and_headers_are_read() {
    let text = "GET /index.html HTTP/1.1\r\nHost: localhost\r\n  Content-Type :  text/plain \r\nCookie: a=1\r\n\r\n";
    let req = parse_request(text).unwrap();
    assert_eq!(req.method, "GET");
    assert_eq!(req.path, "/index.html");
    assert_eq!(req.headers.get("host").map(|s| s.as_str()), Some("localhost"));
    assert_eq!(req.headers.get("content-type").map(|s| s.as_str()), Some("text/plain"));
    assert_eq!(req.headers.get("cookie").map(|s| s.as_str()), Some("a=1"));
    assert_eq!(req.headers.len(), 3);
    assert_eq!(req.content_length, 0);
    assert!(!req.chunked);
    assert_eq!(req.body_text, "");
    assert_eq!(req.blank_line_at, Some(text.len() - 4));
}

#[test]
fn body_after_headers_is_kept() {
    let text = "POST /cgi-bin/x.py HTTP/1.1\r\nContent-Length: 9\r\n\r\nparam=1\r\nz";
    let req = parse_request(text).unwrap();
    assert_eq!(req.content_length, 9);
    assert_eq!(req.body_text, "param=1\nz");
}

#[test]
fn last_content_length_counts_and_bad_ones_read_as_zero() {
    let req = parse_request("POST / X\nContent-Length: 5\nContent-Length: 7\n\n").unwrap();
    assert_eq!(req.content_length, 7);
    let req = parse_request("POST / X\nContent-Length: 5\ncontent-length: abc\n\n").unwrap();
    assert_eq!(req.content_length, 0);
    let req = parse_request("POST / X\nContent-Length: +12\n\n").unwrap();
    assert_eq!(req.content_length, 12);
}

#[test]
fn chunked_transfer_encoding_is_detected() {
    let req = parse_request("POST / HTTP/1.1\r\nTransfer-Encoding: gzip, CHUNKED\r\n\r\n5\r\nhello\r\n0\r\n\r\n").unwrap();
    assert!(req.chunked);
    let req = parse_request("POST / HTTP/1.1\r\nTransfer-Encoding: gzip\r\n\r\n").unwrap();
    assert!(!req.chunked);
}

#[test]
fn requests_without_method_and_target_are_refused() {
    assert!(parse_request("").is_none());
    assert!(parse_request("GET\r\n\r\n").is_none());
    assert!(parse_request("\r\nGET / HTTP/1.1").is_none());
    let req = parse_request("  GET\t /x  ").unwrap();
    assert_eq!(req.method, "GET");
    assert_eq!(req.path, "/x");
    assert_eq!(req.blank_line_at, None);
}

#[test]
fn header_lines_without_colon_are_skipped() {
    let req = parse_request("GET / HTTP/1.1\nno colon here\nA: 1\n").unwrap();
    assert_eq!(req.headers.len(), 1);
    assert_eq!(req.headers.get("a").map(|s| s.as_str()), Some("1"));
}

#[test]
fn body_starts_after_the_first_blank_line_in_the_bytes() {
    assert_eq!(body_offset(b"POST / HTTP/1.1\r\nA: b\r\n\r\n5\r\nhello"), Some(25));
    assert_eq!(body_offset(b"\xff\xfe\r\n\r\nx\r\n\r\n"), Some(6));
    assert_eq!(body_offset(b"GET / HTTP/1.1\r\n\r"), None);
    assert_eq!(body_offset(b""), None);
}

#[test]
fn configured_error_pages_are_chosen() {
    let mut error_pages = std::collections::HashMap::new();
    error_pages.insert(404u16, "pages/missing.html".to_string());
    let server = ServerConfig {
        host: "127.0.0.1".to_string(),
        ports: vec![8080],
        client_max_body_size: 1024,
        error_pages,
    };
    assert_eq!(error_page_path(&server, 404), "pages/missing.html");
    assert_eq!(error_page_path(&server, 500), "error_pages/500.html");
}
