use worker_pool::request::{
    build_response, file_path, format_decimal, is_get_root, select_template, Template,
};

fn request_buffer(line: &[u8]) -> Vec<u8> {
    let mut buffer = vec![0u8; 1024];
    buffer[..line.len()].copy_from_slice(line);
    buffer
}

#[test]
fn root_request_selects_index() {
    let buffer = request_buffer(b"GET / HTTP/1.1\r\nHost: localhost\r\n\r\n");
    assert!(is_get_root(&buffer));
    assert_eq!(select_template(&buffer), Template::Found);
    assert_eq!(file_path(Template::Found), "views/index.html");
}

#[test]
fn other_request_selects_not_found() {
    let buffer = request_buffer(b"GET /missing HTTP/1.1\r\n\r\n");
    assert!(!is_get_root(&buffer));
    assert_eq!(select_template(&buffer), Template::NotFound);
    assert_eq!(file_path(Template::NotFound), "views/404.html");
}

#[test]
fn short_buffer_is_not_a_root_request() {
    assert!(!is_get_root(b"GET /"));
    assert!(!is_get_root(b""));
}

#[test]
fn prefix_must_match_exactly() {
    assert!(is_get_root(b"GET / HTTP/1.1\r\n"));
    assert!(!is_get_root(b"GET / HTTP/1.0\r\n"));
    assert!(!is_get_root(b"POST / HTTP/1.1\r\n"));
}

#[test]
fn response_has_exact_status_length_and_body() {
    let response = build_response(Template::Found, b"hello");
    assert_eq!(
        response,
        b"HTTP/1.1 200 OK\r\nContent-Length: 5\r\n\r\nhello".to_vec()
    );
}

#[test]
fn not_found_response_with_empty_body() {
    let response = build_response(Template::NotFound, b"");
    assert_eq!(
        response,
        b"HTTP/1.1 404 NOT FOUND\r\nContent-Length: 0\r\n\r\n".to_vec()
    );
}

#[test]
fn content_length_counts_bytes_in_decimal() {
    let body = vec![120u8; 1024];
    let response = build_response(Template::Found, &body);
    let expected_head = b"HTTP/1.1 200 OK\r\nContent-Length: 1024\r\n\r\n";
    assert_eq!(&response[..expected_head.len()], &expected_head[..]);
    assert_eq!(response.len(), expected_head.len() + 1024);
}

#[test]
fn decimal_formatting() {
    assert_eq!(format_decimal(0), b"0".to_vec());
    assert_eq!(format_decimal(7), b"7".to_vec());
    assert_eq!(format_decimal(10), b"10".to_vec());
    assert_eq!(format_decimal(987654321), b"987654321".to_vec());
}
