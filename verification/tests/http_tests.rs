use simple_web_app::http::{ok_response, route_request, RequestRoute};

fn request_buffer(line: &[u8]) -> [u8; 1024] {
    let mut buffer = [0u8; 1024];
    buffer[..line.len()].copy_from_slice(line);
    buffer
}

#[test]
fn get_request_line_routes_to_get() {
    let buffer = request_buffer(b"GET / HTTP/1.1\r\nHost: localhost\r\n\r\n");
    assert_eq!(route_request(&buffer), RequestRoute::Get);
}

#[test]
fn post_request_line_routes_to_post() {
    let buffer = request_buffer(b"POST / HTTP/1.1\r\nHost: localhost\r\n\r\n");
    assert_eq!(route_request(&buffer), RequestRoute::Post);
}

#[test]
fn other_request_lines_are_not_found() {
    let buffer = request_buffer(b"DELETE / HTTP/1.1\r\n");
    assert_eq!(route_request(&buffer), RequestRoute::NotFound);
    let buffer = request_buffer(b"GET /other HTTP/1.1\r\n");
    assert_eq!(route_request(&buffer), RequestRoute::NotFound);
    let buffer = request_buffer(b"");
    assert_eq!(route_request(&buffer), RequestRoute::NotFound);
}

#[test]
fn short_buffer_is_not_found() {
    let buffer: [u8; 3] = *b"GET";
    assert_eq!(route_request(&buffer), RequestRoute::NotFound);
}

#[test]
fn ok_response_counts_its_body() {
    let body = b"hello".to_vec();
    let response = ok_response(&body);
    assert_eq!(
        response,
        b"HTTP/1.1 200 OK\r\nContent-Length: 5\r\n\r\nhello".to_vec()
    );
}

#[test]
fn ok_response_of_empty_body_has_length_zero() {
    let body = Vec::new();
    let response = ok_response(&body);
    assert_eq!(
        response,
        b"HTTP/1.1 200 OK\r\nContent-Length: 0\r\n\r\n".to_vec()
    );
}

#[test]
fn ok_response_length_header_has_all_digits() {
    let body = vec![b'x'; 123];
    let response = ok_response(&body);
    let expected_head = b"HTTP/1.1 200 OK\r\nContent-Length: 123\r\n\r\n";
    assert_eq!(&response[..expected_head.len()], &expected_head[..]);
    assert_eq!(response.len(), expected_head.len() + 123);
}
