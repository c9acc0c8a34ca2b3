use countdown_server::request::parse_request;

#[test]
fn parse_h_m_s() {
    assert_eq!(parse_request(b"GET /1:15:0 HTTP/1.1\r\n\r\n"), Some((1, 15, 0)));
}

#[test]
fn parse_m_s() {
    assert_eq!(parse_request(b"GET /5:3 HTTP/1.1\r\n"), Some((0, 5, 3)));
}

#[test]
fn parse_s() {
    assert_eq!(parse_request(b"GET /7 HTTP/1.1\r\n"), Some((0, 0, 7)));
}

#[test]
fn parse_zero() {
    assert_eq!(parse_request(b"GET /0 HTTP/1.1\r\n"), Some((0, 0, 0)));
}

#[test]
fn parse_extra_components_ignored() {
    assert_eq!(parse_request(b"GET /x:1:2:3 HTTP/1.1\r\n"), Some((1, 2, 3)));
}

#[test]
fn parse_leading_plus_and_zeros() {
    assert_eq!(parse_request(b"GET /+01:007 HTTP/1.1\r\n"), Some((0, 1, 7)));
}

#[test]
fn parse_trailing_slash_cuts_segment() {
    assert_eq!(parse_request(b"GET /42/ignored HTTP/1.1\r\n"), Some((0, 0, 42)));
}

#[test]
fn parse_no_newline_still_works() {
    assert_eq!(parse_request(b"GET /9 HTTP/1.1"), Some((0, 0, 9)));
}

#[test]
fn parse_later_lines_ignored() {
    assert_eq!(
        parse_request(b"GET /8 HTTP/1.1\r\nHost: example\r\n\r\n"),
        Some((0, 0, 8))
    );
}

#[test]
fn parse_largest_component() {
    assert_eq!(
        parse_request(b"GET /4294967295 HTTP/1.1\r\n"),
        Some((0, 0, u32::MAX))
    );
}

#[test]
fn parse_malformed_alpha() {
    assert_eq!(parse_request(b"GET /abc HTTP/1.1\r\n"), None);
}

#[test]
fn parse_empty_path() {
    assert_eq!(parse_request(b"GET / HTTP/1.1\r\n"), None);
}

#[test]
fn parse_empty_input() {
    assert_eq!(parse_request(b""), None);
}

#[test]
fn parse_missing_second_token() {
    assert_eq!(parse_request(b"GET\r\n"), None);
    assert_eq!(parse_request(b"   \r\n"), None);
}

#[test]
fn parse_no_slash_in_target() {
    assert_eq!(parse_request(b"GET 1:15:0 HTTP/1.1\r\n"), None);
}

#[test]
fn parse_invalid_utf8() {
    assert_eq!(parse_request(&[0xff, 0xfe, 0xfd]), None);
}

#[test]
fn parse_invalid_utf8_after_first_line() {
    assert_eq!(parse_request(b"GET /5 HTTP/1.1\r\n\xff"), None);
}

#[test]
fn parse_accepts_multibyte_text_elsewhere() {
    assert_eq!(
        parse_request("GET /5 HTTP/1.1 \u{e9}\r\n".as_bytes()),
        Some((0, 0, 5))
    );
    assert_eq!(
        parse_request("GET /6 HTTP/1.1 \u{732b}\u{1f408}\r\n".as_bytes()),
        Some((0, 0, 6))
    );
}

#[test]
fn parse_rejects_malformed_encodings() {
    // An overlong encoding of `/`.
    assert_eq!(parse_request(b"GET /5 HTTP/1.1 \xc0\xaf\r\n"), None);
    // A surrogate code point.
    assert_eq!(parse_request(b"GET /5 HTTP/1.1 \xed\xa0\x80\r\n"), None);
    // Beyond the last Unicode scalar.
    assert_eq!(parse_request(b"GET /5 HTTP/1.1 \xf5\x80\x80\x80\r\n"), None);
    // A truncated three-byte encoding.
    assert_eq!(parse_request(b"GET /5 HTTP/1.1 \xe2\x82\r\n"), None);
    // A stray continuation byte.
    assert_eq!(parse_request(b"GET /5 HTTP/1.1 \x80\r\n"), None);
}

#[test]
fn parse_component_too_large() {
    assert_eq!(parse_request(b"GET /4294967296 HTTP/1.1\r\n"), None);
    assert_eq!(parse_request(b"GET /99999999999999999999 HTTP/1.1\r\n"), None);
}

#[test]
fn parse_negative_component() {
    assert_eq!(parse_request(b"GET /-5 HTTP/1.1\r\n"), None);
}

#[test]
fn parse_empty_component() {
    assert_eq!(parse_request(b"GET /1: HTTP/1.1\r\n"), None);
    assert_eq!(parse_request(b"GET /:5 HTTP/1.1\r\n"), None);
    assert_eq!(parse_request(b"GET /+ HTTP/1.1\r\n"), None);
}
