use simpler_notes::transport::{format_message, parse_message, McpTransport};

#[test]
fn test_parse_simple_message() {
    let msg = format_message("hello");
    let result = parse_message(&msg).unwrap();
    assert_eq!(result, "hello");
}

#[test]
fn test_parse_empty_body() {
    let msg = format_message("");
    let result = parse_message(&msg).unwrap();
    assert_eq!(result, "");
}

#[test]
fn test_parse_unicode_body() {
    let msg = format_message("привет мир 🎉");
    let result = parse_message(&msg).unwrap();
    assert_eq!(result, "привет мир 🎉");
}

#[test]
fn test_parse_empty_input() {
    let err = parse_message(b"").unwrap_err();
    assert!(err.contains("Connection closed"));
}

#[test]
fn test_parse_no_header() {
    let err = parse_message(b"hello world").unwrap_err();
    assert!(err.contains("No Content-Length"));
}

#[test]
fn test_parse_invalid_content_length() {
    let input = b"Content-Length: abc\r\n\r\n{}";
    let err = parse_message(input).unwrap_err();
    assert!(err.contains("Invalid Content-Length"));
}

#[test]
fn test_parse_content_length_too_short() {
    let input = b"Content-Length: 100\r\n\r\n{}";
    let err = parse_message(input).unwrap_err();
    assert!(err.contains("exceeds body size"));
}

#[test]
fn test_parse_invalid_utf8() {
    let input = b"Content-Length: 1\r\n\r\n\xff";
    let err = parse_message(input).unwrap_err();
    assert!(err.contains("Invalid UTF-8"));
}

#[test]
fn test_format_message_empty() {
    let result = format_message("");
    assert_eq!(String::from_utf8(result).unwrap(), "Content-Length: 0\r\n\r\n");
}

#[test]
fn test_format_message_with_body() {
    let result = format_message("test");
    assert_eq!(String::from_utf8(result).unwrap(), "Content-Length: 4\r\n\r\ntest");
}

#[test]
fn test_format_message_unicode() {
    let body = "привет";
    let result = format_message(body);
    let expected_len = body.len();
    assert_eq!(
        String::from_utf8(result).unwrap(),
        format!("Content-Length: {}\r\n\r\n{}", expected_len, body)
    );
}

#[test]
fn test_parse_missing_blank_line() {
    let input = b"Content-Length: 4\r\nbody";
    let err = parse_message(input).unwrap_err();
    assert!(err.contains("Missing blank line"));
}

#[test]
fn parse_error_texts_are_exact() {
    assert_eq!(parse_message(b"").unwrap_err(), "Connection closed");
    assert_eq!(parse_message(b"hello").unwrap_err(), "No Content-Length header found");
    assert_eq!(
        parse_message(b"Content-Length: 100\r\n\r\n{}").unwrap_err(),
        "Content-Length 100 exceeds body size 2"
    );
    assert_eq!(
        parse_message(b"Content-Length: abc\r\n\r\n{}").unwrap_err(),
        "Invalid Content-Length: invalid digit found in string"
    );
    assert_eq!(
        parse_message(b"Content-Length: \r\n\r\n{}").unwrap_err(),
        "Invalid Content-Length: cannot parse integer from empty string"
    );
    assert_eq!(
        parse_message(b"Content-Length: 99999999999999999999999\r\n\r\n{}").unwrap_err(),
        "Invalid Content-Length: number too large to fit in target type"
    );
    assert_eq!(
        parse_message(b"Content-Length: 1\r\n\r\n\xff").unwrap_err().split(':').next().unwrap(),
        "Invalid UTF-8"
    );
    assert_eq!(
        parse_message("Content-Length: 1\r\n\r\né".as_bytes()).unwrap_err().split(':').next().unwrap(),
        "Invalid UTF-8 body"
    );
}

#[test]
fn parse_takes_only_the_announced_bytes() {
    assert_eq!(parse_message(b"Content-Length: 2\r\n\r\nabcdef").unwrap(), "ab");
    assert_eq!(parse_message(b"Content-Length: +3\n\nxyz").unwrap(), "xyz");
    assert_eq!(parse_message(b"junk\n  Content-Length: 1  \r\n\r\nq").unwrap(), "q");
}

#[test]
fn header_line_decisions() {
    assert_eq!(McpTransport::header_line("\r\n"), None);
    assert_eq!(McpTransport::header_line("X-Other: 1"), None);
    assert_eq!(McpTransport::header_line("Content-Length: 12\r\n"), Some(Ok(12)));
    assert_eq!(
        McpTransport::header_line("Content-Length: -1"),
        Some(Err("Invalid Content-Length: invalid digit found in string".to_string()))
    );
}

#[test]
fn utf8_errors_carry_std_description() {
    let std_text = String::from_utf8(vec![0xffu8]).unwrap_err().to_string();
    assert_eq!(
        parse_message(b"Content-Length: 1\r\n\r\n\xff").unwrap_err(),
        format!("Invalid UTF-8: {}", String::from_utf8(b"Content-Length: 1\r\n\r\n\xff".to_vec()).unwrap_err())
    );
    let body = "Content-Length: 1\r\n\r\n\u{e9}".as_bytes();
    let body_err = String::from_utf8(vec![0xc3u8]).unwrap_err().to_string();
    assert_eq!(parse_message(body).unwrap_err(), format!("Invalid UTF-8 body: {}", body_err));
    assert!(std_text.contains("index 0"));
}
