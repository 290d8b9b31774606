use rustixml::input_stream::InputStream;

#[test]
fn test_new() {
    let stream = InputStream::new("hello");
    assert_eq!(stream.len(), 5);
    assert_eq!(stream.position(), 0);
    assert!(!stream.is_eof());
}

#[test]
fn test_current_and_advance() {
    let mut stream = InputStream::new("abc");
    assert_eq!(stream.current(), Some('a'));
    assert_eq!(stream.position(), 0);

    assert_eq!(stream.advance(), Some('a'));
    assert_eq!(stream.position(), 1);
    assert_eq!(stream.current(), Some('b'));

    assert_eq!(stream.advance(), Some('b'));
    assert_eq!(stream.advance(), Some('c'));
    assert_eq!(stream.advance(), None);
    assert!(stream.is_eof());
}

#[test]
fn test_peek() {
    let stream = InputStream::new("hello");
    assert_eq!(stream.peek(0), Some('h'));
    assert_eq!(stream.peek(1), Some('e'));
    assert_eq!(stream.peek(4), Some('o'));
    assert_eq!(stream.peek(5), None);
}

#[test]
fn test_backtracking() {
    let mut stream = InputStream::new("test");
    stream.advance();
    stream.advance();
    assert_eq!(stream.position(), 2);
    assert_eq!(stream.current(), Some('s'));

    stream.set_position(0);
    assert_eq!(stream.position(), 0);
    assert_eq!(stream.current(), Some('t'));
}

#[test]
fn test_unicode() {
    let mut stream = InputStream::new("Hello 世界");
    assert_eq!(stream.len(), 8); // 6 ASCII + 2 Unicode chars

    for _ in 0..6 {
        stream.advance();
    }
    assert_eq!(stream.current(), Some('世'));
    stream.advance();
    assert_eq!(stream.current(), Some('界'));
}

#[test]
fn test_remaining() {
    let mut stream = InputStream::new("hello");
    assert_eq!(stream.remaining(), "hello");

    stream.advance();
    stream.advance();
    assert_eq!(stream.remaining(), "llo");

    while stream.advance().is_some() {}
    assert_eq!(stream.remaining(), "");
}

#[test]
fn test_substring() {
    let stream = InputStream::new("hello world");
    assert_eq!(stream.substring(0, 5), "hello");
    assert_eq!(stream.substring(6, 11), "world");
    assert_eq!(stream.substring(0, 100), "hello world");
}

#[test]
fn test_line_col() {
    let stream = InputStream::new("line1\nline2\nline3");
    assert_eq!(stream.line_col(0), (1, 1));
    assert_eq!(stream.line_col(4), (1, 5));
    assert_eq!(stream.line_col(6), (2, 1));
    assert_eq!(stream.line_col(12), (3, 1));
}

#[test]
fn test_empty() {
    let stream = InputStream::new("");
    assert!(stream.is_empty());
    assert!(stream.is_eof());
    assert_eq!(stream.current(), None);
}

#[test]
fn input_stream_set_position_past_end_clamps() {
    let mut stream = InputStream::new("abc");
    stream.set_position(10);
    assert_eq!(stream.position(), 3);
    assert!(stream.is_eof());
    assert_eq!(stream.remaining(), "");
}

#[test]
fn input_stream_substring_past_end_is_empty() {
    let stream = InputStream::new("hello");
    assert_eq!(stream.substring(7, 9), "");
    assert_eq!(stream.substring(2, 2), "");
}

#[test]
fn input_stream_line_col_at_newline_and_past_end() {
    let stream = InputStream::new("ab\ncd");
    assert_eq!(stream.line_col(2), (1, 3));
    assert_eq!(stream.line_col(3), (2, 1));
    assert_eq!(stream.line_col(50), (2, 3));
}

#[test]
fn input_stream_peek_from_position() {
    let mut stream = InputStream::new("xyz");
    stream.advance();
    assert_eq!(stream.peek(0), Some('y'));
    assert_eq!(stream.peek(1), Some('z'));
    assert_eq!(stream.peek(2), None);
}

#[test]
fn input_stream_debug_string() {
    let mut stream = InputStream::new("ab\"c");
    stream.advance();
    assert_eq!(stream.debug_string(), "InputStream(pos=1, remaining=\"b\\\"c\")");
    let long = InputStream::new("abcdefghijklmnopqrstuvwxyz");
    assert_eq!(long.debug_string(), "InputStream(pos=0, remaining=\"abcdefghijklmnopqrst\")");
}
