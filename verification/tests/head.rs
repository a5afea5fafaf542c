use vlc_relay::{header_value, parse_request_line, simple_response, HeadReader, MAX_HEAD_BYTES};

/// Reads the head of `stream` line by line, as from a socket.
fn read(stream: &[u8]) -> String {
    read_on(stream).0
}

/// Reads the head of `stream`, and gives what is left of it too.
fn read_on(stream: &[u8]) -> (String, &[u8]) {
    let mut reader = HeadReader::new();
    let mut rest = stream;
    loop {
        let n = match rest.iter().position(|b| *b == 10) {
            Some(i) => i + 1,
            None => rest.len(),
        };
        let (line, later) = rest.split_at(n);
        if let Some(head) = reader.feed(line) {
            return (head, later);
        }
        rest = later;
    }
}

#[test]
fn request_lines_have_a_method_and_a_target() {
    assert_eq!(parse_request_line("GET /a HTTP/1.1"), Some(("GET", "/a")));
    assert_eq!(parse_request_line("  GET\t\t/a"), Some(("GET", "/a")));
    assert_eq!(parse_request_line("GET\u{2003}/\u{e9} x y"), Some(("GET", "/\u{e9}")));
    assert_eq!(parse_request_line("GET"), None);
    assert_eq!(parse_request_line("GET  "), None);
    assert_eq!(parse_request_line(""), None);
    assert_eq!(parse_request_line(" \t "), None);
}

#[test]
fn header_values_are_found() {
    let head = "GET / HTTP/1.1\r\nHost: a:1\r\nno colon\r\n RANGE : bytes=0-3 \r\nRange: second\r\n\r\n";
    assert_eq!(header_value(head, "range"), "bytes=0-3");
    assert_eq!(header_value(head, "host"), "a:1");
    assert_eq!(header_value(head, "Host"), "a:1");
    assert_eq!(header_value(head, "cookie"), "");
    assert_eq!(header_value("", "range"), "");
    assert_eq!(header_value("Range: in the first line", "range"), "");
    assert_eq!(header_value("x\nRange:", "range"), "");
    assert_eq!(header_value("x\nRange:v", "range"), "v");
}

#[test]
fn written_headers_are_read_back() {
    let head = format!("GET /a HTTP/1.1\r\n{}: {}\r\n{}: {}\r\n\r\n", "A", " one: 1 ", "b", "two");
    assert_eq!(header_value(&head, "a"), "one: 1");
    assert_eq!(header_value(&head, "B"), "two");
}

#[test]
fn heads_end_at_the_first_empty_line() {
    assert_eq!(read(b"GET / HTTP/1.1\r\nA: b\r\n\r\nbody\r\n\r\n"), "GET / HTTP/1.1\r\nA: b\r\n\r\n");
    assert_eq!(read(b"GET / HTTP/1.1\nA: b\n\nbody"), "GET / HTTP/1.1\nA: b\n\n");
    assert_eq!(read(b"a\n\r\n\r\nb"), "a\n\r\n\r\n");
    assert_eq!(read(b"\n\n"), "\n\n");
}

#[test]
fn heads_without_an_empty_line_are_given_up() {
    assert_eq!(read(b""), "");
    assert_eq!(read(b"GET / HTTP/1.1"), "");
    assert_eq!(read(b"GET / HTTP/1.1\r\nA: b\r\n"), "");
    assert_eq!(read(b"\n"), "");
    assert_eq!(read(b"\r\n"), "");
}

#[test]
fn heads_that_are_too_long_are_given_up() {
    let mut fits = vec![97u8; MAX_HEAD_BYTES - 1];
    fits.extend_from_slice(b"\n\n");
    assert_eq!(read(&fits).len(), MAX_HEAD_BYTES + 1);
    let mut fits = vec![97u8; MAX_HEAD_BYTES - 2];
    fits.extend_from_slice(b"\r\n\r\n");
    assert_eq!(read(&fits).len(), MAX_HEAD_BYTES + 2);
    let mut long = vec![97u8; MAX_HEAD_BYTES];
    long.extend_from_slice(b"\n\n");
    assert_eq!(read(&long), "");
    assert_eq!(MAX_HEAD_BYTES, 32 * 1024);
}

#[test]
fn heads_are_text_even_where_they_are_no_utf8() {
    assert_eq!(read("GET /\u{e9}\u{1f600}\n\n".as_bytes()), "GET /\u{e9}\u{1f600}\n\n");
    assert_eq!(read(b"GET /\xff\xc3\n\n"), "GET /\u{fffd}\u{fffd}\n\n");
}

#[test]
fn a_second_head_is_read_behind_the_first() {
    let stream = b"GET /1 HTTP/1.1\r\nA: b\r\n\r\nGET /2 HTTP/1.1\r\n\r\n";
    let (first, rest) = read_on(stream);
    assert_eq!(first, "GET /1 HTTP/1.1\r\nA: b\r\n\r\n");
    let (second, rest) = read_on(rest);
    assert_eq!(second, "GET /2 HTTP/1.1\r\n\r\n");
    assert_eq!(read_on(rest), (String::new(), &b""[..]));
}

#[test]
fn own_answers_are_read_again() {
    for reason in ["Forbidden", "", "\r", "\u{e9}\u{1f600}: x"] {
        let answer = simple_response(403, reason);
        let (head, rest) = read_on(answer.as_bytes());
        assert_eq!(head, answer);
        assert!(rest.is_empty());
        assert_eq!(header_value(&head, "content-length"), "0");
        assert_eq!(header_value(&head, "connection"), "close");
    }
}

#[test]
fn the_case_of_names_changes_no_value() {
    let head = "x\r\nRange: Bytes\r\nA: b\r\n\r\n";
    let other = "x\r\nrANGE: Bytes\r\na: b\r\n\r\n";
    for name in ["range", "RANGE", "Range"] {
        assert_eq!(header_value(head, name), "Bytes");
        assert_eq!(header_value(other, name), "Bytes");
    }
}

#[test]
fn line_endings_change_no_value() {
    let head = "x\r\nA: 1\r\r\n\r\nB: 2 \nC: 3\r";
    let bare = head.replace("\r\n", "\n");
    for (name, value) in [("a", "1"), ("b", "2"), ("c", "3"), ("d", "")] {
        assert_eq!(header_value(head, name), value);
        assert_eq!(header_value(&bare, name), value);
    }
}
