use vlc_relay::response::{passed_on, response_head_saying};
use vlc_relay::{header_value, response_head, simple_response, Body};

fn headers(list: &[(&str, &[u8])]) -> Vec<(String, Vec<u8>)> {
    list.iter().map(|(n, v)| (n.to_string(), v.to_vec())).collect()
}

#[test]
fn own_answers_have_no_body() {
    assert_eq!(
        simple_response(405, "Method Not Allowed"),
        "HTTP/1.1 405 Method Not Allowed\r\nContent-Length: 0\r\nConnection: close\r\n\r\n"
    );
    assert_eq!(
        simple_response(403, "Forbidden"),
        "HTTP/1.1 403 Forbidden\r\nContent-Length: 0\r\nConnection: close\r\n\r\n"
    );
}

#[test]
fn listed_headers_are_passed_on() {
    for name in [
        "content-type", "content-length", "content-range", "etag", "last-modified", "accept-ranges",
    ] {
        assert!(passed_on(name));
    }
    for name in ["", "Content-Type", "set-cookie", "transfer-encoding", "content-encoding"] {
        assert!(!passed_on(name));
    }
}

#[test]
fn heads_are_put_together_in_order() {
    let upstream = headers(&[
        ("content-type", b"video/mp4"),
        ("set-cookie", b"secret"),
        ("content-length", b"4"),
        ("etag", b"caf\xe9"),
        ("last-modified", b"\tnow "),
    ]);
    assert_eq!(
        response_head(206, &upstream),
        "HTTP/1.1 206 Partial Content\r\nConnection: close\r\ncontent-type: video/mp4\r\n\
         content-length: 4\r\netag: \r\nlast-modified: \tnow \r\nAccept-Ranges: bytes\r\n\r\n"
    );
    assert_eq!(
        response_head_saying(200, "Fine", &headers(&[("accept-ranges", b"none")])),
        "HTTP/1.1 200 Fine\r\nConnection: close\r\naccept-ranges: none\r\n\r\n"
    );
}

#[test]
fn reasons_are_the_standard_ones() {
    let none = headers(&[]);
    let rest = "\r\nConnection: close\r\nAccept-Ranges: bytes\r\n\r\n";
    assert_eq!(response_head(200, &none), format!("HTTP/1.1 200 OK{}", rest));
    assert_eq!(response_head(403, &none), format!("HTTP/1.1 403 Forbidden{}", rest));
    assert_eq!(response_head(404, &none), format!("HTTP/1.1 404 Not Found{}", rest));
    assert_eq!(response_head(599, &none), format!("HTTP/1.1 599 {}", rest));
    assert_eq!(response_head(7, &none), format!("HTTP/1.1 7 {}", rest));
}

#[test]
fn the_player_reads_what_upstream_said() {
    let head = response_head(
        206,
        &headers(&[
            ("content-range", b" bytes 0-3/6"),
            ("content-range", b"second"),
            ("x", b"y"),
            ("etag", b"\x80"),
        ]),
    );
    assert_eq!(header_value(&head, "Content-Range"), "bytes 0-3/6");
    assert_eq!(header_value(&head, "connection"), "close");
    assert_eq!(header_value(&head, "accept-ranges"), "bytes");
    assert_eq!(header_value(&head, "etag"), "");
    assert_eq!(header_value(&head, "x"), "");
    let head = response_head(200, &headers(&[("accept-ranges", b"none")]));
    assert_eq!(header_value(&head, "accept-ranges"), "none");
}

fn pass_all(head_only: bool, chunks: &[&[u8]]) -> Vec<u8> {
    let mut body = Body::new(head_only);
    let mut out = Vec::new();
    for chunk in chunks {
        if !body.wants_more() {
            break;
        }
        if body.pass(chunk) {
            out.extend_from_slice(chunk);
        }
    }
    out
}

#[test]
fn bodies_are_passed_on_byte_for_byte() {
    assert_eq!(pass_all(false, &[b"SEG", b"S", b"\x00\xffIX"]), b"SEGS\x00\xffIX");
    assert_eq!(pass_all(false, &[]), b"");
}

#[test]
fn a_body_goes_on_behind_an_empty_chunk() {
    assert_eq!(pass_all(false, &[b"SEG", b"", b"SIX"]), b"SEGSIX");
    assert_eq!(pass_all(false, &[b"", b"SEGS", b""]), b"SEGS");
    let mut body = Body::new(false);
    assert!(!body.pass(b""));
    assert!(body.wants_more());
}

#[test]
fn answers_to_head_requests_have_no_body() {
    assert_eq!(pass_all(true, &[b"SEG"]), b"");
    let mut body = Body::new(true);
    assert!(!body.wants_more());
    assert!(!body.pass(b"SEG"));
}
