use vlc_relay::origin::LONGEST_HOST;
use vlc_relay::relay::{fetch, route, Route};
use vlc_relay::{
    header_value, parse_origin, parse_request_line, response_head, simple_response, start, Body,
    Decision, HeadReader, UpstreamRequest, UrlParts, VlcRelay,
};

/// A mock origin that behaves like CloudFront: it answers a manifest, relative segment
/// URLs, and byte-range seeks, and rejects any request that is not carrying the expected
/// `Cookie` with 403.
struct MockOrigin {
    base_url: String,
    authorized_requests: usize,
}

type Upstream = (u16, Vec<(String, Vec<u8>)>, Vec<u8>);

fn mock_origin() -> MockOrigin {
    MockOrigin {
        base_url: "http://127.0.0.1:4711".to_string(),
        authorized_requests: 0,
    }
}

fn read_head(stream: &str) -> String {
    let mut reader = HeadReader::new();
    for line in stream.split_inclusive('\n') {
        if let Some(head) = reader.feed(line.as_bytes()) {
            return head;
        }
    }
    reader.feed(b"").unwrap()
}

impl MockOrigin {
    fn serve(&mut self, request: &UpstreamRequest) -> Upstream {
        let url = url::Url::parse(&request.url).unwrap();
        assert!(request.url.starts_with(&self.base_url));
        let method = if request.head_only { "HEAD" } else { "GET" };
        let mut text = format!("{} {} HTTP/1.1\r\n", method, url.path());
        for (name, value) in &request.headers {
            text.push_str(&format!("{}: {}\r\n", name, value));
        }
        text.push_str("\r\n");
        self.serve_text(&text)
    }

    fn serve_text(&mut self, text: &str) -> Upstream {
        let head = read_head(text);
        let (method, target) = head.lines().next().and_then(parse_request_line).unwrap();
        if !header_value(&head, "cookie").contains("CloudFront-Policy=test") {
            return (403, Vec::new(), Vec::new());
        }
        self.authorized_requests += 1;

        let range = header_value(&head, "range");
        let (status, list, body): (u16, Vec<(&str, &str)>, &[u8]) = match target {
            "/v1/movie/manifest.mpd" => (
                200,
                vec![("content-type", "text/plain"), ("content-length", "30")],
                b"manifest references seg-1.m4s\n",
            ),
            "/v1/movie/seg-1.m4s" if !range.is_empty() => (
                206,
                vec![
                    ("content-type", "video/mp4"),
                    ("content-length", "4"),
                    ("content-range", "bytes 0-3/6"),
                ],
                b"SEGS",
            ),
            "/v1/movie/seg-1.m4s" => (
                200,
                vec![
                    ("content-type", "video/mp4"),
                    ("content-length", "6"),
                    ("accept-ranges", "bytes"),
                ],
                b"SEGSIX",
            ),
            _ => (404, vec![("content-length", "0")], b""),
        };
        let headers = list
            .iter()
            .map(|(n, v)| (n.to_string(), v.as_bytes().to_vec()))
            .collect();
        let body = if method == "HEAD" { Vec::new() } else { body.to_vec() };
        (status, headers, body)
    }
}

/// What the player gets back for a request: status, head and body, or nothing where the
/// connection is closed.
fn ask(
    origin: &mut MockOrigin,
    relay: &VlcRelay,
    method: &str,
    url: &str,
    more: &str,
) -> Option<(u16, String, String)> {
    let target = url.strip_prefix(relay.base_url.as_str()).unwrap();
    let head = read_head(&format!("{} {} HTTP/1.1\r\nHost: x\r\n{}\r\n", method, target, more));
    let (answer, body) = match relay.handle_request(&head) {
        Decision::Close => return None,
        Decision::Reply(text) => (text, Vec::new()),
        Decision::Fetch(request) => {
            let (status, headers, upstream) = origin.serve(&request);
            let mut body = Body::new(request.head_only);
            let mut passed = Vec::new();
            for chunk in upstream.chunks(4) {
                if body.wants_more() && body.pass(chunk) {
                    passed.extend_from_slice(chunk);
                }
            }
            (response_head(status, &headers), passed)
        }
    };
    let status = answer.split(' ').nth(1).unwrap().parse().unwrap();
    Some((status, answer, String::from_utf8(body).unwrap()))
}

fn open(origin_url: &str) -> UrlParts {
    match parse_origin(origin_url) {
        Ok(parts) => parts,
        Err(error) => panic!("{}", error.cause),
    }
}

fn cookie() -> Vec<(String, String)> {
    vec![("Cookie".to_string(), "CloudFront-Policy=test".to_string())]
}

fn relay_for(origin: &MockOrigin) -> VlcRelay {
    let url = format!("{}/v1/movie/manifest.mpd", origin.base_url);
    start(open(&url), cookie(), 57021)
}

fn relay_base(play_url: &str) -> String {
    play_url
        .split_once("/v1")
        .map(|(b, _)| b.to_string())
        .unwrap_or_default()
}

#[test]
fn forwards_cookie_and_relative_segment_urls() {
    let mut origin = mock_origin();
    let mut headers = cookie();
    headers.push(("Referer".to_string(), "https://sportslive.wine".to_string()));
    let relay = start(
        open(&format!("{}/v1/movie/manifest.mpd", origin.base_url)),
        headers,
        57021,
    );

    let direct = origin.serve_text("GET /v1/movie/manifest.mpd HTTP/1.1\r\n\r\n");
    assert_eq!(direct.0, 403, "mock origin requires the Cookie");

    let (status, _, body) = ask(&mut origin, &relay, "GET", &relay.play_url, "").unwrap();
    assert_eq!(status, 200);
    assert!(body.contains("seg-1.m4s"), "manifest body was: {body}");

    let base = relay_base(&relay.play_url);
    let segment = format!("{base}/v1/movie/seg-1.m4s");
    let (status, _, body) = ask(&mut origin, &relay, "GET", &segment, "").unwrap();
    assert_eq!(status, 200);
    assert_eq!(body, "SEGSIX");

    assert!(
        origin.authorized_requests >= 2,
        "every relayed request must carry the Cookie upstream"
    );
}

#[test]
fn passes_byte_range_requests_through() {
    let mut origin = mock_origin();
    let relay = relay_for(&origin);
    let base = relay_base(&relay.play_url);
    let segment = format!("{base}/v1/movie/seg-1.m4s");
    let more = "Range: bytes=0-3\r\n";
    let (status, head, body) = ask(&mut origin, &relay, "GET", &segment, more).unwrap();
    assert_eq!(status, 206);
    assert_eq!(header_value(&head, "content-range"), "bytes 0-3/6");
    assert_eq!(body, "SEGS");
}

#[test]
fn normalizes_dot_segments_in_request_paths() {
    let mut origin = mock_origin();
    let relay = relay_for(&origin);
    let base = relay_base(&relay.play_url);
    let dotty = format!("{base}/v1/../v1/movie/seg-1.m4s");
    let (status, _, body) = ask(&mut origin, &relay, "GET", &dotty, "").unwrap();
    assert_eq!(status, 200);
    assert_eq!(body, "SEGSIX");
}

#[test]
fn answers_head_requests_without_a_body() {
    let mut origin = mock_origin();
    let relay = relay_for(&origin);
    let base = relay_base(&relay.play_url);
    let segment = format!("{base}/v1/movie/seg-1.m4s");
    let (status, head, body) = ask(&mut origin, &relay, "HEAD", &segment, "").unwrap();
    assert_eq!(status, 200);
    assert_eq!(header_value(&head, "content-length"), "6");
    assert_eq!(body, "");
}

#[test]
fn shuts_the_listener_down_on_stop() {
    let mut origin = mock_origin();
    let mut relay = relay_for(&origin);
    let url = relay.play_url.clone();
    assert!(ask(&mut origin, &relay, "GET", &url, "").is_some());
    relay.stop();
    let result = ask(&mut origin, &relay, "GET", &url, "");
    assert!(result.is_none(), "relay must answer nothing after stop");
    assert_eq!(relay.play_url, url);
}

#[test]
fn the_player_is_sent_to_the_loopback_address() {
    let relay = start(open("https://u:p@h.example:444/a/b.mpd?k=v#f"), Vec::new(), 80);
    assert_eq!(relay.base_url, "http://127.0.0.1:80");
    assert_eq!(relay.play_url, "http://127.0.0.1:80/a/b.mpd?k=v");
    let relay = start(open("https://h.example"), Vec::new(), 0);
    assert_eq!(relay.play_url, "http://127.0.0.1:0/");
}

#[test]
fn relative_urls_keep_landing_on_the_relay() {
    let relay = relay_for(&mock_origin());
    let manifest = url::Url::parse(&relay.play_url).unwrap();
    for relative in ["seg-1.m4s", "../x/y", "/z", "?q"] {
        let landed = manifest.join(relative).unwrap();
        assert!(landed.as_str().starts_with(&format!("{}/", relay.base_url)));
    }
}

fn upstream(relay: &VlcRelay, head: &str) -> UpstreamRequest {
    match relay.handle_request(head) {
        Decision::Fetch(request) => request,
        _ => panic!("not passed on: {}", head),
    }
}

#[test]
fn playing_asks_for_the_original_url() {
    let relay = start(open("https://u:p@h.example:444/a/b.mpd?k=v#f"), cookie(), 80);
    let request = upstream(&relay, "GET /a/b.mpd?k=v HTTP/1.1\r\n\r\n");
    assert!(!request.head_only);
    assert_eq!(request.url, "https://h.example:444/a/b.mpd?k=v");
    assert_eq!(request.headers, cookie());
}

#[test]
fn requests_stay_at_the_origin() {
    let relay = start(open("https://h.example/a"), cookie(), 80);
    let request = upstream(&relay, "HEAD //evil.example/../x HTTP/1.1\r\nrange:  r \r\n\r\n");
    assert!(request.head_only);
    assert_eq!(request.url, "https://h.example//x");
    let mut expected = cookie();
    expected.push(("range".to_string(), "r".to_string()));
    assert_eq!(request.headers, expected);
}

fn closes(relay: &VlcRelay, head: &str) -> bool {
    matches!(relay.handle_request(head), Decision::Close)
}

#[test]
fn other_methods_are_refused() {
    let relay = relay_for(&mock_origin());
    for method in ["POST", "get", "OPTIONS"] {
        match relay.handle_request(&format!("{} / HTTP/1.1\r\n\r\n", method)) {
            Decision::Reply(text) => {
                assert_eq!(text, simple_response(405, "Method Not Allowed"))
            }
            _ => panic!("{} was not refused", method),
        }
    }
}

#[test]
fn what_is_no_request_for_a_path_is_not_answered() {
    let relay = relay_for(&mock_origin());
    for head in [
        "",
        " \r\n\r\n",
        "GET\r\n\r\n",
        "\r\nGET / HTTP/1.1\r\n\r\n",
        "GET http://h/ HTTP/1.1\r\n\r\n",
        "POST * HTTP/1.1\r\n\r\n",
        "CONNECT h:1 HTTP/1.1\r\n\r\n",
    ] {
        assert!(closes(&relay, head), "{:?}", head);
    }
}

#[test]
fn an_origin_without_a_host_is_not_asked() {
    let relay = start(open("mailto:a@b"), Vec::new(), 80);
    assert!(closes(&relay, "GET / HTTP/1.1\r\n\r\n"));
}

#[test]
fn routes_are_found_before_the_address_is_parsed() {
    let origin = open("http://h.example:8080/a");
    match route(&origin, false, "GET /b/../c HTTP/1.1\nRange: r\n\n") {
        Route::Forward { head_only, address, range } => {
            assert!(!head_only);
            assert_eq!(address, "http://h.example:8080/b/../c");
            assert_eq!(range, "r");
        }
        _ => panic!("not forwarded"),
    }
    assert!(matches!(route(&origin, true, "GET / HTTP/1.1\n\n"), Route::Close));
    assert!(matches!(route(&origin, false, "PUT / HTTP/1.1\n\n"), Route::Refuse));
}

#[test]
fn an_address_that_is_no_url_is_not_asked_for() {
    let parsed = Err(url::ParseError::Overflow);
    assert!(matches!(fetch(&cookie(), false, String::new(), parsed), Decision::Close));
    match fetch(&cookie(), true, "r".to_string(), Ok(open("http://h/a/./b"))) {
        Decision::Fetch(request) => {
            assert!(request.head_only);
            assert_eq!(request.url, "http://h/a/b");
            assert_eq!(request.headers.len(), 2);
            assert_eq!(request.headers[1], ("range".to_string(), "r".to_string()));
        }
        _ => panic!("not asked for"),
    }
}

#[test]
fn a_host_that_does_not_parse_again_is_not_asked() {
    let host: String = (0..1000u32)
        .map(|i| char::from_u32(0x4e00 + 20 * i).unwrap())
        .collect();
    let origin = open(&format!("http://{}/", host));
    assert!(origin.host.as_ref().unwrap().len() > LONGEST_HOST);
    let relay = start(origin, Vec::new(), 80);
    assert!(closes(&relay, "GET / HTTP/1.1\r\n\r\n"));
}

#[test]
fn relative_references_land_on_the_origin() {
    let text = "https://u:p@h.example:444/a/b/manifest.mpd?k=v#f";
    let relay = start(open(text), cookie(), 57021);
    let play = url::Url::parse(&relay.play_url).unwrap();
    let original = url::Url::parse(text).unwrap();
    assert_eq!((play.path(), play.query()), (original.path(), original.query()));
    for reference in [
        "", "#t", "seg-1.m4s", "seg?a:b#c", "../x/./y", "../../../z", "/abs/./p?q", "?other", "d/", "./a:b",
        "\u{e9}.m4s",
    ] {
        let landed = play.join(reference).unwrap();
        assert!(landed.as_str().starts_with(&format!("{}/", relay.base_url)));
        let mut wanted = original.join(reference).unwrap();
        wanted.set_fragment(None);
        wanted.set_username("").unwrap();
        wanted.set_password(None).unwrap();
        let asked = match landed.query() {
            Some(query) => format!("{}?{}", landed.path(), query),
            None => landed.path().to_string(),
        };
        let request = upstream(&relay, &format!("GET {} HTTP/1.1\r\n\r\n", asked));
        assert_eq!(request.url, wanted.as_str());
        assert_eq!(request.headers, cookie());
    }
    let request = upstream(&relay, "GET /a/b/../x/./y HTTP/1.1\r\n\r\n");
    assert_eq!(request.url, "https://h.example:444/a/x/y");
}

#[test]
fn stray_bytes_leave_the_request() {
    let relay = start(open("https://h.example/a"), cookie(), 80);
    let mut reader = HeadReader::new();
    assert!(reader.feed(b"GET /\xc3\xa9 HTTP/1.1\r\n").is_none());
    assert!(reader.feed(b"Range: bytes=0-3\r\n").is_none());
    assert!(reader.feed(b"X: \xff\xc3\r\n").is_none());
    let head = reader.feed(b"\r\n").unwrap();
    assert_eq!(header_value(&head, "x"), "\u{fffd}\u{fffd}");
    let request = upstream(&relay, &head);
    assert_eq!(request.url, "https://h.example/%C3%A9");
    assert_eq!(request.headers[1], ("range".to_string(), "bytes=0-3".to_string()));
}
