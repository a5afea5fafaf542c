use vlc_relay::origin::{authority_of, push_target};
use vlc_relay::{parse_origin, UrlParts};

fn parse(text: &str) -> UrlParts {
    match parse_origin(text) {
        Ok(parts) => parts,
        Err(error) => panic!("{}: {}", text, error.cause),
    }
}

#[test]
fn components_are_read() {
    let u = parse("HTTPS://User:pw@Example.COM:8443/a/../b c?x=1 2#top");
    assert_eq!(u.text, "https://User:pw@example.com:8443/b%20c?x=1%202#top");
    assert_eq!(u.scheme, "https");
    assert_eq!(u.host.as_deref(), Some("example.com"));
    assert_eq!(u.port, Some(8443));
    assert_eq!(u.path, "/b%20c");
    assert_eq!(u.query.as_deref(), Some("x=1%202"));
    let u = parse("http://example.com:80");
    assert_eq!(u.port, None);
    assert_eq!(u.path, "/");
    assert_eq!(u.query, None);
    assert_eq!(authority_of(&u).as_deref(), Some("http://example.com"));
    let u = parse("mailto:a@b");
    assert_eq!(u.host, None);
    assert_eq!(authority_of(&u), None);
}

#[test]
fn texts_that_are_no_urls_are_refused() {
    match parse_origin("manifest.mpd") {
        Ok(_) => panic!("a relative URL"),
        Err(error) => assert_eq!(error.cause, url::ParseError::RelativeUrlWithoutBase),
    }
    match parse_origin("http://") {
        Ok(_) => panic!("no host"),
        Err(error) => assert_eq!(error.cause, url::ParseError::EmptyHost),
    }
}

const WEB: [&str; 14] = [
    "http://a",
    "https://a/",
    "http://127.0.0.1:57021/v1/movie/manifest.mpd",
    "https://user:pw@host:444/p?q#f",
    "http://0x7f.1/..//./a/%2e%2e/b",
    "https://[::1]:8080/\u{e9}/ x\ty?\u{e9}=' '#x y",
    "http://b\u{fc}cher.example/\\a\\..\\b?c\\d",
    "https://xn--bcher-kva.example?",
    "http:\\\\h\\C:\\..\\x",
    "http://h/C|/../C:/..",
    "  http://h/a b  ",
    "http://%41%62c/%zz%2F%5c{}|^`\"<>",
    "https://@host//double//slash//",
    "http://h/a?b?c#d#e",
];

#[test]
fn parsed_urls_are_put_together_again() {
    for text in WEB {
        let u = parse(text);
        let mut again = authority_of(&u).unwrap();
        let start = again.clone();
        assert!(u.path.starts_with('/'));
        push_target(&mut again, &u);
        assert!(!again[start.len()..].contains(char::is_whitespace));
        let v = parse(&again);
        assert_eq!(v.text, again);
        assert_eq!((v.scheme, v.host, v.port), (u.scheme, u.host, u.port));
        assert_eq!((v.path, v.query), (u.path, u.query));
    }
}

#[test]
fn other_paths_stay_at_the_origin() {
    let asked = [
        "/", "//evil.example/", "/@evil.example", "/\\evil", "/..", "/:80@x/", "/?#", "/\u{1f600}",
        "/\t\n", "/%00", "/a b", "/[", "/#@x",
    ];
    for text in WEB {
        let u = parse(text);
        for path in asked {
            let v = parse(&format!("{}{}", authority_of(&u).unwrap(), path));
            assert_eq!((&v.scheme, &v.host, v.port), (&u.scheme, &u.host, u.port));
            let w = parse(&v.text);
            assert_eq!((w.text, w.path, w.query), (v.text, v.path, v.query));
            assert_eq!((w.scheme, w.host, w.port), (v.scheme, v.host, v.port));
        }
    }
}
