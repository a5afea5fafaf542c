//! URLs: what the relay reads of one, and the texts that it makes of one.

#[allow(unused_imports)]
use crate::head::is_word;
#[allow(unused_imports)]
use crate::text::decimal;
use crate::text::push_decimal;
use vstd::prelude::*;

verus! {

/// Why a text is no URL, as the `url` crate reports it. Nothing is claimed of it.
#[verifier::external_type_specification]
#[verifier::external_body]
pub struct ExParseError(url::ParseError);

/// The components of a URL that the relay reads, as sequences of characters.
#[verifier::ext_equal]
pub struct UrlView {
    pub text: Seq<char>,
    pub scheme: Seq<char>,
    pub host: Option<Seq<char>>,
    pub port: Option<u16>,
    pub path: Seq<char>,
    pub query: Option<Seq<char>>,
}

/// The components of a URL that the relay reads.
pub struct UrlParts {
    /// The whole URL in its normal form.
    pub text: String,
    /// The scheme, without its colon.
    pub scheme: String,
    /// The host, where the URL has one.
    pub host: Option<String>,
    /// The port, where it is given and not the scheme's default.
    pub port: Option<u16>,
    /// The path, percent-encoded.
    pub path: String,
    /// The query, percent-encoded and without its question mark.
    pub query: Option<String>,
}

/// An optional string as an optional sequence of characters.
pub open spec fn optional(s: Option<String>) -> Option<Seq<char>> {
    match s {
        Some(t) => Some(t@),
        None => None,
    }
}

impl View for UrlParts {
    type V = UrlView;

    open spec fn view(&self) -> UrlView {
        UrlView {
            text: self.text@,
            scheme: self.scheme@,
            host: optional(self.host),
            port: self.port,
            path: self.path@,
            query: optional(self.query),
        }
    }
}

/// A URL's scheme, host and port, as a request for another path of the same origin starts.
pub open spec fn authority(u: UrlView) -> Option<Seq<char>> {
    match (u.host, u.port) {
        (Some(host), Some(port)) => Some(
            u.scheme + "://"@ + host + ":"@ + decimal(port as nat),
        ),
        (Some(host), None) => Some(u.scheme + "://"@ + host),
        (None, _) => None,
    }
}

/// A URL's path and query, as a player asks for them in a request line.
pub open spec fn target(u: UrlView) -> Seq<char> {
    match u.query {
        Some(query) => u.path + "?"@ + query,
        None => u.path,
    }
}

/// Whether two URLs have the same scheme, host and port.
pub open spec fn same_origin(u: UrlView, v: UrlView) -> bool {
    u.scheme == v.scheme && u.host == v.host && u.port == v.port
}

/// Whether a URL is an `http` or `https` one.
pub open spec fn is_web(u: UrlView) -> bool {
    u.scheme == "http"@ || u.scheme == "https"@
}

/// What the `url` crate reads out of a text: the components of the URL that it is, or why
/// it is none.
pub uninterp spec fn url_parse(input: Seq<char>) -> Result<UrlView, url::ParseError>;

/// The longest URL, in characters, of which it is said that parsing it does not overflow.
/// A character takes at most twelve bytes once encoded, and 4 GiB are the limit.
pub const LONGEST_URL: usize = 0x1000_0000;

/// The longest host, in characters, of which it is said that it parses again. An encoded
/// label of an international name is written at any length, but is read only up to this one.
pub const LONGEST_HOST: usize = 2004;

/// What holds of an `http` or `https` URL that was parsed. It has a host; its path starts
/// with a slash; path and query hold no white space. Put together again without credentials
/// and fragment, it parses to itself, unless its host is too long. Behind its scheme, host
/// and port, any text that starts with a slash parses, unless it or the host is too long, to
/// a URL of the same origin, whose own text parses to it again.
pub open spec fn settled(u: UrlView) -> bool {
    is_web(u) ==> {
        &&& authority(u) is Some
        &&& u.path.len() > 0 && u.path[0] == '/'
        &&& is_word(target(u))
        &&& u.host->0.len() <= LONGEST_HOST ==> url_parse(authority(u)->0 + target(u)) == Ok::<UrlView, url::ParseError>(
            UrlView { text: authority(u)->0 + target(u), ..u },
        )
        &&& forall|asked: Seq<char>|
            asked.len() > 0 && asked[0] == '/' ==> match #[trigger] url_parse(
                authority(u)->0 + asked,
            ) {
                Ok(v) => same_origin(v, u) && url_parse(v.text) == Ok::<
                    UrlView,
                    url::ParseError,
                >(v),
                Err(_) => (authority(u)->0 + asked).len() > LONGEST_URL || u.host->0.len()
                    > LONGEST_HOST,
            }
    }
}

/// Calls `Url::parse` and, on the URL, `as_str`, `scheme`, `host_str`, `port`, `path` and
/// `query`. Trusted: what they return depends on the text alone, and the components of an
/// `http` or `https` URL are as `settled` says. Which texts are URLs, and what the
/// components of a given one are, stays unsaid beyond that.
#[verifier::external_body]
pub(crate) fn parse_url(input: &str) -> (parsed: Result<UrlParts, url::ParseError>)
    ensures
        match parsed {
            Ok(parts) => url_parse(input@) == Ok::<UrlView, url::ParseError>(parts@) && settled(
                parts@,
            ),
            Err(error) => url_parse(input@) == Err::<UrlView, url::ParseError>(error),
        },
{
    url::Url::parse(input).map(|u| UrlParts {
        text: u.as_str().to_owned(),
        scheme: u.scheme().to_owned(),
        host: u.host_str().map(str::to_owned),
        port: u.port(),
        path: u.path().to_owned(),
        query: u.query().map(str::to_owned),
    })
}

/// Why a relay cannot be started: the text in front of which it is to stand is no URL.
pub struct InvalidOrigin {
    /// What is wrong with it.
    pub cause: url::ParseError,
}

/// Reads the URL in front of which a relay is to stand.
pub fn parse_origin(origin_url: &str) -> (origin: Result<UrlParts, InvalidOrigin>)
    ensures
        match origin {
            Ok(parts) => url_parse(origin_url@) == Ok::<UrlView, url::ParseError>(parts@)
                && settled(parts@),
            Err(error) => url_parse(origin_url@) == Err::<UrlView, url::ParseError>(error.cause),
        },
{
    match parse_url(origin_url) {
        Ok(parts) => Ok(parts),
        Err(cause) => Err(InvalidOrigin { cause }),
    }
}

/// The URL's scheme, host and port, where it has a host.
pub fn authority_of(origin: &UrlParts) -> (text: Option<String>)
    ensures
        optional(text) == authority(origin@),
{
    match &origin.host {
        Some(host) => {
            let mut out = origin.scheme.clone();
            out.append("://");
            out.append(host.as_str());
            match origin.port {
                Some(port) => {
                    out.append(":");
                    push_decimal(&mut out, port);
                },
                None => {},
            }
            Some(out)
        },
        None => None,
    }
}

/// Appends the URL's path and query to `out`.
pub fn push_target(out: &mut String, origin: &UrlParts)
    ensures
        final(out)@ == old(out)@ + target(origin@),
{
    out.append(origin.path.as_str());
    match &origin.query {
        Some(query) => {
            out.append("?");
            out.append(query.as_str());
        },
        None => {},
    }
    proof {
        assert(out@ =~= old(out)@ + target(origin@));
    }
}

} // verus!
