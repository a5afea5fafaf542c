//! The relay: where the player is sent, and what becomes of each request that it makes.

#[allow(unused_imports)]
use crate::head::{
    crlf, field_lines, field_value, is_field, is_word, lemma_lines_cons, lemma_lookup_fields,
    lemma_lookup_nothing, lemma_no_value, lookup, names, rendered, request_line,
    request_line_is_read_back, value_in,
};
use crate::head::{header_value, parse_request_line};
#[allow(unused_imports)]
use crate::origin::{
    authority, is_web, same_origin, settled, target, url_parse, UrlView, LONGEST_HOST,
    LONGEST_URL,
};
use crate::origin::{authority_of, parse_url, push_target, UrlParts};
#[allow(unused_imports)]
use crate::response::simple;
use crate::response::simple_response;
use crate::text::{blank, lines_of, push_decimal, same};
#[allow(unused_imports)]
use crate::text::{
    decimal, is_space, lemma_lead, lemma_not_blank, lemma_position, lines, position, texts, trim,
};
use vstd::prelude::*;

verus! {

/// What becomes of a request, before the address that it asks for is parsed.
pub enum Route {
    /// The connection is closed without an answer.
    Close,
    /// The method is refused.
    Refuse,
    /// The request goes upstream.
    Forward {
        /// Whether the answer is to have no body.
        head_only: bool,
        /// The address that is asked for.
        address: String,
        /// The byte range that is asked for, empty where none is.
        range: String,
    },
}

/// What becomes of a request, over sequences of characters.
#[verifier::ext_equal]
pub enum RouteView {
    Close,
    Refuse,
    Forward { head_only: bool, address: Seq<char>, range: Seq<char> },
}

impl View for Route {
    type V = RouteView;

    open spec fn view(&self) -> RouteView {
        match *self {
            Route::Close => RouteView::Close,
            Route::Refuse => RouteView::Refuse,
            Route::Forward { head_only, address, range } => RouteView::Forward {
                head_only,
                address: address@,
                range: range@,
            },
        }
    }
}

/// The first line of a head, empty where it has none.
pub open spec fn first_line(head: Seq<char>) -> Seq<char> {
    if lines(head).len() == 0 {
        seq![]
    } else {
        lines(head)[0]
    }
}

/// What becomes of the request with the head `head`. A relay that was stopped answers
/// nothing; nor is a blank head answered, one whose first line is no request line, or one
/// whose target is no path. Of the others, `GET` and `HEAD` requests go upstream where the
/// origin has a host.
pub open spec fn routed(origin: UrlView, stopped: bool, head: Seq<char>) -> RouteView {
    if trim(head).len() == 0 || stopped {
        RouteView::Close
    } else {
        match request_line(first_line(head)) {
            None => RouteView::Close,
            Some((method, asked)) => if asked.len() == 0 || asked[0] != '/' {
                RouteView::Close
            } else if method != "GET"@ && method != "HEAD"@ {
                RouteView::Refuse
            } else {
                match authority(origin) {
                    None => RouteView::Close,
                    Some(start) => RouteView::Forward {
                        head_only: method == "HEAD"@,
                        address: start + asked,
                        range: value_in(head, "range"@),
                    },
                }
            },
        }
    }
}

/// Decides what becomes of the request with the head `head`.
pub fn route(origin: &UrlParts, stopped: bool, head: &str) -> (way: Route)
    ensures
        way@ == routed(origin@, stopped, head@),
{
    if blank(head) || stopped {
        return Route::Close;
    }
    let all = lines_of(head);
    let first = if all.len() == 0 {
        ""
    } else {
        all[0]
    };
    proof {
        reveal_strlit("");
        assert(texts(all@).len() == all@.len());
        if all@.len() == 0 {
            assert(first@ =~= first_line(head@));
        } else {
            assert(texts(all@)[0] == first@);
        }
    }
    match parse_request_line(first) {
        None => Route::Close,
        Some((method, asked)) => {
            if asked.is_empty() || asked.get_char(0) != '/' {
                return Route::Close;
            }
            let head_only = same(method, "HEAD");
            if !head_only && !same(method, "GET") {
                return Route::Refuse;
            }
            match authority_of(origin) {
                None => Route::Close,
                Some(start) => {
                    let mut address = start;
                    address.append(asked);
                    Route::Forward { head_only, address, range: header_value(head, "range") }
                },
            }
        },
    }
}

/// A request to the origin.
pub struct UpstreamRequest {
    /// Whether it is a `HEAD` request; it is a `GET` request otherwise.
    pub head_only: bool,
    /// The URL that it asks for.
    pub url: String,
    /// The headers that it carries, in their order.
    pub headers: Vec<(String, String)>,
}

/// A request to the origin, over sequences of characters.
#[verifier::ext_equal]
pub struct RequestView {
    pub head_only: bool,
    pub url: Seq<char>,
    pub headers: Seq<(Seq<char>, Seq<char>)>,
}

/// Headers as sequences of characters.
pub open spec fn pairs(headers: Seq<(String, String)>) -> Seq<(Seq<char>, Seq<char>)> {
    Seq::new(headers.len(), |i: int| (headers[i].0@, headers[i].1@))
}

impl View for UpstreamRequest {
    type V = RequestView;

    open spec fn view(&self) -> RequestView {
        RequestView {
            head_only: self.head_only,
            url: self.url@,
            headers: pairs(self.headers@),
        }
    }
}

/// What the relay does about a request.
pub enum Decision {
    /// Closes the connection without an answer.
    Close,
    /// Answers the player itself and closes the connection.
    Reply(String),
    /// Asks the origin and passes its answer on.
    Fetch(UpstreamRequest),
}

/// What the relay does about a request, over sequences of characters.
#[verifier::ext_equal]
pub enum DecisionView {
    Close,
    Reply(Seq<char>),
    Fetch(RequestView),
}

impl View for Decision {
    type V = DecisionView;

    open spec fn view(&self) -> DecisionView {
        match *self {
            Decision::Close => DecisionView::Close,
            Decision::Reply(text) => DecisionView::Reply(text@),
            Decision::Fetch(request) => DecisionView::Fetch(request@),
        }
    }
}

/// The headers of a request to the origin: the relay's own as they are, and the byte range
/// where one is asked for.
pub open spec fn upstream_headers(
    own: Seq<(Seq<char>, Seq<char>)>,
    range: Seq<char>,
) -> Seq<(Seq<char>, Seq<char>)> {
    if range.len() == 0 {
        own
    } else {
        own.push(("range"@, range))
    }
}

/// What the relay does about a request for an address that was parsed to `parsed`.
pub open spec fn fetched(
    own: Seq<(Seq<char>, Seq<char>)>,
    head_only: bool,
    range: Seq<char>,
    parsed: Result<UrlView, url::ParseError>,
) -> DecisionView {
    match parsed {
        Ok(u) => DecisionView::Fetch(
            RequestView { head_only, url: u.text, headers: upstream_headers(own, range) },
        ),
        Err(_) => DecisionView::Close,
    }
}

/// Decides about a request for an address that was parsed to `parsed`: one that is no URL
/// is not answered.
pub fn fetch(
    own: &Vec<(String, String)>,
    head_only: bool,
    range: String,
    parsed: Result<UrlParts, url::ParseError>,
) -> (decision: Decision)
    ensures
        decision@ == fetched(
            pairs(own@),
            head_only,
            range@,
            match parsed {
                Ok(parts) => Ok(parts@),
                Err(error) => Err(error),
            },
        ),
{
    match parsed {
        Err(_) => Decision::Close,
        Ok(parts) => {
            let mut headers: Vec<(String, String)> = Vec::new();
            let mut i: usize = 0;
            while i < own.len()
                invariant
                    i <= own@.len(),
                    pairs(headers@) == pairs(own@).take(i as int),
                decreases own.len() - i,
            {
                let ghost before = headers@;
                headers.push((own[i].0.clone(), own[i].1.clone()));
                proof {
                    assert(pairs(headers@) =~= pairs(before).push(pairs(own@)[i as int]));
                    assert(pairs(own@).take(i + 1) =~= pairs(own@).take(i as int).push(
                        pairs(own@)[i as int],
                    ));
                }
                i += 1;
            }
            proof {
                assert(pairs(own@).take(i as int) =~= pairs(own@));
            }
            let ghost wanted = range@;
            let ghost before = headers@;
            if !range.as_str().is_empty() {
                headers.push(("range".to_owned(), range));
                proof {
                    assert(pairs(headers@) =~= pairs(before).push(("range"@, wanted)));
                }
            }
            Decision::Fetch(UpstreamRequest { head_only, url: parts.text, headers })
        },
    }
}

/// What the relay does about the request with the head `head`.
pub open spec fn decided(
    origin: UrlView,
    own: Seq<(Seq<char>, Seq<char>)>,
    stopped: bool,
    head: Seq<char>,
) -> DecisionView {
    match routed(origin, stopped, head) {
        RouteView::Close => DecisionView::Close,
        RouteView::Refuse => DecisionView::Reply(simple(405, "Method Not Allowed"@)),
        RouteView::Forward { head_only, address, range } => fetched(
            own,
            head_only,
            range,
            url_parse(address),
        ),
    }
}

/// What the relay goes by when it decides about a request.
pub struct Session {
    origin: UrlParts,
    headers: Vec<(String, String)>,
    stopped: bool,
}

impl Session {
    /// The URL in front of which the relay stands.
    pub closed spec fn origin(&self) -> UrlView {
        self.origin@
    }

    /// The headers that go with every upstream request.
    pub closed spec fn headers(&self) -> Seq<(Seq<char>, Seq<char>)> {
        pairs(self.headers@)
    }

    /// Whether the relay was stopped.
    pub closed spec fn stopped(&self) -> bool {
        self.stopped
    }
}

/// A loopback relay serving one playback URL.
pub struct VlcRelay {
    /// Local base address the player connects to, e.g. `http://127.0.0.1:57021`.
    pub base_url: String,
    /// The exact local URL to hand to the player.
    pub play_url: String,
    /// What it decides by.
    pub session: Session,
}

/// The relay that listens on `port`, in front of `origin`, and sends `headers` as they are
/// with every upstream request.
pub fn start(origin: UrlParts, headers: Vec<(String, String)>, port: u16) -> (relay: VlcRelay)
    ensures
        relay.base_url@ == "http://127.0.0.1:"@ + decimal(port as nat),
        relay.play_url@ == relay.base_url@ + target(origin@),
        relay.session.origin() == origin@,
        relay.session.headers() == pairs(headers@),
        !relay.session.stopped(),
{
    let mut base_url = "http://127.0.0.1:".to_owned();
    push_decimal(&mut base_url, port);
    let mut play_url = base_url.clone();
    push_target(&mut play_url, &origin);
    VlcRelay { base_url, play_url, session: Session { origin, headers, stopped: false } }
}

impl VlcRelay {
    /// Stops answering new requests.
    ///
    /// Requests that were decided before still get their whole answer, so the relay never
    /// corrupts a stream mid-request.
    pub fn stop(&mut self)
        ensures
            final(self).session.stopped(),
            final(self).session.origin() == old(self).session.origin(),
            final(self).session.headers() == old(self).session.headers(),
            final(self).base_url == old(self).base_url,
            final(self).play_url == old(self).play_url,
    {
        self.session.stopped = true;
    }

    /// Decides about the request with the head `head`.
    pub fn handle_request(&self, head: &str) -> (decision: Decision)
        ensures
            decision@ == decided(
                self.session.origin(),
                self.session.headers(),
                self.session.stopped(),
                head@,
            ),
    {
        match route(&self.session.origin, self.session.stopped, head) {
            Route::Close => Decision::Close,
            Route::Refuse => Decision::Reply(simple_response(405, "Method Not Allowed")),
            Route::Forward { head_only, address, range } => {
                let parsed = parse_url(address.as_str());
                fetch(&self.session.headers, head_only, range, parsed)
            },
        }
    }
}

/// A stopped relay answers no request.
pub proof fn stopped_relay_answers_nothing(
    origin: UrlView,
    own: Seq<(Seq<char>, Seq<char>)>,
    head: Seq<char>,
)
    ensures
        decided(origin, own, true, head) == DecisionView::Close,
{
}

/// Every request that goes upstream carries the relay's headers as they are, and besides
/// them at most a byte range, the one that the player asked for.
pub proof fn upstream_requests_carry_the_headers(
    origin: UrlView,
    own: Seq<(Seq<char>, Seq<char>)>,
    stopped: bool,
    head: Seq<char>,
)
    ensures
        decided(origin, own, stopped, head) matches DecisionView::Fetch(request) ==> {
            &&& request.headers == upstream_headers(own, value_in(head, "range"@))
            &&& own.is_prefix_of(request.headers)
        },
{
    let range = value_in(head, "range"@);
    assert(own =~= upstream_headers(own, range).take(own.len() as int));
}

/// Every request that goes upstream goes to the origin: the URL that it asks for parses to one
/// with the scheme, the host and the port of the URL in front of which the relay stands,
/// whatever the player asks for.
pub proof fn upstream_requests_go_to_the_origin(
    origin: UrlView,
    own: Seq<(Seq<char>, Seq<char>)>,
    stopped: bool,
    head: Seq<char>,
)
    requires
        settled(origin),
        is_web(origin),
    ensures
        decided(origin, own, stopped, head) matches DecisionView::Fetch(request) ==> (url_parse(
            request.url,
        ) matches Ok(u) && u.text == request.url && same_origin(u, origin)),
{
    if let DecisionView::Fetch(request) = decided(origin, own, stopped, head) {
        let (_, asked) = request_line(first_line(head)).unwrap();
        let parsed = url_parse(authority(origin)->0 + asked);
        assert(same_origin(parsed->Ok_0, origin));
    }
}

/// The first line of a request for `asked`.
pub open spec fn asking(method: Seq<char>, asked: Seq<char>) -> Seq<char> {
    method + seq![' '] + asked + seq![' '] + "HTTP/1.1"@
}

/// The head of a request for `asked` as far as its headers `fields`.
pub open spec fn opening(
    method: Seq<char>,
    asked: Seq<char>,
    fields: Seq<(Seq<char>, Seq<char>)>,
) -> Seq<char> {
    asking(method, asked) + crlf() + field_lines(fields)
}

proof fn lemma_opening_is_read(
    method: Seq<char>,
    asked: Seq<char>,
    fields: Seq<(Seq<char>, Seq<char>)>,
    more: Seq<char>,
)
    requires
        is_word(method),
        is_word(asked),
        forall|i: int| 0 <= i < fields.len() ==> is_field(#[trigger] fields[i]),
    ensures
        trim(opening(method, asked, fields) + more).len() > 0,
        request_line(first_line(opening(method, asked, fields) + more)) == Some((method, asked)),
        value_in(opening(method, asked, fields) + more, "range"@) == (if names(fields, "range"@) {
            field_value(fields, "range"@)
        } else {
            lookup(lines(more), "range"@)
        }),
{
    let line = asking(method, asked);
    let head = opening(method, asked, fields) + more;
    lemma_lead(method, false);
    lemma_lead(asked, false);
    reveal_strlit("HTTP/1.1");
    let m = method.len() as int;
    let a = asked.len() as int;
    assert forall|k: int| 0 <= k < line.len() implies line[k] != '\n' by {
        if k < m {
            assert(line[k] == method[k]);
        } else if m < k <= m + a {
            assert(line[k] == asked[k - m - 1]);
        }
    }
    let rest = field_lines(fields) + more;
    assert(head =~= line + crlf() + rest);
    lemma_lines_cons(line, rest);
    request_line_is_read_back(method, asked, "HTTP/1.1"@);
    lemma_lookup_fields(fields, more, "range"@);
    assert(lines(head).skip(1) =~= lines(rest));
    assert(head[0] == method[0]);
    lemma_not_blank(head);
}

proof fn lemma_request_is_read(
    method: Seq<char>,
    asked: Seq<char>,
    fields: Seq<(Seq<char>, Seq<char>)>,
)
    requires
        is_word(method),
        is_word(asked),
        forall|i: int| 0 <= i < fields.len() ==> is_field(#[trigger] fields[i]),
    ensures
        trim(rendered(asking(method, asked), fields)).len() > 0,
        request_line(first_line(rendered(asking(method, asked), fields))) == Some((method, asked)),
        value_in(rendered(asking(method, asked), fields), "range"@) == field_value(
            fields,
            "range"@,
        ),
{
    lemma_opening_is_read(method, asked, fields, crlf());
    lemma_lookup_nothing("range"@);
    if !names(fields, "range"@) {
        lemma_no_value(fields, "range"@);
    }
}

/// Every `GET` or `HEAD` request for a path is passed on so, whatever follows its first
/// headers; where none of those is a byte range, one that follows goes with it.
pub proof fn requests_are_passed_on_whatever_follows(
    origin: UrlView,
    own: Seq<(Seq<char>, Seq<char>)>,
    method: Seq<char>,
    asked: Seq<char>,
    fields: Seq<(Seq<char>, Seq<char>)>,
    more: Seq<char>,
)
    requires
        settled(origin),
        is_web(origin),
        method == "GET"@ || method == "HEAD"@,
        is_word(asked) && asked[0] == '/',
        origin.host->0.len() <= LONGEST_HOST,
        (authority(origin)->0 + asked).len() <= LONGEST_URL,
        forall|i: int| 0 <= i < fields.len() ==> is_field(#[trigger] fields[i]),
    ensures
        ({
            let parsed = url_parse(authority(origin)->0 + asked);
            let range = if names(fields, "range"@) {
                field_value(fields, "range"@)
            } else {
                lookup(lines(more), "range"@)
            };
            &&& parsed is Ok
            &&& same_origin(parsed->Ok_0, origin)
            &&& decided(origin, own, false, opening(method, asked, fields) + more)
                == DecisionView::Fetch(
                RequestView {
                    head_only: method == "HEAD"@,
                    url: parsed->Ok_0.text,
                    headers: upstream_headers(own, range),
                },
            )
        }),
{
    reveal_strlit("GET");
    reveal_strlit("HEAD");
    crate::text::lemma_lead_is(method, false, method.len() as int);
    lemma_opening_is_read(method, asked, fields, more);
    let parsed = url_parse(authority(origin)->0 + asked);
    assert(parsed is Ok);
}

/// Every `GET` or `HEAD` request for a path is passed on, unless the relay was stopped: to
/// the address that the path has at the origin, with the relay's headers, and with the byte
/// range that the player asks for in the first header so called. The origin's host, and the
/// address, are not too long.
pub proof fn requests_are_passed_on(
    origin: UrlView,
    own: Seq<(Seq<char>, Seq<char>)>,
    method: Seq<char>,
    asked: Seq<char>,
    fields: Seq<(Seq<char>, Seq<char>)>,
)
    requires
        settled(origin),
        is_web(origin),
        method == "GET"@ || method == "HEAD"@,
        is_word(asked) && asked[0] == '/',
        origin.host->0.len() <= LONGEST_HOST,
        (authority(origin)->0 + asked).len() <= LONGEST_URL,
        forall|i: int| 0 <= i < fields.len() ==> is_field(#[trigger] fields[i]),
    ensures
        ({
            let parsed = url_parse(authority(origin)->0 + asked);
            &&& parsed is Ok
            &&& same_origin(parsed->Ok_0, origin)
            &&& decided(origin, own, false, rendered(asking(method, asked), fields))
                == DecisionView::Fetch(
                RequestView {
                    head_only: method == "HEAD"@,
                    url: parsed->Ok_0.text,
                    headers: upstream_headers(own, field_value(fields, "range"@)),
                },
            )
        }),
{
    reveal_strlit("GET");
    reveal_strlit("HEAD");
    crate::text::lemma_lead_is(method, false, method.len() as int);
    lemma_request_is_read(method, asked, fields);
    let parsed = url_parse(authority(origin)->0 + asked);
    assert(parsed is Ok);
}

/// Playing the relay's URL plays the original one: a request for what follows the base
/// address in `play_url` goes upstream to the URL in front of which the relay stands, without
/// its credentials and its fragment. That URL's host is not too long.
pub proof fn playing_asks_for_the_origin_url(
    origin: UrlView,
    own: Seq<(Seq<char>, Seq<char>)>,
    method: Seq<char>,
    fields: Seq<(Seq<char>, Seq<char>)>,
)
    requires
        settled(origin),
        is_web(origin),
        origin.host->0.len() <= LONGEST_HOST,
        method == "GET"@ || method == "HEAD"@,
        forall|i: int| 0 <= i < fields.len() ==> is_field(#[trigger] fields[i]),
    ensures
        decided(origin, own, false, rendered(asking(method, target(origin)), fields))
            == DecisionView::Fetch(
            RequestView {
                head_only: method == "HEAD"@,
                url: authority(origin)->0 + target(origin),
                headers: upstream_headers(own, field_value(fields, "range"@)),
            },
        ),
{
    reveal_strlit("GET");
    reveal_strlit("HEAD");
    crate::text::lemma_lead_is(method, false, method.len() as int);
    assert(target(origin)[0] == '/');
    lemma_request_is_read(method, target(origin), fields);
}

/// A path up to and with its last slash.
pub open spec fn folder(path: Seq<char>) -> Seq<char>
    decreases path.len(),
{
    if path.len() > 0 && path.last() != '/' {
        folder(path.drop_last())
    } else {
        path
    }
}

/// What a player asks for when it meets `reference` in the document at `u`: the document
/// itself where the reference is empty, another query of it, a path of its own, or what
/// stands beside the document. A fragment is not asked for.
pub open spec fn resolved(u: UrlView, reference: Seq<char>) -> Seq<char> {
    let r = reference.take(position(reference, '#') as int);
    if r.len() == 0 {
        target(u)
    } else if r[0] == '?' {
        u.path + r
    } else if r[0] == '/' {
        r
    } else {
        folder(u.path) + r
    }
}

/// Whether a text is a reference without scheme and authority, in a form that a document may
/// hold: without white space and backslashes, without two slashes at its start, and without a
/// colon in its first segment.
pub open spec fn is_reference(r: Seq<char>) -> bool {
    &&& forall|i: int| 0 <= i < r.len() ==> !is_space(#[trigger] r[i]) && r[i] != '\\'
    &&& !(r.len() >= 2 && r[0] == '/' && r[1] == '/')
    &&& position(r, ':') >= position(r, '/') || position(r, ':') >= position(r, '?') || position(
        r,
        ':',
    ) >= position(r, '#')
}

proof fn lemma_folder(path: Seq<char>)
    requires
        path.len() > 0,
        path[0] == '/',
    ensures
        0 < folder(path).len() <= path.len(),
        folder(path) == path.take(folder(path).len() as int),
    decreases path.len(),
{
    if path.last() != '/' {
        let most = path.drop_last();
        lemma_folder(most);
        let n = folder(most).len() as int;
        assert(most.take(n) =~= path.take(n));
    } else {
        assert(path.take(path.len() as int) =~= path);
    }
}

proof fn lemma_resolved(u: UrlView, reference: Seq<char>)
    requires
        settled(u),
        is_web(u),
        is_reference(reference),
    ensures
        is_word(resolved(u, reference)),
        resolved(u, reference)[0] == '/',
{
    lemma_position(reference, '#');
    let n = position(reference, '#') as int;
    let r = reference.take(n);
    let all = target(u);
    let asked = resolved(u, reference);
    lemma_lead(all, false);
    lemma_folder(u.path);
    assert forall|k: int| 0 <= k < u.path.len() implies !is_space(#[trigger] u.path[k]) by {
        assert(u.path[k] == all[k]);
    }
    assert forall|k: int| 0 <= k < r.len() implies !is_space(#[trigger] r[k]) by {
        assert(r[k] == reference[k]);
    }
    assert forall|k: int| 0 <= k < asked.len() implies is_space(#[trigger] asked[k]) == false by {
        if r.len() > 0 && r[0] == '?' {
            if k < u.path.len() {
                assert(asked[k] == u.path[k]);
            } else {
                assert(asked[k] == r[k - u.path.len()]);
            }
        } else if r.len() > 0 && r[0] != '/' {
            let f = folder(u.path).len() as int;
            if k < f {
                assert(asked[k] == u.path[k]);
            } else {
                assert(asked[k] == r[k - f]);
            }
        }
    }
    crate::text::lemma_lead_is(asked, false, asked.len() as int);
}

/// Relative references keep landing on the relay, and from there on the origin. What a player
/// asks for when it meets one in the document at `play`, a URL with the path and the query of
/// the origin's as `play_url` is, starts with a slash, so that it is a path behind the relay's
/// base address; and the request for it goes upstream to the address that the reference has in
/// the document at the origin's URL, with the relay's headers.
pub proof fn relative_references_land_on_the_origin(
    origin: UrlView,
    play: UrlView,
    own: Seq<(Seq<char>, Seq<char>)>,
    method: Seq<char>,
    reference: Seq<char>,
    fields: Seq<(Seq<char>, Seq<char>)>,
)
    requires
        settled(origin),
        is_web(origin),
        play.path == origin.path,
        play.query == origin.query,
        method == "GET"@ || method == "HEAD"@,
        is_reference(reference),
        origin.host->0.len() <= LONGEST_HOST,
        (authority(origin)->0 + resolved(origin, reference)).len() <= LONGEST_URL,
        forall|i: int| 0 <= i < fields.len() ==> is_field(#[trigger] fields[i]),
    ensures
        ({
            let asked = resolved(play, reference);
            let parsed = url_parse(authority(origin)->0 + resolved(origin, reference));
            &&& asked[0] == '/'
            &&& parsed is Ok
            &&& same_origin(parsed->Ok_0, origin)
            &&& decided(origin, own, false, rendered(asking(method, asked), fields))
                == DecisionView::Fetch(
                RequestView {
                    head_only: method == "HEAD"@,
                    url: parsed->Ok_0.text,
                    headers: upstream_headers(own, field_value(fields, "range"@)),
                },
            )
        }),
{
    lemma_resolved(origin, reference);
    assert(resolved(play, reference) =~= resolved(origin, reference));
    requests_are_passed_on(origin, own, method, resolved(origin, reference), fields);
}

/// A request for a path with another method than `GET` and `HEAD` is answered with status
/// 405 and goes nowhere, unless the relay was stopped.
pub proof fn other_methods_are_refused(
    origin: UrlView,
    own: Seq<(Seq<char>, Seq<char>)>,
    method: Seq<char>,
    asked: Seq<char>,
    fields: Seq<(Seq<char>, Seq<char>)>,
)
    requires
        is_word(method) && method != "GET"@ && method != "HEAD"@,
        is_word(asked) && asked[0] == '/',
        forall|i: int| 0 <= i < fields.len() ==> is_field(#[trigger] fields[i]),
    ensures
        decided(origin, own, false, rendered(asking(method, asked), fields))
            == DecisionView::Reply(simple(405, "Method Not Allowed"@)),
{
    lemma_request_is_read(method, asked, fields);
}

} // verus!
