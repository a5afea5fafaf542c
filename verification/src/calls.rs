//! What the library's functions give back when they are called, said of the values that go in
//! and come out.

#[allow(unused_imports)]
use crate::answers::{
    answer_is_read_whole, answers_say_their_status, bare_answers_are_written_so,
    each_header_adds_its_line, headers_are_passed_on_by_name, is_padding, is_showable, last_lines,
    own_answers_are_written_so, passed_names, values_reach_the_player_byte_for_byte,
};
#[allow(unused_imports)]
use crate::head::{
    head_of, header_value, left_after, parse_request_line, reads, utf8_repaired, HeadReader,
    MAX_HEAD_BYTES,
};
#[allow(unused_imports)]
use crate::meaning::{
    case_is_that_of_ascii_letters, digits_say_the_number, each_read_settles_the_head_or_goes_on,
    first_header_so_called_gives_the_value, headers_called_otherwise_give_no_value, is_closed,
    is_gap, is_same_letter, is_solid, is_tight, lines_end_at_line_feeds,
    lines_without_a_colon_give_no_value, number, request_line_names_two_words,
    splitting_parts_at_the_first, trimming_leaves_the_text_whole,
};
#[allow(unused_imports)]
use crate::origin::{authority_of, parse_origin, push_target, url_parse, InvalidOrigin, UrlParts};
#[allow(unused_imports)]
use crate::relay::{
    fetch, first_line, pairs, route, start, Decision, Route, UpstreamRequest, VlcRelay,
};
#[allow(unused_imports)]
use crate::requests::{
    heads_without_two_words_are_not_answered, is_parted, requests_are_decided_by_their_first_words,
    target_holds_path_and_query,
};
#[allow(unused_imports)]
use crate::response::{
    passed_on, received, response_head, response_head_saying, simple_response, standard_reason,
    Body,
};
#[allow(unused_imports)]
use crate::text::{
    blank, decimal, is_space, lines_of, push_decimal, same_ignoring_case, split_at_first, texts,
    trimmed,
};
use vstd::prelude::*;
#[allow(unused_imports)]
use vstd::utf8::{encode_utf8, valid_utf8};

verus! {

/// What `trimmed` gives back lies in the text between white space, and has none at its ends.
pub proof fn trimmed_text_lies_between_white_space(s: &str, t: &str)
    requires
        call_ensures(trimmed, (s,), t),
    ensures
        is_tight(t@),
        exists|before: Seq<char>, behind: Seq<char>|
            #![trigger is_gap(before), is_gap(behind)]
            is_gap(before) && is_gap(behind) && s@ == before + t@ + behind,
{
    trimming_leaves_the_text_whole(s@);
}

/// A text is blank if it is white space throughout.
pub proof fn blank_text_is_white_space(s: &str, yes: bool)
    requires
        call_ensures(blank, (s,), yes),
    ensures
        yes == is_gap(s@),
{
    trimming_leaves_the_text_whole(s@);
}

/// The two parts of a text make it up again with the character between them, which the first
/// part does not hold; a text that does not hold it is not split.
pub proof fn parts_make_up_the_text(
    s: &str,
    c: char,
    before: Seq<char>,
    behind: Seq<char>,
    parts: Option<(&str, &str)>,
)
    requires
        call_ensures(split_at_first, (s, c), parts),
        !before.contains(c),
    ensures
        s@ == before + seq![c] + behind ==> (parts matches Some((a, b)) && a@ == before && b@
            == behind),
        s@ == before ==> parts is None,
{
    splitting_parts_at_the_first(before, c, behind);
}

/// The lines of a text are its first line and those of the rest.
pub proof fn lines_are_taken_one_by_one(
    s: &str,
    rest: &str,
    line: Seq<char>,
    all: Vec<&str>,
    others: Vec<&str>,
)
    requires
        call_ensures(lines_of, (s,), all),
        call_ensures(lines_of, (rest,), others),
        !line.contains('\n'),
        s@ == line + seq!['\r', '\n'] + rest@ || s@ == line + seq!['\n'] + rest@ && (line.len() == 0
            || line[line.len() - 1] != '\r'),
    ensures
        all@.len() == others@.len() + 1,
        all@[0]@ == line,
        forall|i: int| 0 <= i < others@.len() ==> #[trigger] others@[i]@ == all@[i + 1]@,
{
    lines_end_at_line_feeds(line, rest@);
    assert(texts(all@) == seq![line] + texts(others@));
    assert(texts(all@).len() == all@.len());
    assert(texts(all@)[0] == all@[0]@);
    assert forall|i: int| 0 <= i < others@.len() implies #[trigger] others@[i]@ == all@[i + 1]@ by {
        assert(texts(others@)[i] == others@[i]@);
        assert(texts(all@)[i + 1] == all@[i + 1]@);
    }
}

/// A text without a line feed is one line, and none where it is empty.
pub proof fn text_without_line_feed_is_a_line(s: &str, all: Vec<&str>)
    requires
        call_ensures(lines_of, (s,), all),
        !s@.contains('\n'),
    ensures
        s@.len() == 0 ==> all@.len() == 0,
        s@.len() > 0 ==> all@.len() == 1 && all@[0]@ == s@,
{
    lines_end_at_line_feeds(s@, Seq::empty());
    assert(texts(all@).len() == all@.len());
    if s@.len() == 0 {
        assert(s@ =~= Seq::<char>::empty());
    } else {
        assert(texts(all@)[0] == all@[0]@);
    }
}

/// Texts are compared letter by letter, and the case of ASCII letters makes no difference.
pub proof fn texts_are_compared_letter_by_letter(a: &str, b: &str, yes: bool)
    requires
        call_ensures(same_ignoring_case, (a, b), yes),
    ensures
        yes == (a@.len() == b@.len() && forall|i: int|
            0 <= i < a@.len() ==> is_same_letter(#[trigger] a@[i], b@[i])),
{
    case_is_that_of_ascii_letters(a@, b@);
}

/// What is appended for a number is made of digits that say it, without a zero before them.
pub proof fn digits_are_appended(out: &mut String, n: u16)
    requires
        call_ensures(push_decimal, (out, n), ()),
    ensures
        exists|digits: Seq<char>|
            #![trigger number(digits)]
            {
                &&& final(out)@ == old(out)@ + digits
                &&& number(digits) == n
                &&& digits.len() > 0
                &&& digits.len() > 1 ==> digits[0] != '0'
                &&& forall|k: int| 0 <= k < digits.len() ==> '0' <= #[trigger] digits[k] <= '9'
            },
{
    digits_say_the_number(n as nat);
    assert(number(decimal(n as nat)) == n);
}

/// A request line gives its first two words, and nothing where it has fewer.
pub proof fn request_line_gives_two_words(
    line: &str,
    before: Seq<char>,
    method: Seq<char>,
    between: Seq<char>,
    asked: Seq<char>,
    behind: Seq<char>,
    parts: Option<(&str, &str)>,
)
    requires
        call_ensures(parse_request_line, (line,), parts),
        is_gap(before),
        is_solid(method) && method.len() > 0,
        is_gap(between) && between.len() > 0,
        is_solid(asked) && asked.len() > 0,
        behind.len() > 0 ==> is_space(behind[0]),
    ensures
        line@ == before + method + between + asked + behind ==> (parts matches Some((a, b)) && a@
            == method && b@ == asked),
        line@ == before + method + between || line@ == before + method || line@ == before
            ==> parts is None,
{
    request_line_names_two_words(before, method, between, asked, behind);
}

/// The value of a header is what the first header so called says, behind its colon and without
/// the white space round it.
pub proof fn header_gives_its_value(
    head: &str,
    name: &str,
    first: Seq<char>,
    a: Seq<char>,
    called: Seq<char>,
    b: Seq<char>,
    c: Seq<char>,
    says: Seq<char>,
    d: Seq<char>,
    rest: Seq<char>,
    value: String,
)
    requires
        call_ensures(header_value, (head, name), value),
        head@ == first + seq!['\n'] + (a + called + b + seq![':'] + (c + says + d)) + rest,
        !first.contains('\n'),
        is_gap(a) && is_tight(called) && is_gap(b),
        !(a + called + b).contains(':'),
        called.len() == name@.len(),
        forall|i: int| 0 <= i < called.len() ==> is_same_letter(#[trigger] called[i], name@[i]),
        is_gap(c) && is_tight(says) && is_gap(d),
        !(a + called + b + seq![':'] + (c + says + d)).contains('\n'),
        rest.len() > 0 ==> rest[0] == '\n',
    ensures
        value@ == says,
{
    case_is_that_of_ascii_letters(called, name@);
    first_header_so_called_gives_the_value(first, a, called, b, c, says, d, rest, name@);
}

/// A line without a colon, and a header called otherwise, make no difference to a value.
pub proof fn other_lines_are_passed_over(
    head: &str,
    shorter: &str,
    name: &str,
    first: Seq<char>,
    line: Seq<char>,
    a: Seq<char>,
    called: Seq<char>,
    b: Seq<char>,
    says: Seq<char>,
    rest: Seq<char>,
    value: String,
    another: String,
)
    requires
        call_ensures(header_value, (head, name), value),
        call_ensures(header_value, (shorter, name), another),
        head@ == first + seq!['\n'] + line + seq!['\n'] + rest,
        shorter@ == first + seq!['\n'] + rest,
        !first.contains('\n'),
        !line.contains('\n'),
        !line.contains(':') || {
            &&& line == a + called + b + seq![':'] + says
            &&& is_gap(a) && is_tight(called) && is_gap(b)
            &&& !(a + called + b).contains(':')
            &&& called.len() != name@.len() || exists|i: int|
                0 <= i < called.len() && !is_same_letter(#[trigger] called[i], name@[i])
        },
    ensures
        value@ == another@,
{
    if !line.contains(':') {
        lines_without_a_colon_give_no_value(first, line, rest, name@);
    } else {
        case_is_that_of_ascii_letters(called, name@);
        headers_called_otherwise_give_no_value(first, a, called, b, says, rest, name@);
    }
}

/// A head of one line has no header; nor has one whose second line ends it and is no header so
/// called.
pub proof fn heads_without_the_header_give_nothing(
    head: &str,
    name: &str,
    first: Seq<char>,
    line: Seq<char>,
    a: Seq<char>,
    called: Seq<char>,
    b: Seq<char>,
    says: Seq<char>,
    value: String,
)
    requires
        call_ensures(header_value, (head, name), value),
        head@ == first || head@ == first + seq!['\n'] + line,
        !first.contains('\n'),
        !line.contains('\n'),
        !line.contains(':') || {
            &&& line == a + called + b + seq![':'] + says
            &&& is_gap(a) && is_tight(called) && is_gap(b)
            &&& !(a + called + b).contains(':')
            &&& called.len() != name@.len() || exists|i: int|
                0 <= i < called.len() && !is_same_letter(#[trigger] called[i], name@[i])
        },
    ensures
        value@.len() == 0,
{
    let none = Seq::<char>::empty();
    lines_without_a_colon_give_no_value(first, none, none, name@);
    if !line.contains(':') {
        lines_without_a_colon_give_no_value(first, line, none, name@);
    } else {
        case_is_that_of_ascii_letters(called, name@);
        headers_called_otherwise_give_no_value(first, a, called, b, says, none, name@);
    }
}

/// The URL in front of which a relay is to stand is the one that its text parses to, and where
/// it parses to none, the cause is given.
pub proof fn origin_is_what_the_text_parses_to(
    text: &str,
    origin: Result<UrlParts, InvalidOrigin>,
)
    requires
        call_ensures(parse_origin, (text,), origin),
    ensures
        match url_parse(text@) {
            Ok(u) => origin matches Ok(parts) && parts@ == u,
            Err(cause) => origin matches Err(error) && error.cause == cause,
        },
{
}

/// What is appended for a URL is its path, and behind a question mark its query.
pub proof fn path_and_query_are_appended(out: &mut String, origin: UrlParts)
    requires
        call_ensures(push_target, (out, &origin), ()),
    ensures
        origin.query is None ==> final(out)@ == old(out)@ + origin.path@,
        origin.query is Some ==> final(out)@ == old(out)@ + (origin.path@ + seq!['?']
            + origin.query->0@),
{
    target_holds_path_and_query(origin@);
}

/// A URL's scheme, host and port as they are put together, where it has a host.
pub proof fn authority_is_put_together(origin: UrlParts, text: Option<String>)
    requires
        call_ensures(authority_of, (&origin,), text),
    ensures
        text is Some == origin.host is Some,
        origin.host is Some && origin.port is None ==> text->0@ == origin.scheme@ + "://"@
            + origin.host->0@,
        origin.host is Some && origin.port is Some ==> text->0@ == origin.scheme@ + "://"@
            + origin.host->0@ + ":"@ + decimal(origin.port->0 as nat),
{
}

/// What goes upstream is the URL's text, the relay's headers one by one, and behind them the
/// byte range unless it is empty.
pub proof fn fetching_keeps_the_headers(
    own: Vec<(String, String)>,
    head_only: bool,
    range: String,
    parsed: Result<UrlParts, url::ParseError>,
    decision: Decision,
)
    requires
        call_ensures(fetch, (&own, head_only, range, parsed), decision),
    ensures
        parsed is Err ==> decision is Close,
        parsed is Ok ==> (decision matches Decision::Fetch(request) && {
            let n = own@.len();
            &&& request.head_only == head_only
            &&& request.url@ == parsed->Ok_0.text@
            &&& request.headers@.len() == (if range@.len() > 0 {
                n + 1
            } else {
                n
            })
            &&& forall|i: int|
                0 <= i < n ==> (#[trigger] request.headers@[i]).0@ == own@[i].0@
                    && request.headers@[i].1@ == own@[i].1@
            &&& range@.len() > 0 ==> request.headers@[n as int].0@ == "range"@
                && request.headers@[n as int].1@ == range@
        }),
{
    if parsed is Ok {
        let request = decision->Fetch_0;
        lemma_headers(request, own@, range@);
    }
}

proof fn lemma_headers(
    request: UpstreamRequest,
    own: Seq<(String, String)>,
    range: Seq<char>,
)
    requires
        request@.headers == (if range.len() > 0 {
            pairs(own).push(("range"@, range))
        } else {
            pairs(own)
        }),
    ensures
        request.headers@.len() == (if range.len() > 0 {
            own.len() + 1
        } else {
            own.len()
        }),
        forall|i: int|
            0 <= i < own.len() ==> (#[trigger] request.headers@[i]).0@ == own[i].0@
                && request.headers@[i].1@ == own[i].1@,
        range.len() > 0 ==> request.headers@[own.len() as int].0@ == "range"@
            && request.headers@[own.len() as int].1@ == range,
{
    let n = own.len() as int;
    assert(pairs(request.headers@).len() == request.headers@.len());
    assert forall|i: int| 0 <= i < n implies (#[trigger] request.headers@[i]).0@ == own[i].0@
        && request.headers@[i].1@ == own[i].1@ by {
        assert(pairs(request.headers@)[i] == pairs(own)[i]);
    }
    if range.len() > 0 {
        assert(pairs(request.headers@)[n] == ("range"@, range));
    }
}

/// A started relay listens on the loopback address, on the port that it was given, and the
/// player is sent to the path and the query of the URL behind it.
pub proof fn relay_listens_on_loopback(
    origin: UrlParts,
    headers: Vec<(String, String)>,
    port: u16,
    relay: VlcRelay,
)
    requires
        call_ensures(start, (origin, headers, port), relay),
    ensures
        relay.base_url@ == "http://127.0.0.1:"@ + decimal(port as nat),
        origin.query is None ==> relay.play_url@ == relay.base_url@ + origin.path@,
        origin.query is Some ==> relay.play_url@ == relay.base_url@ + (origin.path@ + seq!['?']
            + origin.query->0@),
{
    target_holds_path_and_query(origin@);
}

/// What a relay that was started and not stopped does about a request, by the first two words
/// of the head's first line, by the URL and the headers that it was started with, and by the
/// byte range that the head asks for.
pub proof fn started_relay_decides(
    origin: UrlParts,
    headers: Vec<(String, String)>,
    port: u16,
    relay: VlcRelay,
    head: &str,
    range: String,
    before: Seq<char>,
    method: Seq<char>,
    between: Seq<char>,
    asked: Seq<char>,
    behind: Seq<char>,
    tail: Seq<char>,
    decision: Decision,
)
    requires
        call_ensures(start, (origin, headers, port), relay),
        call_ensures(VlcRelay::handle_request, (&relay, head), decision),
        call_ensures(header_value, (head, "range"), range),
        head@ == before + method + between + asked + behind + tail,
        is_gap(before),
        is_solid(method) && method.len() > 0,
        is_gap(between) && between.len() > 0,
        is_solid(asked) && asked.len() > 0,
        behind.len() > 0 ==> is_space(behind[0]),
        is_parted(before + method + between + asked + behind, tail),
    ensures
        asked[0] != '/' ==> decision is Close,
        asked[0] == '/' && method != "GET"@ && method != "HEAD"@ ==> (decision matches Decision::Reply(
            text,
        ) && text@
            == "HTTP/1.1 405 Method Not Allowed\r\nContent-Length: 0\r\nConnection: close\r\n\r\n"@),
        asked[0] == '/' && (method == "GET"@ || method == "HEAD"@) ==> if origin.host is None {
            decision is Close
        } else {
            let address = origin.scheme@ + "://"@ + origin.host->0@ + (match origin.port {
                Some(port) => ":"@ + decimal(port as nat),
                None => Seq::empty(),
            }) + asked;
            match url_parse(address) {
                Err(_) => decision is Close,
                Ok(u) => decision matches Decision::Fetch(request) && {
                    let n = headers@.len();
                    &&& request.head_only == (method == "HEAD"@)
                    &&& request.url@ == u.text
                    &&& request.headers@.len() == (if range@.len() > 0 {
                        n + 1
                    } else {
                        n
                    })
                    &&& forall|i: int|
                        0 <= i < n ==> (#[trigger] request.headers@[i]).0@ == headers@[i].0@
                            && request.headers@[i].1@ == headers@[i].1@
                    &&& range@.len() > 0 ==> request.headers@[n as int].0@ == "range"@
                        && request.headers@[n as int].1@ == range@
                },
            }
        },
{
    requests_are_decided_by_their_first_words(
        origin@,
        pairs(headers@),
        before,
        method,
        between,
        asked,
        behind,
        tail,
    );
    if decision is Fetch {
        lemma_headers(decision->Fetch_0, headers@, range@);
    }
}

/// Which way a request goes, by the first two words of the head's first line.
pub proof fn first_words_show_the_way(
    origin: UrlParts,
    stopped: bool,
    head: &str,
    range: String,
    before: Seq<char>,
    method: Seq<char>,
    between: Seq<char>,
    asked: Seq<char>,
    behind: Seq<char>,
    tail: Seq<char>,
    way: Route,
)
    requires
        call_ensures(route, (&origin, stopped, head), way),
        call_ensures(header_value, (head, "range"), range),
        head@ == before + method + between + asked + behind + tail,
        is_gap(before),
        is_solid(method) && method.len() > 0,
        is_gap(between) && between.len() > 0,
        is_solid(asked) && asked.len() > 0,
        behind.len() > 0 ==> is_space(behind[0]),
        is_parted(before + method + between + asked + behind, tail),
    ensures
        stopped || asked[0] != '/' ==> way is Close,
        !stopped && asked[0] == '/' ==> if method != "GET"@ && method != "HEAD"@ {
            way is Refuse
        } else if origin.host is None {
            way is Close
        } else {
            &&& way is Forward
            &&& way->head_only == (method == "HEAD"@)
            &&& way->address@ == origin.scheme@ + "://"@ + origin.host->0@ + (match origin.port {
                Some(port) => ":"@ + decimal(port as nat),
                None => Seq::empty(),
            }) + asked
            &&& way->range@ == range@
        },
{
    requests_are_decided_by_their_first_words(
        origin@,
        Seq::empty(),
        before,
        method,
        between,
        asked,
        behind,
        tail,
    );
}

/// A relay does not answer a head whose first line has fewer than two words.
pub proof fn started_relay_ignores_what_is_no_request(
    relay: VlcRelay,
    head: &str,
    before: Seq<char>,
    word: Seq<char>,
    behind: Seq<char>,
    tail: Seq<char>,
    decision: Decision,
)
    requires
        call_ensures(VlcRelay::handle_request, (&relay, head), decision),
        !relay.session.stopped(),
        head@ == before + word + behind + tail,
        is_gap(before),
        is_solid(word),
        is_gap(behind),
        is_parted(before + word + behind, tail),
    ensures
        decision is Close,
{
    heads_without_two_words_are_not_answered(
        relay.session.origin(),
        relay.session.headers(),
        before,
        word,
        behind,
        tail,
    );
}

/// A relay that was stopped answers no request any more, and stands where it stood.
pub proof fn stopped_relay_closes(relay: &mut VlcRelay, head: &str, decision: Decision)
    requires
        call_ensures(VlcRelay::stop, (relay,), ()),
        call_ensures(VlcRelay::handle_request, (&*final(relay), head), decision),
    ensures
        decision is Close,
        final(relay).base_url == old(relay).base_url,
        final(relay).play_url == old(relay).play_url,
{
}

/// Each read adds its bytes to those before it, and settles the head
/// or goes on.
pub proof fn head_is_read_line_by_line(
    reader: &mut HeadReader,
    line: &[u8],
    text: Seq<char>,
    head: Option<String>,
)
    requires
        call_ensures(HeadReader::feed, (reader, line), head),
    ensures
        ({
            let bytes = old(reader)@ + line@;
            &&& final(reader)@ == bytes
            &&& line@.len() == 0 ==> (head matches Some(t) && t@.len() == 0)
            &&& line@.len() > 0 && is_closed(bytes) && bytes == encode_utf8(text) ==> (
            head matches Some(t) && t@ == text)
            &&& line@.len() > 0 && is_closed(bytes) && !valid_utf8(bytes) ==> (
            head matches Some(t) && t@ == utf8_repaired(bytes))
            &&& line@.len() > 0 && !is_closed(bytes) ==> if bytes.len() > 32768 {
                head matches Some(t) && t@.len() == 0
            } else {
                head is None
            }
        }),
{
    each_read_settles_the_head_or_goes_on(old(reader)@, line@, text);
}

/// A head that is being read starts empty.
pub proof fn reading_starts_empty(reader: HeadReader)
    requires
        call_ensures(HeadReader::new, (), reader),
    ensures
        reader@.len() == 0,
{
}

/// An answer of the relay's own, character by character.
pub proof fn own_answer_is_written(status: u16, reason: &str, text: String)
    requires
        call_ensures(simple_response, (status, reason), text),
    ensures
        text@ == "HTTP/1.1 "@ + decimal(status as nat) + " "@ + reason@
            + "\r\nContent-Length: 0\r\nConnection: close\r\n\r\n"@,
{
    own_answers_are_written_so(status, reason@);
}

/// Upstream headers are passed on by their names.
pub proof fn names_decide_what_is_passed_on(name: &str, yes: bool)
    requires
        call_ensures(passed_on, (name,), yes),
    ensures
        yes == passed_names().contains(name@),
{
    headers_are_passed_on_by_name(name@);
}

/// The head of an answer starts with the status and the reason phrase, is what a reader takes
/// for it, and leaves what follows for the body.
pub proof fn answer_reaches_the_player_whole(
    status: u16,
    reason: &str,
    headers: Vec<(String, Vec<u8>)>,
    more: Seq<u8>,
    text: String,
)
    requires
        call_ensures(response_head_saying, (status, reason, &headers), text),
        !reason@.contains('\n'),
        encode_utf8(text@).len() <= MAX_HEAD_BYTES + 2,
    ensures
        head_of(Seq::empty(), reads(encode_utf8(text@) + more)) == Some(text@),
        left_after(Seq::empty(), reads(encode_utf8(text@) + more)) == reads(more),
        first_line(text@) == "HTTP/1.1 "@ + decimal(status as nat) + " "@ + reason@,
        number(decimal(status as nat)) == status,
{
    answer_is_read_whole(status, reason@, received(headers@), more);
    answers_say_their_status(status, reason@, received(headers@));
}

/// The player reads the very bytes of upstream's first value of a header that is passed on,
/// between the spaces and tabs at its two ends.
pub proof fn value_reaches_the_player(
    status: u16,
    reason: &str,
    headers: Vec<(String, Vec<u8>)>,
    i: int,
    before: Seq<u8>,
    value: Seq<u8>,
    behind: Seq<u8>,
    text: String,
    head: &str,
    name: &str,
    read: String,
)
    requires
        call_ensures(response_head_saying, (status, reason, &headers), text),
        call_ensures(header_value, (head, name), read),
        head@ == text@,
        !reason@.contains('\n'),
        0 <= i < headers@.len(),
        headers@[i].0@ == name@,
        passed_names().contains(name@),
        forall|j: int| 0 <= j < i ==> (#[trigger] headers@[j]).0@ != name@,
        headers@[i].1@ == before + value + behind,
        is_padding(before) && is_padding(behind),
        is_showable(value),
        value.len() > 0 ==> value[0] > 32 && value[value.len() - 1] > 32,
    ensures
        read@.len() == value.len(),
        forall|k: int| 0 <= k < value.len() ==> #[trigger] read@[k] as u32 == value[k] as u32,
{
    let all = received(headers@);
    assert forall|j: int| 0 <= j < i implies (#[trigger] all[j]).0 != all[i].0 by {
        assert(headers@[j].0@ != name@);
    }
    values_reach_the_player_byte_for_byte(status, reason@, all, i, before, value, behind);
}

/// One more upstream header changes an answer by its own line if it is one that is passed on,
/// and by nothing otherwise.
pub proof fn one_more_header_adds_its_line(
    status: u16,
    reason: &str,
    headers: Vec<(String, Vec<u8>)>,
    more: Vec<(String, Vec<u8>)>,
    text: String,
    longer: String,
)
    requires
        call_ensures(response_head_saying, (status, reason, &headers), text),
        call_ensures(response_head_saying, (status, reason, &more), longer),
        more@.len() == headers@.len() + 1,
        forall|i: int| 0 <= i < headers@.len() ==> #[trigger] more@[i] == headers@[i],
    ensures
        ({
            let name = more@.last().0@;
            let value = more@.last().1@;
            let said = text@.take(text@.len() - last_lines(received(headers@)).len());
            let line = if !passed_names().contains(name) {
                Seq::<char>::empty()
            } else if is_showable(value) {
                name + ": "@ + Seq::new(value.len(), |i: int| value[i] as char) + "\r\n"@
            } else {
                name + ": \r\n"@
            };
            &&& text@ == said + last_lines(received(headers@))
            &&& longer@ == said + line + last_lines(received(more@))
        }),
{
    let name = more@.last().0@;
    let value = more@.last().1@;
    each_header_adds_its_line(status, reason@, received(headers@), name, value);
    assert(received(more@) =~= received(headers@).push((name, value)));
}

/// The answer to an upstream response without headers, character by character.
pub proof fn bare_answer_is_written(
    status: u16,
    reason: &str,
    headers: Vec<(String, Vec<u8>)>,
    text: String,
)
    requires
        call_ensures(response_head_saying, (status, reason, &headers), text),
        headers@.len() == 0,
    ensures
        text@ == "HTTP/1.1 "@ + decimal(status as nat) + " "@ + reason@
            + "\r\nConnection: close\r\nAccept-Ranges: bytes\r\n\r\n"@,
{
    bare_answers_are_written_so(status, reason@);
    assert(received(headers@) =~= Seq::empty());
}

/// An answer says the reason phrase that is known for its status, and none where none is.
pub proof fn answer_says_the_known_phrase(
    status: u16,
    reason: &str,
    headers: Vec<(String, Vec<u8>)>,
    text: String,
    saying: String,
)
    requires
        call_ensures(response_head, (status, &headers), text),
        call_ensures(response_head_saying, (status, reason, &headers), saying),
        match standard_reason(status) {
            Some(phrase) => reason@ == phrase,
            None => reason@.len() == 0,
        },
    ensures
        text@ == saying@,
{
    if standard_reason(status) is None {
        assert(reason@ =~= Seq::empty());
    }
}

/// The body of an answer is open unless the request was a `HEAD` request. While it is, every
/// chunk that is not empty is written, and none ends it.
pub proof fn body_passes_every_chunk(
    head_only: bool,
    body: &mut Body,
    chunk: &[u8],
    write: bool,
    wanted: bool,
)
    requires
        call_ensures(Body::new, (head_only,), *old(body)),
        call_ensures(Body::pass, (body, chunk), write),
        call_ensures(Body::wants_more, (&*final(body),), wanted),
    ensures
        wanted == !head_only,
        write == (!head_only && chunk@.len() > 0),
        final(body).is_open() == !head_only,
{
}

/// A chunk leaves the body as open as it was, and is written if the body is open and the chunk
/// is not empty.
pub proof fn chunks_leave_the_body_open(body: &mut Body, chunk: &[u8], write: bool)
    requires
        call_ensures(Body::pass, (body, chunk), write),
    ensures
        final(body).is_open() == old(body).is_open(),
        write == (old(body).is_open() && chunk@.len() > 0),
{
}

} // verus!
