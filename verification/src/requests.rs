//! What becomes of a request, said of its first line, its headers and the URL in front of
//! which the relay stands, as they are written.

#[allow(unused_imports)]
use crate::head::{request_line, value_in};
#[allow(unused_imports)]
use crate::meaning::{
    is_gap, is_solid, lemma_first_line, lemma_first_word, lemma_no_words, lines_end_at_line_feeds,
    request_line_names_two_words, splitting_parts_at_the_first, trimming_leaves_the_text_whole,
};
#[allow(unused_imports)]
use crate::origin::{target, url_parse, UrlParts, UrlView};
#[allow(unused_imports)]
use crate::relay::{
    decided, fetched, first_line, routed, Decision, DecisionView, RequestView, Route, RouteView,
    UpstreamRequest,
};
#[allow(unused_imports)]
use crate::response::{simple};
#[allow(unused_imports)]
use crate::text::{chomp, decimal, split_once, trim, words};
use vstd::prelude::*;

verus! {

/// A request that was decided to go upstream asks for the URL's text, and carries the relay's
/// own headers and behind them the byte range, unless that is empty; where there is no URL,
/// nothing is asked for.
pub proof fn fetching_carries_the_range(
    own: Seq<(Seq<char>, Seq<char>)>,
    head_only: bool,
    range: Seq<char>,
    u: UrlView,
    error: url::ParseError,
)
    ensures
        fetched(own, head_only, Seq::empty(), Ok(u)) == DecisionView::Fetch(
            RequestView { head_only, url: u.text, headers: own },
        ),
        range.len() > 0 ==> fetched(own, head_only, range, Ok(u)) == DecisionView::Fetch(
            RequestView { head_only, url: u.text, headers: own.push(("range"@, range)) },
        ),
        fetched(own, head_only, range, Err(error)) == DecisionView::Close,
{
}

/// Whether the first line of a head, and what follows it, are parted by a line feed or by the
/// head's end.
pub open spec fn is_parted(line: Seq<char>, tail: Seq<char>) -> bool {
    &&& !line.contains('\n')
    &&& tail.len() > 0 ==> tail[0] == '\n'
}

proof fn lemma_line_of_head(line: Seq<char>, tail: Seq<char>)
    requires
        is_parted(line, tail),
        line.len() > 0,
    ensures
        first_line(line + tail) == line || first_line(line + tail) == chomp(line),
{
    lines_end_at_line_feeds(line, Seq::empty());
    if tail.len() == 0 {
        assert(line + tail =~= line);
    } else {
        let rest = tail.skip(1);
        assert(line + tail =~= line + seq!['\n'] + rest);
        lemma_first_line(line, rest);
    }
}

proof fn lemma_two_words_of_head(
    before: Seq<char>,
    method: Seq<char>,
    between: Seq<char>,
    asked: Seq<char>,
    behind: Seq<char>,
    tail: Seq<char>,
)
    requires
        is_gap(before),
        is_solid(method) && method.len() > 0,
        is_gap(between) && between.len() > 0,
        is_solid(asked) && asked.len() > 0,
        behind.len() > 0 ==> crate::text::is_space(behind[0]),
        is_parted(before + method + between + asked + behind, tail),
    ensures
        trim(before + method + between + asked + behind + tail).len() > 0,
        request_line(first_line(before + method + between + asked + behind + tail)) == Some(
            (method, asked),
        ),
{
    let line = before + method + between + asked + behind;
    let head = line + tail;
    lemma_line_of_head(line, tail);
    request_line_names_two_words(before, method, between, asked, behind);
    if behind.len() > 0 {
        let less = behind.drop_last();
        if less.len() > 0 {
            assert(less[0] == behind[0]);
        }
        assert(line.drop_last() =~= before + method + between + asked + less);
        request_line_names_two_words(before, method, between, asked, less);
    } else {
        assert(line.last() == asked[asked.len() - 1]);
        assert(chomp(line) == line);
    }
    trimming_leaves_the_text_whole(head);
    assert(head[before.len() as int] == method[0]);
}

/// What the relay does about a request, by the first two words of the head's first line. A
/// target that is no path is not answered. For a path, another method than `GET` and `HEAD` is
/// refused; those two go to the address that has the path behind the origin's scheme, host
/// and, where it has one, port. They carry the relay's own headers, and behind them the byte
/// range that the head's first header so called asks for, if there is one and it is not blank.
/// Where the origin has no host, or the address is no URL, there is no answer.
pub proof fn requests_are_decided_by_their_first_words(
    origin: UrlView,
    own: Seq<(Seq<char>, Seq<char>)>,
    before: Seq<char>,
    method: Seq<char>,
    between: Seq<char>,
    asked: Seq<char>,
    behind: Seq<char>,
    tail: Seq<char>,
)
    requires
        is_gap(before),
        is_solid(method) && method.len() > 0,
        is_gap(between) && between.len() > 0,
        is_solid(asked) && asked.len() > 0,
        behind.len() > 0 ==> crate::text::is_space(behind[0]),
        is_parted(before + method + between + asked + behind, tail),
    ensures
        ({
            let head = before + method + between + asked + behind + tail;
            let way = routed(origin, false, head);
            let decision = decided(origin, own, false, head);
            let range = value_in(head, "range"@);
            if asked[0] != '/' {
                way == RouteView::Close && decision == DecisionView::Close
            } else if method != "GET"@ && method != "HEAD"@ {
                &&& way == RouteView::Refuse
                &&& decision == DecisionView::Reply(
                    "HTTP/1.1 405 Method Not Allowed\r\nContent-Length: 0\r\nConnection: close\r\n\r\n"@,
                )
            } else if origin.host is None {
                way == RouteView::Close && decision == DecisionView::Close
            } else {
                let address = origin.scheme + "://"@ + origin.host->0 + (match origin.port {
                    Some(port) => ":"@ + decimal(port as nat),
                    None => Seq::empty(),
                }) + asked;
                &&& way == RouteView::Forward { head_only: method == "HEAD"@, address, range }
                &&& decision == (match url_parse(address) {
                    Ok(u) => DecisionView::Fetch(
                        RequestView {
                            head_only: method == "HEAD"@,
                            url: u.text,
                            headers: if range.len() > 0 {
                                own.push(("range"@, range))
                            } else {
                                own
                            },
                        },
                    ),
                    Err(_) => DecisionView::Close,
                })
            }
        }),
{
    let head = before + method + between + asked + behind + tail;
    lemma_two_words_of_head(before, method, between, asked, behind, tail);
    refusal_is_written_so();
    if origin.host is Some {
        let none = Seq::<char>::empty();
        let start = origin.scheme + "://"@ + origin.host->0;
        assert(start + none + asked =~= start + asked);
        if let Some(port) = origin.port {
            let digits = decimal(port as nat);
            assert(start + (":"@ + digits) + asked =~= start + ":"@ + digits + asked);
        }
    }
}

proof fn refusal_is_written_so()
    ensures
        simple(405, "Method Not Allowed"@)
            == "HTTP/1.1 405 Method Not Allowed\r\nContent-Length: 0\r\nConnection: close\r\n\r\n"@,
{
    crate::answers::own_answers_are_written_so(405, "Method Not Allowed"@);
    reveal_strlit(
        "HTTP/1.1 405 Method Not Allowed\r\nContent-Length: 0\r\nConnection: close\r\n\r\n",
    );
    reveal_strlit("HTTP/1.1 ");
    reveal_strlit(" ");
    reveal_strlit("Method Not Allowed");
    reveal_strlit("\r\nContent-Length: 0\r\nConnection: close\r\n\r\n");
    reveal_with_fuel(decimal, 4);
    assert(decimal(405) =~= seq!['4', '0', '5']);
    assert(simple(405, "Method Not Allowed"@)
        =~= "HTTP/1.1 405 Method Not Allowed\r\nContent-Length: 0\r\nConnection: close\r\n\r\n"@);
}

/// A head whose first line has fewer than two words is not answered, whatever follows it.
pub proof fn heads_without_two_words_are_not_answered(
    origin: UrlView,
    own: Seq<(Seq<char>, Seq<char>)>,
    before: Seq<char>,
    word: Seq<char>,
    behind: Seq<char>,
    tail: Seq<char>,
)
    requires
        is_gap(before),
        is_solid(word),
        is_gap(behind),
        is_parted(before + word + behind, tail),
    ensures
        routed(origin, false, before + word + behind + tail) == RouteView::Close,
        decided(origin, own, false, before + word + behind + tail) == DecisionView::Close,
{
    let line = before + word + behind;
    let head = line + tail;
    let none = Seq::<char>::empty();
    lemma_few_words(before, word, behind);
    if line.len() == 0 {
        lemma_no_words(none);
        if tail.len() > 0 {
            let rest = tail.skip(1);
            assert(head =~= none + seq!['\n'] + rest);
            lemma_first_line(none, rest);
            assert(chomp(none) =~= none);
        } else {
            assert(head =~= none);
        }
    } else {
        lemma_line_of_head(line, tail);
        if behind.len() > 0 {
            assert(line.drop_last() =~= before + word + behind.drop_last());
            lemma_few_words(before, word, behind.drop_last());
        } else if word.len() > 0 {
            assert(line.last() == word[word.len() - 1]);
            assert(chomp(line) == line);
        } else {
            assert(line.drop_last() =~= before.drop_last() + word + behind);
            lemma_few_words(before.drop_last(), word, behind);
        }
    }
}

proof fn lemma_few_words(before: Seq<char>, word: Seq<char>, behind: Seq<char>)
    requires
        is_gap(before),
        is_solid(word),
        is_gap(behind),
    ensures
        request_line(before + word + behind) is None,
{
    if word.len() > 0 {
        if behind.len() > 0 {
            assert(crate::text::is_space(behind[0]));
        }
        lemma_first_word(before, word, behind);
        lemma_no_words(behind);
    } else {
        let all = before + word + behind;
        assert forall|i: int| 0 <= i < all.len() implies crate::text::is_space(
            #[trigger] all[i],
        ) by {
            if i < before.len() {
                assert(all[i] == before[i]);
            } else {
                assert(all[i] == behind[i - before.len()]);
            }
        }
        lemma_no_words(all);
    }
}

/// A stopped relay takes no request in, and answers none.
pub proof fn stopped_relay_takes_nothing_in(
    origin: UrlView,
    own: Seq<(Seq<char>, Seq<char>)>,
    head: Seq<char>,
)
    ensures
        routed(origin, true, head) == RouteView::Close,
        decided(origin, own, true, head) == DecisionView::Close,
{
}

/// What the player asks for when it plays a URL is the path, and behind a question mark the
/// query where there is one, so that both can be told from it again.
pub proof fn target_holds_path_and_query(u: UrlView)
    ensures
        u.query is None ==> target(u) == u.path,
        u.query is Some ==> target(u) == u.path + seq!['?'] + u.query->0,
        !u.path.contains('?') ==> split_once(target(u), '?') == (match u.query {
            Some(query) => Some((u.path, query)),
            None => None,
        }),
{
    reveal_strlit("?");
    assert("?"@ =~= seq!['?']);
    if !u.path.contains('?') {
        splitting_parts_at_the_first(
            u.path,
            '?',
            match u.query {
                Some(query) => query,
                None => Seq::empty(),
            },
        );
    }
}

/// Nothing of a decision, of a request, of a route or of a URL's parts is left out of its view.
pub proof fn views_hold_everything(
    decision: Decision,
    request: UpstreamRequest,
    way: Route,
    parts: UrlParts,
)
    ensures
        decision is Close <==> decision@ == DecisionView::Close,
        decision matches Decision::Reply(text) ==> decision@ == DecisionView::Reply(text@),
        decision matches Decision::Fetch(asked) ==> decision@ == DecisionView::Fetch(asked@),
        request@.head_only == request.head_only,
        request@.url == request.url@,
        request@.headers.len() == request.headers@.len(),
        forall|i: int|
            0 <= i < request.headers@.len() ==> {
                let header = request.headers@[i];
                #[trigger] request@.headers[i] == (header.0@, header.1@)
            },
        way is Close <==> way@ == RouteView::Close,
        way is Refuse <==> way@ == RouteView::Refuse,
        way is Forward ==> way@ == (RouteView::Forward {
            head_only: way->head_only,
            address: way->address@,
            range: way->range@,
        }),
        parts@.text == parts.text@,
        parts@.scheme == parts.scheme@,
        parts@.host == (match parts.host {
            Some(host) => Some(host@),
            None => None,
        }),
        parts@.port == parts.port,
        parts@.path == parts.path@,
        parts@.query == (match parts.query {
            Some(query) => Some(query@),
            None => None,
        }),
{
}

} // verus!
