//! Answers: what the player gets back, head and body.

use crate::head::{push_crlf, push_field};
#[allow(unused_imports)]
use crate::head::{
    crlf, field_line, field_lines, field_value, is_field, rendered, value_in,
    written_header_is_read_back,
};
use crate::text::{push_decimal, same};
#[allow(unused_imports)]
use crate::text::{
    decimal, fold, lemma_decimal, lemma_trim_word, same_but_case, trim,
};
use vstd::prelude::*;

verus! {

/// The first line of an answer.
pub open spec fn status_line(status: u16, reason: Seq<char>) -> Seq<char> {
    "HTTP/1.1 "@ + decimal(status as nat) + " "@ + reason
}

/// An answer of the relay's own, which has no body.
pub open spec fn simple(status: u16, reason: Seq<char>) -> Seq<char> {
    rendered(
        status_line(status, reason),
        seq![("Content-Length"@, "0"@), ("Connection"@, "close"@)],
    )
}

/// Appends the first line of an answer, with its ending, to `out`.
fn push_status_line(out: &mut String, status: u16, reason: &str)
    ensures
        final(out)@ == old(out)@ + (status_line(status, reason@) + crlf()),
{
    out.append("HTTP/1.1 ");
    push_decimal(out, status);
    out.append(" ");
    out.append(reason);
    push_crlf(out);
    proof {
        assert(out@ =~= old(out)@ + (status_line(status, reason@) + crlf()));
    }
}

/// An answer of the relay's own, without a body.
pub fn simple_response(status: u16, reason: &str) -> (text: String)
    ensures
        text@ == simple(status, reason@),
{
    let mut out = String::new();
    push_status_line(&mut out, status, reason);
    push_field(&mut out, "Content-Length", "0");
    push_field(&mut out, "Connection", "close");
    push_crlf(&mut out);
    proof {
        let length = ("Content-Length"@, "0"@);
        let close = ("Connection"@, "close"@);
        let fields = seq![length, close];
        reveal_with_fuel(field_lines, 3);
        assert(fields.drop_last() =~= seq![length]);
        assert(fields.drop_last().drop_last() =~= seq![]);
        assert(out@ =~= rendered(status_line(status, reason@), fields));
    }
    out
}

/// Whether an upstream header is passed on to the player.
pub open spec fn is_passed(name: Seq<char>) -> bool {
    ||| name == "content-type"@
    ||| name == "content-length"@
    ||| name == "content-range"@
    ||| name == "etag"@
    ||| name == "last-modified"@
    ||| name == "accept-ranges"@
}

/// Whether an upstream header, by its name in lower case, is passed on to the player.
pub fn passed_on(name: &str) -> (yes: bool)
    ensures
        yes == is_passed(name@),
{
    same(name, "content-type") || same(name, "content-length") || same(name, "content-range")
        || same(name, "etag") || same(name, "last-modified") || same(name, "accept-ranges")
}

/// Whether a header value holds visible ASCII characters, spaces and tabs only.
pub open spec fn is_visible(value: Seq<u8>) -> bool {
    forall|i: int| 0 <= i < value.len() ==> 32 <= #[trigger] value[i] < 127 || value[i] == 9
}

/// The characters that ASCII bytes stand for.
pub open spec fn ascii(value: Seq<u8>) -> Seq<char> {
    Seq::new(value.len(), |i: int| value[i] as char)
}

/// A header value as it is passed on: nothing where it is not visible ASCII.
pub open spec fn shown(value: Seq<u8>) -> Seq<char> {
    if is_visible(value) {
        ascii(value)
    } else {
        seq![]
    }
}

/// Calls `HeaderValue::from_bytes` and, on the value, `to_str`. Trusted: there is a text if
/// and only if all bytes are visible ASCII, spaces or tabs, and it has those bytes.
#[verifier::external_body]
fn visible_text(value: &Vec<u8>) -> (text: Option<String>)
    ensures
        match text {
            Some(t) => is_visible(value@) && t@ == ascii(value@),
            None => !is_visible(value@),
        },
{
    let value = reqwest::header::HeaderValue::from_bytes(value).ok()?;
    value.to_str().ok().map(str::to_owned)
}

/// The reason phrase that the `http` crate knows for a status code.
pub uninterp spec fn standard_reason(status: u16) -> Option<Seq<char>>;

/// Calls `StatusCode::from_u16` and, on the code, `canonical_reason`. Trusted: whether
/// there is a phrase, and which, depends on the status alone, and there is none for a number
/// that is no status code. The phrases themselves stay unsaid.
#[verifier::external_body]
fn reason_phrase(status: u16) -> (reason: Option<&'static str>)
    ensures
        match reason {
            Some(phrase) => standard_reason(status) == Some(phrase@) && 100 <= status <= 999,
            None => standard_reason(status) is None,
        },
{
    let code = reqwest::StatusCode::from_u16(status).ok()?;
    code.canonical_reason()
}

/// Upstream headers as sequences: names and values.
pub open spec fn received(headers: Seq<(String, Vec<u8>)>) -> Seq<(Seq<char>, Seq<u8>)> {
    Seq::new(headers.len(), |i: int| (headers[i].0@, headers[i].1@))
}

/// The upstream headers that are passed on, in their order, with their values as text.
pub open spec fn kept(headers: Seq<(Seq<char>, Seq<u8>)>) -> Seq<(Seq<char>, Seq<char>)>
    decreases headers.len(),
{
    if headers.len() == 0 {
        seq![]
    } else if is_passed(headers.last().0) {
        kept(headers.drop_last()).push((headers.last().0, shown(headers.last().1)))
    } else {
        kept(headers.drop_last())
    }
}

/// Whether a header called `name` is among some upstream headers.
pub open spec fn mentions(headers: Seq<(Seq<char>, Seq<u8>)>, name: Seq<char>) -> bool {
    exists|i: int| 0 <= i < headers.len() && (#[trigger] headers[i]).0 == name
}

/// The headers of an answer: that the connection closes, those passed on, and that byte
/// ranges are accepted where upstream does not mention them.
pub open spec fn response_fields(headers: Seq<(Seq<char>, Seq<u8>)>) -> Seq<
    (Seq<char>, Seq<char>),
> {
    let all = seq![("Connection"@, "close"@)] + kept(headers);
    if mentions(headers, "accept-ranges"@) {
        all
    } else {
        all.push(("Accept-Ranges"@, "bytes"@))
    }
}

/// The head of an answer with the reason phrase `reason`.
pub open spec fn answer_head(
    status: u16,
    reason: Seq<char>,
    headers: Seq<(Seq<char>, Seq<u8>)>,
) -> Seq<char> {
    rendered(status_line(status, reason), response_fields(headers))
}

pub(crate) proof fn lemma_field_lines_add(
    a: Seq<(Seq<char>, Seq<char>)>,
    b: Seq<(Seq<char>, Seq<char>)>,
)
    ensures
        field_lines(a + b) == field_lines(a) + field_lines(b),
    decreases b.len(),
{
    if b.len() == 0 {
        assert(a + b =~= a);
        assert(field_lines(a) + field_lines(b) =~= field_lines(a));
    } else {
        lemma_field_lines_add(a, b.drop_last());
        assert((a + b).drop_last() =~= a + b.drop_last());
        assert((a + b).last() == b.last());
        assert(field_lines(a + b) =~= field_lines(a) + field_lines(b));
    }
}

/// The head of the answer to an upstream response with the reason phrase `reason`. Header
/// names are in lower case.
pub fn response_head_saying(status: u16, reason: &str, headers: &Vec<(String, Vec<u8>)>) -> (text:
    String)
    ensures
        text@ == answer_head(status, reason@, received(headers@)),
{
    let mut out = String::new();
    push_status_line(&mut out, status, reason);
    push_field(&mut out, "Connection", "close");
    let ghost start = out@;
    let ghost all = received(headers@);
    let mut ranges: bool = false;
    let mut i: usize = 0;
    proof {
        assert(all.take(0) =~= seq![]);
        assert(start =~= start + field_lines(kept(all.take(0))));
    }
    while i < headers.len()
        invariant
            all == received(headers@),
            i <= headers@.len(),
            out@ == start + field_lines(kept(all.take(i as int))),
            ranges == mentions(all.take(i as int), "accept-ranges"@),
        decreases headers.len() - i,
    {
        let name = headers[i].0.as_str();
        let ghost before = all.take(i as int);
        let ghost upto = all.take(i + 1);
        proof {
            assert(upto.drop_last() =~= before);
            assert(upto.last() == (name@, headers@[i as int].1@));
            assert forall|k: int| 0 <= k < before.len() implies #[trigger] before[k] == upto[k] by {}
            if mentions(before, "accept-ranges"@) {
                let k = choose|k: int|
                    0 <= k < before.len() && (#[trigger] before[k]).0 == "accept-ranges"@;
                assert(upto[k].0 == "accept-ranges"@);
            }
            if mentions(upto, "accept-ranges"@) && name@ != "accept-ranges"@ {
                let k = choose|k: int|
                    0 <= k < upto.len() && (#[trigger] upto[k]).0 == "accept-ranges"@;
                assert(before[k].0 == "accept-ranges"@);
            }
            assert(upto[i as int].0 == name@);
        }
        if passed_on(name) {
            let value = match visible_text(&headers[i].1) {
                Some(text) => text,
                None => String::new(),
            };
            push_field(&mut out, name, value.as_str());
            proof {
                let field = (name@, value@);
                assert(value@ =~= shown(headers@[i as int].1@));
                assert(kept(upto).drop_last() =~= kept(before));
                assert(kept(upto).last() == field);
                assert(out@ =~= start + field_lines(kept(upto)));
            }
        }
        if same(name, "accept-ranges") {
            ranges = true;
        }
        i += 1;
    }
    let ghost body = out@;
    if !ranges {
        push_field(&mut out, "Accept-Ranges", "bytes");
    }
    push_crlf(&mut out);
    proof {
        assert(all.take(i as int) =~= all);
        let close = ("Connection"@, "close"@);
        let first = seq![close];
        reveal_with_fuel(field_lines, 2);
        assert(first.drop_last() =~= seq![]);
        assert(field_lines(first) =~= field_line(close) + crlf());
        lemma_field_lines_add(first, kept(all));
        let fields = first + kept(all);
        let line = status_line(status, reason@);
        assert(start =~= line + crlf() + field_lines(first));
        assert(body =~= line + crlf() + field_lines(fields));
        if !ranges {
            let more = fields.push(("Accept-Ranges"@, "bytes"@));
            assert(more.drop_last() =~= fields);
            assert(out@ =~= rendered(line, more));
        } else {
            assert(out@ =~= rendered(line, fields));
        }
    }
    out
}

/// The head of the answer to an upstream response. Header names are in lower case.
pub fn response_head(status: u16, headers: &Vec<(String, Vec<u8>)>) -> (text: String)
    ensures
        text@ == answer_head(
            status,
            match standard_reason(status) {
                Some(phrase) => phrase,
                None => seq![],
            },
            received(headers@),
        ),
{
    match reason_phrase(status) {
        Some(phrase) => response_head_saying(status, phrase, headers),
        None => {
            proof {
                reveal_strlit("");
                assert(""@ =~= seq![]);
            }
            response_head_saying(status, "", headers)
        },
    }
}

/// The body of an answer while it is passed on, chunk by chunk. That the relay is stopped
/// makes no difference to it.
pub struct Body {
    open: bool,
}

/// The bytes of `chunks` that reach the player.
pub open spec fn sent(open: bool, chunks: Seq<Seq<u8>>) -> Seq<u8>
    decreases chunks.len(),
{
    if !open || chunks.len() == 0 {
        seq![]
    } else {
        chunks[0] + sent(true, chunks.skip(1))
    }
}

impl Body {
    /// Whether chunks are still passed on.
    pub closed spec fn is_open(&self) -> bool {
        self.open
    }

    /// The body of the answer to a request: the answer to a `HEAD` request has none.
    pub fn new(head_only: bool) -> (body: Body)
        ensures
            body.is_open() == !head_only,
    {
        Body { open: !head_only }
    }

    /// Whether the next chunk is wanted.
    pub fn wants_more(&self) -> (yes: bool)
        ensures
            yes == self.is_open(),
    {
        self.open
    }

    /// Whether a chunk is to be written to the player. One that is empty is not, and the
    /// body goes on behind it.
    pub fn pass(&mut self, chunk: &[u8]) -> (write: bool)
        ensures
            write == (old(self).is_open() && chunk@.len() > 0),
            final(self).is_open() == old(self).is_open(),
            forall|later: Seq<Seq<u8>>|
                sent(old(self).is_open(), seq![chunk@] + later) == (if write {
                    chunk@
                } else {
                    seq![]
                }) + #[trigger] sent(final(self).is_open(), later),
    {
        let write = self.open && chunk.len() > 0;
        proof {
            assert forall|later: Seq<Seq<u8>>|
                sent(old(self).is_open(), seq![chunk@] + later) == (if write {
                    chunk@
                } else {
                    seq![]
                }) + #[trigger] sent(self.is_open(), later) by {
                let all = seq![chunk@] + later;
                assert(all[0] == chunk@);
                assert(all.skip(1) =~= later);
                assert(Seq::<u8>::empty() + Seq::<u8>::empty() =~= Seq::<u8>::empty());
            }
        }
        write
    }
}

/// A body reaches the player byte for byte, however it is cut into chunks, and whether or
/// not the relay is stopped on the way.
pub proof fn body_is_passed_on_byte_for_byte(chunks: Seq<Seq<u8>>)
    ensures
        sent(true, chunks) == chunks.flatten(),
    decreases chunks.len(),
{
    if chunks.len() > 0 {
        let rest = chunks.skip(1);
        body_is_passed_on_byte_for_byte(rest);
        assert(rest =~= chunks.drop_first());
    }
}

/// The answer to a `HEAD` request has no body.
pub proof fn head_answer_has_no_body(chunks: Seq<Seq<u8>>)
    ensures
        sent(false, chunks) == Seq::<u8>::empty(),
{
}

/// The value of the first of some upstream headers that is called `name`.
pub open spec fn first_value(headers: Seq<(Seq<char>, Seq<u8>)>, name: Seq<char>) -> Seq<u8>
    decreases headers.len(),
{
    if headers.len() == 0 {
        seq![]
    } else if headers[0].0 == name {
        headers[0].1
    } else {
        first_value(headers.skip(1), name)
    }
}

/// A text of lower-case letters, hyphens and other characters that a name may have.
spec fn is_plain(name: Seq<char>) -> bool {
    forall|i: int|
        0 <= i < name.len() ==> '-' <= #[trigger] name[i] <= 'z' && name[i] != ':' && !('A'
            <= name[i] <= 'Z')
}

proof fn lemma_passed_is_plain(name: Seq<char>)
    requires
        is_passed(name),
    ensures
        is_plain(name),
        trim(name) == name,
{
    reveal_strlit("content-type");
    reveal_strlit("content-length");
    reveal_strlit("content-range");
    reveal_strlit("etag");
    reveal_strlit("last-modified");
    reveal_strlit("accept-ranges");
    lemma_trim_word(name);
}

proof fn lemma_plain_same(a: Seq<char>, b: Seq<char>)
    requires
        is_plain(a),
        is_plain(b),
    ensures
        same_but_case(a, b) == (a == b),
{
    if same_but_case(a, b) {
        assert forall|i: int| 0 <= i < a.len() implies a[i] == b[i] by {
            assert(fold(a[i]) == fold(b[i]));
        }
        assert(a =~= b);
    }
}

proof fn lemma_kept_front(headers: Seq<(Seq<char>, Seq<u8>)>)
    requires
        headers.len() > 0,
    ensures
        kept(headers) == (if is_passed(headers[0].0) {
            seq![(headers[0].0, shown(headers[0].1))]
        } else {
            seq![]
        }) + kept(headers.skip(1)),
    decreases headers.len(),
{
    let rest = headers.skip(1);
    if headers.len() == 1 {
        assert(headers.drop_last() =~= seq![]);
        assert(rest =~= seq![]);
        assert(kept(headers) =~= (if is_passed(headers[0].0) {
            seq![(headers[0].0, shown(headers[0].1))]
        } else {
            seq![]
        }) + kept(rest));
    } else {
        let most = headers.drop_last();
        lemma_kept_front(most);
        assert(most.skip(1) =~= rest.drop_last());
        assert(most[0] == headers[0]);
        assert(rest.last() == headers.last());
        assert(kept(headers) =~= (if is_passed(headers[0].0) {
            seq![(headers[0].0, shown(headers[0].1))]
        } else {
            seq![]
        }) + kept(rest));
    }
}

pub(crate) proof fn lemma_kept_are_fields(headers: Seq<(Seq<char>, Seq<u8>)>)
    ensures
        forall|i: int|
            0 <= i < kept(headers).len() ==> is_field(#[trigger] kept(headers)[i]) && is_passed(
                kept(headers)[i].0,
            ),
    decreases headers.len(),
{
    if headers.len() > 0 {
        lemma_kept_are_fields(headers.drop_last());
        if is_passed(headers.last().0) {
            lemma_passed_is_plain(headers.last().0);
            let value = headers.last().1;
            assert forall|k: int| 0 <= k < shown(value).len() implies shown(value)[k] != '\n' by {
                assert(32 <= value[k] < 127 || value[k] == 9);
            }
            assert(is_field((headers.last().0, shown(value))));
            assert forall|i: int| 0 <= i < kept(headers).len() implies is_field(
                #[trigger] kept(headers)[i],
            ) && is_passed(kept(headers)[i].0) by {
                if i < kept(headers.drop_last()).len() {
                    assert(kept(headers)[i] == kept(headers.drop_last())[i]);
                }
            }
        }
    }
}

proof fn lemma_kept_value(
    headers: Seq<(Seq<char>, Seq<u8>)>,
    more: Seq<(Seq<char>, Seq<char>)>,
    name: Seq<char>,
)
    requires
        is_passed(name),
    ensures
        field_value(kept(headers) + more, name) == (if mentions(headers, name) {
            trim(shown(first_value(headers, name)))
        } else {
            field_value(more, name)
        }),
    decreases headers.len(),
{
    if headers.len() == 0 {
        assert(kept(headers) + more =~= more);
    } else {
        let rest = headers.skip(1);
        lemma_kept_front(headers);
        lemma_kept_value(rest, more, name);
        lemma_passed_is_plain(name);
        let all = kept(headers) + more;
        if is_passed(headers[0].0) {
            lemma_passed_is_plain(headers[0].0);
            lemma_plain_same(headers[0].0, name);
            assert(all[0] == (headers[0].0, shown(headers[0].1)));
            assert(all.skip(1) =~= kept(rest) + more);
        } else {
            assert(all =~= kept(rest) + more);
        }
        if mentions(rest, name) {
            let k = choose|k: int| 0 <= k < rest.len() && (#[trigger] rest[k]).0 == name;
            assert(headers[k + 1].0 == name);
        }
        if mentions(headers, name) && headers[0].0 != name {
            let k = choose|k: int| 0 <= k < headers.len() && (#[trigger] headers[k]).0 == name;
            assert(rest[k - 1].0 == name);
        }
    }
}

pub(crate) proof fn lemma_status_line(status: u16, reason: Seq<char>)
    requires
        !reason.contains('\n'),
    ensures
        !status_line(status, reason).contains('\n'),
{
    reveal_strlit("HTTP/1.1 ");
    reveal_strlit(" ");
    lemma_decimal(status as nat);
    let line = status_line(status, reason);
    let d = decimal(status as nat).len() as int;
    assert forall|k: int| 0 <= k < line.len() implies line[k] != '\n' by {
        if k >= 9 && k < 9 + d {
            assert(line[k] == decimal(status as nat)[k - 9]);
        } else if k >= 10 + d {
            assert(line[k] == reason[k - 10 - d]);
        }
    }
}

/// What the player reads in the head of an answer. It says that the connection closes. Of
/// each header that is passed on it has upstream's first value, without the white space
/// round it, and nothing where that is not visible ASCII or there is none; but that byte
/// ranges are accepted it says even where upstream does not mention them. It has no header
/// but those.
pub proof fn answer_is_read_by_the_player(
    status: u16,
    reason: Seq<char>,
    headers: Seq<(Seq<char>, Seq<u8>)>,
    name: Seq<char>,
)
    requires
        !reason.contains('\n'),
    ensures
        value_in(answer_head(status, reason, headers), "connection"@) == "close"@,
        is_passed(name) && mentions(headers, name) ==> value_in(
            answer_head(status, reason, headers),
            name,
        ) == trim(shown(first_value(headers, name))),
        is_passed(name) && !mentions(headers, name) ==> value_in(
            answer_head(status, reason, headers),
            name,
        ) == (if name == "accept-ranges"@ {
            "bytes"@
        } else {
            Seq::<char>::empty()
        }),
        forall|i: int|
            0 <= i < response_fields(headers).len() ==> {
                let said = (#[trigger] response_fields(headers)[i]).0;
                is_passed(said) || said == "Connection"@ || said == "Accept-Ranges"@
            },
{
    let fields = response_fields(headers);
    let close = ("Connection"@, "close"@);
    let ranges = ("Accept-Ranges"@, "bytes"@);
    let more = if mentions(headers, "accept-ranges"@) {
        seq![]
    } else {
        seq![ranges]
    };
    reveal_strlit("Connection");
    reveal_strlit("close");
    reveal_strlit("Accept-Ranges");
    reveal_strlit("bytes");
    assert(is_field(close));
    assert(is_field(ranges));
    lemma_kept_are_fields(headers);
    assert(fields =~= seq![close] + (kept(headers) + more));
    assert forall|i: int| 0 <= i < fields.len() implies is_field(#[trigger] fields[i]) && (is_passed(
        fields[i].0,
    ) || fields[i].0 == "Connection"@ || fields[i].0 == "Accept-Ranges"@) by {
        if 0 < i <= kept(headers).len() {
            assert(fields[i] == kept(headers)[i - 1]);
        }
    }
    let line = status_line(status, reason);
    lemma_status_line(status, reason);
    lemma_trim_word(close.0);
    lemma_trim_word(close.1);
    lemma_trim_word(ranges.0);
    lemma_trim_word(ranges.1);
    assert(fields[0] == close);
    assert(fields.skip(1) =~= kept(headers) + more);
    reveal_strlit("connection");
    written_header_is_read_back(line, fields, "connection"@);
    assert(same_but_case(close.0, "connection"@));
    if is_passed(name) {
        written_header_is_read_back(line, fields, name);
        reveal_strlit("content-type");
        reveal_strlit("content-length");
        reveal_strlit("content-range");
        reveal_strlit("etag");
        reveal_strlit("last-modified");
        reveal_strlit("accept-ranges");
        assert(close.0.len() != name.len());
        lemma_kept_value(headers, more, name);
        reveal_with_fuel(field_value, 2);
        if name == "accept-ranges"@ {
            assert(same_but_case(ranges.0, name));
        } else if same_but_case(ranges.0, name) {
            lemma_passed_is_plain(name);
            lemma_passed_is_plain("accept-ranges"@);
            assert(same_but_case("accept-ranges"@, name)) by {
                assert forall|i: int| 0 <= i < name.len() implies fold(
                    #[trigger] "accept-ranges"@[i],
                ) == fold(name[i]) by {
                    assert(fold(ranges.0[i]) == fold(name[i]));
                }
            }
            lemma_plain_same("accept-ranges"@, name);
        }
        if more.len() > 0 {
            assert(more.skip(1) =~= seq![]);
        }
    }
}

} // verus!
