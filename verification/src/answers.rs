//! What the player gets, said of the characters and the bytes of an answer.

#[allow(unused_imports)]
use crate::head::{
    crlf, field_line, field_lines, head_of, is_field, left_after, lemma_lines_cons, reads,
    request_line, value_in, MAX_HEAD_BYTES,
};
#[allow(unused_imports)]
use crate::laws::written_head_is_read;
#[allow(unused_imports)]
use crate::meaning::{
    digits_say_the_number, is_gap, is_solid, is_tight, number, request_line_names_two_words,
    trimming_uncovers_the_text,
};
#[allow(unused_imports)]
use crate::relay::first_line;
#[allow(unused_imports)]
use crate::response::{
    answer_is_read_by_the_player, answer_head, ascii, first_value, is_passed, is_visible, kept,
    lemma_field_lines_add, lemma_kept_are_fields, lemma_status_line, mentions, received,
    response_fields, shown, simple, status_line,
};
#[allow(unused_imports)]
use crate::text::{decimal, is_space, lines};
use vstd::prelude::*;
#[allow(unused_imports)]
use vstd::utf8::encode_utf8;

verus! {

/// An answer of the relay's own, character by character.
pub proof fn own_answers_are_written_so(status: u16, reason: Seq<char>)
    ensures
        simple(status, reason) == "HTTP/1.1 "@ + decimal(status as nat) + " "@ + reason
            + "\r\nContent-Length: 0\r\nConnection: close\r\n\r\n"@,
{
    let length = ("Content-Length"@, "0"@);
    let close = ("Connection"@, "close"@);
    let fields = seq![length, close];
    reveal_with_fuel(field_lines, 3);
    assert(fields.drop_last() =~= seq![length]);
    assert(fields.drop_last().drop_last() =~= seq![]);
    reveal_strlit("Content-Length");
    reveal_strlit("0");
    reveal_strlit("Connection");
    reveal_strlit("close");
    reveal_strlit("\r\nContent-Length: 0\r\nConnection: close\r\n\r\n");
    assert(crlf() + field_lines(fields) + crlf()
        =~= "\r\nContent-Length: 0\r\nConnection: close\r\n\r\n"@);
    let line = status_line(status, reason);
    assert(simple(status, reason) =~= line + (crlf() + field_lines(fields) + crlf()));
}

/// The first line of every answer says the protocol, the status in decimal and the reason
/// phrase. A reader finds the status as its second word, and in it the number.
pub proof fn answers_say_their_status(
    status: u16,
    reason: Seq<char>,
    headers: Seq<(Seq<char>, Seq<u8>)>,
)
    requires
        !reason.contains('\n'),
    ensures
        first_line(answer_head(status, reason, headers)) == "HTTP/1.1 "@ + decimal(status as nat)
            + " "@ + reason,
        first_line(simple(status, reason)) == "HTTP/1.1 "@ + decimal(status as nat) + " "@ + reason,
        request_line(first_line(answer_head(status, reason, headers))) == Some(
            ("HTTP/1.1"@, decimal(status as nat)),
        ),
        request_line(first_line(simple(status, reason))) == Some(
            ("HTTP/1.1"@, decimal(status as nat)),
        ),
        number(decimal(status as nat)) == status,
{
    let digits = decimal(status as nat);
    let line = status_line(status, reason);
    let fields = response_fields(headers);
    let own = seq![("Content-Length"@, "0"@), ("Connection"@, "close"@)];
    lemma_status_line(status, reason);
    lemma_lines_cons(line, field_lines(fields) + crlf());
    lemma_lines_cons(line, field_lines(own) + crlf());
    assert(answer_head(status, reason, headers) =~= line + crlf() + (field_lines(fields) + crlf()));
    assert(simple(status, reason) =~= line + crlf() + (field_lines(own) + crlf()));
    digits_say_the_number(status as nat);
    reveal_strlit("HTTP/1.1 ");
    reveal_strlit("HTTP/1.1");
    reveal_strlit(" ");
    let none = Seq::<char>::empty();
    let space = seq![' '];
    let behind = space + reason;
    assert(behind[0] == ' ');
    assert(is_space(' '));
    assert(is_gap(space));
    assert(is_gap(none));
    assert(is_solid("HTTP/1.1"@));
    assert forall|i: int| 0 <= i < digits.len() implies !is_space(#[trigger] digits[i]) by {}
    request_line_names_two_words(none, "HTTP/1.1"@, space, digits, behind);
    assert(line =~= none + "HTTP/1.1"@ + space + digits + behind);
}

/// Answers with different statuses have different first lines.
pub proof fn different_statuses_are_told_apart(
    a: u16,
    b: u16,
    reason: Seq<char>,
    another: Seq<char>,
    headers: Seq<(Seq<char>, Seq<u8>)>,
    others: Seq<(Seq<char>, Seq<u8>)>,
)
    requires
        a != b,
        !reason.contains('\n'),
        !another.contains('\n'),
    ensures
        first_line(answer_head(a, reason, headers)) != first_line(answer_head(b, another, others)),
        first_line(simple(a, reason)) != first_line(simple(b, another)),
{
    answers_say_their_status(a, reason, headers);
    answers_say_their_status(b, another, others);
}

/// The names of the upstream headers that are passed on.
pub open spec fn passed_names() -> Seq<Seq<char>> {
    seq![
        "content-type"@,
        "content-length"@,
        "content-range"@,
        "etag"@,
        "last-modified"@,
        "accept-ranges"@,
    ]
}

/// Upstream headers are passed on by their names, and no others are.
pub proof fn headers_are_passed_on_by_name(name: Seq<char>)
    ensures
        is_passed(name) <==> passed_names().contains(name),
{
    let all = passed_names();
    assert(all[0] == "content-type"@ && all[1] == "content-length"@ && all[2] == "content-range"@);
    assert(all[3] == "etag"@ && all[4] == "last-modified"@ && all[5] == "accept-ranges"@);
    assert(forall|i: int| 0 <= i < 6 ==> #[trigger] all.contains(all[i]));
}

/// Whether a header value can be shown: it has no control characters but tabs, and nothing
/// beyond ASCII.
pub open spec fn is_showable(value: Seq<u8>) -> bool {
    forall|i: int| 0 <= i < value.len() ==> 32 <= #[trigger] value[i] <= 126 || value[i] == 9
}

/// How the head of an answer ends behind the headers that are passed on: with the empty line,
/// and before it with the offer of byte ranges where upstream does not speak of them.
pub open spec fn last_lines(headers: Seq<(Seq<char>, Seq<u8>)>) -> Seq<char> {
    if exists|i: int| 0 <= i < headers.len() && (#[trigger] headers[i]).0 == "accept-ranges"@ {
        "\r\n"@
    } else {
        "Accept-Ranges: bytes\r\n\r\n"@
    }
}

proof fn lemma_answer(status: u16, reason: Seq<char>, headers: Seq<(Seq<char>, Seq<u8>)>)
    ensures
        answer_head(status, reason, headers) == "HTTP/1.1 "@ + decimal(status as nat) + " "@ + reason
            + "\r\nConnection: close\r\n"@ + field_lines(kept(headers)) + last_lines(headers),
{
    let close = ("Connection"@, "close"@);
    let ranges = ("Accept-Ranges"@, "bytes"@);
    let fields = seq![close] + kept(headers);
    reveal_with_fuel(field_lines, 2);
    reveal_strlit("Connection");
    reveal_strlit("close");
    reveal_strlit("Accept-Ranges");
    reveal_strlit("bytes");
    reveal_strlit("\r\n");
    reveal_strlit("\r\nConnection: close\r\n");
    reveal_strlit("Accept-Ranges: bytes\r\n\r\n");
    assert(seq![close].drop_last() =~= seq![]);
    lemma_field_lines_add(seq![close], kept(headers));
    assert(crlf() + field_lines(seq![close]) =~= "\r\nConnection: close\r\n"@);
    assert("\r\n"@ =~= crlf());
    assert(field_line(ranges) + crlf() + crlf() =~= "Accept-Ranges: bytes\r\n\r\n"@);
    let line = status_line(status, reason);
    let start = line + (crlf() + field_lines(seq![close]));
    if mentions(headers, "accept-ranges"@) {
        assert(answer_head(status, reason, headers) =~= start + field_lines(kept(headers))
            + crlf());
    } else {
        let all = fields.push(ranges);
        assert(all.drop_last() =~= fields);
        assert(answer_head(status, reason, headers) =~= start + field_lines(kept(headers)) + (
        field_line(ranges) + crlf() + crlf()));
    }
}

/// The answer to an upstream response without headers, character by character.
pub proof fn bare_answers_are_written_so(status: u16, reason: Seq<char>)
    ensures
        answer_head(status, reason, Seq::empty()) == "HTTP/1.1 "@ + decimal(status as nat) + " "@
            + reason + "\r\nConnection: close\r\nAccept-Ranges: bytes\r\n\r\n"@,
{
    let none = Seq::<(Seq<char>, Seq<u8>)>::empty();
    lemma_answer(status, reason, none);
    reveal_strlit("\r\nConnection: close\r\n");
    reveal_strlit("Accept-Ranges: bytes\r\n\r\n");
    reveal_strlit("\r\nConnection: close\r\nAccept-Ranges: bytes\r\n\r\n");
    assert("\r\nConnection: close\r\n"@ + "Accept-Ranges: bytes\r\n\r\n"@
        =~= "\r\nConnection: close\r\nAccept-Ranges: bytes\r\n\r\n"@);
    let line = status_line(status, reason);
    assert(line + "\r\nConnection: close\r\n"@ + field_lines(kept(none)) + last_lines(none)
        =~= line + ("\r\nConnection: close\r\n"@ + "Accept-Ranges: bytes\r\n\r\n"@));
}

/// One more upstream header changes an answer by its own line, behind those before it, if it
/// is one that is passed on, and by nothing otherwise. The line has the header's name and the
/// characters of its value, and no value where that cannot be shown.
pub proof fn each_header_adds_its_line(
    status: u16,
    reason: Seq<char>,
    headers: Seq<(Seq<char>, Seq<u8>)>,
    name: Seq<char>,
    value: Seq<u8>,
)
    ensures
        ({
            let all = headers.push((name, value));
            let answer = answer_head(status, reason, headers);
            let said = answer.take(answer.len() - last_lines(headers).len());
            let line = if !passed_names().contains(name) {
                Seq::<char>::empty()
            } else if is_showable(value) {
                name + ": "@ + Seq::new(value.len(), |i: int| value[i] as char) + "\r\n"@
            } else {
                name + ": \r\n"@
            };
            &&& answer == said + last_lines(headers)
            &&& answer_head(status, reason, all) == said + line + last_lines(all)
        }),
{
    let all = headers.push((name, value));
    let answer = answer_head(status, reason, headers);
    lemma_answer(status, reason, headers);
    lemma_answer(status, reason, all);
    headers_are_passed_on_by_name(name);
    let said = "HTTP/1.1 "@ + decimal(status as nat) + " "@ + reason + "\r\nConnection: close\r\n"@
        + field_lines(kept(headers));
    assert(answer.take(answer.len() - last_lines(headers).len()) =~= said);
    assert(all.drop_last() =~= headers);
    assert(is_visible(value) == is_showable(value));
    reveal_strlit(": ");
    reveal_strlit("\r\n");
    reveal_strlit(": \r\n");
    if is_passed(name) {
        let field = (name, shown(value));
        assert(kept(all) == kept(headers).push(field));
        assert(kept(all).drop_last() =~= kept(headers));
        assert(field_lines(kept(all)) =~= field_lines(kept(headers)) + (field_line(field) + crlf()));
        if is_showable(value) {
            assert(field_line(field) + crlf() =~= name + ": "@ + Seq::new(
                value.len(),
                |i: int| value[i] as char,
            ) + "\r\n"@);
        } else {
            assert(field_line(field) + crlf() =~= name + ": \r\n"@);
        }
    }
}

/// The head of an answer is what a reader takes for it, from its first byte to its empty line,
/// and what follows is left for the body.
pub proof fn answer_is_read_whole(
    status: u16,
    reason: Seq<char>,
    headers: Seq<(Seq<char>, Seq<u8>)>,
    more: Seq<u8>,
)
    requires
        !reason.contains('\n'),
        encode_utf8(answer_head(status, reason, headers)).len() <= MAX_HEAD_BYTES + 2,
    ensures
        head_of(Seq::empty(), reads(encode_utf8(answer_head(status, reason, headers)) + more))
            == Some(answer_head(status, reason, headers)),
        left_after(Seq::empty(), reads(encode_utf8(answer_head(status, reason, headers)) + more))
            == reads(more),
{
    let fields = response_fields(headers);
    let close = ("Connection"@, "close"@);
    let ranges = ("Accept-Ranges"@, "bytes"@);
    reveal_strlit("Connection");
    reveal_strlit("close");
    reveal_strlit("Accept-Ranges");
    reveal_strlit("bytes");
    assert(is_field(close));
    assert(is_field(ranges));
    lemma_kept_are_fields(headers);
    assert forall|i: int| 0 <= i < fields.len() implies is_field(#[trigger] fields[i]) by {
        if i == 0 {
            assert(fields[i] == close);
        } else if i <= kept(headers).len() {
            assert(fields[i] == kept(headers)[i - 1]);
        } else {
            assert(fields[i] == ranges);
        }
    }
    lemma_status_line(status, reason);
    written_head_is_read(status_line(status, reason), fields, more);
}

proof fn lemma_first_value(headers: Seq<(Seq<char>, Seq<u8>)>, i: int, name: Seq<char>)
    requires
        0 <= i < headers.len(),
        headers[i].0 == name,
        forall|j: int| 0 <= j < i ==> (#[trigger] headers[j]).0 != name,
    ensures
        first_value(headers, name) == headers[i].1,
    decreases i,
{
    if i > 0 {
        let rest = headers.skip(1);
        assert(headers[0].0 != name);
        assert forall|j: int| 0 <= j < i - 1 implies (#[trigger] rest[j]).0 != name by {
            assert(rest[j] == headers[j + 1]);
        }
        lemma_first_value(rest, i - 1, name);
    }
}

/// Whether bytes are spaces and tabs throughout.
pub open spec fn is_padding(bytes: Seq<u8>) -> bool {
    forall|i: int| 0 <= i < bytes.len() ==> #[trigger] bytes[i] == 32 || bytes[i] == 9
}

/// The value that the player reads of a header that is passed on has the very bytes of
/// upstream's first value, between the spaces and tabs at its two ends.
pub proof fn values_reach_the_player_byte_for_byte(
    status: u16,
    reason: Seq<char>,
    headers: Seq<(Seq<char>, Seq<u8>)>,
    i: int,
    before: Seq<u8>,
    value: Seq<u8>,
    behind: Seq<u8>,
)
    requires
        !reason.contains('\n'),
        0 <= i < headers.len(),
        passed_names().contains(headers[i].0),
        forall|j: int| 0 <= j < i ==> (#[trigger] headers[j]).0 != headers[i].0,
        headers[i].1 == before + value + behind,
        is_padding(before) && is_padding(behind),
        is_showable(value),
        value.len() > 0 ==> value[0] > 32 && value[value.len() - 1] > 32,
    ensures
        ({
            let read = value_in(answer_head(status, reason, headers), headers[i].0);
            &&& read.len() == value.len()
            &&& forall|k: int|
                0 <= k < value.len() ==> #[trigger] read[k] as u32 == value[k] as u32
        }),
{
    let name = headers[i].0;
    let all = headers[i].1;
    headers_are_passed_on_by_name(name);
    lemma_first_value(headers, i, name);
    answer_is_read_by_the_player(status, reason, headers, name);
    assert(mentions(headers, name));
    assert forall|k: int| 0 <= k < all.len() implies 32 <= #[trigger] all[k] < 127 || all[k] == 9 by {
        if k < before.len() {
            assert(all[k] == before[k]);
        } else if k < before.len() + value.len() {
            assert(all[k] == value[k - before.len()]);
        } else {
            assert(all[k] == behind[k - before.len() - value.len()]);
        }
    }
    assert(is_visible(all));
    let a = ascii(before);
    let b = ascii(value);
    let c = ascii(behind);
    assert(ascii(all) =~= a + b + c);
    assert forall|k: int| 0 <= k < a.len() implies is_space(#[trigger] a[k]) by {
        assert(before[k] == 32 || before[k] == 9);
    }
    assert forall|k: int| 0 <= k < c.len() implies is_space(#[trigger] c[k]) by {
        assert(behind[k] == 32 || behind[k] == 9);
    }
    assert(is_tight(b));
    trimming_uncovers_the_text(a, b, c);
}

/// Of a header that is passed on, whose first value cannot be shown, the player reads an empty
/// one; and so of one that upstream does not send, but that byte ranges are accepted.
pub proof fn other_values_are_empty(
    status: u16,
    reason: Seq<char>,
    headers: Seq<(Seq<char>, Seq<u8>)>,
    i: int,
    name: Seq<char>,
)
    requires
        !reason.contains('\n'),
        passed_names().contains(name),
        0 <= i <= headers.len(),
        forall|j: int| 0 <= j < i ==> (#[trigger] headers[j]).0 != name,
        i < headers.len() ==> headers[i].0 == name && !is_showable(headers[i].1),
    ensures
        value_in(answer_head(status, reason, headers), name) == (if i == headers.len() && name
            == "accept-ranges"@ {
            "bytes"@
        } else {
            Seq::<char>::empty()
        }),
{
    headers_are_passed_on_by_name(name);
    answer_is_read_by_the_player(status, reason, headers, name);
    if i < headers.len() {
        lemma_first_value(headers, i, name);
        assert(mentions(headers, name));
        assert(is_visible(headers[i].1) == is_showable(headers[i].1));
        let none = Seq::<char>::empty();
        trimming_uncovers_the_text(none, none, none);
        assert(none + none + none =~= none);
    }
}

/// Nothing of upstream's headers is left out of their view.
pub proof fn received_headers_are_all_there(headers: Seq<(String, Vec<u8>)>)
    ensures
        received(headers).len() == headers.len(),
        forall|i: int|
            0 <= i < headers.len() ==> #[trigger] received(headers)[i] == (
                headers[i].0@,
                headers[i].1@,
            ),
{
}

} // verus!
