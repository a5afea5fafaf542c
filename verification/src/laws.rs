//! Laws of heads: what makes no difference to the values read from one, that one that is
//! written is read again, and what bytes that are no UTF-8 leave of one.

#[allow(unused_imports)]
use crate::head::{
    as_text, crlf, ends_blank, field_line, field_lines, field_value, head_ends_at_the_empty_line,
    head_of, is_field, is_head, is_patched, is_word, left_after, lemma_field_lines_front, lookup,
    names, reads, rendered, value_in, written_header_is_read_back, MAX_HEAD_BYTES,
};
#[allow(unused_imports)]
use crate::origin::{
    authority, is_web, same_origin, settled, url_parse, UrlView, LONGEST_HOST, LONGEST_URL,
};
#[allow(unused_imports)]
use crate::relay::{
    decided, opening, requests_are_passed_on_whatever_follows, upstream_headers, DecisionView,
    RequestView,
};
#[allow(unused_imports)]
use crate::response::{simple, status_line, lemma_status_line};
#[allow(unused_imports)]
use crate::text::{
    chomp, lemma_case_shared, lemma_position, lemma_position_is, lemma_trim_case,
    lemma_trim_drop_last, lemma_trim_word, lines, position, same_but_case, split_once, trim,
};
use vstd::prelude::*;
#[allow(unused_imports)]
use vstd::utf8::{
    char_is_scalar, char_u32_cast, decode_first_scalar, decode_utf8, encode_scalar, encode_utf8,
    encode_utf8_decode_utf8, encode_utf8_first_scalar, encode_utf8_valid_utf8, pop_first_scalar,
    valid_first_scalar, valid_utf8,
};

verus! {

proof fn lemma_decode_behind(s: Seq<char>, b: Seq<u8>)
    ensures
        valid_utf8(encode_utf8(s) + b) == valid_utf8(b),
        valid_utf8(b) ==> decode_utf8(encode_utf8(s) + b) == s + decode_utf8(b),
    decreases s.len(),
{
    let all = encode_utf8(s) + b;
    if s.len() == 0 {
        assert(all =~= b);
        assert(s + decode_utf8(b) =~= decode_utf8(b));
    } else {
        let t = s.drop_first();
        let start = encode_utf8(s);
        encode_utf8_first_scalar(s);
        char_u32_cast(s[0], decode_first_scalar(start));
        assert(forall|k: int| 0 <= k < start.len() ==> all[k] == #[trigger] start[k]);
        assert(valid_first_scalar(all));
        assert(decode_first_scalar(all) == decode_first_scalar(start));
        assert(pop_first_scalar(all) =~= encode_utf8(t) + b);
        lemma_decode_behind(t, b);
        if valid_utf8(b) {
            assert(seq![s[0]] + (t + decode_utf8(b)) =~= s + decode_utf8(b));
        }
    }
}

/// Bytes that are no UTF-8 leave the text before them as it is: the text of bytes that start
/// with the encoding of `text` is that text, and behind it what is made of the rest.
pub proof fn text_before_stray_bytes_is_kept(text: Seq<char>, rest: Seq<u8>)
    requires
        is_patched(encode_utf8(text) + rest, as_text(encode_utf8(text) + rest)),
    ensures
        as_text(encode_utf8(text) + rest) == text + as_text(rest),
{
    let start = encode_utf8(text);
    let all = start + rest;
    lemma_decode_behind(text, rest);
    if !valid_utf8(all) {
        let n = start.len() as int;
        encode_utf8_valid_utf8(text);
        encode_utf8_decode_utf8(text);
        assert(all.take(n) =~= start);
        assert(all.skip(n) =~= rest);
    }
}

/// A request that is encoded as far as its first headers is passed on, whatever bytes follow
/// them: to the address that it asks for, with the relay's headers, and with the byte range of
/// those headers, or where none of them is one, with that of what follows.
pub proof fn stray_bytes_leave_the_request(
    origin: UrlView,
    own: Seq<(Seq<char>, Seq<char>)>,
    method: Seq<char>,
    asked: Seq<char>,
    fields: Seq<(Seq<char>, Seq<char>)>,
    rest: Seq<u8>,
)
    requires
        settled(origin),
        is_web(origin),
        method == "GET"@ || method == "HEAD"@,
        is_word(asked) && asked[0] == '/',
        origin.host->0.len() <= LONGEST_HOST,
        (authority(origin)->0 + asked).len() <= LONGEST_URL,
        forall|i: int| 0 <= i < fields.len() ==> is_field(#[trigger] fields[i]),
        is_patched(
            encode_utf8(opening(method, asked, fields)) + rest,
            as_text(encode_utf8(opening(method, asked, fields)) + rest),
        ),
    ensures
        ({
            let head = as_text(encode_utf8(opening(method, asked, fields)) + rest);
            let parsed = url_parse(authority(origin)->0 + asked);
            let range = if names(fields, "range"@) {
                field_value(fields, "range"@)
            } else {
                lookup(lines(as_text(rest)), "range"@)
            };
            &&& parsed is Ok
            &&& same_origin(parsed->Ok_0, origin)
            &&& decided(origin, own, false, head) == DecisionView::Fetch(
                RequestView {
                    head_only: method == "HEAD"@,
                    url: parsed->Ok_0.text,
                    headers: upstream_headers(own, range),
                },
            )
        }),
{
    text_before_stray_bytes_is_kept(opening(method, asked, fields), rest);
    requests_are_passed_on_whatever_follows(origin, own, method, asked, fields, as_text(rest));
}

/// Whether two lines of a head differ at most in the case of a header's name.
pub open spec fn recased(a: Seq<char>, b: Seq<char>) -> bool {
    match (split_once(a, ':'), split_once(b, ':')) {
        (Some((called, says)), Some((other, same))) => same_but_case(called, other) && says
            == same,
        (None, None) => true,
        _ => false,
    }
}

proof fn lemma_lookup_recased(
    a: Seq<Seq<char>>,
    b: Seq<Seq<char>>,
    name: Seq<char>,
    alias: Seq<char>,
)
    requires
        same_but_case(name, alias),
        a.len() == b.len(),
        forall|i: int| 0 <= i < a.len() ==> recased(#[trigger] a[i], b[i]),
    ensures
        lookup(a, name) == lookup(b, alias),
    decreases a.len(),
{
    if a.len() > 0 {
        let s = a.skip(1);
        let t = b.skip(1);
        assert forall|i: int| 0 <= i < s.len() implies recased(#[trigger] s[i], t[i]) by {
            assert(recased(a[i + 1], b[i + 1]));
        }
        lemma_lookup_recased(s, t, name, alias);
        assert(recased(a[0], b[0]));
        if let Some((called, _)) = split_once(a[0], ':') {
            let (other, _) = split_once(b[0], ':').unwrap();
            lemma_trim_case(called, other);
            lemma_case_shared(trim(called), trim(other), name, alias);
        }
    }
}

/// The case in which a header's name is asked for changes no value.
pub proof fn case_asked_for_changes_no_value(head: Seq<char>, name: Seq<char>, alias: Seq<char>)
    requires
        same_but_case(name, alias),
    ensures
        value_in(head, name) == value_in(head, alias),
{
    case_of_names_changes_no_value(head, head, name, alias);
}

/// The case in which the headers' names are written, or asked for, changes no value.
pub proof fn case_of_names_changes_no_value(
    head: Seq<char>,
    other: Seq<char>,
    name: Seq<char>,
    alias: Seq<char>,
)
    requires
        same_but_case(name, alias),
        lines(head).len() == lines(other).len(),
        forall|i: int|
            1 <= i < lines(head).len() ==> recased(#[trigger] lines(head)[i], lines(other)[i]),
    ensures
        value_in(head, name) == value_in(other, alias),
{
    if lines(head).len() > 0 {
        let a = lines(head).skip(1);
        let b = lines(other).skip(1);
        assert forall|i: int| 0 <= i < a.len() implies recased(#[trigger] a[i], b[i]) by {
            assert(recased(lines(head)[i + 1], lines(other)[i + 1]));
        }
        lemma_lookup_recased(a, b, name, alias);
    }
}

/// A text with a line feed in place of each carriage return and line feed.
pub open spec fn bare(s: Seq<char>) -> Seq<char>
    decreases s.len(),
{
    if s.len() == 0 {
        seq![]
    } else if s.len() > 1 && s[0] == '\r' && s[1] == '\n' {
        seq!['\n'] + bare(s.skip(2))
    } else {
        seq![s[0]] + bare(s.skip(1))
    }
}

proof fn lemma_bare_line(line: Seq<char>, rest: Seq<char>)
    requires
        !line.contains('\n'),
    ensures
        bare(line + seq!['\n'] + rest) == chomp(line) + seq!['\n'] + bare(rest),
    decreases line.len(),
{
    let s = line + seq!['\n'] + rest;
    if line.len() == 0 {
        assert(s.skip(1) =~= rest);
        assert(bare(s) =~= chomp(line) + seq!['\n'] + bare(rest));
    } else if line.len() == 1 && line[0] == '\r' {
        assert(s.skip(2) =~= rest);
        assert(bare(s) =~= chomp(line) + seq!['\n'] + bare(rest));
    } else {
        let t = line.skip(1);
        assert(s[0] == line[0]);
        if line.len() > 1 {
            assert(s[1] == line[1]);
            assert(line.contains(line[1]));
        }
        assert forall|k: int| 0 <= k < t.len() implies t[k] != '\n' by {
            assert(line.contains(line[k + 1]));
        }
        assert(s.skip(1) =~= t + seq!['\n'] + rest);
        lemma_bare_line(t, rest);
        assert(seq![line[0]] + chomp(t) =~= chomp(line));
        assert(bare(s) =~= chomp(line) + seq!['\n'] + bare(rest));
    }
}

proof fn lemma_bare_last(line: Seq<char>)
    requires
        !line.contains('\n'),
    ensures
        bare(line) == line,
    decreases line.len(),
{
    if line.len() > 0 {
        let t = line.skip(1);
        if line.len() > 1 {
            assert(line.contains(line[1]));
        }
        assert forall|k: int| 0 <= k < t.len() implies t[k] != '\n' by {
            assert(line.contains(line[k + 1]));
        }
        lemma_bare_last(t);
        assert(seq![line[0]] + t =~= line);
    }
}

/// Whether a line is another one, or that without a carriage return at its end.
spec fn is_chomped(a: Seq<char>, b: Seq<char>) -> bool {
    b == a || b == chomp(a)
}

proof fn lemma_lines_bare(s: Seq<char>)
    ensures
        lines(bare(s)).len() == lines(s).len(),
        forall|i: int| 0 <= i < lines(s).len() ==> is_chomped(#[trigger] lines(s)[i], lines(bare(s))[i]),
    decreases s.len(),
{
    let i = position(s, '\n') as int;
    lemma_position(s, '\n');
    if s.len() > 0 {
        if i < s.len() {
            let line = s.take(i);
            let rest = s.skip(i + 1);
            assert forall|k: int| 0 <= k < line.len() implies line[k] != '\n' by {
                assert(s[k] != '\n');
            }
            assert(s =~= line + seq!['\n'] + rest);
            lemma_bare_line(line, rest);
            lemma_lines_bare(rest);
            let b = bare(s);
            let short = chomp(line);
            let n = short.len() as int;
            assert forall|k: int| 0 <= k < n implies #[trigger] b[k] != '\n' by {
                assert(b[k] == line[k]);
                assert(s[k] != '\n');
            }
            assert(b[n] == '\n');
            lemma_position_is(b, '\n', n);
            assert(b.take(n) =~= short);
            assert(b.skip(n + 1) =~= bare(rest));
            assert(lines(b) == seq![chomp(short)] + lines(bare(rest)));
            assert(lines(s) == seq![short] + lines(rest));
            assert forall|k: int| 0 <= k < lines(s).len() implies is_chomped(
                #[trigger] lines(s)[k],
                lines(b)[k],
            ) by {
                if k > 0 {
                    assert(lines(s)[k] == lines(rest)[k - 1]);
                    assert(lines(b)[k] == lines(bare(rest))[k - 1]);
                }
            }
        } else {
            assert forall|k: int| 0 <= k < s.len() implies s[k] != '\n' by {}
            lemma_bare_last(s);
        }
    }
}

pub(crate) proof fn lemma_chomped_field(a: Seq<char>)
    ensures
        match (split_once(a, ':'), split_once(chomp(a), ':')) {
            (Some((called, says)), Some((other, short))) => called == other && trim(says) == trim(
                short,
            ),
            (None, None) => true,
            _ => false,
        },
{
    let b = chomp(a);
    let p = position(a, ':') as int;
    lemma_position(a, ':');
    if b != a {
        if p < a.len() {
            assert(p < b.len());
            lemma_position_is(b, ':', p);
            assert(a.take(p) =~= b.take(p));
            let says = a.skip(p + 1);
            assert(says.last() == '\r');
            lemma_trim_drop_last(says);
            assert(says.drop_last() =~= b.skip(p + 1));
        } else {
            lemma_position_is(b, ':', b.len() as int);
        }
    }
}

proof fn lemma_lookup_chomped(a: Seq<Seq<char>>, b: Seq<Seq<char>>, name: Seq<char>)
    requires
        a.len() == b.len(),
        forall|i: int| 0 <= i < a.len() ==> is_chomped(#[trigger] a[i], b[i]),
    ensures
        lookup(a, name) == lookup(b, name),
    decreases a.len(),
{
    if a.len() > 0 {
        let s = a.skip(1);
        let t = b.skip(1);
        assert forall|i: int| 0 <= i < s.len() implies is_chomped(#[trigger] s[i], t[i]) by {
            assert(is_chomped(a[i + 1], b[i + 1]));
        }
        lemma_lookup_chomped(s, t, name);
        assert(is_chomped(a[0], b[0]));
        lemma_chomped_field(a[0]);
    }
}

/// Line endings change no value: a head gives the same with line feeds alone as with carriage
/// returns before them.
pub proof fn line_endings_change_no_value(head: Seq<char>, name: Seq<char>)
    ensures
        value_in(bare(head), name) == value_in(head, name),
{
    lemma_lines_bare(head);
    if lines(head).len() > 0 {
        let a = lines(head).skip(1);
        let b = lines(bare(head)).skip(1);
        assert forall|i: int| 0 <= i < a.len() implies is_chomped(#[trigger] a[i], b[i]) by {
            assert(is_chomped(lines(head)[i + 1], lines(bare(head))[i + 1]));
        }
        lemma_lookup_chomped(a, b, name);
    }
}

proof fn lemma_encode_add(a: Seq<char>, b: Seq<char>)
    ensures
        encode_utf8(a + b) == encode_utf8(a) + encode_utf8(b),
    decreases a.len(),
{
    if a.len() == 0 {
        assert(a + b =~= b);
        assert(encode_utf8(a) + encode_utf8(b) =~= encode_utf8(b));
    } else {
        lemma_encode_add(a.drop_first(), b);
        assert((a + b).drop_first() =~= a.drop_first() + b);
        assert(encode_utf8(a + b) =~= encode_utf8(a) + encode_utf8(b));
    }
}

proof fn lemma_high_bit(x: u8)
    ensures
        0xC0u8 | x >= 0x80,
        0xE0u8 | x >= 0x80,
        0xF0u8 | x >= 0x80,
        0x80u8 | x >= 0x80,
{
    assert(0xC0u8 | x >= 0x80 && 0xE0u8 | x >= 0x80 && 0xF0u8 | x >= 0x80 && 0x80u8 | x >= 0x80)
        by (bit_vector);
}

proof fn lemma_encode_char(c: char)
    requires
        c != '\n',
    ensures
        encode_scalar(c as u32).len() > 0,
        forall|k: int|
            0 <= k < encode_scalar(c as u32).len() ==> #[trigger] encode_scalar(c as u32)[k] != 10,
{
    let v = c as u32;
    char_is_scalar(c);
    if v <= 0x7F {
        assert((v & 0x7F) as u8 == v) by (bit_vector)
            requires
                v <= 0x7F,
        ;
    } else {
        lemma_high_bit(((v >> 6) & 0x1F) as u8);
        lemma_high_bit(((v >> 12) & 0x0F) as u8);
        lemma_high_bit(((v >> 18) & 0x7) as u8);
        lemma_high_bit((v & 0x3F) as u8);
        lemma_high_bit(((v >> 6) & 0x3F) as u8);
        lemma_high_bit(((v >> 12) & 0x3F) as u8);
    }
}

/// Text without a line feed is encoded without one, and not to nothing.
proof fn lemma_encode_line(s: Seq<char>)
    requires
        !s.contains('\n'),
    ensures
        s.len() > 0 ==> encode_utf8(s).len() > 0,
        forall|k: int| 0 <= k < encode_utf8(s).len() ==> #[trigger] encode_utf8(s)[k] != 10,
    decreases s.len(),
{
    if s.len() > 0 {
        let t = s.drop_first();
        assert(s.contains(s[0]));
        assert forall|k: int| 0 <= k < t.len() implies t[k] != '\n' by {
            assert(s.contains(s[k + 1]));
        }
        lemma_encode_char(s[0]);
        lemma_encode_line(t);
        let e = encode_scalar(s[0] as u32);
        let all = encode_utf8(s);
        assert forall|k: int| 0 <= k < all.len() implies #[trigger] all[k] != 10 by {
            if k < e.len() {
                assert(all[k] == e[k]);
            } else {
                assert(all[k] == encode_utf8(t)[k - e.len()]);
            }
        }
    }
}

proof fn lemma_encode_crlf()
    ensures
        encode_utf8(crlf()) == seq![13u8, 10u8],
{
    reveal_with_fuel(encode_utf8, 3);
    assert((13u32 & 0x7F) as u8 == 13) by (bit_vector);
    assert((10u32 & 0x7F) as u8 == 10) by (bit_vector);
    assert(crlf().drop_first() =~= seq!['\n']);
    assert(crlf().drop_first().drop_first() =~= seq![]);
    assert(encode_utf8(crlf()) =~= seq![13u8, 10u8]);
}

/// No part of some bytes, from their start, ends with an empty line.
spec fn unfinished(bytes: Seq<u8>) -> bool {
    forall|k: int| 0 <= k <= bytes.len() ==> !ends_blank(#[trigger] bytes.take(k))
}

proof fn lemma_unfinished_line(before: Seq<u8>, line: Seq<u8>)
    requires
        unfinished(before),
        line.len() > 0 || before.len() == 0,
        forall|k: int| 0 <= k < line.len() ==> #[trigger] line[k] != 10,
    ensures
        unfinished(before + line + seq![13u8, 10u8]),
{
    let all = before + line + seq![13u8, 10u8];
    let n = (before.len() + line.len()) as int;
    assert forall|k: int| 0 <= k <= all.len() implies !ends_blank(#[trigger] all.take(k)) by {
        let part = all.take(k);
        if k <= before.len() {
            assert(part =~= before.take(k));
        } else if k <= n {
            assert(part[k - 1] == line[k - 1 - before.len()]);
        } else if k == n + 1 {
            assert(part[k - 1] == 13);
        } else {
            assert(part[k - 1] == 10);
            assert(part[k - 2] == 13);
            if line.len() > 0 {
                assert(part[k - 3] == line[line.len() - 1]);
            }
        }
    }
}

proof fn lemma_fields_finish(before: Seq<u8>, fields: Seq<(Seq<char>, Seq<char>)>)
    requires
        unfinished(before),
        before.len() >= 2,
        before[before.len() - 2] == 13,
        before[before.len() - 1] == 10,
        forall|i: int| 0 <= i < fields.len() ==> is_field(#[trigger] fields[i]),
    ensures
        ({
            let head = before + encode_utf8(field_lines(fields) + crlf());
            &&& ends_blank(head)
            &&& head[head.len() - 2] == 13
            &&& forall|k: int| 0 <= k < head.len() ==> !ends_blank(#[trigger] head.take(k))
        }),
    decreases fields.len(),
{
    let text = field_lines(fields) + crlf();
    let head = before + encode_utf8(text);
    lemma_encode_crlf();
    if fields.len() == 0 {
        assert(text =~= crlf());
        assert forall|k: int| 0 <= k < head.len() implies !ends_blank(#[trigger] head.take(k)) by {
            if k <= before.len() {
                assert(head.take(k) =~= before.take(k));
            } else {
                assert(head.take(k)[k - 1] == 13);
            }
        }
    } else {
        let line = field_line(fields[0]);
        let rest = field_lines(fields.skip(1)) + crlf();
        lemma_field_lines_front(fields);
        assert(text =~= line + crlf() + rest);
        lemma_encode_add(line + crlf(), rest);
        lemma_encode_add(line, crlf());
        assert(is_field(fields[0]));
        lemma_field_line(fields[0]);
        lemma_encode_line(line);
        lemma_unfinished_line(before, encode_utf8(line));
        let after = before + encode_utf8(line) + seq![13u8, 10u8];
        assert forall|i: int| 0 <= i < fields.skip(1).len() implies is_field(
            #[trigger] fields.skip(1)[i],
        ) by {
            assert(fields.skip(1)[i] == fields[i + 1]);
        }
        lemma_fields_finish(after, fields.skip(1));
        assert(after + encode_utf8(rest) =~= head);
    }
}

proof fn lemma_field_line(field: (Seq<char>, Seq<char>))
    requires
        is_field(field),
    ensures
        !field_line(field).contains('\n'),
{
    let line = field_line(field);
    let n = field.0.len() as int;
    assert forall|k: int| 0 <= k < line.len() implies line[k] != '\n' by {
        if k < n {
            assert(field.0.contains(field.0[k]));
        } else if k >= n + 2 {
            assert(field.1.contains(field.1[k - n - 2]));
        }
    }
}

/// A head that is written is read again: of a byte stream that starts with the encoding of a
/// head put together from a first line and headers, each on one line, reading line by line
/// gives that head, and leaves what follows, provided that it is not too long.
pub proof fn written_head_is_read(
    first: Seq<char>,
    fields: Seq<(Seq<char>, Seq<char>)>,
    more: Seq<u8>,
)
    requires
        !first.contains('\n'),
        forall|i: int| 0 <= i < fields.len() ==> is_field(#[trigger] fields[i]),
        encode_utf8(rendered(first, fields)).len() <= MAX_HEAD_BYTES + 2,
    ensures
        head_of(seq![], reads(encode_utf8(rendered(first, fields)) + more)) == Some(
            rendered(first, fields),
        ),
        left_after(seq![], reads(encode_utf8(rendered(first, fields)) + more)) == reads(more),
{
    let text = rendered(first, fields);
    let head = encode_utf8(text);
    let rest = field_lines(fields) + crlf();
    assert(text =~= first + crlf() + rest);
    lemma_encode_add(first + crlf(), rest);
    lemma_encode_add(first, crlf());
    lemma_encode_crlf();
    lemma_encode_line(first);
    let none = Seq::<u8>::empty();
    assert(unfinished(none)) by {
        assert(none.take(0) =~= none);
    }
    lemma_unfinished_line(none, encode_utf8(first));
    let start = encode_utf8(first) + seq![13u8, 10u8];
    assert(none + encode_utf8(first) + seq![13u8, 10u8] =~= start);
    lemma_fields_finish(start, fields);
    assert(head =~= start + encode_utf8(rest));
    assert(is_head(head));
    head_ends_at_the_empty_line(head, more);
    encode_utf8_valid_utf8(text);
    encode_utf8_decode_utf8(text);
}

/// The relay's own answer is read again: whole, with nothing left behind it, and with its
/// length and that the connection closes, where its reason has no line feed and it is not too
/// long.
pub proof fn own_answer_is_read(status: u16, reason: Seq<char>)
    requires
        !reason.contains('\n'),
        encode_utf8(simple(status, reason)).len() <= MAX_HEAD_BYTES + 2,
    ensures
        head_of(seq![], reads(encode_utf8(simple(status, reason)))) == Some(simple(status, reason)),
        left_after(seq![], reads(encode_utf8(simple(status, reason)))) == reads(seq![]),
        value_in(simple(status, reason), "content-length"@) == "0"@,
        value_in(simple(status, reason), "connection"@) == "close"@,
{
    let length = ("Content-Length"@, "0"@);
    let close = ("Connection"@, "close"@);
    let fields = seq![length, close];
    let line = status_line(status, reason);
    let none = Seq::<u8>::empty();
    reveal_strlit("Content-Length");
    reveal_strlit("content-length");
    reveal_strlit("0");
    reveal_strlit("Connection");
    reveal_strlit("connection");
    reveal_strlit("close");
    lemma_status_line(status, reason);
    assert(is_field(length));
    assert(is_field(close));
    written_head_is_read(line, fields, none);
    assert(encode_utf8(simple(status, reason)) + none =~= encode_utf8(simple(status, reason)));
    lemma_trim_word(length.0);
    lemma_trim_word(length.1);
    lemma_trim_word(close.0);
    lemma_trim_word(close.1);
    written_header_is_read_back(line, fields, "content-length"@);
    written_header_is_read_back(line, fields, "connection"@);
    assert(same_but_case(length.0, "content-length"@));
    assert(same_but_case(close.0, "connection"@));
    assert(fields.skip(1)[0] == close);
    reveal_with_fuel(field_value, 3);
}

} // verus!
