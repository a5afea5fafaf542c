//! Heads: the part of an HTTP message that ends with its first empty line.

use crate::text::{
    chars_of, lines_of, same_ignoring_case, skip_run, split_at_first, trimmed,
};
#[allow(unused_imports)]
use crate::text::{
    chomp, lead, lemma_lead, lemma_lead_is, lemma_position_is, lines, same_but_case, split_once,
    texts, trim, trim_start, words,
};
use vstd::prelude::*;
#[allow(unused_imports)]
use vstd::utf8::{decode_utf8, valid_utf8};

verus! {

/// The longest head that is read on, in bytes.
pub const MAX_HEAD_BYTES: usize = 32768;

/// Whether the bytes read so far end with an empty line.
pub open spec fn ends_blank(bytes: Seq<u8>) -> bool {
    let n = bytes.len() as int;
    ||| n >= 4 && bytes[n - 4] == 13 && bytes[n - 3] == 10 && bytes[n - 2] == 13 && bytes[n - 1]
        == 10
    ||| n >= 2 && bytes[n - 2] == 10 && bytes[n - 1] == 10
}

/// What std makes of bytes that are no UTF-8, with replacement characters in place of
/// what cannot be decoded.
pub uninterp spec fn utf8_repaired(bytes: Seq<u8>) -> Seq<char>;

/// Bytes as text: their UTF-8 decoding, or what std makes of them where they have none.
pub open spec fn as_text(bytes: Seq<u8>) -> Seq<char> {
    if valid_utf8(bytes) {
        decode_utf8(bytes)
    } else {
        utf8_repaired(bytes)
    }
}

/// What holds of the text made of bytes that are no UTF-8: it is not empty, and what is UTF-8
/// at their start is decoded, with what is made of the rest behind it.
pub open spec fn is_patched(bytes: Seq<u8>, text: Seq<char>) -> bool {
    !valid_utf8(bytes) ==> {
        &&& text.len() > 0
        &&& forall|n: int|
            0 <= n <= bytes.len() && valid_utf8(#[trigger] bytes.take(n)) ==> text
                == decode_utf8(bytes.take(n)) + utf8_repaired(bytes.skip(n))
    }
}

/// Calls `String::from_utf8_lossy`. Trusted: bytes that are UTF-8 give the text that they
/// encode; other bytes give a text that depends on them alone and is as `is_patched` says.
/// How many replacement characters stand for what cannot be decoded stays unsaid.
#[verifier::external_body]
pub(crate) fn text_of(bytes: &Vec<u8>) -> (text: String)
    ensures
        text@ == (if valid_utf8(bytes@) {
            decode_utf8(bytes@)
        } else {
            utf8_repaired(bytes@)
        }),
        is_patched(bytes@, text@),
{
    String::from_utf8_lossy(bytes).into_owned()
}

/// What reading one more line amounts to, behind the bytes read before: the head, once it
/// is known, and empty where it was given up; `None` where reading goes on.
pub open spec fn head_after(before: Seq<u8>, line: Seq<u8>) -> Option<Seq<char>> {
    let bytes = before + line;
    if line.len() == 0 {
        Some(seq![])
    } else if ends_blank(bytes) {
        Some(as_text(bytes))
    } else if bytes.len() > MAX_HEAD_BYTES {
        Some(seq![])
    } else {
        None
    }
}

/// What reading `arriving` line by line amounts to, behind the bytes read before; `None`
/// where the lines do not settle it.
pub open spec fn head_of(before: Seq<u8>, arriving: Seq<Seq<u8>>) -> Option<Seq<char>>
    decreases arriving.len(),
{
    if arriving.len() == 0 {
        None
    } else {
        match head_after(before, arriving[0]) {
            Some(head) => Some(head),
            None => head_of(before + arriving[0], arriving.skip(1)),
        }
    }
}

/// What is left to read once reading `arriving` line by line, behind the bytes read before,
/// has settled the head.
pub open spec fn left_after(before: Seq<u8>, arriving: Seq<Seq<u8>>) -> Seq<Seq<u8>>
    decreases arriving.len(),
{
    if arriving.len() == 0 {
        seq![]
    } else {
        match head_after(before, arriving[0]) {
            Some(_) => arriving.skip(1),
            None => left_after(before + arriving[0], arriving.skip(1)),
        }
    }
}

/// Where a byte stream's first line feed stands, and its length where it has none.
pub open spec fn line_feed(stream: Seq<u8>) -> nat
    decreases stream.len(),
{
    if stream.len() == 0 || stream[0] == 10 {
        0
    } else {
        1 + line_feed(stream.skip(1))
    }
}

/// What reading a byte stream up to the next line feed gives, time after time: its lines
/// with their endings, and nothing at its end.
pub open spec fn reads(stream: Seq<u8>) -> Seq<Seq<u8>>
    decreases stream.len(),
{
    let i = line_feed(stream) as int;
    if stream.len() == 0 {
        seq![seq![]]
    } else if i < stream.len() {
        seq![stream.take(i + 1)] + reads(stream.skip(i + 1))
    } else {
        seq![stream, seq![]]
    }
}

/// The bytes of a head before its last line, the empty one.
pub open spec fn before_blank(head: Seq<u8>) -> int {
    if head.len() >= 2 && head[head.len() - 2] == 13 {
        head.len() - 2
    } else {
        head.len() - 1
    }
}

/// Whether bytes are a head that is read whole: they end with an empty line, no shorter part
/// of them does, and at most `MAX_HEAD_BYTES` bytes precede the empty line.
pub open spec fn is_head(bytes: Seq<u8>) -> bool {
    &&& ends_blank(bytes)
    &&& forall|k: int| 0 <= k < bytes.len() ==> !ends_blank(#[trigger] bytes.take(k))
    &&& before_blank(bytes) <= MAX_HEAD_BYTES
}

/// A head that is being read.
pub struct HeadReader {
    bytes: Vec<u8>,
}

impl View for HeadReader {
    type V = Seq<u8>;

    /// The bytes read so far.
    closed spec fn view(&self) -> Seq<u8> {
        self.bytes@
    }
}

/// Whether the bytes read so far end with an empty line.
fn at_blank_line(bytes: &Vec<u8>) -> (b: bool)
    ensures
        b == ends_blank(bytes@),
{
    let n = bytes.len();
    (n >= 4 && bytes[n - 4] == 13 && bytes[n - 3] == 10 && bytes[n - 2] == 13 && bytes[n - 1] == 10)
        || (n >= 2 && bytes[n - 2] == 10 && bytes[n - 1] == 10)
}

impl HeadReader {
    /// A head of which nothing was read yet.
    pub fn new() -> (reader: HeadReader)
        ensures
            reader@ == Seq::<u8>::empty(),
    {
        HeadReader { bytes: Vec::with_capacity(1024) }
    }

    /// Takes the bytes that one read up to the next line feed gave, none at the end of the
    /// stream. Gives the head once it is known: empty where the stream ended before it or
    /// where it grew too long.
    pub fn feed(&mut self, line: &[u8]) -> (head: Option<String>)
        ensures
            final(self)@ == old(self)@ + line@,
            match head {
                Some(text) => head_after(old(self)@, line@) == Some(text@),
                None => head_after(old(self)@, line@) is None,
            },
            line@.len() > 0 && ends_blank(final(self)@) ==> is_patched(
                final(self)@,
                as_text(final(self)@),
            ),
            forall|later: Seq<Seq<u8>>|
                head_of(old(self)@, seq![line@] + later) == match head {
                    Some(text) => Some(text@),
                    None => #[trigger] head_of(final(self)@, later),
                },
    {
        proof {
            assert forall|later: Seq<Seq<u8>>|
                head_of(old(self)@, seq![line@] + later) == match head_after(old(self)@, line@) {
                    Some(text) => Some(text),
                    None => #[trigger] head_of(old(self)@ + line@, later),
                } by {
                let all = seq![line@] + later;
                assert(all[0] == line@);
                assert(all.skip(1) =~= later);
            }
        }
        self.bytes.extend_from_slice(line);
        proof {
            assert(self.bytes@ =~= old(self)@ + line@);
        }
        if line.len() == 0 {
            return Some(String::new());
        }
        if at_blank_line(&self.bytes) {
            return Some(text_of(&self.bytes));
        }
        if self.bytes.len() > MAX_HEAD_BYTES {
            return Some(String::new());
        }
        None
    }
}

/// A request line's method and target: its first two words.
pub open spec fn request_line(line: Seq<char>) -> Option<(Seq<char>, Seq<char>)> {
    if words(line).len() >= 2 {
        Some((words(line)[0], words(line)[1]))
    } else {
        None
    }
}

/// The method and the target that a request line names.
pub fn parse_request_line(line: &str) -> (parts: Option<(&str, &str)>)
    ensures
        match parts {
            Some((method, target)) => request_line(line@) == Some((method@, target@)),
            None => request_line(line@) is None,
        },
{
    let v = chars_of(line);
    proof {
        assert(v@.skip(0) =~= line@);
        reveal_with_fuel(words, 3);
    }
    let a = skip_run(&v, 0, true);
    if a == v.len() {
        return None;
    }
    let b = skip_run(&v, a, false);
    let ghost t = trim_start(line@);
    let ghost rest = t.skip(b - a);
    proof {
        assert(t =~= v@.skip(a as int));
        assert(rest =~= v@.skip(b as int));
        assert(words(line@) == seq![t.take(b - a)] + words(rest));
    }
    let c = skip_run(&v, b, true);
    let ghost u = trim_start(rest);
    proof {
        assert(u =~= v@.skip(c as int));
    }
    if c == v.len() {
        proof {
            assert(words(rest) =~= seq![]);
        }
        return None;
    }
    let d = skip_run(&v, c, false);
    let method = line.substring_char(a, b);
    let target = line.substring_char(c, d);
    proof {
        assert(method@ =~= t.take(b - a));
        assert(target@ =~= u.take(d - c));
        assert(words(rest) == seq![u.take(d - c)] + words(u.skip(d - c)));
    }
    Some((method, target))
}

/// What the first of some lines that is a header called `name` says, and nothing where
/// none is.
pub open spec fn lookup(fields: Seq<Seq<char>>, name: Seq<char>) -> Seq<char>
    decreases fields.len(),
{
    if fields.len() == 0 {
        seq![]
    } else {
        match split_once(fields[0], ':') {
            Some((called, says)) => if same_but_case(trim(called), name) {
                trim(says)
            } else {
                lookup(fields.skip(1), name)
            },
            None => lookup(fields.skip(1), name),
        }
    }
}

/// The value of the first header called `name` in a head, without the white space round
/// it, and nothing where there is none.
pub open spec fn value_in(head: Seq<char>, name: Seq<char>) -> Seq<char> {
    if lines(head).len() == 0 {
        seq![]
    } else {
        lookup(lines(head).skip(1), name)
    }
}

/// The value of the first header called `name` in `head`, without the white space round
/// it, and nothing where there is none. Names are compared without regard to case.
pub fn header_value(head: &str, name: &str) -> (value: String)
    ensures
        value@ == value_in(head@, name@),
{
    let all = lines_of(head);
    let ghost fields = lines(head@);
    let mut i: usize = 1;
    while i < all.len()
        invariant
            texts(all@) == fields,
            fields == lines(head@),
            1 <= i,
            i <= all@.len() || all@.len() == 0,
            all@.len() > 0 ==> value_in(head@, name@) == lookup(fields.skip(i as int), name@),
        decreases all.len() - i,
    {
        proof {
            assert(fields[i as int] == all@[i as int]@);
            assert(fields.skip(i as int)[0] == fields[i as int]);
            assert(fields.skip(i as int).skip(1) =~= fields.skip(i + 1));
        }
        match split_at_first(all[i], ':') {
            Some((called, says)) => {
                if same_ignoring_case(trimmed(called), name) {
                    return trimmed(says).to_owned();
                }
            },
            None => {},
        }
        i += 1;
    }
    proof {
        assert(texts(all@).len() == all@.len());
    }
    String::new()
}

/// A carriage return and a line feed.
pub open spec fn crlf() -> Seq<char> {
    seq!['\r', '\n']
}

/// A header line: the name, a colon and a space, the value.
pub open spec fn field_line(field: (Seq<char>, Seq<char>)) -> Seq<char> {
    field.0 + seq![':', ' '] + field.1
}

/// Header lines, each with its ending.
pub open spec fn field_lines(fields: Seq<(Seq<char>, Seq<char>)>) -> Seq<char>
    decreases fields.len(),
{
    if fields.len() == 0 {
        seq![]
    } else {
        field_lines(fields.drop_last()) + (field_line(fields.last()) + crlf())
    }
}

/// A whole head: its first line, its headers and the empty line.
pub open spec fn rendered(first: Seq<char>, fields: Seq<(Seq<char>, Seq<char>)>) -> Seq<char> {
    first + crlf() + field_lines(fields) + crlf()
}

/// The value of the first of some headers that is called `name`, without the white space
/// round it, and nothing where none is.
pub open spec fn field_value(fields: Seq<(Seq<char>, Seq<char>)>, name: Seq<char>) -> Seq<char>
    decreases fields.len(),
{
    if fields.len() == 0 {
        seq![]
    } else if same_but_case(trim(fields[0].0), name) {
        trim(fields[0].1)
    } else {
        field_value(fields.skip(1), name)
    }
}

/// Whether a header fits on one line and its name ends at the first colon.
pub open spec fn is_field(field: (Seq<char>, Seq<char>)) -> bool {
    &&& !field.0.contains('\n')
    &&& !field.0.contains(':')
    &&& !field.1.contains('\n')
}

/// Appends a line ending to `out`.
pub(crate) fn push_crlf(out: &mut String)
    ensures
        final(out)@ == old(out)@ + crlf(),
{
    proof {
        reveal_strlit("\r\n");
        assert("\r\n"@ =~= crlf());
    }
    out.append("\r\n");
}

/// Appends a header line with its ending to `out`.
pub(crate) fn push_field(out: &mut String, name: &str, value: &str)
    ensures
        final(out)@ == old(out)@ + (field_line((name@, value@)) + crlf()),
{
    proof {
        reveal_strlit(": ");
        assert(": "@ =~= seq![':', ' ']);
    }
    out.append(name);
    out.append(": ");
    out.append(value);
    push_crlf(out);
    proof {
        assert(out@ =~= old(out)@ + (field_line((name@, value@)) + crlf()));
    }
}

proof fn lemma_line_feed(s: Seq<u8>)
    ensures
        line_feed(s) <= s.len(),
        forall|k: int| 0 <= k < line_feed(s) ==> #[trigger] s[k] != 10,
        line_feed(s) < s.len() ==> s[line_feed(s) as int] == 10,
    decreases s.len(),
{
    if s.len() > 0 && s[0] != 10 {
        let t = s.skip(1);
        lemma_line_feed(t);
        assert forall|k: int| 0 <= k < line_feed(s) implies #[trigger] s[k] != 10 by {
            if k > 0 {
                assert(s[k] == t[k - 1]);
            }
        }
    }
}

proof fn lemma_head_goes_on(before: Seq<u8>, rest: Seq<u8>, more: Seq<u8>)
    requires
        rest.len() > 0,
        is_head(before + rest),
    ensures
        head_of(before, reads(rest + more)) == Some(as_text(before + rest)),
        left_after(before, reads(rest + more)) == reads(more),
    decreases rest.len(),
{
    let head = before + rest;
    let n = head.len() as int;
    let stream = rest + more;
    let i = line_feed(stream) as int;
    lemma_line_feed(stream);
    assert(stream[rest.len() - 1] == head[n - 1]);
    let line = stream.take(i + 1);
    assert(line =~= rest.take(i + 1));
    let got = reads(stream);
    assert(got == seq![line] + reads(stream.skip(i + 1)));
    assert(got[0] == line);
    assert(got.skip(1) =~= reads(stream.skip(i + 1)));
    if i + 1 == rest.len() {
        assert(before + line =~= head);
        assert(stream.skip(i + 1) =~= more);
    } else {
        let p = before.len() + i + 1;
        assert(before + line =~= head.take(p));
        assert(head[p - 1] == 10);
        assert(p <= before_blank(head));
        let after = rest.skip(i + 1);
        assert((before + line) + after =~= head);
        assert(after + more =~= stream.skip(i + 1));
        lemma_head_goes_on(before + line, after, more);
    }
}

/// A head is read to its empty line and no further: of a byte stream that starts with a head,
/// reading line by line gives that head's text, whatever follows, and leaves what follows.
pub proof fn head_ends_at_the_empty_line(head: Seq<u8>, more: Seq<u8>)
    requires
        is_head(head),
    ensures
        head_of(seq![], reads(head + more)) == Some(as_text(head)),
        left_after(seq![], reads(head + more)) == reads(more),
{
    assert(Seq::<u8>::empty() + head =~= head);
    lemma_head_goes_on(seq![], head, more);
}

/// Heads are read one after the other: of a byte stream that holds two, the second is read
/// behind the first, and behind both there is none.
pub proof fn heads_are_read_one_after_the_other(first: Seq<u8>, second: Seq<u8>)
    requires
        is_head(first),
        is_head(second),
    ensures
        ({
            let all = reads(first + second);
            let rest = left_after(seq![], all);
            &&& head_of(seq![], all) == Some(as_text(first))
            &&& head_of(seq![], rest) == Some(as_text(second))
            &&& head_of(seq![], left_after(seq![], rest)) == Some(Seq::<char>::empty())
        }),
{
    head_ends_at_the_empty_line(first, second);
    head_ends_at_the_empty_line(second, seq![]);
    assert(second + Seq::<u8>::empty() =~= second);
    no_head_without_an_empty_line(seq![]);
}

/// Reading `line` behind `before`, where no empty line comes, gives up or goes on.
proof fn lemma_one_read(before: Seq<u8>, line: Seq<u8>, later: Seq<Seq<u8>>)
    requires
        !ends_blank(before + line),
    ensures
        head_of(before, seq![line] + later) == (if line.len() == 0 || (before + line).len()
            > MAX_HEAD_BYTES {
            Some(Seq::<char>::empty())
        } else {
            head_of(before + line, later)
        }),
{
    let all = seq![line] + later;
    assert(all[0] == line);
    assert(all.skip(1) =~= later);
}

proof fn lemma_head_given_up(before: Seq<u8>, rest: Seq<u8>)
    requires
        forall|k: int| 0 <= k <= (before + rest).len() ==> !ends_blank(
            #[trigger] (before + rest).take(k),
        ),
    ensures
        head_of(before, reads(rest)) == Some(Seq::<char>::empty()),
    decreases rest.len(),
{
    let stream = before + rest;
    let i = line_feed(rest) as int;
    lemma_line_feed(rest);
    assert(stream.take(stream.len() as int) =~= stream);
    let end = Seq::<u8>::empty();
    let none = Seq::<Seq<u8>>::empty();
    if rest.len() > 0 && i < rest.len() {
        let line = rest.take(i + 1);
        let later = rest.skip(i + 1);
        assert(before + line =~= stream.take(before.len() + i + 1));
        assert((before + line) + later =~= stream);
        lemma_one_read(before, line, reads(later));
        lemma_head_given_up(before + line, later);
    } else if rest.len() > 0 {
        assert(reads(rest) =~= seq![rest] + seq![end]);
        lemma_one_read(before, rest, seq![end]);
        assert(stream + end =~= stream);
        lemma_one_read(stream, end, none);
        assert(seq![end] + none =~= seq![end]);
    } else {
        assert(before + end =~= stream);
        lemma_one_read(before, end, none);
        assert(reads(rest) =~= seq![end] + none);
    }
}

/// A stream that ends before any empty line has no head.
pub proof fn no_head_without_an_empty_line(stream: Seq<u8>)
    requires
        forall|k: int| 0 <= k <= stream.len() ==> !ends_blank(#[trigger] stream.take(k)),
    ensures
        head_of(seq![], reads(stream)) == Some(Seq::<char>::empty()),
{
    assert(Seq::<u8>::empty() + stream =~= stream);
    lemma_head_given_up(seq![], stream);
}

proof fn lemma_head_too_long(before: Seq<u8>, rest: Seq<u8>, more: Seq<u8>)
    requires
        ends_blank(before + rest),
        forall|k: int| 0 <= k < (before + rest).len() ==> !ends_blank(
            #[trigger] (before + rest).take(k),
        ),
        before.len() <= MAX_HEAD_BYTES < before_blank(before + rest),
    ensures
        head_of(before, reads(rest + more)) == Some(Seq::<char>::empty()),
    decreases rest.len(),
{
    let head = before + rest;
    let stream = rest + more;
    let i = line_feed(stream) as int;
    lemma_line_feed(stream);
    let b = before_blank(head);
    assert(head[b - 1] == 10);
    assert(stream[b - 1 - before.len()] == 10);
    let line = stream.take(i + 1);
    assert(line =~= rest.take(i + 1));
    let got = reads(stream);
    assert(got[0] == line);
    assert(got.skip(1) =~= reads(stream.skip(i + 1)));
    assert(before + line =~= head.take(before.len() + i + 1));
    if before.len() + i + 1 <= MAX_HEAD_BYTES {
        let after = rest.skip(i + 1);
        assert((before + line) + after =~= head);
        assert(after + more =~= stream.skip(i + 1));
        lemma_head_too_long(before + line, after, more);
    }
}

/// A head whose empty line comes after more than `MAX_HEAD_BYTES` bytes is given up.
pub proof fn too_long_head_is_given_up(head: Seq<u8>, more: Seq<u8>)
    requires
        ends_blank(head),
        forall|k: int| 0 <= k < head.len() ==> !ends_blank(#[trigger] head.take(k)),
        before_blank(head) > MAX_HEAD_BYTES,
    ensures
        head_of(seq![], reads(head + more)) == Some(Seq::<char>::empty()),
{
    assert(Seq::<u8>::empty() + head =~= head);
    lemma_head_too_long(seq![], head, more);
}

/// What the first line is of a text that starts with `line` and an ending.
pub(crate) proof fn lemma_lines_cons(line: Seq<char>, rest: Seq<char>)
    requires
        !line.contains('\n'),
    ensures
        lines(line + crlf() + rest) == seq![line] + lines(rest),
{
    let s = line + crlf() + rest;
    let n = line.len() as int;
    assert(s[n + 1] == '\n');
    assert forall|k: int| 0 <= k < n + 1 implies #[trigger] s[k] != '\n' by {
        if k < n {
            assert(line[k] == s[k]);
        }
    }
    lemma_position_is(s, '\n', n + 1);
    assert(s.take(n + 1).last() == '\r');
    assert(chomp(s.take(n + 1)) =~= line);
    assert(s.skip(n + 2) =~= rest);
}

/// Header lines, taken apart at the first in place of the last.
pub(crate) proof fn lemma_field_lines_front(fields: Seq<(Seq<char>, Seq<char>)>)
    requires
        fields.len() > 0,
    ensures
        field_lines(fields) == field_line(fields[0]) + crlf() + field_lines(fields.skip(1)),
    decreases fields.len(),
{
    let rest = fields.skip(1);
    if fields.len() == 1 {
        assert(fields.drop_last() =~= seq![]);
        assert(rest =~= seq![]);
        assert(field_lines(fields) =~= field_line(fields[0]) + crlf() + field_lines(rest));
    } else {
        lemma_field_lines_front(fields.drop_last());
        assert(fields.drop_last().skip(1) =~= rest.drop_last());
        assert(fields.drop_last()[0] == fields[0]);
        assert(rest.last() == fields.last());
        assert(field_lines(fields) =~= field_line(fields[0]) + crlf() + field_lines(rest));
    }
}

/// Whether one of some headers is called `name`.
pub open spec fn names(fields: Seq<(Seq<char>, Seq<char>)>, name: Seq<char>) -> bool {
    exists|i: int| 0 <= i < fields.len() && same_but_case(trim((#[trigger] fields[i]).0), name)
}

/// Header lines are searched before what follows them.
pub(crate) proof fn lemma_lookup_fields(
    fields: Seq<(Seq<char>, Seq<char>)>,
    more: Seq<char>,
    name: Seq<char>,
)
    requires
        forall|i: int| 0 <= i < fields.len() ==> is_field(#[trigger] fields[i]),
    ensures
        lookup(lines(field_lines(fields) + more), name) == (if names(fields, name) {
            field_value(fields, name)
        } else {
            lookup(lines(more), name)
        }),
    decreases fields.len(),
{
    let s = field_lines(fields) + more;
    if fields.len() == 0 {
        assert(s =~= more);
    } else {
        let field = fields[0];
        let line = field_line(field);
        let rest = field_lines(fields.skip(1)) + more;
        assert(is_field(field));
        lemma_field_lines_front(fields);
        assert(s =~= line + crlf() + rest);
        assert(!line.contains('\n')) by {
            assert forall|k: int| 0 <= k < line.len() implies line[k] != '\n' by {
                let n = field.0.len() as int;
                if k < n {
                    assert(field.0[k] == line[k]);
                } else if k >= n + 2 {
                    assert(field.1[k - n - 2] == line[k]);
                }
            }
        }
        lemma_lines_cons(line, rest);
        assert forall|i: int| 0 <= i < fields.skip(1).len() implies is_field(
            #[trigger] fields.skip(1)[i],
        ) by {
            assert(fields.skip(1)[i] == fields[i + 1]);
        }
        lemma_lookup_fields(fields.skip(1), more, name);
        let all = lines(s);
        assert(all[0] == line);
        assert(all.skip(1) =~= lines(rest));
        let n = field.0.len() as int;
        assert forall|k: int| 0 <= k < n implies #[trigger] line[k] != ':' by {
            assert(field.0[k] == line[k]);
        }
        lemma_position_is(line, ':', n);
        let says = line.skip(n + 1);
        assert(line.take(n) =~= field.0);
        assert(says =~= seq![' '] + field.1);
        assert(says.skip(1) =~= field.1);
        lemma_lead(field.1, true);
        assert(trim_start(says) =~= trim_start(field.1));
        if names(fields.skip(1), name) {
            let i = choose|i: int|
                0 <= i < fields.skip(1).len() && same_but_case(
                    trim((#[trigger] fields.skip(1)[i]).0),
                    name,
                );
            assert(same_but_case(trim(fields[i + 1].0), name));
        }
        if names(fields, name) && !same_but_case(trim(field.0), name) {
            let i = choose|i: int|
                0 <= i < fields.len() && same_but_case(trim((#[trigger] fields[i]).0), name);
            assert(same_but_case(trim(fields.skip(1)[i - 1].0), name));
        }
    }
}

/// There is no value where no header is so called.
pub(crate) proof fn lemma_no_value(fields: Seq<(Seq<char>, Seq<char>)>, name: Seq<char>)
    requires
        !names(fields, name),
    ensures
        field_value(fields, name) == Seq::<char>::empty(),
    decreases fields.len(),
{
    if fields.len() > 0 {
        let rest = fields.skip(1);
        assert(!same_but_case(trim(fields[0].0), name));
        assert forall|i: int| 0 <= i < rest.len() implies !same_but_case(
            trim((#[trigger] rest[i]).0),
            name,
        ) by {
            assert(rest[i] == fields[i + 1]);
        }
        lemma_no_value(rest, name);
    }
}

/// An empty line is no header.
pub(crate) proof fn lemma_lookup_nothing(name: Seq<char>)
    ensures
        lookup(lines(crlf()), name) == Seq::<char>::empty(),
{
    let e = Seq::<char>::empty();
    assert(crlf() =~= e + crlf() + e);
    lemma_lines_cons(e, e);
    reveal_with_fuel(lookup, 2);
    assert(lines(crlf()) =~= seq![e]);
    assert(split_once(e, ':') is None);
}

/// What is written in a head is read back: the value of a header in a head that was put
/// together from a first line and headers, each on one line and without a colon in its
/// name, is that of the first header so called.
pub proof fn written_header_is_read_back(
    first: Seq<char>,
    fields: Seq<(Seq<char>, Seq<char>)>,
    name: Seq<char>,
)
    requires
        !first.contains('\n'),
        forall|i: int| 0 <= i < fields.len() ==> is_field(#[trigger] fields[i]),
    ensures
        value_in(rendered(first, fields), name) == field_value(fields, name),
{
    let rest = field_lines(fields) + crlf();
    assert(rendered(first, fields) =~= first + crlf() + rest);
    lemma_lines_cons(first, rest);
    lemma_lookup_fields(fields, crlf(), name);
    lemma_lookup_nothing(name);
    if !names(fields, name) {
        lemma_no_value(fields, name);
    }
    assert(lines(rendered(first, fields)).skip(1) =~= lines(rest));
}

/// A text without white space, and not empty.
pub open spec fn is_word(s: Seq<char>) -> bool {
    s.len() > 0 && lead(s, false) == s.len()
}

/// A request line's method and target are read back from it, whatever follows them.
pub proof fn request_line_is_read_back(method: Seq<char>, target: Seq<char>, more: Seq<char>)
    requires
        is_word(method),
        is_word(target),
    ensures
        request_line(method + seq![' '] + target + seq![' '] + more) == Some((method, target)),
{
    reveal_with_fuel(words, 3);
    let line = method + seq![' '] + target + seq![' '] + more;
    let m = method.len() as int;
    let t = target.len() as int;
    lemma_lead(method, false);
    lemma_lead(target, false);
    assert(line[0] == method[0]);
    lemma_lead_is(line, true, 0);
    assert(trim_start(line) =~= line);
    assert forall|k: int| 0 <= k < m implies crate::text::is_space(#[trigger] line[k]) == false by {
        assert(line[k] == method[k]);
    }
    assert(line[m] == ' ');
    lemma_lead_is(line, false, m);
    assert(line.take(m) =~= method);
    let rest = line.skip(m);
    assert(rest[0] == ' ');
    assert(rest[1] == target[0]);
    lemma_lead_is(rest, true, 1);
    let u = trim_start(rest);
    assert forall|k: int| 0 <= k < t implies crate::text::is_space(#[trigger] u[k]) == false by {
        assert(u[k] == target[k]);
    }
    assert(u[t] == ' ');
    lemma_lead_is(u, false, t);
    assert(u.take(t) =~= target);
    assert(words(rest) == seq![target] + words(u.skip(t)));
    assert(words(line) == seq![method] + words(rest));
}

} // verus!
