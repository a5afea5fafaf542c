//! What the text operations and the head mean, said of the texts themselves: how a result lies
//! in what it was made of.

#[allow(unused_imports)]
use crate::head::{ends_blank, head_after, lookup, request_line, utf8_repaired, value_in};
#[allow(unused_imports)]
use crate::laws::lemma_chomped_field;
#[allow(unused_imports)]
use crate::text::{
    chomp, decimal, digit, fold, is_space, lead, lemma_lead, lemma_lead_is, lemma_position_is,
    lemma_trim_end_is, lines, same_but_case, split_once, texts, trim, trim_end, trim_start, words,
};
use vstd::prelude::*;
#[allow(unused_imports)]
use vstd::utf8::{encode_utf8, valid_utf8};

verus! {

/// Whether a text is white space throughout.
pub open spec fn is_gap(s: Seq<char>) -> bool {
    forall|i: int| 0 <= i < s.len() ==> is_space(#[trigger] s[i])
}

/// Whether a text holds no white space.
pub open spec fn is_solid(s: Seq<char>) -> bool {
    forall|i: int| 0 <= i < s.len() ==> !is_space(#[trigger] s[i])
}

/// Whether a text has no white space at its two ends.
pub open spec fn is_tight(s: Seq<char>) -> bool {
    s.len() > 0 ==> !is_space(s[0]) && !is_space(s[s.len() - 1])
}

/// Trimming takes away the white space at the two ends, all of it and nothing else.
pub proof fn trimming_uncovers_the_text(before: Seq<char>, text: Seq<char>, behind: Seq<char>)
    requires
        is_gap(before),
        is_tight(text),
        is_gap(behind),
    ensures
        trim(before + text + behind) == text,
{
    let s = before + text + behind;
    let n = before.len() as int;
    if text.len() == 0 {
        assert forall|k: int| 0 <= k < s.len() implies is_space(#[trigger] s[k]) == true by {
            if k < n {
                assert(s[k] == before[k]);
            } else {
                assert(s[k] == behind[k - n]);
            }
        }
        lemma_lead_is(s, true, s.len() as int);
        assert(trim_start(s) =~= seq![]);
    } else {
        assert forall|k: int| 0 <= k < n implies is_space(#[trigger] s[k]) == true by {
            assert(s[k] == before[k]);
        }
        assert(s[n] == text[0]);
        lemma_lead_is(s, true, n);
        let t = trim_start(s);
        let m = text.len() as int;
        assert(t =~= text + behind);
        assert forall|k: int| m <= k < t.len() implies is_space(#[trigger] t[k]) by {
            assert(t[k] == behind[k - m]);
        }
        lemma_trim_end_is(t, m);
        assert(t.take(m) =~= text);
    }
}

proof fn lemma_trim_end(s: Seq<char>) -> (n: int)
    ensures
        0 <= n <= s.len(),
        trim_end(s) == s.take(n),
        is_gap(s.skip(n)),
        n > 0 ==> !is_space(s[n - 1]),
    decreases s.len(),
{
    if s.len() > 0 && is_space(s.last()) {
        let most = s.drop_last();
        let n = lemma_trim_end(most);
        assert(most.take(n) =~= s.take(n));
        assert forall|i: int| 0 <= i < s.skip(n).len() implies is_space(#[trigger] s.skip(n)[i]) by {
            if i < most.len() - n {
                assert(s.skip(n)[i] == most.skip(n)[i]);
            }
        }
        n
    } else {
        assert(s.take(s.len() as int) =~= s);
        s.len() as int
    }
}

/// What is left of a text after trimming lies in it whole, between white space, and has none at
/// its ends.
pub proof fn trimming_leaves_the_text_whole(s: Seq<char>)
    ensures
        is_tight(trim(s)),
        exists|before: Seq<char>, behind: Seq<char>|
            #![trigger is_gap(before), is_gap(behind)]
            is_gap(before) && is_gap(behind) && s == before + trim(s) + behind,
        (trim(s).len() == 0) == is_gap(s),
{
    lemma_lead(s, true);
    let n = lead(s, true) as int;
    let t = trim_start(s);
    let m = lemma_trim_end(t);
    let before = s.take(n);
    let behind = t.skip(m);
    assert forall|i: int| 0 <= i < before.len() implies is_space(#[trigger] before[i]) by {
        assert(before[i] == s[i]);
    }
    assert(is_gap(before));
    assert(is_gap(behind));
    assert(s =~= before + trim(s) + behind);
    if trim(s).len() > 0 {
        assert(trim(s)[0] == s[n]);
        assert(trim(s)[trim(s).len() - 1] == t[m - 1]);
        assert(!is_space(s[n]));
    } else {
        assert forall|i: int| 0 <= i < s.len() implies is_space(#[trigger] s[i]) by {
            if i < n {
                assert(s[i] == before[i]);
            } else {
                assert(s[i] == behind[i - n]);
            }
        }
    }
}

/// Whether two characters are one, or the two cases of one letter from `a` to `z`.
pub open spec fn is_same_letter(c: char, d: char) -> bool {
    ||| c == d
    ||| 'A' <= c <= 'Z' && d as u32 == c as u32 + 32
    ||| 'A' <= d <= 'Z' && c as u32 == d as u32 + 32
}

proof fn lemma_same_letter(c: char, d: char)
    ensures
        (fold(c) == fold(d)) == is_same_letter(c, d),
{
    if c as u32 == d as u32 {
        assert(c == d);
    }
}

/// Two texts are the same but for case if they have the same characters, each letter from `A`
/// to `Z` counting for the one from `a` to `z`, and no other.
pub proof fn case_is_that_of_ascii_letters(a: Seq<char>, b: Seq<char>)
    ensures
        same_but_case(a, b) <==> a.len() == b.len() && forall|i: int|
            0 <= i < a.len() ==> is_same_letter(#[trigger] a[i], b[i]),
{
    assert forall|i: int| 0 <= i < a.len() && a.len() == b.len() implies (fold(#[trigger] a[i])
        == fold(b[i])) == is_same_letter(a[i], b[i]) by {
        lemma_same_letter(a[i], b[i]);
    }
}

/// A text is split where a character first stands, and that character alone is lost.
pub proof fn splitting_parts_at_the_first(before: Seq<char>, c: char, behind: Seq<char>)
    requires
        !before.contains(c),
    ensures
        split_once(before + seq![c] + behind, c) == Some((before, behind)),
        split_once(before, c) is None,
{
    let s = before + seq![c] + behind;
    let n = before.len() as int;
    assert forall|k: int| 0 <= k < n implies #[trigger] s[k] != c by {
        assert(before.contains(before[k]));
    }
    assert(s[n] == c);
    lemma_position_is(s, c, n);
    assert(s.take(n) =~= before);
    assert(s.skip(n + 1) =~= behind);
    assert forall|k: int| 0 <= k < n implies #[trigger] before[k] != c by {
        assert(before.contains(before[k]));
    }
    lemma_position_is(before, c, n);
}

/// A text's lines are what stands between its line feeds, each without the one carriage return
/// that may end it, and at the end what is left, if anything is.
pub proof fn lines_end_at_line_feeds(line: Seq<char>, rest: Seq<char>)
    requires
        !line.contains('\n'),
    ensures
        lines(line + seq!['\r', '\n'] + rest) == seq![line] + lines(rest),
        line.len() == 0 || line[line.len() - 1] != '\r' ==> lines(line + seq!['\n'] + rest)
            == seq![line] + lines(rest),
        line.len() > 0 ==> lines(line) == seq![line],
        lines(Seq::<char>::empty()) == Seq::<Seq<char>>::empty(),
{
    let n = line.len() as int;
    assert forall|k: int| 0 <= k < n implies #[trigger] line[k] != '\n' by {
        assert(line.contains(line[k]));
    }
    lemma_position_is(line, '\n', n);
    lemma_first_line(line, rest);
    let long = line.push('\r');
    assert forall|k: int| 0 <= k < long.len() implies long[k] != '\n' by {
        if k < n {
            assert(long[k] == line[k]);
        }
    }
    lemma_first_line(long, rest);
    assert(long + seq!['\n'] + rest =~= line + seq!['\r', '\n'] + rest);
    assert(chomp(long) =~= line);
}

pub(crate) proof fn lemma_first_line(line: Seq<char>, rest: Seq<char>)
    requires
        !line.contains('\n'),
    ensures
        lines(line + seq!['\n'] + rest) == seq![chomp(line)] + lines(rest),
{
    let s = line + seq!['\n'] + rest;
    let n = line.len() as int;
    assert forall|k: int| 0 <= k < n implies #[trigger] s[k] != '\n' by {
        assert(line.contains(line[k]));
    }
    assert(s[n] == '\n');
    lemma_position_is(s, '\n', n);
    assert(s.take(n) =~= line);
    assert(s.skip(n + 1) =~= rest);
}

pub(crate) proof fn lemma_no_words(s: Seq<char>)
    requires
        is_gap(s),
    ensures
        words(s) == Seq::<Seq<char>>::empty(),
{
    lemma_lead_is(s, true, s.len() as int);
    assert(trim_start(s) =~= seq![]);
}

pub(crate) proof fn lemma_first_word(before: Seq<char>, word: Seq<char>, rest: Seq<char>)
    requires
        is_gap(before),
        is_solid(word) && word.len() > 0,
        rest.len() > 0 ==> is_space(rest[0]),
    ensures
        words(before + word + rest) == seq![word] + words(rest),
{
    let s = before + word + rest;
    let n = before.len() as int;
    let m = word.len() as int;
    assert forall|k: int| 0 <= k < n implies is_space(#[trigger] s[k]) == true by {
        assert(s[k] == before[k]);
    }
    assert(s[n] == word[0]);
    lemma_lead_is(s, true, n);
    let t = trim_start(s);
    assert(t =~= word + rest);
    assert forall|k: int| 0 <= k < m implies is_space(#[trigger] t[k]) == false by {
        assert(t[k] == word[k]);
    }
    if rest.len() > 0 {
        assert(t[m] == rest[0]);
    }
    lemma_lead_is(t, false, m);
    assert(t.take(m) =~= word);
    assert(t.skip(m) =~= rest);
}

/// A request line names its first two words, whatever white space stands before and between
/// them, and whatever stands behind them; with fewer words it names nothing.
pub proof fn request_line_names_two_words(
    before: Seq<char>,
    method: Seq<char>,
    between: Seq<char>,
    asked: Seq<char>,
    behind: Seq<char>,
)
    requires
        is_gap(before),
        is_solid(method) && method.len() > 0,
        is_gap(between) && between.len() > 0,
        is_solid(asked) && asked.len() > 0,
        behind.len() > 0 ==> is_space(behind[0]),
    ensures
        request_line(before + method + between + asked + behind) == Some((method, asked)),
        request_line(before + method + between) is None,
        request_line(before + method) is None,
        request_line(before) is None,
{
    let rest = between + asked + behind;
    assert(is_space(between[0]));
    assert(rest[0] == between[0]);
    assert(before + method + between + asked + behind =~= before + method + rest);
    lemma_first_word(before, method, rest);
    lemma_first_word(between, asked, behind);
    let none = Seq::<char>::empty();
    assert(before + method + none =~= before + method);
    lemma_first_word(before, method, none);
    lemma_first_word(before, method, between);
    lemma_no_words(between);
    lemma_no_words(none);
    lemma_no_words(before);
}

/// Whether bytes have an empty line at their end, with line feeds alone or with carriage
/// returns before them.
pub open spec fn is_closed(bytes: Seq<u8>) -> bool {
    let n = bytes.len() as int;
    ||| n >= 2 && bytes.skip(n - 2) == seq![10u8, 10u8]
    ||| n >= 4 && bytes.skip(n - 4) == seq![13u8, 10u8, 13u8, 10u8]
}

/// Whether bytes end with an empty line shows in their last bytes.
pub proof fn empty_line_shows_at_the_end(bytes: Seq<u8>)
    ensures
        ends_blank(bytes) <==> is_closed(bytes),
{
    let n = bytes.len() as int;
    if n >= 2 {
        let end = bytes.skip(n - 2);
        assert(end[0] == bytes[n - 2] && end[1] == bytes[n - 1]);
        if end[0] == 10 && end[1] == 10 {
            assert(end =~= seq![10u8, 10u8]);
        }
    }
    if n >= 4 {
        let end = bytes.skip(n - 4);
        assert(end[0] == bytes[n - 4] && end[1] == bytes[n - 3]);
        assert(end[2] == bytes[n - 2] && end[3] == bytes[n - 1]);
        if end[0] == 13 && end[1] == 10 && end[2] == 13 && end[3] == 10 {
            assert(end =~= seq![13u8, 10u8, 13u8, 10u8]);
        }
    }
}

/// What one more read amounts to, by the bytes that it gave and those before it. At the end of
/// the stream the head is given up. Behind an empty line it is there: the text that the bytes
/// encode, or what is made of bytes that encode none. Without one, reading goes on unless more
/// than 32 KiB were read.
pub proof fn each_read_settles_the_head_or_goes_on(before: Seq<u8>, line: Seq<u8>, text: Seq<char>)
    ensures
        line.len() == 0 ==> head_after(before, line) == Some(Seq::<char>::empty()),
        line.len() > 0 && is_closed(before + line) && before + line == encode_utf8(text)
            ==> head_after(before, line) == Some(text),
        line.len() > 0 && is_closed(before + line) && !valid_utf8(before + line) ==> head_after(
            before,
            line,
        ) == Some(utf8_repaired(before + line)),
        line.len() > 0 && !is_closed(before + line) && before.len() + line.len() > 32768
            ==> head_after(before, line) == Some(Seq::<char>::empty()),
        line.len() > 0 && !is_closed(before + line) && before.len() + line.len() <= 32768
            ==> head_after(before, line) is None,
{
    let bytes = before + line;
    empty_line_shows_at_the_end(bytes);
    if bytes == encode_utf8(text) {
        vstd::utf8::encode_utf8_valid_utf8(text);
        vstd::utf8::encode_utf8_decode_utf8(text);
    }
}

/// A line of a head that is a header called as asked for gives the value: what stands behind
/// its first colon, without the white space at the two ends. It does so wherever it stands, the
/// first line aside, as long as no line before it gives one, and whatever follows it.
pub proof fn first_header_so_called_gives_the_value(
    first: Seq<char>,
    a: Seq<char>,
    called: Seq<char>,
    b: Seq<char>,
    c: Seq<char>,
    value: Seq<char>,
    d: Seq<char>,
    rest: Seq<char>,
    name: Seq<char>,
)
    requires
        !first.contains('\n'),
        is_gap(a) && is_tight(called) && is_gap(b),
        !(a + called + b).contains(':'),
        same_but_case(called, name),
        is_gap(c) && is_tight(value) && is_gap(d),
        !(a + called + b + seq![':'] + (c + value + d)).contains('\n'),
        rest.len() > 0 ==> rest[0] == '\n',
    ensures
        value_in(
            first + seq!['\n'] + (a + called + b + seq![':'] + (c + value + d)) + rest,
            name,
        ) == value,
{
    let line = a + called + b + seq![':'] + (c + value + d);
    let s = line + rest;
    lemma_header_line(line, rest, name);
    lemma_first_line(first, s);
    assert(first + seq!['\n'] + line + rest =~= first + seq!['\n'] + s);
    assert(lines(first + seq!['\n'] + s).skip(1) =~= lines(s));
    splitting_parts_at_the_first(a + called + b, ':', c + value + d);
    trimming_uncovers_the_text(a, called, b);
    trimming_uncovers_the_text(c, value, d);
}

/// What searching from a line on gives, said of the line as it stands.
proof fn lemma_header_line(line: Seq<char>, rest: Seq<char>, name: Seq<char>)
    requires
        !line.contains('\n'),
        rest.len() > 0 ==> rest[0] == '\n',
    ensures
        ({
            let later = if rest.len() == 0 {
                Seq::<char>::empty()
            } else {
                lookup(lines(rest.skip(1)), name)
            };
            lookup(lines(line + rest), name) == (match split_once(line, ':') {
                Some((called, says)) => if same_but_case(trim(called), name) {
                    trim(says)
                } else {
                    later
                },
                None => later,
            })
        }),
{
    let s = line + rest;
    lemma_chomped_field(line);
    reveal_with_fuel(lookup, 2);
    if rest.len() == 0 {
        assert(s =~= line);
        lines_end_at_line_feeds(line, rest);
        if line.len() == 0 {
            assert(line =~= Seq::<char>::empty());
            assert(split_once(line, ':') is None);
        } else {
            assert(lines(s)[0] == line);
            assert(lines(s).skip(1) =~= seq![]);
        }
    } else {
        let more = rest.skip(1);
        assert(s =~= line + seq!['\n'] + more);
        lemma_first_line(line, more);
        assert(lines(s)[0] == chomp(line));
        assert(lines(s).skip(1) =~= lines(more));
    }
}

proof fn lemma_line_passed_over(
    first: Seq<char>,
    line: Seq<char>,
    rest: Seq<char>,
    name: Seq<char>,
)
    requires
        !first.contains('\n'),
        !line.contains('\n'),
        match split_once(line, ':') {
            Some((called, says)) => !same_but_case(trim(called), name),
            None => true,
        },
    ensures
        value_in(first + seq!['\n'] + line + seq!['\n'] + rest, name) == value_in(
            first + seq!['\n'] + rest,
            name,
        ),
        value_in(first + seq!['\n'] + line, name) == Seq::<char>::empty(),
        value_in(first, name) == Seq::<char>::empty(),
{
    let tail = seq!['\n'] + rest;
    let none = Seq::<char>::empty();
    lemma_header_line(line, tail, name);
    lemma_header_line(line, none, name);
    assert(tail.skip(1) =~= rest);
    lemma_first_line(first, line + tail);
    lemma_first_line(first, line);
    lemma_first_line(first, rest);
    assert(first + seq!['\n'] + line + seq!['\n'] + rest =~= first + seq!['\n'] + (line + tail));
    assert(line + none =~= line);
    assert(lines(first + seq!['\n'] + (line + tail)).skip(1) =~= lines(line + tail));
    assert(lines(first + seq!['\n'] + line).skip(1) =~= lines(line));
    assert(lines(first + seq!['\n'] + rest).skip(1) =~= lines(rest));
    lines_end_at_line_feeds(first, none);
    if first.len() > 0 {
        assert(lines(first).skip(1) =~= seq![]);
    } else {
        assert(first =~= none);
    }
}

/// A line of a head without a colon makes no difference to a value; and a head of one line has
/// none.
pub proof fn lines_without_a_colon_give_no_value(
    first: Seq<char>,
    line: Seq<char>,
    rest: Seq<char>,
    name: Seq<char>,
)
    requires
        !first.contains('\n'),
        !line.contains('\n'),
        !line.contains(':'),
    ensures
        value_in(first + seq!['\n'] + line + seq!['\n'] + rest, name) == value_in(
            first + seq!['\n'] + rest,
            name,
        ),
        value_in(first + seq!['\n'] + line, name) == Seq::<char>::empty(),
        value_in(first, name) == Seq::<char>::empty(),
{
    splitting_parts_at_the_first(line, ':', Seq::empty());
    lemma_line_passed_over(first, line, rest, name);
}

/// A header called otherwise than asked for makes no difference to the value.
pub proof fn headers_called_otherwise_give_no_value(
    first: Seq<char>,
    a: Seq<char>,
    called: Seq<char>,
    b: Seq<char>,
    says: Seq<char>,
    rest: Seq<char>,
    name: Seq<char>,
)
    requires
        !first.contains('\n'),
        is_gap(a) && is_tight(called) && is_gap(b),
        !(a + called + b).contains(':'),
        !(a + called + b + seq![':'] + says).contains('\n'),
        !same_but_case(called, name),
    ensures
        ({
            let line = a + called + b + seq![':'] + says;
            &&& value_in(first + seq!['\n'] + line + seq!['\n'] + rest, name) == value_in(
                first + seq!['\n'] + rest,
                name,
            )
            &&& value_in(first + seq!['\n'] + line, name) == Seq::<char>::empty()
        }),
{
    splitting_parts_at_the_first(a + called + b, ':', says);
    trimming_uncovers_the_text(a, called, b);
    lemma_line_passed_over(first, a + called + b + seq![':'] + says, rest, name);
}

/// Nothing of some texts is left out when they are taken as sequences.
pub proof fn texts_are_all_there(all: Seq<&str>)
    ensures
        texts(all).len() == all.len(),
        forall|i: int| 0 <= i < all.len() ==> #[trigger] texts(all)[i] == all[i]@,
{
}

/// The number that decimal digits say.
pub open spec fn number(digits: Seq<char>) -> nat
    decreases digits.len(),
{
    if digits.len() == 0 {
        0
    } else {
        number(digits.drop_last()) * 10 + (digits.last() as nat - 48) as nat
    }
}

/// The decimal form of a number consists of digits that say that number, without a zero before
/// them.
pub proof fn digits_say_the_number(n: nat)
    ensures
        decimal(n).len() > 0,
        forall|k: int| 0 <= k < decimal(n).len() ==> '0' <= #[trigger] decimal(n)[k] <= '9',
        decimal(n).len() > 1 ==> decimal(n)[0] != '0',
        number(decimal(n)) == n,
    decreases n,
{
    crate::text::lemma_decimal(n);
    reveal_with_fuel(number, 2);
    if n < 10 {
        assert(decimal(n).drop_last() =~= seq![]);
    } else {
        let most = decimal(n / 10);
        digits_say_the_number(n / 10);
        assert(decimal(n).drop_last() =~= most);
        assert(decimal(n)[0] == most[0]);
        if most.len() == 1 {
            assert(n / 10 < 10) by {
                if n / 10 >= 10 {
                    digits_say_the_number(n / 100);
                    assert(decimal(n / 10) == decimal(n / 10 / 10).push(digit((n / 10) % 10)));
                    assert(n / 10 / 10 == n / 100);
                }
            }
        }
    }
}

} // verus!
