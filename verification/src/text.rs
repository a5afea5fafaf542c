//! Text: the few operations on strings that the relay is made of, each with its
//! meaning as a function on sequences of characters.

use vstd::prelude::*;

verus! {

/// Whether `c` has the Unicode property `White_Space`.
pub open spec fn is_space(c: char) -> bool {
    ||| '\u{9}' <= c <= '\u{d}'
    ||| c == ' '
    ||| c == '\u{85}'
    ||| c == '\u{a0}'
    ||| c == '\u{1680}'
    ||| '\u{2000}' <= c <= '\u{200a}'
    ||| c == '\u{2028}'
    ||| c == '\u{2029}'
    ||| c == '\u{202f}'
    ||| c == '\u{205f}'
    ||| c == '\u{3000}'
}

/// The number of characters at the start of `s` that are white space, or that are
/// not, as `space` asks.
pub open spec fn lead(s: Seq<char>, space: bool) -> nat
    decreases s.len(),
{
    if s.len() > 0 && is_space(s[0]) == space {
        1 + lead(s.skip(1), space)
    } else {
        0
    }
}

/// `s` without the white space at its start.
pub open spec fn trim_start(s: Seq<char>) -> Seq<char> {
    s.skip(lead(s, true) as int)
}

/// `s` without the white space at its end.
pub open spec fn trim_end(s: Seq<char>) -> Seq<char>
    decreases s.len(),
{
    if s.len() > 0 && is_space(s.last()) {
        trim_end(s.drop_last())
    } else {
        s
    }
}

/// `s` without the white space at its two ends.
pub open spec fn trim(s: Seq<char>) -> Seq<char> {
    trim_end(trim_start(s))
}

/// The longest stretches of `s` that hold no white space.
pub open spec fn words(s: Seq<char>) -> Seq<Seq<char>>
    decreases s.len(),
    via words_decreases
{
    let t = trim_start(s);
    if t.len() == 0 {
        seq![]
    } else {
        let n = lead(t, false) as int;
        seq![t.take(n)] + words(t.skip(n))
    }
}

/// Where `c` first stands in `s`, and the length of `s` where it does not.
pub open spec fn position(s: Seq<char>, c: char) -> nat
    decreases s.len(),
{
    if s.len() == 0 || s[0] == c {
        0
    } else {
        1 + position(s.skip(1), c)
    }
}

/// What stands before the first `c` of `s`, and what stands behind it.
pub open spec fn split_once(s: Seq<char>, c: char) -> Option<(Seq<char>, Seq<char>)> {
    let i = position(s, c) as int;
    if i < s.len() {
        Some((s.take(i), s.skip(i + 1)))
    } else {
        None
    }
}

/// A line without the carriage return that may end it.
pub open spec fn chomp(line: Seq<char>) -> Seq<char> {
    if line.len() > 0 && line.last() == '\r' {
        line.drop_last()
    } else {
        line
    }
}

/// The lines of `s`: each ends in a line feed, or in a carriage return and a line
/// feed, and is given without; the last may lack its ending.
pub open spec fn lines(s: Seq<char>) -> Seq<Seq<char>>
    decreases s.len(),
{
    let i = position(s, '\n') as int;
    if s.len() == 0 {
        seq![]
    } else if i < s.len() {
        seq![chomp(s.take(i))] + lines(s.skip(i + 1))
    } else {
        seq![s]
    }
}

/// The number of a character, with the letters `A` to `Z` counted as `a` to `z`.
pub open spec fn fold(c: char) -> u32 {
    if 'A' <= c <= 'Z' {
        (c as u32 + 32) as u32
    } else {
        c as u32
    }
}

/// Whether two texts differ at most in the case of the letters `A` to `Z`.
pub open spec fn same_but_case(a: Seq<char>, b: Seq<char>) -> bool {
    &&& a.len() == b.len()
    &&& forall|i: int| 0 <= i < a.len() ==> fold(#[trigger] a[i]) == fold(b[i])
}

/// The decimal digit `d`.
pub open spec fn digit(d: nat) -> char {
    (48 + d) as char
}

/// `n` in decimal, without leading zeros.
pub open spec fn decimal(n: nat) -> Seq<char>
    decreases n,
{
    if n < 10 {
        seq![digit(n)]
    } else {
        decimal(n / 10).push(digit(n % 10))
    }
}

/// The texts of some string slices.
pub open spec fn texts(v: Seq<&str>) -> Seq<Seq<char>> {
    Seq::new(v.len(), |i: int| v[i]@)
}

#[via_fn]
proof fn words_decreases(s: Seq<char>) {
    lemma_lead(s, true);
    let t = trim_start(s);
    if t.len() > 0 {
        lemma_lead(t, false);
        reveal_with_fuel(lead, 2);
    }
}

/// What `lead` counts.
pub(crate) proof fn lemma_lead(s: Seq<char>, space: bool)
    ensures
        lead(s, space) <= s.len(),
        forall|k: int| 0 <= k < lead(s, space) ==> is_space(#[trigger] s[k]) == space,
        lead(s, space) < s.len() ==> is_space(s[lead(s, space) as int]) != space,
    decreases s.len(),
{
    if s.len() > 0 && is_space(s[0]) == space {
        let t = s.skip(1);
        lemma_lead(t, space);
        assert forall|k: int| 0 <= k < lead(s, space) implies is_space(#[trigger] s[k])
            == space by {
            if k > 0 {
                assert(s[k] == t[k - 1]);
            }
        }
    }
}

/// `lead` is the only number that counts so.
pub(crate) proof fn lemma_lead_is(s: Seq<char>, space: bool, n: int)
    requires
        0 <= n <= s.len(),
        forall|k: int| 0 <= k < n ==> is_space(#[trigger] s[k]) == space,
        n < s.len() ==> is_space(s[n]) != space,
    ensures
        lead(s, space) == n,
{
    lemma_lead(s, space);
    let m = lead(s, space) as int;
    if m < n {
        assert(is_space(s[m]) == space);
    } else if n < m {
        assert(is_space(s[n]) == space);
    }
}

/// What `trim_end` leaves.
pub(crate) proof fn lemma_trim_end_is(s: Seq<char>, n: int)
    requires
        0 <= n <= s.len(),
        forall|k: int| n <= k < s.len() ==> is_space(#[trigger] s[k]),
        n > 0 ==> !is_space(s[n - 1]),
    ensures
        trim_end(s) == s.take(n),
    decreases s.len(),
{
    if n < s.len() {
        assert(is_space(s[s.len() - 1]));
        lemma_trim_end_is(s.drop_last(), n);
        assert(s.drop_last().take(n) =~= s.take(n));
    } else {
        assert(s.take(n) =~= s);
    }
}

/// A text without white space is trimmed to itself.
pub(crate) proof fn lemma_trim_word(s: Seq<char>)
    requires
        forall|k: int| 0 <= k < s.len() ==> !is_space(#[trigger] s[k]),
    ensures
        trim(s) == s,
{
    lemma_lead_is(s, true, 0);
    assert(trim_start(s) =~= s);
    lemma_trim_end_is(s, s.len() as int);
    assert(s.take(s.len() as int) =~= s);
}

/// A text that starts with no white space is not blank.
pub(crate) proof fn lemma_not_blank(s: Seq<char>)
    requires
        s.len() > 0,
        !is_space(s[0]),
    ensures
        trim(s).len() > 0,
{
    lemma_lead_is(s, true, 0);
    assert(trim_start(s) =~= s);
    lemma_trim_end_not_empty(s);
}

proof fn lemma_trim_end_not_empty(s: Seq<char>)
    requires
        s.len() > 0,
        !is_space(s[0]),
    ensures
        trim_end(s).len() > 0,
    decreases s.len(),
{
    if is_space(s.last()) {
        lemma_trim_end_not_empty(s.drop_last());
    }
}

/// White space at the end of a text makes no difference to its trimming.
pub(crate) proof fn lemma_trim_drop_last(s: Seq<char>)
    requires
        s.len() > 0,
        is_space(s.last()),
    ensures
        trim(s.drop_last()) == trim(s),
{
    let t = s.drop_last();
    let n = lead(s, true) as int;
    lemma_lead(s, true);
    if n == s.len() {
        lemma_lead_is(t, true, t.len() as int);
        assert(trim_start(s) =~= seq![]);
        assert(trim_start(t) =~= seq![]);
    } else {
        lemma_lead_is(t, true, n);
        assert(trim_start(s).drop_last() =~= trim_start(t));
        assert(is_space(trim_start(s).last()));
    }
}

/// Case makes no character white space.
proof fn lemma_space_case(a: char, b: char)
    requires
        fold(a) == fold(b),
    ensures
        is_space(a) == is_space(b),
{
    if 'A' <= a <= 'Z' {
        assert(97 <= fold(b) <= 122);
    } else if 'A' <= b <= 'Z' {
        assert(97 <= fold(a) <= 122);
    } else {
        assert(a == b);
    }
}

/// Two texts that differ at most in case do so once they are trimmed.
pub(crate) proof fn lemma_trim_case(a: Seq<char>, b: Seq<char>)
    requires
        same_but_case(a, b),
    ensures
        same_but_case(trim(a), trim(b)),
{
    lemma_lead(a, true);
    let n = lead(a, true) as int;
    assert forall|k: int| 0 <= k < n implies is_space(#[trigger] b[k]) by {
        assert(is_space(a[k]));
        lemma_space_case(a[k], b[k]);
    }
    if n < a.len() {
        lemma_space_case(a[n], b[n]);
    }
    lemma_lead_is(b, true, n);
    let s = trim_start(a);
    let t = trim_start(b);
    assert forall|k: int| 0 <= k < s.len() implies fold(#[trigger] s[k]) == fold(t[k]) by {
        assert(fold(a[n + k]) == fold(b[n + k]));
    }
    lemma_trim_end_case(s, t);
}

proof fn lemma_trim_end_case(a: Seq<char>, b: Seq<char>)
    requires
        same_but_case(a, b),
    ensures
        same_but_case(trim_end(a), trim_end(b)),
    decreases a.len(),
{
    if a.len() > 0 {
        lemma_space_case(a[a.len() - 1], b[b.len() - 1]);
        let s = a.drop_last();
        let t = b.drop_last();
        assert forall|k: int| 0 <= k < s.len() implies fold(#[trigger] s[k]) == fold(t[k]) by {
            assert(fold(a[k]) == fold(b[k]));
        }
        lemma_trim_end_case(s, t);
    }
}

/// Of two texts that differ at most in case, a third differs so from both or neither.
pub(crate) proof fn lemma_case_shared(a: Seq<char>, b: Seq<char>, c: Seq<char>, d: Seq<char>)
    requires
        same_but_case(a, b),
        same_but_case(c, d),
    ensures
        same_but_case(a, c) == same_but_case(b, d),
{
    if a.len() == c.len() {
        assert forall|i: int| 0 <= i < a.len() implies fold(a[i]) == fold(b[i]) && fold(c[i])
            == fold(d[i]) by {
            assert(fold(a[i]) == fold(b[i]));
            assert(fold(c[i]) == fold(d[i]));
        }
        if same_but_case(a, c) {
            assert forall|i: int| 0 <= i < b.len() implies fold(#[trigger] b[i]) == fold(d[i]) by {
                assert(fold(a[i]) == fold(c[i]));
            }
        }
        if same_but_case(b, d) {
            assert forall|i: int| 0 <= i < a.len() implies fold(#[trigger] a[i]) == fold(c[i]) by {
                assert(fold(b[i]) == fold(d[i]));
            }
        }
    }
}

/// The digits of a number are digits.
pub(crate) proof fn lemma_decimal(n: nat)
    ensures
        forall|k: int| 0 <= k < decimal(n).len() ==> '0' <= #[trigger] decimal(n)[k] <= '9',
    decreases n,
{
    if n >= 10 {
        lemma_decimal(n / 10);
        let most = decimal(n / 10);
        assert forall|k: int| 0 <= k < decimal(n).len() implies '0' <= #[trigger] decimal(n)[k]
            <= '9' by {
            if k < most.len() {
                assert(decimal(n)[k] == most[k]);
            }
        }
    }
}

/// What `position` finds.
pub(crate) proof fn lemma_position(s: Seq<char>, c: char)
    ensures
        position(s, c) <= s.len(),
        forall|k: int| 0 <= k < position(s, c) ==> #[trigger] s[k] != c,
        position(s, c) < s.len() ==> s[position(s, c) as int] == c,
    decreases s.len(),
{
    if s.len() > 0 && s[0] != c {
        let t = s.skip(1);
        lemma_position(t, c);
        assert forall|k: int| 0 <= k < position(s, c) implies #[trigger] s[k] != c by {
            if k > 0 {
                assert(s[k] == t[k - 1]);
            }
        }
    }
}

/// `position` is the only place that is found so.
pub(crate) proof fn lemma_position_is(s: Seq<char>, c: char, n: int)
    requires
        0 <= n <= s.len(),
        forall|k: int| 0 <= k < n ==> #[trigger] s[k] != c,
        n < s.len() ==> s[n] == c,
    ensures
        position(s, c) == n,
{
    lemma_position(s, c);
    let m = position(s, c) as int;
    if m < n {
        assert(s[m] != c);
    } else if n < m {
        assert(s[n] != c);
    }
}

/// Whether `c` has the Unicode property `White_Space`.
pub fn whitespace(c: char) -> (b: bool)
    ensures
        b == is_space(c),
{
    ('\u{9}' <= c && c <= '\u{d}') || c == ' ' || c == '\u{85}' || c == '\u{a0}' || c == '\u{1680}'
        || ('\u{2000}' <= c && c <= '\u{200a}') || c == '\u{2028}' || c == '\u{2029}' || c
        == '\u{202f}' || c == '\u{205f}' || c == '\u{3000}'
}

/// The characters of `s`, for access by index.
pub(crate) fn chars_of(s: &str) -> (v: Vec<char>)
    ensures
        v@ == s@,
{
    let mut v: Vec<char> = Vec::new();
    for c in iter: s.chars()
        invariant
            v@ == iter.seq().take(iter.index() as int),
            iter.seq() == s@,
    {
        v.push(c);
    }
    v
}

/// The first place from `from` on where white space starts or ends, as `space` asks:
/// the characters between are white space, or are not.
pub(crate) fn skip_run(v: &Vec<char>, from: usize, space: bool) -> (end: usize)
    requires
        from <= v@.len(),
    ensures
        from <= end <= v@.len(),
        end == from + lead(v@.skip(from as int), space),
{
    let mut end: usize = from;
    while end < v.len() && whitespace(v[end]) == space
        invariant
            from <= end <= v@.len(),
            forall|k: int| from <= k < end ==> is_space(#[trigger] v@[k]) == space,
        ensures
            from <= end <= v@.len(),
            forall|k: int| from <= k < end ==> is_space(#[trigger] v@[k]) == space,
            end < v@.len() ==> is_space(v@[end as int]) != space,
        decreases v.len() - end,
    {
        end += 1;
    }
    proof {
        lemma_lead_is(v@.skip(from as int), space, end - from);
    }
    end
}

/// The first place from `from` on where `c` stands, and the length of `v` where it does
/// not.
pub(crate) fn find(v: &Vec<char>, from: usize, c: char) -> (at: usize)
    requires
        from <= v@.len(),
    ensures
        from <= at <= v@.len(),
        at == from + position(v@.skip(from as int), c),
{
    let mut at: usize = from;
    while at < v.len() && v[at] != c
        invariant
            from <= at <= v@.len(),
            forall|k: int| from <= k < at ==> #[trigger] v@[k] != c,
        ensures
            from <= at <= v@.len(),
            forall|k: int| from <= k < at ==> #[trigger] v@[k] != c,
            at < v@.len() ==> v@[at as int] == c,
        decreases v.len() - at,
    {
        at += 1;
    }
    proof {
        lemma_position_is(v@.skip(from as int), c, at - from);
    }
    at
}

/// `s` without the white space at its two ends.
pub fn trimmed(s: &str) -> (t: &str)
    ensures
        t@ == trim(s@),
{
    let v = chars_of(s);
    proof {
        assert(v@.skip(0) =~= s@);
    }
    let start = skip_run(&v, 0, true);
    let mut end: usize = v.len();
    proof {
        lemma_lead(s@, true);
    }
    while end > start && whitespace(v[end - 1])
        invariant
            v@ == s@,
            start <= end <= v@.len(),
            forall|k: int| end <= k < v@.len() ==> is_space(#[trigger] v@[k]),
        ensures
            start <= end <= v@.len(),
            forall|k: int| end <= k < v@.len() ==> is_space(#[trigger] v@[k]),
            end > start ==> !is_space(v@[end - 1]),
        decreases end,
    {
        end -= 1;
    }
    proof {
        let t = trim_start(s@);
        lemma_trim_end_is(t, end - start);
        assert(t.take(end - start) =~= s@.subrange(start as int, end as int));
    }
    s.substring_char(start, end)
}

/// Whether `s` holds nothing but white space.
pub fn blank(s: &str) -> (b: bool)
    ensures
        b == (trim(s@).len() == 0),
{
    let t = trimmed(s);
    t.is_empty()
}

/// What stands before the first `c` of `s`, and what stands behind it.
pub fn split_at_first(s: &str, c: char) -> (parts: Option<(&str, &str)>)
    ensures
        match parts {
            Some((before, behind)) => split_once(s@, c) == Some((before@, behind@)),
            None => split_once(s@, c) is None,
        },
{
    let v = chars_of(s);
    proof {
        assert(v@.skip(0) =~= s@);
    }
    let at = find(&v, 0, c);
    if at < v.len() {
        Some((s.substring_char(0, at), s.substring_char(at + 1, v.len())))
    } else {
        None
    }
}

/// The lines of `s`, without their endings.
pub fn lines_of(s: &str) -> (all: Vec<&str>)
    ensures
        texts(all@) == lines(s@),
{
    let v = chars_of(s);
    let mut all: Vec<&str> = Vec::new();
    let mut start: usize = 0;
    proof {
        assert(v@.skip(0) =~= s@);
        assert(texts(all@) + lines(s@) =~= lines(s@));
    }
    while start < v.len()
        invariant
            v@ == s@,
            start <= v@.len(),
            texts(all@) + lines(v@.skip(start as int)) == lines(s@),
        decreases v.len() - start,
    {
        let ghost rest = v@.skip(start as int);
        let ghost before = texts(all@);
        let at = find(&v, start, '\n');
        let mut end: usize = at;
        if at < v.len() && at > start && v[at - 1] == '\r' {
            end = at - 1;
        }
        let line = s.substring_char(start, end);
        all.push(line);
        let next: usize = if at < v.len() {
            at + 1
        } else {
            v.len()
        };
        proof {
            let i = at - start;
            assert(texts(all@) =~= before.push(line@));
            if at < v.len() {
                assert(line@ =~= chomp(rest.take(i)));
                assert(rest.skip(i + 1) =~= v@.skip(next as int));
                assert(texts(all@) + lines(v@.skip(next as int)) =~= before + lines(rest));
            } else {
                assert(line@ =~= rest);
                assert(lines(v@.skip(next as int)) =~= seq![]);
                assert(texts(all@) + lines(v@.skip(next as int)) =~= before + lines(rest));
            }
        }
        start = next;
    }
    proof {
        assert(lines(v@.skip(start as int)) =~= seq![]);
        assert(texts(all@) + seq![] =~= texts(all@));
    }
    all
}

/// Whether `a` and `b` are the same text.
pub(crate) fn same(a: &str, b: &str) -> (yes: bool)
    ensures
        yes == (a@ == b@),
{
    let v = chars_of(a);
    let w = chars_of(b);
    if v.len() != w.len() {
        return false;
    }
    let mut i: usize = 0;
    while i < v.len()
        invariant
            v@ == a@,
            w@ == b@,
            v@.len() == w@.len(),
            i <= v@.len(),
            forall|k: int| 0 <= k < i ==> v@[k] == w@[k],
        decreases v.len() - i,
    {
        if v[i] != w[i] {
            return false;
        }
        i += 1;
    }
    proof {
        assert(a@ =~= b@);
    }
    true
}

/// The number of `c`, with the letters `A` to `Z` counted as `a` to `z`.
fn folded(c: char) -> (n: u32)
    ensures
        n == fold(c),
{
    if 'A' <= c && c <= 'Z' {
        c as u32 + 32
    } else {
        c as u32
    }
}

/// Whether `a` and `b` differ at most in the case of the letters `A` to `Z`.
pub fn same_ignoring_case(a: &str, b: &str) -> (yes: bool)
    ensures
        yes == same_but_case(a@, b@),
{
    let v = chars_of(a);
    let w = chars_of(b);
    if v.len() != w.len() {
        return false;
    }
    let mut i: usize = 0;
    while i < v.len()
        invariant
            v@ == a@,
            w@ == b@,
            v@.len() == w@.len(),
            i <= v@.len(),
            forall|k: int| 0 <= k < i ==> fold(#[trigger] v@[k]) == fold(w@[k]),
        decreases v.len() - i,
    {
        if folded(v[i]) != folded(w[i]) {
            proof {
                assert(fold(a@[i as int]) != fold(b@[i as int]));
            }
            return false;
        }
        i += 1;
    }
    true
}

/// Appends the decimal digit `d` to `out`.
fn push_digit(out: &mut String, d: u16)
    requires
        d < 10,
    ensures
        final(out)@ == old(out)@.push(digit(d as nat)),
{
    proof {
        reveal_strlit("0");
        reveal_strlit("1");
        reveal_strlit("2");
        reveal_strlit("3");
        reveal_strlit("4");
        reveal_strlit("5");
        reveal_strlit("6");
        reveal_strlit("7");
        reveal_strlit("8");
        reveal_strlit("9");
    }
    let text = match d {
        0 => "0",
        1 => "1",
        2 => "2",
        3 => "3",
        4 => "4",
        5 => "5",
        6 => "6",
        7 => "7",
        8 => "8",
        _ => "9",
    };
    proof {
        assert(text@ =~= seq![digit(d as nat)]);
        assert(old(out)@ + text@ =~= old(out)@.push(digit(d as nat)));
    }
    out.append(text);
}

/// Appends `n` in decimal to `out`.
pub fn push_decimal(out: &mut String, n: u16)
    ensures
        final(out)@ == old(out)@ + decimal(n as nat),
    decreases n,
{
    if n >= 10 {
        push_decimal(out, n / 10);
    }
    push_digit(out, n % 10);
    proof {
        assert(out@ =~= old(out)@ + decimal(n as nat));
    }
}

} // verus!
