use vlc_relay::text::{
    blank, lines_of, push_decimal, same_ignoring_case, split_at_first, trimmed, whitespace,
};

const SAMPLES: [&str; 17] = [
    "",
    " ",
    "\n",
    "\r\n",
    "\r",
    "a",
    "a\r",
    "a\nb",
    "a\r\nb\r\n",
    "a\r\r\nb",
    "\n\n",
    "  x y  ",
    "\u{2003}x\u{3000}",
    "\u{a0}\u{85}",
    "h\u{e9}llo: w\u{f6}rld:\u{1f600}",
    ":",
    "\t a:b \u{b}\u{c}\n c \r\n\r\n",
];

#[test]
fn whitespace_is_that_of_unicode() {
    for c in '\u{0}'..=char::MAX {
        assert_eq!(whitespace(c), c.is_whitespace());
    }
}

#[test]
fn texts_are_trimmed_and_split_as_std_does_it() {
    for s in SAMPLES {
        assert_eq!(trimmed(s), s.trim());
        assert_eq!(blank(s), s.trim().is_empty());
        assert_eq!(split_at_first(s, ':'), s.split_once(':'));
        assert_eq!(lines_of(s), s.lines().collect::<Vec<&str>>());
    }
}

#[test]
fn case_matters_to_no_letter_of_ascii() {
    for a in ["Range", "RANGE", "range", "r\u{e4}nge", "R\u{c4}NGE", "rang", "[", "{", "@", "`"] {
        for b in ["range", "r\u{e4}nge", "{", "`", ""] {
            assert_eq!(same_ignoring_case(a, b), a.eq_ignore_ascii_case(b));
        }
    }
}

#[test]
fn numbers_are_written_in_decimal() {
    for n in 0..=u16::MAX {
        let mut out = String::from("n=");
        push_decimal(&mut out, n);
        assert_eq!(out, format!("n={}", n));
    }
}
