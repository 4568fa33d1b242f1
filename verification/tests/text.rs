use laplace::order::is_text_less;
use laplace::paths::{extension, two_parts};
use laplace::text::{
    decimal_of, is_white_space, lines_of, split_at_each, split_at_first, split_at_last,
    split_at_space, starts_with, strip_prefix, trimmed, trimmed_end, trimmed_start, width_of,
    words_of,
};

#[test]
fn white_space_is_that_of_the_standard_library() {
    for c in '\0'..=char::MAX {
        assert_eq!(is_white_space(c), c.is_whitespace(), "{c:?}");
    }
}

#[test]
fn widths_are_those_of_the_standard_library() {
    for c in ['a', '\u{7f}', '\u{80}', '\u{7ff}', '\u{800}', '\u{ffff}', '\u{10000}'] {
        assert_eq!(width_of(c), c.len_utf8());
    }
}

const SAMPLES: [&str; 14] = [
    "",
    " ",
    "a",
    "\n",
    "\r\n",
    "a\nb",
    "a\r\nb\r",
    "\n\na\n",
    " a  b\tc ",
    "\u{a0}x\u{3000}",
    "a;b;;c;",
    "na\u{ef}ve \u{1f600}",
    "@x@",
    "//",
];

#[test]
fn lines_and_words_are_those_of_the_standard_library() {
    for s in SAMPLES {
        assert_eq!(lines_of(s), s.lines().collect::<Vec<_>>());
        assert_eq!(words_of(s), s.split_whitespace().collect::<Vec<_>>());
        assert_eq!(split_at_each(s, ';'), s.split(';').collect::<Vec<_>>());
        assert_eq!(trimmed(s), s.trim());
        assert_eq!(trimmed_start(s), s.trim_start());
        assert_eq!(trimmed_end(s), s.trim_end());
    }
}

#[test]
fn splits_are_those_of_the_standard_library() {
    let own = |pair: Option<(&str, &str)>| pair.map(|(a, b)| (a.to_string(), b.to_string()));
    for s in SAMPLES {
        assert_eq!(split_at_first(s, '@'), own(s.split_once('@')));
        assert_eq!(split_at_last(s, '@'), own(s.rsplit_once('@')));
        assert_eq!(split_at_space(s), own(s.split_once(char::is_whitespace)));
        assert_eq!(strip_prefix(s, "a"), s.strip_prefix("a").map(str::to_string));
        assert_eq!(starts_with(s, "//"), s.starts_with("//"));
        for t in SAMPLES {
            assert_eq!(is_text_less(s, t), s < t);
        }
    }
}

#[test]
fn numbers_are_written_in_decimal() {
    for n in [0, 7, 10, 99, 100, 12345, usize::MAX] {
        assert_eq!(decimal_of(n), n.to_string());
    }
}

#[test]
fn extensions_are_those_of_the_standard_library() {
    for s in ["a", "b.c", ".b", "a.b.c", "a.", "..b", ".b.c", "a..", "é.stan"] {
        let extension_of = std::path::Path::new(s).extension();
        assert_eq!(extension(s).as_deref(), extension_of.map(|e| e.to_str().unwrap()));
    }
    assert_eq!(two_parts("build", "a/b"), vec!["build", "a/b"]);
}
