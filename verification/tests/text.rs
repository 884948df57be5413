use permafrost::order::{comes_before, sorted};
use permafrost::names::NameSet;
use permafrost::split::{
    advance, join, remove_all, split_lines, split_on, strip_brackets, strip_trailing,
    take_before, take_first_word, trim, trim_end, trim_start,
};
use permafrost::text::{
    contains, copy_of, count_char, encoded_len, find, has_at, is_space_char, is_word_char, same,
    slice, starts_with, to_chars, to_string,
};

fn cs(s: &str) -> Vec<char> {
    s.chars().collect()
}

fn texts(parts: &[&str]) -> Vec<Vec<char>> {
    parts.iter().map(|s| cs(s)).collect()
}

#[test]
fn characters_round_trip_through_strings() {
    let s = "h\u{e9}llo \u{2713} \u{1f600}";
    let chars = to_chars(s);
    assert_eq!(chars, cs(s));
    assert_eq!(chars.len(), 9);
    assert_eq!(to_string(&chars), s);
    assert_eq!(to_string(&Vec::new()), "");
}

#[test]
fn white_space_is_what_the_standard_library_calls_white_space() {
    let mut code: u32 = 0;
    while code <= 0x10FFFF {
        if let Some(c) = char::from_u32(code) {
            assert_eq!(is_space_char(c), c.is_whitespace(), "code point {:x}", code);
        }
        code += 1;
    }
}

#[test]
fn word_characters_are_letters_digits_and_underscore() {
    for c in ['a', 'Z', '9', '_', '\u{e9}', '\u{4e2d}'] {
        assert!(is_word_char(c));
    }
    for c in [' ', '-', '.', '(', '=', '\n', '$'] {
        assert!(!is_word_char(c));
    }
}

#[test]
fn encoded_length_counts_utf8_bytes() {
    assert_eq!(encoded_len(&cs("")), 0);
    assert_eq!(encoded_len(&cs("abc")), 3);
    assert_eq!(encoded_len(&cs("a\u{e9}\u{2713}\u{1f600}")), 10);
    assert_eq!(encoded_len(&cs("\u{7f}\u{80}\u{7ff}\u{800}\u{ffff}\u{10000}")), 1 + 2 + 2 + 3 + 3 + 4);
}

#[test]
fn slices_and_copies() {
    let s = cs("abcdef");
    assert_eq!(slice(&s, 1, 4), cs("bcd"));
    assert_eq!(slice(&s, 2, 2), cs(""));
    assert_eq!(copy_of(&s), s);
    assert!(same(&s, &cs("abcdef")));
    assert!(!same(&s, &cs("abcdeg")));
    assert!(!same(&s, &cs("abcde")));
}

#[test]
fn finds_the_first_occurrence() {
    let hay = cs("abcabc");
    assert_eq!(find(&hay, &cs("bc")), Some(1));
    assert_eq!(find(&hay, &cs("abc")), Some(0));
    assert_eq!(find(&hay, &cs("cab")), Some(2));
    assert_eq!(find(&hay, &cs("cb")), None);
    assert_eq!(find(&hay, &cs("abcabcd")), None);
    assert_eq!(find(&hay, &cs("")), Some(0));
    assert_eq!(find(&cs(""), &cs("")), Some(0));
    assert_eq!(find(&cs(""), &cs("a")), None);
    assert!(contains(&hay, &cs("ca")));
    assert!(!contains(&hay, &cs("ac")));
    assert!(has_at(&hay, &cs("bc"), 4));
    assert!(!has_at(&hay, &cs("bc"), 5));
    assert!(!has_at(&hay, &cs("bc"), 100));
    assert!(starts_with(&hay, &cs("ab")));
    assert!(!starts_with(&hay, &cs("b")));
}

#[test]
fn counts_characters() {
    assert_eq!(count_char(&cs("{ a { b } }"), '{'), 2);
    assert_eq!(count_char(&cs("{ a { b } }"), '}'), 2);
    assert_eq!(count_char(&cs(""), '{'), 0);
}

#[test]
fn trims_unicode_white_space() {
    assert_eq!(trim(&cs(" \t x y \r\n")), cs("x y"));
    assert_eq!(trim(&cs("\u{a0}x\u{3000}")), cs("x"));
    assert_eq!(trim(&cs(" \n\t ")), cs(""));
    assert_eq!(trim(&cs("")), cs(""));
    assert_eq!(trim_start(&cs("  a  ")), cs("a  "));
    assert_eq!(trim_end(&cs("  a  ")), cs("  a"));
}

#[test]
fn splits_on_a_character() {
    assert_eq!(split_on(&cs("a.b."), '.'), texts(&["a", "b", ""]));
    assert_eq!(split_on(&cs(""), '.'), texts(&[""]));
    assert_eq!(split_on(&cs("abc"), '.'), texts(&["abc"]));
    assert_eq!(split_on(&cs(".."), '.'), texts(&["", "", ""]));
}

#[test]
fn splits_into_lines() {
    assert_eq!(split_lines(&cs("a\r\nb\n\nc")), texts(&["a", "b", "", "c"]));
    assert_eq!(split_lines(&cs("a\nb\n")), texts(&["a", "b"]));
    assert_eq!(split_lines(&cs("a\r")), texts(&["a\r"]));
    assert_eq!(split_lines(&cs("a\r\r\n")), texts(&["a\r"]));
    assert_eq!(split_lines(&cs("\n")), texts(&[""]));
    assert_eq!(split_lines(&cs("")), Vec::<Vec<char>>::new());
    let text = "x\r\ny\n\nz\r";
    let expected: Vec<Vec<char>> = text.lines().map(|l| cs(l)).collect();
    assert_eq!(split_lines(&cs(text)), expected);
}

#[test]
fn joins_with_a_separator() {
    assert_eq!(join(&texts(&["a", "b", "c"]), &cs(", ")), cs("a, b, c"));
    assert_eq!(join(&texts(&["a"]), &cs(", ")), cs("a"));
    assert_eq!(join(&texts(&[]), &cs(", ")), cs(""));
    assert_eq!(join(&texts(&["", ""]), &cs("\n")), cs("\n"));
}

#[test]
fn removes_occurrences_from_the_left() {
    assert_eq!(remove_all(&cs("aXbXc"), &cs("X")), cs("abc"));
    assert_eq!(remove_all(&cs("aaa"), &cs("aa")), cs("a"));
    assert_eq!(remove_all(&cs("abc"), &cs("")), cs("abc"));
    assert_eq!(remove_all(&cs("abc"), &cs("abc")), cs(""));
    assert_eq!(remove_all(&cs("abcabc"), &cs("bc")), "abcabc".replace("bc", "").chars().collect::<Vec<char>>());
}

#[test]
fn takes_prefixes_and_words() {
    assert_eq!(take_before(&cs("filter(x)"), '('), cs("filter"));
    assert_eq!(take_before(&cs("today"), '('), cs("today"));
    assert_eq!(take_before(&cs("(x)"), '('), cs(""));
    assert_eq!(strip_trailing(&cs("a;;"), ';'), cs("a"));
    assert_eq!(strip_trailing(&cs(";;"), ';'), cs(""));
    assert_eq!(strip_brackets(&cs("[[a, b]]")), cs("a, b"));
    assert_eq!(strip_brackets(&cs("[]")), cs(""));
    assert_eq!(strip_brackets(&cs("a[0]")), cs("a[0"));
    assert_eq!(take_first_word(&cs("  df: Frame  ")), Some(cs("df:")));
    assert_eq!(take_first_word(&cs("   ")), None);
}

#[test]
fn depth_follows_the_braces_and_stops_at_zero() {
    assert_eq!(advance(0, &cs("namespace fr {"), '{', '}'), 1);
    assert_eq!(advance(1, &cs("if (x) { y } else {"), '{', '}'), 2);
    assert_eq!(advance(2, &cs("}}"), '{', '}'), 0);
    assert_eq!(advance(1, &cs("}}}"), '{', '}'), 0);
    assert_eq!(advance(0, &cs("f(g(x)"), '(', ')'), 1);
}

#[test]
fn dictionary_order_goes_by_the_first_difference() {
    assert!(comes_before(&cs("a"), &cs("b")));
    assert!(comes_before(&cs("c"), &cs("constructor")));
    assert!(comes_before(&cs("constructor"), &cs("d")));
    assert!(comes_before(&cs(""), &cs("a")));
    assert!(comes_before(&cs("Z"), &cs("a")));
    assert!(!comes_before(&cs("a"), &cs("a")));
    assert!(!comes_before(&cs("b"), &cs("a")));
    assert!(!comes_before(&cs("a"), &cs("")));
}

#[test]
fn sorting_lists_each_name_once_in_dictionary_order() {
    let mut names = NameSet::new();
    for n in ["print", "head", "tail", "filter", "__assign", "Zed"] {
        names.insert(n.to_string());
    }
    let mut expected: Vec<String> = names.to_vec();
    expected.sort();
    assert_eq!(sorted(&names).to_vec(), expected);
    assert_eq!(sorted(&NameSet::new()).to_vec(), Vec::<String>::new());
}

const SAMPLES: [&str; 12] = [
    "",
    " ",
    "  let df = fr.read_csv(); ",
    "\tdf\r\n  .filter()\r\n  .print();\n",
    "a.b..c.",
    "[[a, b],]",
    ";;x;;",
    "\u{a0}caf\u{e9} \u{2713}\u{3000}",
    "constructor constructor",
    "\n\n",
    "x\r",
    "aaa aa a",
];

#[test]
fn the_text_functions_agree_with_the_standard_library() {
    for s in SAMPLES {
        let chars = cs(s);
        assert_eq!(to_string(&trim(&chars)), s.trim());
        assert_eq!(to_string(&trim_start(&chars)), s.trim_start());
        assert_eq!(to_string(&trim_end(&chars)), s.trim_end());
        assert_eq!(to_string(&strip_trailing(&chars, ';')), s.trim_end_matches(';'));
        assert_eq!(to_string(&strip_brackets(&chars)), s.trim_matches(&['[', ']'][..]));
        assert_eq!(
            take_first_word(&chars).map(|w| to_string(&w)),
            s.split_whitespace().next().map(|w| w.to_string())
        );
        assert_eq!(to_string(&take_before(&chars, '.')), s.split('.').next().unwrap());
        let lines: Vec<String> = split_lines(&chars).iter().map(|l| to_string(l)).collect();
        assert_eq!(lines, s.lines().map(|l| l.to_string()).collect::<Vec<String>>());
        for sep in ['.', ';', ' ', 'a'] {
            let parts: Vec<String> = split_on(&chars, sep).iter().map(|l| to_string(l)).collect();
            assert_eq!(parts, s.split(sep).map(|l| l.to_string()).collect::<Vec<String>>());
            assert_eq!(count_char(&chars, sep), s.matches(sep).count());
        }
        for needle in ["", "a", "aa", ".", "constructor", "\n", "df"] {
            let n = cs(needle);
            assert_eq!(contains(&chars, &n), s.contains(needle));
            assert_eq!(starts_with(&chars, &n), s.starts_with(needle));
            assert_eq!(
                find(&chars, &n),
                s.find(needle).map(|at| s[..at].chars().count())
            );
            assert_eq!(to_string(&remove_all(&chars, &n)), s.replace(needle, ""));
        }
        for other in SAMPLES {
            assert_eq!(comes_before(&chars, &cs(other)), s < other);
        }
    }
}
