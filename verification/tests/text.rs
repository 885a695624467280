use xcode_project_extractor::utils::text::{
    contains, find_from, has_suffix, lines, split_bounds, to_chars, trim,
};

fn chars(s: &str) -> Vec<char> {
    s.chars().collect()
}

#[test]
fn lines_end_at_line_feeds() {
    assert_eq!(lines("a\nb\n"), vec!["a".to_string(), "b".to_string()]);
    assert_eq!(lines("a\nb"), vec!["a".to_string(), "b".to_string()]);
    assert_eq!(lines("a\n\nb"), vec!["a".to_string(), "".to_string(), "b".to_string()]);
    assert_eq!(lines("\n"), vec!["".to_string()]);
    assert_eq!(lines(""), Vec::<String>::new());
}

#[test]
fn a_carriage_return_before_a_line_feed_belongs_to_the_line_ending() {
    assert_eq!(lines("a\r\nb\r\n"), vec!["a".to_string(), "b".to_string()]);
    assert_eq!(lines("a\r\r\nb"), vec!["a\r".to_string(), "b".to_string()]);
    assert_eq!(lines("a\rb\nc\r"), vec!["a\rb".to_string(), "c\r".to_string()]);
}

#[test]
fn lines_agree_with_the_standard_library() {
    for text in ["", "x", "x\n", "\n\n", "a\r\nb\n\r\nc", "\r", "\r\n", "a\n\r", "é\nü\r\n"] {
        let expected: Vec<String> = text.lines().map(|l| l.to_string()).collect();
        assert_eq!(lines(text), expected);
    }
}

#[test]
fn trimming_takes_whitespace_from_both_ends_only() {
    assert_eq!(trim(&chars("  a b \t\n")), &chars("a b")[..]);
    assert_eq!(trim(&chars("\u{a0}a\u{2003}")), &chars("a")[..]);
    assert_eq!(trim(&chars("   ")), &chars("")[..]);
    assert_eq!(trim(&chars("")), &chars("")[..]);
    assert_eq!(trim(&chars("ab")), &chars("ab")[..]);
    assert_eq!(trim(&chars("_a_")), &chars("_a_")[..]);
}

#[test]
fn trimming_agrees_with_the_standard_library() {
    for text in ["", " ", " a", "a ", "\t a \u{3000}b\r\n", "\u{200b}a"] {
        let got: String = trim(&chars(text)).iter().collect();
        assert_eq!(got, text.trim());
    }
}

#[test]
fn the_leftmost_occurrence_is_found() {
    assert_eq!(find_from(&chars("abcabc"), &chars("bc"), 0), Some(1));
    assert_eq!(find_from(&chars("abcabc"), &chars("bc"), 2), Some(4));
    assert_eq!(find_from(&chars("abcabc"), &chars("bc"), 5), None);
    assert_eq!(find_from(&chars("abcabc"), &chars(""), 3), Some(3));
    assert_eq!(find_from(&chars("abcabc"), &chars(""), 6), Some(6));
    assert_eq!(find_from(&chars("ab"), &chars("abc"), 0), None);
    assert_eq!(find_from(&chars("aab"), &chars("ab"), 0), Some(1));
    assert_eq!(find_from(&chars("aab"), &chars(""), 4), None);
}

#[test]
fn containment_and_suffixes() {
    assert!(contains(&chars("hello"), &chars("ell")));
    assert!(contains(&chars("hello"), &chars("")));
    assert!(!contains(&chars("hello"), &chars("elo")));
    assert!(has_suffix(&chars("View.m"), &chars(".m")));
    assert!(!has_suffix(&chars("View.mm"), &chars(".m")));
    assert!(!has_suffix(&chars("m"), &chars(".m")));
    assert!(has_suffix(&chars(""), &chars("")));
}

#[test]
fn a_text_is_split_at_every_separator() {
    assert_eq!(split_bounds(&chars("a,bc,"), ','), vec![(0, 1), (2, 4), (5, 5)]);
    assert_eq!(split_bounds(&chars(""), ','), vec![(0, 0)]);
    assert_eq!(split_bounds(&chars(","), ','), vec![(0, 0), (1, 1)]);
    assert_eq!(split_bounds(&chars("abc"), ','), vec![(0, 3)]);
}

#[test]
fn the_characters_of_a_string_are_kept_in_order() {
    assert_eq!(to_chars("héllo"), vec!['h', 'é', 'l', 'l', 'o']);
    assert_eq!(to_chars(""), Vec::<char>::new());
}
