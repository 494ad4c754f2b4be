use zerobrew::paths::join;
use zerobrew::text::{
    chars_of, contains_chars, drop_trailing_spaces, find_char, has_prefix, is_whitespace,
    push_decimal, push_joined, push_signed_decimal, range_eq_ignore_case, skip_spaces,
    str_contains, to_ascii_lower, trim_range,
};

fn chars(s: &str) -> Vec<char> {
    s.chars().collect()
}

#[test]
fn whitespace_is_the_unicode_property() {
    let mut c = '\0';
    loop {
        assert_eq!(is_whitespace(c), c.is_whitespace(), "{:?}", c);
        if c == char::MAX {
            break;
        }
        c = char::from_u32(c as u32 + 1).unwrap_or('\u{e000}');
    }
}

#[test]
fn chars_of_lists_every_character() {
    assert_eq!(chars_of(""), chars(""));
    assert_eq!(chars_of("aé\u{1F600}z"), vec!['a', 'é', '\u{1F600}', 'z']);
}

#[test]
fn trimming_narrows_a_range() {
    let v = chars("  ab c \t");
    assert_eq!(skip_spaces(&v, 0, v.len()), 2);
    assert_eq!(drop_trailing_spaces(&v, 0, v.len()), 6);
    assert_eq!(trim_range(&v, 0, v.len()), (2, 6));
    assert_eq!(trim_range(&v, 4, 5), (5, 5));
    let blank = chars(" \n ");
    assert_eq!(trim_range(&blank, 0, 3), (3, 3));
    assert_eq!(skip_spaces(&v, 3, 3), 3);
}

#[test]
fn find_char_stops_at_the_first_hit_or_the_end() {
    let v = chars("a#b#c");
    assert_eq!(find_char(&v, 0, 5, '#'), 1);
    assert_eq!(find_char(&v, 2, 5, '#'), 3);
    assert_eq!(find_char(&v, 4, 5, '#'), 5);
    assert_eq!(find_char(&v, 0, 1, '#'), 1);
    assert_eq!(find_char(&v, 0, 0, 'a'), 0);
}

#[test]
fn prefix_and_containment() {
    let v = chars("brew jq");
    assert!(has_prefix(&v, 0, 7, &chars("brew")));
    assert!(has_prefix(&v, 0, 7, &chars("")));
    assert!(!has_prefix(&v, 0, 3, &chars("brew")));
    assert!(has_prefix(&v, 5, 7, &chars("jq")));
    assert!(!has_prefix(&v, 0, 7, &chars("brow")));
    assert!(contains_chars(&v, &chars("w j")));
    assert!(contains_chars(&v, &chars("")));
    assert!(contains_chars(&v, &chars("brew jq")));
    assert!(!contains_chars(&v, &chars("brew jq ")));
    assert!(!contains_chars(&v, &chars("qj")));
    assert!(str_contains("/bin/zsh", "zsh"));
    assert!(!str_contains("/bin/sh", "zsh"));
    assert!(str_contains("", ""));
}

#[test]
fn ascii_case_is_folded_for_letters_only() {
    assert_eq!(to_ascii_lower('A'), 'a');
    assert_eq!(to_ascii_lower('Z'), 'z');
    assert_eq!(to_ascii_lower('a'), 'a');
    assert_eq!(to_ascii_lower('@'), '@');
    assert_eq!(to_ascii_lower('['), '[');
    assert_eq!(to_ascii_lower('É'), 'É');
    let v = chars(" YeS ");
    assert!(range_eq_ignore_case(&v, 1, 4, &chars("yes")));
    assert!(!range_eq_ignore_case(&v, 0, 4, &chars("yes")));
    assert!(!range_eq_ignore_case(&v, 1, 4, &chars("yet")));
}

#[test]
fn decimals_are_written_without_padding() {
    let mut out = String::from("n=");
    push_decimal(&mut out, 0);
    push_decimal(&mut out, 7);
    push_decimal(&mut out, 1050);
    assert_eq!(out, "n=071050");
    let mut out = String::new();
    push_decimal(&mut out, u64::MAX);
    assert_eq!(out, "18446744073709551615");
    for n in [0, 1, -1, 7, 10, -10, 127, i32::MAX, i32::MIN] {
        let mut out = String::new();
        push_signed_decimal(&mut out, n);
        assert_eq!(out, n.to_string());
    }
}

#[test]
fn joining_puts_the_separator_between() {
    let mut out = String::from(">");
    push_joined(&mut out, &vec![], ", ");
    assert_eq!(out, ">");
    push_joined(&mut out, &vec!["a".to_string()], ", ");
    assert_eq!(out, ">a");
    push_joined(&mut out, &vec!["b".to_string(), "".to_string(), "c".to_string()], ", ");
    assert_eq!(out, ">ab, , c");
}

#[test]
fn join_agrees_with_the_standard_path() {
    let bases = ["", "/", "a", "a/", "/a/b", "/a/b/", "a//"];
    let parts = ["", "x", "x/y", "/x", "/", "x/", ".", ".."];
    for base in bases {
        for part in parts {
            let expected = std::path::Path::new(base).join(part);
            assert_eq!(join(base, part), expected.to_str().unwrap(), "{base:?} {part:?}");
        }
    }
}
