use split_str::{until_char, SplitStr};

fn joined(parts: &[&str], sep: &str) -> String {
    let mut text = String::new();
    for (i, part) in parts.iter().enumerate() {
        if i > 0 {
            text.push_str(sep);
        }
        text.push_str(part);
    }
    text
}

#[test]
fn basic_work() {
    let to_split = "a b c d e";
    let letters: Vec<&str> = SplitStr::new(to_split, " ").collect();
    assert_eq!(letters, vec!["a", "b", "c", "d", "e"])
}

#[test]
fn tail_split() {
    let to_split = "a b c d ";
    let letters: Vec<&str> = SplitStr::new(to_split, " ").collect();
    assert_eq!(letters, vec!["a", "b", "c", "d", ""])
}

#[test]
fn test_until_char() {
    let init_str = "a b c d e";
    let until_b = until_char(init_str, 'b');
    assert_eq!(until_b, "a ")
}

#[test]
fn until_char_absent_gives_whole_text() {
    assert_eq!(until_char("abc", 'z'), "abc");
}

#[test]
fn until_char_on_empty_text() {
    assert_eq!(until_char("", 'x'), "");
}

#[test]
fn until_char_at_start_gives_empty_prefix() {
    assert_eq!(until_char("bcd", 'b'), "");
}

#[test]
fn until_char_stops_at_first_of_several() {
    assert_eq!(until_char("key=value=more", '='), "key");
}

#[test]
fn until_char_on_multibyte_text() {
    assert_eq!(until_char("h\u{e9}llo w\u{f6}rld", '\u{f6}'), "h\u{e9}llo w");
    assert_eq!(until_char("\u{65e5}\u{672c}\u{8a9e}", '\u{672c}'), "\u{65e5}");
    assert_eq!(until_char("\u{1f600}!", '!'), "\u{1f600}");
}

#[test]
fn text_without_delimiter_is_one_segment() {
    let parts: Vec<&str> = SplitStr::new("hello", ",").collect();
    assert_eq!(parts, vec!["hello"]);
    let parts: Vec<&str> = SplitStr::new("hello", ',').collect();
    assert_eq!(parts, vec!["hello"]);
    let parts: Vec<&str> = SplitStr::new("ab", "abc").collect();
    assert_eq!(parts, vec!["ab"]);
}

#[test]
fn empty_text_is_one_empty_segment() {
    let mut on_text = SplitStr::new("", " ");
    assert_eq!(on_text.next(), Some(""));
    assert_eq!(on_text.next(), None);
    let mut on_char = SplitStr::new("", 'x');
    assert_eq!(on_char.next(), Some(""));
    assert_eq!(on_char.next(), None);
    let parts: Vec<&str> = SplitStr::new("", "--").collect();
    assert_eq!(parts, vec![""]);
}

#[test]
fn exhaustion_is_final() {
    let mut splitter = SplitStr::new("a,b", ',');
    assert_eq!(splitter.next(), Some("a"));
    assert_eq!(splitter.next(), Some("b"));
    assert_eq!(splitter.next(), None);
    assert_eq!(splitter.next(), None);
    assert_eq!(splitter.next(), None);
    let left: Vec<&str> = splitter.collect();
    assert!(left.is_empty());
}

#[test]
fn segments_come_one_at_a_time() {
    let mut splitter = SplitStr::new("one two three", " ");
    assert_eq!(splitter.next(), Some("one"));
    let rest: Vec<&str> = splitter.collect();
    assert_eq!(rest, vec!["two", "three"]);
}

#[test]
fn leading_and_repeated_delimiters_give_empty_segments() {
    let parts: Vec<&str> = SplitStr::new(" a", " ").collect();
    assert_eq!(parts, vec!["", "a"]);
    let parts: Vec<&str> = SplitStr::new("a  b", " ").collect();
    assert_eq!(parts, vec!["a", "", "b"]);
    let parts: Vec<&str> = SplitStr::new(" ", " ").collect();
    assert_eq!(parts, vec!["", ""]);
    let parts: Vec<&str> = SplitStr::new(",,", ',').collect();
    assert_eq!(parts, vec!["", "", ""]);
}

#[test]
fn longer_delimiter_is_matched_whole() {
    let parts: Vec<&str> = SplitStr::new("a--b--c", "--").collect();
    assert_eq!(parts, vec!["a", "b", "c"]);
    let parts: Vec<&str> = SplitStr::new("a---b", "--").collect();
    assert_eq!(parts, vec!["a", "-b"]);
    let parts: Vec<&str> = SplitStr::new("a-b", "--").collect();
    assert_eq!(parts, vec!["a-b"]);
}

#[test]
fn occurrences_do_not_overlap() {
    let parts: Vec<&str> = SplitStr::new("aaaa", "aa").collect();
    assert_eq!(parts, vec!["", "", ""]);
    let parts: Vec<&str> = SplitStr::new("aaa", "aa").collect();
    assert_eq!(parts, vec!["", "a"]);
    let parts: Vec<&str> = SplitStr::new("abababa", "aba").collect();
    assert_eq!(parts, vec!["", "b", ""]);
}

#[test]
fn one_segment_more_than_occurrences() {
    let parts: Vec<&str> = SplitStr::new("a,,b,", ",").collect();
    assert_eq!(parts.len(), 3 + 1);
    let parts: Vec<&str> = SplitStr::new("no comma", ",").collect();
    assert_eq!(parts.len(), 0 + 1);
    let parts: Vec<&str> = SplitStr::new("x\u{2192}y\u{2192}z", '\u{2192}').collect();
    assert_eq!(parts.len(), 2 + 1);
    let cases = [("aaaa", "aa", 2), ("aaaaa", "aa", 2), ("abababa", "aba", 2), ("", "a", 0)];
    for (text, delimiter, occurrences) in cases {
        assert_eq!(text.matches(delimiter).count(), occurrences);
        let parts: Vec<&str> = SplitStr::new(text, delimiter).collect();
        assert_eq!(parts.len(), occurrences + 1);
    }
}

#[test]
fn joining_the_segments_gives_the_text_back() {
    let cases = [
        ("a b c d e", " "),
        ("a b c d ", " "),
        ("", " "),
        (" ", " "),
        ("a--b---c--", "--"),
        ("aaaa", "aa"),
        ("h\u{e9}llo\u{2192}w\u{f6}rld\u{2192}", "\u{2192}"),
        ("nothing to find", "\u{1f600}"),
    ];
    for (text, delimiter) in cases {
        let parts: Vec<&str> = SplitStr::new(text, delimiter).collect();
        assert_eq!(joined(&parts, delimiter), text);
    }
    let parts: Vec<&str> = SplitStr::new("x\u{e9}y\u{e9}\u{e9}z", '\u{e9}').collect();
    assert_eq!(parts, vec!["x", "y", "", "z"]);
    assert_eq!(joined(&parts, "\u{e9}"), "x\u{e9}y\u{e9}\u{e9}z");
}

#[test]
fn splits_on_multibyte_character() {
    let text = "\u{3b1}\u{2192}\u{3b2}\u{2192}\u{3b3}";
    let parts: Vec<&str> = SplitStr::new(text, '\u{2192}').collect();
    assert_eq!(parts, vec!["\u{3b1}", "\u{3b2}", "\u{3b3}"]);
    let parts: Vec<&str> = SplitStr::new("\u{1f600}a\u{1f600}", '\u{1f600}').collect();
    assert_eq!(parts, vec!["", "a", ""]);
}

#[test]
fn character_is_not_found_inside_another_encoding() {
    // U+00E3 is C3 A3, U+00A9 is C2 A9, U+00E9 is C3 A9: the bytes of U+00E9
    // stand in none of the two, though each of them holds one of its bytes.
    let text = "\u{e3}\u{a9}";
    let parts: Vec<&str> = SplitStr::new(text, '\u{e9}').collect();
    assert_eq!(parts, vec![text]);
    assert_eq!(until_char(text, '\u{e9}'), text);
    // U+0080 is C2 80 and U+20AC is E2 82 AC: no ASCII character is found in them.
    let parts: Vec<&str> = SplitStr::new("\u{80}\u{20ac}", '\u{2}').collect();
    assert_eq!(parts, vec!["\u{80}\u{20ac}"]);
}

#[test]
fn literal_and_character_delimiter_agree() {
    let texts = ["", "a", ",", "a,b", ",a,,b,", "\u{e9},\u{20ac},\u{1f600}"];
    for text in texts {
        let on_text: Vec<&str> = SplitStr::new(text, ",").collect();
        let on_char: Vec<&str> = SplitStr::new(text, ',').collect();
        assert_eq!(on_text, on_char);
    }
}

#[test]
fn agrees_with_the_standard_split() {
    let texts = [
        "",
        "a b c d e",
        "a b c d ",
        "  leading",
        "trailing  ",
        "aaaa",
        "abababa",
        "\u{3b1} \u{3b2}  \u{3b3}",
        "\u{1f600}\u{1f600}",
    ];
    let delimiters = [" ", "  ", "a", "aa", "aba", "\u{3b2}", "\u{1f600}", "zzz"];
    for text in texts {
        for delimiter in delimiters {
            let ours: Vec<&str> = SplitStr::new(text, delimiter).collect();
            let theirs: Vec<&str> = text.split(delimiter).collect();
            assert_eq!(ours, theirs);
        }
        for delimiter in [' ', 'a', 'b', '\u{3b2}', '\u{1f600}', 'z'] {
            let ours: Vec<&str> = SplitStr::new(text, delimiter).collect();
            let theirs: Vec<&str> = text.split(delimiter).collect();
            assert_eq!(ours, theirs);
        }
    }
}

#[test]
fn empty_delimiter_is_found_at_the_start_without_progress() {
    let mut splitter = SplitStr::new("abc", "");
    assert_eq!(splitter.next(), Some(""));
    assert_eq!(splitter.next(), Some(""));
    assert_eq!(splitter.next(), Some(""));
    let mut on_empty = SplitStr::new("", "");
    assert_eq!(on_empty.next(), Some(""));
    assert_eq!(on_empty.next(), Some(""));
}

#[test]
fn segments_borrow_from_the_text() {
    let text = String::from("left|right");
    let parts: Vec<&str> = SplitStr::new(text.as_str(), '|').collect();
    let start = text.as_ptr() as usize;
    assert_eq!(parts[0].as_ptr() as usize, start);
    assert_eq!(parts[1].as_ptr() as usize, start + 5);
}

#[test]
fn no_segment_holds_the_delimiter() {
    let cases = [
        ("a b c d e", " "),
        ("aaaa", "aa"),
        ("aaa", "aa"),
        ("abababa", "aba"),
        ("a--b---c--", "--"),
        ("\u{3b1}\u{2192}\u{3b2}\u{2192}\u{2192}", "\u{2192}"),
    ];
    for (text, delimiter) in cases {
        let parts: Vec<&str> = SplitStr::new(text, delimiter).collect();
        for part in parts {
            assert!(!part.contains(delimiter));
        }
    }
}
