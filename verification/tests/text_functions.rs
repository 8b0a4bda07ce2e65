use local_rag::text::{
    count_words, same_text, slice_chars, split_into_words, to_chars, trim_chars,
};

fn chars(s: &str) -> Vec<char> {
    s.chars().collect()
}

fn in_white_space_set(c: char) -> bool {
    let n = c as u32;
    (0x09..=0x0D).contains(&n)
        || n == 0x20
        || n == 0x85
        || n == 0xA0
        || n == 0x1680
        || (0x2000..=0x200A).contains(&n)
        || n == 0x2028
        || n == 0x2029
        || n == 0x202F
        || n == 0x205F
        || n == 0x3000
}

#[test]
fn the_white_space_set_is_that_of_the_standard_library() {
    for n in 0..=0x10FFFFu32 {
        if let Some(c) = char::from_u32(n) {
            assert_eq!(c.is_whitespace(), in_white_space_set(c), "U+{:04X}", n);
        }
    }
}

#[test]
fn a_single_character_is_trimmed_away_exactly_if_it_is_whitespace() {
    for n in 0..=0x3100u32 {
        if let Some(c) = char::from_u32(n) {
            assert_eq!(trim_chars(&vec![c]).is_empty(), in_white_space_set(c), "U+{:04X}", n);
        }
    }
}

#[test]
fn a_string_gives_its_characters() {
    let s = "héllo wörld ☃";
    assert_eq!(to_chars(s), chars(s));
    assert_eq!(to_chars(""), Vec::<char>::new());
}

#[test]
fn slice_copies_the_range() {
    let v = chars("abcdef");
    assert_eq!(slice_chars(&v, 1, 4), chars("bcd"));
    assert_eq!(slice_chars(&v, 2, 2), Vec::<char>::new());
    assert_eq!(slice_chars(&v, 0, 6), v);
}

#[test]
fn trim_removes_whitespace_at_both_ends_only() {
    assert_eq!(trim_chars(&chars("  a b \t\n")), chars("a b"));
    assert_eq!(trim_chars(&chars("\u{3000}x\u{a0}")), chars("x"));
    assert_eq!(trim_chars(&chars("x")), chars("x"));
    assert_eq!(trim_chars(&chars(" \n ")), Vec::<char>::new());
    assert_eq!(trim_chars(&Vec::new()), Vec::<char>::new());
}

#[test]
fn words_are_the_runs_between_whitespace() {
    let got = split_into_words(&chars("  one two\tthree\n\nfour  "));
    assert_eq!(got, vec![chars("one"), chars("two"), chars("three"), chars("four")]);
    assert!(split_into_words(&chars(" \t ")).is_empty());
    assert!(split_into_words(&Vec::new()).is_empty());
    assert_eq!(split_into_words(&chars("solo")), vec![chars("solo")]);
}

#[test]
fn word_count_agrees_with_split_whitespace() {
    for s in ["", " ", "a", " a ", "a b", "a  b\tc\n", "\u{2003}x\u{2003}y", "one,two three."] {
        assert_eq!(count_words(&chars(s)), s.split_whitespace().count(), "{:?}", s);
        let split: Vec<String> =
            split_into_words(&chars(s)).iter().map(|w| w.iter().collect()).collect();
        let expected: Vec<String> = s.split_whitespace().map(|w| w.to_string()).collect();
        assert_eq!(split, expected, "{:?}", s);
    }
}

#[test]
fn same_text_compares_characters() {
    assert!(same_text("", ""));
    assert!(same_text("toro", "toro"));
    assert!(!same_text("toro", "Toro"));
    assert!(!same_text("toro", "tor"));
    assert!(!same_text("tor", "toro"));
}
