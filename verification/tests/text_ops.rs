use taskdb::text::{chars_contain, chars_of, is_whitespace, split_whitespace, trim_chars};

fn s(v: &[char]) -> String {
    v.iter().collect()
}

#[test]
fn whitespace_matches_std() {
    for c in ['a', ' ', '\t', '\n', '\u{a0}', '\u{2003}', '\u{3000}', '_', '\u{200b}', '\u{85}'] {
        assert_eq!(is_whitespace(c), c.is_whitespace(), "char {:?}", c);
    }
}

#[test]
fn chars_of_keeps_order() {
    assert_eq!(chars_of("héllo"), vec!['h', 'é', 'l', 'l', 'o']);
    assert_eq!(chars_of(""), Vec::<char>::new());
}

#[test]
fn trim_removes_both_ends() {
    assert_eq!(s(&trim_chars(&chars_of("  a b \t\n"))), "a b");
    assert_eq!(s(&trim_chars(&chars_of("   "))), "");
    assert_eq!(s(&trim_chars(&chars_of("x"))), "x");
}

#[test]
fn split_whitespace_matches_std() {
    for text in ["tag1 tag2", "  +work\t-home \n", "", "   ", "one", "a\u{3000}b"] {
        let ours: Vec<String> = split_whitespace(&chars_of(text)).iter().map(|w| s(w)).collect();
        let std_words: Vec<String> = text.split_whitespace().map(|w| w.to_string()).collect();
        assert_eq!(ours, std_words, "text {:?}", text);
    }
}

#[test]
fn contains_finds_substrings() {
    assert!(chars_contain(&chars_of("abcdef"), &chars_of("cde")));
    assert!(chars_contain(&chars_of("abc"), &chars_of("")));
    assert!(!chars_contain(&chars_of("abc"), &chars_of("abcd")));
    assert!(!chars_contain(&chars_of("abc"), &chars_of("ac")));
}
