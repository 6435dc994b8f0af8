use sacrebleu_rs::text::{
    chars_of, contains_char, is_space_char, join_with_spaces, replace_chars, split_words, trim_end_chars,
};

fn v(s: &str) -> Vec<char> {
    s.chars().collect()
}

#[test]
fn whitespace_agrees_with_std_on_every_char() {
    for u in 0u32..=0x10ffff {
        if let Some(c) = char::from_u32(u) {
            assert_eq!(is_space_char(c), c.is_whitespace(), "U+{:04X}", u);
        }
    }
}

#[test]
fn split_and_join_agree_with_std() {
    for s in ["", "  ", "a", " a  b\tc\n", "x\u{3000}y\u{a0}z", "one two  three "] {
        let words = split_words(&v(s));
        let expected: Vec<Vec<char>> = s.split_whitespace().map(v).collect();
        assert_eq!(words, expected);
        let joined: String = join_with_spaces(&words).into_iter().collect();
        assert_eq!(joined, s.split_whitespace().collect::<Vec<_>>().join(" "));
    }
}

#[test]
fn replace_agrees_with_std() {
    let cases = [
        ("aaa", "aa", "b"),
        ("abcabc", "bc", ""),
        ("<skipped>x<skipped>", "<skipped>", ""),
        ("a-\nb", "-\n", ""),
        ("no match", "zz", "y"),
        ("ab", "abc", "q"),
        ("&amp;&amp;", "&amp;", "&"),
    ];
    for (s, pat, rep) in cases {
        let out: String = replace_chars(&v(s), &v(pat), &v(rep)).into_iter().collect();
        assert_eq!(out, s.replace(pat, rep));
    }
}

#[test]
fn trim_end_agrees_with_std() {
    for s in ["", "  ", "a  ", " a\t\n", "a b", "x\u{2003}"] {
        let out: String = trim_end_chars(&v(s)).into_iter().collect();
        assert_eq!(out, s.trim_end());
    }
}

#[test]
fn chars_and_membership() {
    assert_eq!(chars_of("héllo"), vec!['h', 'é', 'l', 'l', 'o']);
    assert!(contains_char(&v("a&b"), '&'));
    assert!(!contains_char(&v("ab"), '&'));
}
