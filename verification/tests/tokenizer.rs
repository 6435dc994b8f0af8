use sacrebleu_rs::tokenizer::{preprocess, tokenize_13a, tokenize_regexp, try_tokenize_13a};

#[test]
fn tokenizer_basics() {
    assert_eq!(tokenize_13a("Hello, World!"), "Hello , World !");
    assert_eq!(tokenize_13a("It's a test."), "It's a test .");
    // comma between digits is kept; dash after a digit splits
    assert_eq!(tokenize_13a("1,000 and 7-up"), "1,000 and 7 - up");
    // entities are unescaped, then quotes are split off as their own tokens
    assert_eq!(tokenize_13a("a &amp; b &quot;c&quot;"), "a & b \" c \"");
}

#[test]
fn tokenizer_drops_skipped_markers_and_joins_lines() {
    assert_eq!(tokenize_13a("a<skipped>b-\nc\nd"), "abc d");
}

#[test]
fn tokenizer_empty_line() {
    assert_eq!(tokenize_13a(""), "");
    assert_eq!(tokenize_13a("   \t "), "");
}

#[test]
fn tokenizer_unescapes_angle_brackets() {
    assert_eq!(tokenize_13a("x &lt; y &gt; z"), "x < y > z");
}

#[test]
fn tokenizer_numbers_and_brackets() {
    assert_eq!(tokenize_13a("3.5 km, 4-5 (x)"), "3.5 km , 4 - 5 ( x )");
}

#[test]
fn regexp_rules_then_single_spaces() {
    assert_eq!(tokenize_regexp("  a,b  "), "a , b");
    assert_eq!(tokenize_regexp("x\t\t y"), "x y");
}

#[test]
fn try_tokenizer_succeeds() {
    assert_eq!(try_tokenize_13a("Hello, World!"), Some("Hello , World !".to_string()));
}

#[test]
fn preprocess_lowercases_and_trims() {
    assert_eq!(preprocess("Hello World!  ", true), "hello world !");
    assert_eq!(preprocess("Hello World!  ", false), "Hello World !");
}

#[test]
fn each_rewrite_splits_what_it_names() {
    // symbols are padded, periods and commas split off unless between digits,
    // and a dash after a digit split off
    assert_eq!(tokenize_regexp("a#b"), "a # b");
    assert_eq!(tokenize_regexp("x.y"), "x . y");
    assert_eq!(tokenize_regexp("3.5"), "3.5");
    assert_eq!(tokenize_regexp("3.a"), "3 . a");
    assert_eq!(tokenize_regexp("a.3"), "a . 3");
    assert_eq!(tokenize_regexp("7-up x-y"), "7 - up x-y");
}
