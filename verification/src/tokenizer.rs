//! The `13a` tokenizer (the mteval-v13a equivalent used by WMT) and the
//! sentence preprocessing that BLEU applies before counting n-grams.

use vstd::prelude::*;

use crate::regex_rules::{apply_rules, apply_rules_to, check_rules, rules_compile};
use crate::text::{
    chars_of, contains_char, is_normalized, join_with_spaces, join_words, lemma_join_words_normalized,
    lemma_words_from_are_words, replace_all, replace_chars, split_words, string_from_chars,
    trim_end, trim_end_chars, words,
};

verus! {

/// Runs of whitespace collapse to single spaces, with none at either end.
pub open spec fn normalize_spaces(s: Seq<char>) -> Seq<char> {
    join_words(words(s))
}

/// The post-tokenizer of `13a`: the regex rewrites, then the words rejoined by
/// single spaces.
pub open spec fn tokenize_regexp_spec(line: Seq<char>) -> Seq<char> {
    normalize_spaces(apply_rules(line))
}

/// Normalizing whitespace yields normalized text.
pub proof fn lemma_normalize_spaces(s: Seq<char>)
    ensures
        is_normalized(normalize_spaces(s)),
{
    lemma_words_from_are_words(s, seq![]);
    lemma_join_words_normalized(words(s));
}

/// Entity unescaping, applied only when the text holds `&`.
pub open spec fn unescape_entities(s: Seq<char>) -> Seq<char> {
    if s.contains('&') {
        let a = replace_all(s, "&quot;"@, "\""@);
        let b = replace_all(a, "&amp;"@, "&"@);
        let c = replace_all(b, "&lt;"@, "<"@);
        replace_all(c, "&gt;"@, ">"@)
    } else {
        s
    }
}

/// The `13a` tokenization of `line`.
pub open spec fn tokenize_13a_spec(line: Seq<char>) -> Seq<char> {
    let a = replace_all(line, "<skipped>"@, ""@);
    let b = replace_all(a, "-\n"@, ""@);
    let c = replace_all(b, "\n"@, " "@);
    let d = unescape_entities(c);
    tokenize_regexp_spec(seq![' '] + d + seq![' '])
}

/// Applies the regex rewrites, then collapses whitespace: no leading or trailing
/// spaces, a single space between words.
pub fn tokenize_regexp(line: &str) -> (res: String)
    requires
        rules_compile(),
    ensures
        res@ == tokenize_regexp_spec(line@),
        is_normalized(res@),
{
    let rewritten = apply_rules_to(line);
    let chars = chars_of(rewritten.as_str());
    let ws = split_words(&chars);
    let joined = join_with_spaces(&ws);
    proof {
        lemma_normalize_spaces(apply_rules(line@));
    }
    string_from_chars(&joined)
}

/// Replaces every occurrence of the literal `pat` by the literal `rep`.
fn replace_literal(s: &Vec<char>, pat: &str, rep: &str) -> (res: Vec<char>)
    requires
        pat@.len() > 0,
    ensures
        res@ == replace_all(s@, pat@, rep@),
{
    let p = chars_of(pat);
    let r = chars_of(rep);
    replace_chars(s, &p, &r)
}

/// The `13a` tokenizer: drops `<skipped>` markers, joins lines, unescapes the
/// `&quot; &amp; &lt; &gt;` entities, then splits punctuation and symbols off words.
pub fn tokenize_13a(line: &str) -> (res: String)
    requires
        rules_compile(),
    ensures
        res@ == tokenize_13a_spec(line@),
        is_normalized(res@),
{
    proof {
        reveal_strlit("<skipped>");
        reveal_strlit("-\n");
        reveal_strlit("\n");
        reveal_strlit("&quot;");
        reveal_strlit("&amp;");
        reveal_strlit("&lt;");
        reveal_strlit("&gt;");
    }
    let chars = chars_of(line);
    let a = replace_literal(&chars, "<skipped>", "");
    let b = replace_literal(&a, "-\n", "");
    let mut c = replace_literal(&b, "\n", " ");
    let ghost c0 = c@;
    if contains_char(&c, '&') {
        let c1 = replace_literal(&c, "&quot;", "\"");
        let c2 = replace_literal(&c1, "&amp;", "&");
        let c3 = replace_literal(&c2, "&lt;", "<");
        c = replace_literal(&c3, "&gt;", ">");
    }
    assert(c@ == unescape_entities(c0));
    let mut padded: Vec<char> = Vec::new();
    padded.push(' ');
    let mut i: usize = 0;
    while i < c.len()
        invariant
            i <= c.len(),
            padded@ == seq![' '] + c@.take(i as int),
        decreases c.len() - i,
    {
        padded.push(c[i]);
        i = i + 1;
        assert(padded@ =~= seq![' '] + c@.take(i as int));
    }
    assert(c@.take(i as int) =~= c@);
    padded.push(' ');
    let s = string_from_chars(&padded);
    assert(s@ == seq![' '] + unescape_entities(c0) + seq![' ']);
    tokenize_regexp(s.as_str())
}

/// The `13a` tokenizer, or `None` when the regex engine rejects one of its
/// patterns (which a working engine never does).
pub fn try_tokenize_13a(line: &str) -> (res: Option<String>)
    ensures
        res is Some <==> rules_compile(),
        res matches Some(t) ==> t@ == tokenize_13a_spec(line@) && is_normalized(t@),
{
    if check_rules() {
        Some(tokenize_13a(line))
    } else {
        None
    }
}

/// The lowercase form of `s` under the Unicode case mapping that `str::to_lowercase` applies.
pub uninterp spec fn lowercase_of(s: Seq<char>) -> Seq<char>;

/// Trusted: calls std's `str::to_lowercase`; its result is claimed to be the named
/// lowercase form of the argument, nothing more.
#[verifier::external_body]
fn to_lowercase(s: &str) -> (res: String)
    ensures
        res@ == lowercase_of(s@),
{
    s.to_lowercase()
}

/// The sentence that BLEU counts n-grams on: optionally lowercased, stripped of
/// trailing whitespace, then `13a`-tokenized.
pub open spec fn preprocess_spec(sent: Seq<char>, lowercase: bool) -> Seq<char> {
    let s = if lowercase {
        lowercase_of(sent)
    } else {
        sent
    };
    tokenize_13a_spec(trim_end(s))
}

/// Lowercases when asked, strips trailing whitespace, and tokenizes with `13a`.
pub fn preprocess(sent: &str, lowercase: bool) -> (res: String)
    requires
        rules_compile(),
    ensures
        res@ == preprocess_spec(sent@, lowercase),
        is_normalized(res@),
{
    let chars = if lowercase {
        let lowered = to_lowercase(sent);
        chars_of(lowered.as_str())
    } else {
        chars_of(sent)
    };
    let trimmed = trim_end_chars(&chars);
    let s = string_from_chars(&trimmed);
    tokenize_13a(s.as_str())
}

} // verus!
