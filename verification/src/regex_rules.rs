//! The regular-expression rewrites of the `13a` tokenizer, performed by the
//! `regex` crate behind two trusted wrappers, with what each rewrite does.

use vstd::prelude::*;

verus! {

/// Whether `regex::Regex::new` accepts `pattern` (the pattern parses and the
/// compiled program fits the default size limit).
pub uninterp spec fn regex_accepts(pattern: Seq<char>) -> bool;

/// The text that `regex::Regex::replace_all` yields when the regex compiled from
/// `pattern` rewrites `haystack`, each match replaced by `replacement` with its
/// `$n` group references expanded.
pub uninterp spec fn regex_replace_all_result(
    pattern: Seq<char>,
    haystack: Seq<char>,
    replacement: Seq<char>,
) -> Seq<char>;

/// Trusted: calls `regex::Regex::new(pattern)` and reports whether it returned `Ok`;
/// the result is claimed to be `regex_accepts` of the pattern, nothing more.
#[verifier::external_body]
pub(crate) fn regex_compiles(pattern: &str) -> (ok: bool)
    ensures
        ok == regex_accepts(pattern@),
{
    regex::Regex::new(pattern).is_ok()
}

/// An ASCII digit (the class `[0-9]`).
pub open spec fn is_digit(c: char) -> bool {
    0x30 <= (c as u32) <= 0x39
}

/// A period or a comma (the class `[\.,]`).
pub open spec fn is_period_or_comma(c: char) -> bool {
    c == '.' || c == ','
}

/// A character of the class of [`PUNCT_PATTERN`]: the ASCII space and symbols
/// other than `'`, `-`, `.`, letters and digits.
pub open spec fn is_split_symbol(c: char) -> bool {
    let u = c as u32;
    ||| 0x20 <= u <= 0x26
    ||| 0x28 <= u <= 0x2b
    ||| u == 0x2f
    ||| 0x3a <= u <= 0x40
    ||| 0x5b <= u <= 0x60
    ||| 0x7b <= u <= 0x7e
}

/// [`PUNCT_PATTERN`] replaced by [`PUNCT_REPLACEMENT`]: each symbol `c` becomes `" c "`.
pub open spec fn pad_symbols(s: Seq<char>) -> Seq<char>
    decreases s.len(),
{
    if s.len() == 0 {
        seq![]
    } else {
        (if is_split_symbol(s[0]) {
            seq![' ', s[0], ' ']
        } else {
            seq![s[0]]
        }) + pad_symbols(s.drop_first())
    }
}

/// [`PERIOD_AFTER_PATTERN`] replaced by [`PERIOD_AFTER_REPLACEMENT`]: scanning from
/// the left, each non-digit `x` followed by a period or comma `p` becomes `"x p "`.
pub open spec fn split_period_after(s: Seq<char>) -> Seq<char>
    decreases s.len(),
{
    if s.len() < 2 {
        s
    } else if !is_digit(s[0]) && is_period_or_comma(s[1]) {
        seq![s[0], ' ', s[1], ' '] + split_period_after(s.skip(2))
    } else {
        seq![s[0]] + split_period_after(s.drop_first())
    }
}

/// [`PERIOD_BEFORE_PATTERN`] replaced by [`PERIOD_BEFORE_REPLACEMENT`]: scanning from
/// the left, each period or comma `p` followed by a non-digit `x` becomes `" p x"`.
pub open spec fn split_period_before(s: Seq<char>) -> Seq<char>
    decreases s.len(),
{
    if s.len() < 2 {
        s
    } else if is_period_or_comma(s[0]) && !is_digit(s[1]) {
        seq![' ', s[0], ' ', s[1]] + split_period_before(s.skip(2))
    } else {
        seq![s[0]] + split_period_before(s.drop_first())
    }
}

/// [`DASH_PATTERN`] replaced by [`DASH_REPLACEMENT`]: scanning from the left, each
/// digit `d` followed by `-` becomes `"d - "`.
pub open spec fn split_dash(s: Seq<char>) -> Seq<char>
    decreases s.len(),
{
    if s.len() < 2 {
        s
    } else if is_digit(s[0]) && s[1] == '-' {
        seq![s[0], ' ', '-', ' '] + split_dash(s.skip(2))
    } else {
        seq![s[0]] + split_dash(s.drop_first())
    }
}

/// Trusted: compiles `pattern` with `regex::Regex::new` (which succeeds, by the
/// `requires`) and calls `replace_all(haystack, replacement)` on it. The text it
/// returns is claimed to be the named result for these three arguments and, for
/// the four patterns of the tokenizer with their replacements, what the `regex`
/// documentation gives: `replace_all` replaces the successive non-overlapping
/// leftmost matches, each by the replacement with `$1`/`$2` expanded to the groups.
#[verifier::external_body]
pub(crate) fn regex_replace_all(pattern: &str, haystack: &str, replacement: &str) -> (res: String)
    requires
        regex_accepts(pattern@),
    ensures
        res@ == regex_replace_all_result(pattern@, haystack@, replacement@),
        pattern@ == PUNCT_PATTERN@ && replacement@ == PUNCT_REPLACEMENT@ ==> res@ == pad_symbols(haystack@),
        pattern@ == PERIOD_AFTER_PATTERN@ && replacement@ == PERIOD_AFTER_REPLACEMENT@ ==> res@
            == split_period_after(haystack@),
        pattern@ == PERIOD_BEFORE_PATTERN@ && replacement@ == PERIOD_BEFORE_REPLACEMENT@ ==> res@
            == split_period_before(haystack@),
        pattern@ == DASH_PATTERN@ && replacement@ == DASH_REPLACEMENT@ ==> res@ == split_dash(haystack@),
{
    regex::Regex::new(pattern).unwrap().replace_all(haystack, replacement).into_owned()
}

/// Wraps punctuation and symbols in spaces (language-dependent part, for Western languages).
pub const PUNCT_PATTERN: &'static str = r"([\x20-\x26\x28-\x2b\x2f\x3a-\x40\x5b-\x60\x7b-\x7e])";

/// Replacement for [`PUNCT_PATTERN`].
pub const PUNCT_REPLACEMENT: &'static str = " $1 ";

/// A period or comma after a non-digit.
pub const PERIOD_AFTER_PATTERN: &'static str = r"([^0-9])([\.,])";

/// Replacement for [`PERIOD_AFTER_PATTERN`].
pub const PERIOD_AFTER_REPLACEMENT: &'static str = "$1 $2 ";

/// A period or comma before a non-digit.
pub const PERIOD_BEFORE_PATTERN: &'static str = r"([\.,])([^0-9])";

/// Replacement for [`PERIOD_BEFORE_PATTERN`].
pub const PERIOD_BEFORE_REPLACEMENT: &'static str = " $1 $2";

/// A dash after a digit.
pub const DASH_PATTERN: &'static str = r"([0-9])(-)";

/// Replacement for [`DASH_PATTERN`].
pub const DASH_REPLACEMENT: &'static str = "$1 $2 ";

/// All four patterns of the tokenizer compile.
pub open spec fn rules_compile() -> bool {
    &&& regex_accepts(PUNCT_PATTERN@)
    &&& regex_accepts(PERIOD_AFTER_PATTERN@)
    &&& regex_accepts(PERIOD_BEFORE_PATTERN@)
    &&& regex_accepts(DASH_PATTERN@)
}

/// The four rewrites applied in order.
pub open spec fn apply_rules(s: Seq<char>) -> Seq<char> {
    split_dash(split_period_before(split_period_after(pad_symbols(s))))
}

/// Checks that every tokenizer pattern compiles.
pub fn check_rules() -> (ok: bool)
    ensures
        ok == rules_compile(),
{
    regex_compiles(PUNCT_PATTERN) && regex_compiles(PERIOD_AFTER_PATTERN) && regex_compiles(
        PERIOD_BEFORE_PATTERN,
    ) && regex_compiles(DASH_PATTERN)
}

/// Applies the four rewrites in order.
pub fn apply_rules_to(s: &str) -> (res: String)
    requires
        rules_compile(),
    ensures
        res@ == apply_rules(s@),
{
    let a = regex_replace_all(PUNCT_PATTERN, s, PUNCT_REPLACEMENT);
    let b = regex_replace_all(PERIOD_AFTER_PATTERN, a.as_str(), PERIOD_AFTER_REPLACEMENT);
    let c = regex_replace_all(PERIOD_BEFORE_PATTERN, b.as_str(), PERIOD_BEFORE_REPLACEMENT);
    regex_replace_all(DASH_PATTERN, c.as_str(), DASH_REPLACEMENT)
}

} // verus!
