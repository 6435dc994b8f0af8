//! Properties of the `13a` tokenizer that hold for every input.

use vstd::prelude::*;

use crate::regex_rules::{
    apply_rules, is_digit, is_period_or_comma, is_split_symbol, pad_symbols, split_dash,
    split_period_after, split_period_before,
};
use crate::text::{is_space, join_words, replace_all, words, words_from};
use crate::tokenizer::{tokenize_13a_spec, tokenize_regexp_spec, unescape_entities};

verus! {

/// Padding symbols works character by character.
proof fn lemma_pad_concat(a: Seq<char>, b: Seq<char>)
    ensures
        pad_symbols(a + b) == pad_symbols(a) + pad_symbols(b),
    decreases a.len(),
{
    if a.len() == 0 {
        assert(a + b =~= b);
    } else {
        lemma_pad_concat(a.drop_first(), b);
        assert((a + b).drop_first() =~= a.drop_first() + b);
        assert((a + b)[0] == a[0]);
        let h: Seq<char> = if is_split_symbol(a[0]) { seq![' ', a[0], ' '] } else { seq![a[0]] };
        assert(pad_symbols(a + b) == h + pad_symbols(a.drop_first() + b));
        assert(pad_symbols(a) == h + pad_symbols(a.drop_first()));
        assert(h + (pad_symbols(a.drop_first()) + pad_symbols(b)) =~= (h + pad_symbols(a.drop_first()))
            + pad_symbols(b));
    }
}

/// Splitting periods after non-digits works piecewise where no match spans the cut.
proof fn lemma_period_after_concat(a: Seq<char>, q: Seq<char>)
    requires
        q.len() > 0,
        a.len() > 0 ==> !(!is_digit(a.last()) && is_period_or_comma(q[0])),
    ensures
        split_period_after(a + q) == split_period_after(a) + split_period_after(q),
    decreases a.len(),
{
    let s = a + q;
    if a.len() == 0 {
        assert(s =~= q);
    } else if a.len() == 1 {
        assert(s[0] == a[0] && s[1] == q[0]);
        assert(s.drop_first() =~= q);
        assert(a.last() == a[0]);
    } else {
        assert(s[0] == a[0] && s[1] == a[1]);
        if !is_digit(a[0]) && is_period_or_comma(a[1]) {
            lemma_period_after_concat(a.skip(2), q);
            assert(s.skip(2) =~= a.skip(2) + q);
            assert(a.skip(2).len() > 0 ==> a.skip(2).last() == a.last());
            assert(seq![a[0], ' ', a[1], ' '] + (split_period_after(a.skip(2)) + split_period_after(q)) =~= (seq![a[0], ' ', a[1], ' '] + split_period_after(a.skip(2))) + split_period_after(q));
        } else {
            lemma_period_after_concat(a.drop_first(), q);
            assert(s.drop_first() =~= a.drop_first() + q);
            assert(a.drop_first().last() == a.last());
            assert(seq![a[0]] + (split_period_after(a.drop_first()) + split_period_after(q)) =~= (seq![a[0]] + split_period_after(a.drop_first())) + split_period_after(q));
        }
    }
}

/// Splitting periods before non-digits works piecewise where no match spans the cut.
proof fn lemma_period_before_concat(a: Seq<char>, q: Seq<char>)
    requires
        q.len() > 0,
        a.len() > 0 ==> !(is_period_or_comma(a.last()) && !is_digit(q[0])),
    ensures
        split_period_before(a + q) == split_period_before(a) + split_period_before(q),
    decreases a.len(),
{
    let s = a + q;
    if a.len() == 0 {
        assert(s =~= q);
    } else if a.len() == 1 {
        assert(s[0] == a[0] && s[1] == q[0]);
        assert(s.drop_first() =~= q);
        assert(a.last() == a[0]);
    } else {
        assert(s[0] == a[0] && s[1] == a[1]);
        if is_period_or_comma(a[0]) && !is_digit(a[1]) {
            lemma_period_before_concat(a.skip(2), q);
            assert(s.skip(2) =~= a.skip(2) + q);
            assert(a.skip(2).len() > 0 ==> a.skip(2).last() == a.last());
            assert(seq![' ', a[0], ' ', a[1]] + (split_period_before(a.skip(2)) + split_period_before(q)) =~= (seq![' ', a[0], ' ', a[1]] + split_period_before(a.skip(2))) + split_period_before(q));
        } else {
            lemma_period_before_concat(a.drop_first(), q);
            assert(s.drop_first() =~= a.drop_first() + q);
            assert(a.drop_first().last() == a.last());
            assert(seq![a[0]] + (split_period_before(a.drop_first()) + split_period_before(q)) =~= (seq![a[0]] + split_period_before(a.drop_first())) + split_period_before(q));
        }
    }
}

/// Splitting dashes after digits works piecewise where no match spans the cut.
proof fn lemma_dash_concat(a: Seq<char>, q: Seq<char>)
    requires
        q.len() > 0,
        a.len() > 0 ==> !(is_digit(a.last()) && q[0] == '-'),
    ensures
        split_dash(a + q) == split_dash(a) + split_dash(q),
    decreases a.len(),
{
    let s = a + q;
    if a.len() == 0 {
        assert(s =~= q);
    } else if a.len() == 1 {
        assert(s[0] == a[0] && s[1] == q[0]);
        assert(s.drop_first() =~= q);
        assert(a.last() == a[0]);
    } else {
        assert(s[0] == a[0] && s[1] == a[1]);
        if is_digit(a[0]) && a[1] == '-' {
            lemma_dash_concat(a.skip(2), q);
            assert(s.skip(2) =~= a.skip(2) + q);
            assert(a.skip(2).len() > 0 ==> a.skip(2).last() == a.last());
            assert(seq![a[0], ' ', '-', ' '] + (split_dash(a.skip(2)) + split_dash(q)) =~= (seq![a[0], ' ', '-', ' '] + split_dash(a.skip(2))) + split_dash(q));
        } else {
            lemma_dash_concat(a.drop_first(), q);
            assert(s.drop_first() =~= a.drop_first() + q);
            assert(a.drop_first().last() == a.last());
            assert(seq![a[0]] + (split_dash(a.drop_first()) + split_dash(q)) =~= (seq![a[0]] + split_dash(a.drop_first())) + split_dash(q));
        }
    }
}

/// A whitespace character cuts the words: those before it and those after it.
proof fn lemma_words_cut(a: Seq<char>, sp: char, b: Seq<char>, cur: Seq<char>)
    requires
        is_space(sp),
    ensures
        words_from(a + seq![sp] + b, cur) == words_from(a, cur) + words_from(b, seq![]),
    decreases a.len(),
{
    let s = a + seq![sp] + b;
    let head: Seq<Seq<char>> = if cur.len() > 0 { seq![cur] } else { seq![] };
    if a.len() == 0 {
        assert(s[0] == sp);
        assert(s.drop_first() =~= b);
        assert(words_from(a, cur) == head);
    } else {
        assert(s[0] == a[0]);
        assert(s.drop_first() =~= a.drop_first() + seq![sp] + b);
        if is_space(a[0]) {
            lemma_words_cut(a.drop_first(), sp, b, seq![]);
            assert(head + (words_from(a.drop_first(), seq![]) + words_from(b, seq![])) =~= (head
                + words_from(a.drop_first(), seq![])) + words_from(b, seq![]));
        } else {
            lemma_words_cut(a.drop_first(), sp, b, cur.push(a[0]));
        }
    }
}

/// Whitespace alone has no words.
proof fn lemma_words_of_spaces(s: Seq<char>)
    requires
        forall|i: int| 0 <= i < s.len() ==> is_space(#[trigger] s[i]),
    ensures
        words_from(s, seq![]) == Seq::<Seq<char>>::empty(),
    decreases s.len(),
{
    if s.len() > 0 {
        assert(is_space(s[0]));
        assert forall|i: int| 0 <= i < s.drop_first().len() implies is_space(#[trigger] s.drop_first()[i]) by {
            assert(s.drop_first()[i] == s[i + 1]);
        }
        lemma_words_of_spaces(s.drop_first());
        assert(words_from(s, seq![]) =~= Seq::<Seq<char>>::empty() + words_from(s.drop_first(), seq![]));
    }
}

/// Text that holds a non-whitespace character has a word.
proof fn lemma_words_nonempty(s: Seq<char>, cur: Seq<char>)
    requires
        cur.len() > 0 || exists|i: int| 0 <= i < s.len() && !is_space(#[trigger] s[i]),
    ensures
        words_from(s, cur).len() > 0,
    decreases s.len(),
{
    if s.len() > 0 {
        if is_space(s[0]) {
            if cur.len() == 0 {
                let i = choose|i: int| 0 <= i < s.len() && !is_space(#[trigger] s[i]);
                assert(s.drop_first()[i - 1] == s[i]);
                lemma_words_nonempty(s.drop_first(), seq![]);
            }
            lemma_words_from_len_split(s, cur);
        } else {
            lemma_words_nonempty(s.drop_first(), cur.push(s[0]));
        }
    }
}

proof fn lemma_words_from_len_split(s: Seq<char>, cur: Seq<char>)
    requires
        s.len() > 0,
        is_space(s[0]),
    ensures
        words_from(s, cur).len() == (if cur.len() > 0 { 1int } else { 0int }) + words_from(s.drop_first(), seq![]).len(),
{
}

proof fn lemma_final_pad(p: Seq<char>, d: char)
    requires
        is_digit(d),
    ensures
        pad_symbols(p + seq![d, '.', ' ']) == pad_symbols(p) + seq![d] + seq!['.', ' ', ' ', ' '],
{
    lemma_pad_concat(p, seq![d, '.', ' ']);
    assert(pad_symbols(seq![d, '.', ' ']) =~= seq![d] + seq!['.', ' ', ' ', ' ']) by {
        reveal_with_fuel(pad_symbols, 4);
        assert(seq![d, '.', ' '].drop_first() =~= seq!['.', ' ']);
        assert(seq!['.', ' '].drop_first() =~= seq![' ']);
        assert(seq![' '].drop_first() =~= Seq::<char>::empty());
    }
    assert(pad_symbols(p) + (seq![d] + seq!['.', ' ', ' ', ' ']) =~= pad_symbols(p) + seq![d] + seq![
        '.',
        ' ',
        ' ',
        ' ',
    ]);
}

proof fn lemma_final_period_after(x: Seq<char>, d: char)
    requires
        is_digit(d),
    ensures
        split_period_after(x + seq![d] + seq!['.', ' ', ' ', ' ']) == split_period_after(x) + seq![d]
            + seq!['.', ' ', ' ', ' '],
{
    let b: Seq<char> = seq!['.', ' ', ' ', ' '];
    lemma_period_after_concat(x + seq![d], b);
    lemma_period_after_concat(x, seq![d]);
    assert((x + seq![d]).last() == d);
    assert(split_period_after(b) =~= b) by {
        reveal_with_fuel(split_period_after, 5);
        assert(b.drop_first() =~= seq![' ', ' ', ' ']);
        assert(seq![' ', ' ', ' '].drop_first() =~= seq![' ', ' ']);
        assert(seq![' ', ' '].drop_first() =~= seq![' ']);
    }
}

proof fn lemma_final_period_before(y: Seq<char>, d: char)
    requires
        is_digit(d),
    ensures
        split_period_before(y + seq![d] + seq!['.', ' ', ' ', ' ']) == split_period_before(y) + seq![d]
            + seq![' ', '.', ' ', ' ', ' ', ' '],
{
    let b: Seq<char> = seq!['.', ' ', ' ', ' '];
    lemma_period_before_concat(y + seq![d], b);
    lemma_period_before_concat(y, seq![d]);
    assert((y + seq![d]).last() == d);
    assert(split_period_before(b) =~= seq![' ', '.', ' ', ' ', ' ', ' ']) by {
        reveal_with_fuel(split_period_before, 3);
        assert(b.skip(2) =~= seq![' ', ' ']);
        assert(seq![' ', ' '].drop_first() =~= seq![' ']);
    }
}

/// Text without digits has no dash to split.
proof fn lemma_dash_without_digits(s: Seq<char>)
    requires
        forall|i: int| 0 <= i < s.len() ==> !is_digit(#[trigger] s[i]),
    ensures
        split_dash(s) == s,
    decreases s.len(),
{
    if s.len() >= 2 {
        assert(!is_digit(s[0]));
        assert forall|i: int| 0 <= i < s.drop_first().len() implies !is_digit(#[trigger] s.drop_first()[i]) by {
            assert(s.drop_first()[i] == s[i + 1]);
        }
        lemma_dash_without_digits(s.drop_first());
        assert(seq![s[0]] + s.drop_first() =~= s);
    }
}

proof fn lemma_final_dash(z: Seq<char>, d: char)
    requires
        is_digit(d),
    ensures
        split_dash(z + seq![d] + seq![' ', '.', ' ', ' ', ' ', ' ']) == split_dash(z) + seq![d] + seq![
            ' ',
            '.',
            ' ',
            ' ',
            ' ',
            ' ',
        ],
{
    let c: Seq<char> = seq![' ', '.', ' ', ' ', ' ', ' '];
    lemma_dash_concat(z + seq![d], c);
    lemma_dash_concat(z, seq![d]);
    assert((z + seq![d]).last() == d);
    assert forall|i: int| 0 <= i < c.len() implies !is_digit(#[trigger] c[i]) by {
    }
    lemma_dash_without_digits(c);
}

/// The rewrites leave a final `digit . space` as `digit, space, ., spaces`.
proof fn lemma_rules_at_final_period(p: Seq<char>, d: char) -> (w: Seq<char>)
    requires
        is_digit(d),
    ensures
        apply_rules(p + seq![d, '.', ' ']) == w + seq![d] + seq![' ', '.', ' ', ' ', ' ', ' '],
{
    lemma_final_pad(p, d);
    let y = split_period_after(pad_symbols(p));
    lemma_final_period_after(pad_symbols(p), d);
    let z = split_period_before(y);
    lemma_final_period_before(y, d);
    lemma_final_dash(z, d);
    split_dash(z)
}

/// The words of text ending in a non-whitespace character, a space, `.` and spaces
/// end in the word `"."`, after at least one other word.
proof fn lemma_words_final_period(x: Seq<char>)
    requires
        x.len() > 0,
        !is_space(x.last()),
    ensures
        words(x + seq![' ', '.', ' ', ' ', ' ', ' ']) == words(x).push(seq!['.']),
        words(x).len() > 0,
{
    let tail: Seq<char> = seq![' ', ' ', ' '];
    assert(x + seq![' ', '.', ' ', ' ', ' ', ' '] =~= x + seq![' '] + (seq!['.'] + seq![' '] + tail));
    lemma_words_cut(x, ' ', seq!['.'] + seq![' '] + tail, seq![]);
    lemma_words_cut(seq!['.'], ' ', tail, seq![]);
    assert forall|i: int| 0 <= i < tail.len() implies is_space(#[trigger] tail[i]) by {
        assert(tail[i] == ' ');
    }
    lemma_words_of_spaces(tail);
    assert(words_from(seq!['.'], seq![]) =~= seq![seq!['.']]) by {
        assert(!is_space('.'));
        assert(seq!['.'][0] == '.');
        assert(seq!['.'].drop_first() =~= Seq::<char>::empty());
        assert(Seq::<char>::empty().push('.') =~= seq!['.']);
        assert(words_from(seq!['.'], seq![]) == words_from(Seq::<char>::empty(), seq!['.']));
        assert(words_from(Seq::<char>::empty(), seq!['.']) == seq![seq!['.']]);
    }
    assert(x[x.len() - 1] == x.last());
    lemma_words_nonempty(x, seq![]);
    assert(words(x) + seq![seq!['.']] =~= words(x).push(seq!['.']));
}

/// A period that follows a digit and is followed by whitespace at the end of the
/// text becomes a token of its own: the post-tokenizer's output ends in `" ."`.
pub proof fn lemma_regexp_splits_final_period_after_digit(p: Seq<char>, d: char)
    requires
        is_digit(d),
    ensures
        tokenize_regexp_spec(p + seq![d, '.', ' ']).len() >= 2,
        tokenize_regexp_spec(p + seq![d, '.', ' ']).last() == '.',
        tokenize_regexp_spec(p + seq![d, '.', ' ']).drop_last().last() == ' ',
{
    let w = lemma_rules_at_final_period(p, d);
    let x = w + seq![d];
    assert(!is_space(d));
    assert(x.last() == d);
    assert(apply_rules(p + seq![d, '.', ' ']) =~= x + seq![' ', '.', ' ', ' ', ' ', ' ']);
    lemma_words_final_period(x);
    let ws = words(x);
    assert(ws.push(seq!['.']).drop_last() =~= ws);
    let out = join_words(ws.push(seq!['.']));
    assert(out == join_words(ws) + seq![' '] + seq!['.']);
}

/// Text none of whose characters occurs in the pattern is left as it is.
proof fn lemma_replace_untouched(q: Seq<char>, pat: Seq<char>, rep: Seq<char>)
    requires
        pat.len() > 0,
        forall|i: int, j: int| 0 <= i < q.len() && 0 <= j < pat.len() ==> q[i] != pat[j],
    ensures
        replace_all(q, pat, rep) == q,
    decreases q.len(),
{
    if q.len() >= pat.len() {
        assert(q.take(pat.len() as int)[0] == q[0]);
        assert(q.take(pat.len() as int) != pat);
        lemma_replace_untouched(q.drop_first(), pat, rep);
        assert(seq![q[0]] + q.drop_first() =~= q);
    }
}

/// Replacing a pattern leaves a suffix alone when none of its characters occurs
/// in the pattern.
proof fn lemma_replace_keeps_suffix(a: Seq<char>, q: Seq<char>, pat: Seq<char>, rep: Seq<char>)
    requires
        pat.len() > 0,
        forall|i: int, j: int| 0 <= i < q.len() && 0 <= j < pat.len() ==> q[i] != pat[j],
    ensures
        replace_all(a + q, pat, rep) == replace_all(a, pat, rep) + q,
    decreases a.len(),
{
    let s = a + q;
    let n = pat.len() as int;
    if a.len() == 0 {
        assert(s =~= q);
        lemma_replace_untouched(q, pat, rep);
    } else if s.len() < n {
        assert(replace_all(a, pat, rep) == a);
    } else if s.take(n) == pat {
        if a.len() < n {
            assert(s.take(n)[a.len() as int] == q[0]);
            assert(false);
        }
        assert(a.take(n) =~= s.take(n));
        lemma_replace_keeps_suffix(a.skip(n), q, pat, rep);
        assert(s.skip(n) =~= a.skip(n) + q);
        assert(rep + (replace_all(a.skip(n), pat, rep) + q) =~= (rep + replace_all(a.skip(n), pat, rep)) + q);
    } else {
        lemma_replace_keeps_suffix(a.drop_first(), q, pat, rep);
        assert(s.drop_first() =~= a.drop_first() + q);
        assert(s[0] == a[0]);
        if a.len() < n {
            assert(replace_all(a, pat, rep) == a);
            assert(replace_all(a.drop_first(), pat, rep) == a.drop_first());
            assert(seq![a[0]] + (a.drop_first() + q) =~= a + q);
        } else {
            assert(a.take(n) =~= s.take(n));
            assert(seq![a[0]] + (replace_all(a.drop_first(), pat, rep) + q) =~= (seq![a[0]] + replace_all(
                a.drop_first(),
                pat,
                rep,
            )) + q);
        }
    }
}

/// The patterns that the `13a` tokenizer replaces before its regex rewrites hold
/// neither a digit nor a period.
proof fn lemma_literal_patterns_free(d: char)
    requires
        is_digit(d),
    ensures
        forall|j: int| 0 <= j < "<skipped>"@.len() ==> "<skipped>"@[j] != d && "<skipped>"@[j] != '.',
        forall|j: int| 0 <= j < "-\n"@.len() ==> "-\n"@[j] != d && "-\n"@[j] != '.',
        forall|j: int| 0 <= j < "\n"@.len() ==> "\n"@[j] != d && "\n"@[j] != '.',
        forall|j: int| 0 <= j < "&quot;"@.len() ==> "&quot;"@[j] != d && "&quot;"@[j] != '.',
        forall|j: int| 0 <= j < "&amp;"@.len() ==> "&amp;"@[j] != d && "&amp;"@[j] != '.',
        forall|j: int| 0 <= j < "&lt;"@.len() ==> "&lt;"@[j] != d && "&lt;"@[j] != '.',
        forall|j: int| 0 <= j < "&gt;"@.len() ==> "&gt;"@[j] != d && "&gt;"@[j] != '.',
        "<skipped>"@.len() > 0,
        "-\n"@.len() > 0,
        "\n"@.len() > 0,
        "&quot;"@.len() > 0,
        "&amp;"@.len() > 0,
        "&lt;"@.len() > 0,
        "&gt;"@.len() > 0,
{
    reveal_strlit("<skipped>");
    reveal_strlit("-\n");
    reveal_strlit("\n");
    reveal_strlit("&quot;");
    reveal_strlit("&amp;");
    reveal_strlit("&lt;");
    reveal_strlit("&gt;");
}

/// One literal replacement keeps a final `digit .`.
proof fn lemma_replace_keeps_final_period(u: Seq<char>, d: char, pat: Seq<char>, rep: Seq<char>) -> (u2: Seq<char>)
    requires
        pat.len() > 0,
        forall|j: int| 0 <= j < pat.len() ==> pat[j] != d && pat[j] != '.',
    ensures
        replace_all(u + seq![d, '.'], pat, rep) == u2 + seq![d, '.'],
{
    assert forall|i: int, j: int| 0 <= i < seq![d, '.'].len() && 0 <= j < pat.len() implies seq![d, '.'][i]
        != pat[j] by {
        assert(pat[j] != d && pat[j] != '.');
    }
    lemma_replace_keeps_suffix(u, seq![d, '.'], pat, rep);
    replace_all(u, pat, rep)
}

/// A line that ends in a digit followed by a period tokenizes to text ending in
/// the separate token `"."`: the line is padded with a space on each side before
/// the regex rewrites, so the final period is split off.
pub proof fn lemma_13a_splits_final_period_after_digit(u: Seq<char>, d: char)
    requires
        is_digit(d),
    ensures
        tokenize_13a_spec(u + seq![d, '.']).len() >= 2,
        tokenize_13a_spec(u + seq![d, '.']).last() == '.',
        tokenize_13a_spec(u + seq![d, '.']).drop_last().last() == ' ',
{
    lemma_literal_patterns_free(d);
    let line = u + seq![d, '.'];
    let a = replace_all(line, "<skipped>"@, ""@);
    let u1 = lemma_replace_keeps_final_period(u, d, "<skipped>"@, ""@);
    let u2 = lemma_replace_keeps_final_period(u1, d, "-\n"@, ""@);
    let u3 = lemma_replace_keeps_final_period(u2, d, "\n"@, " "@);
    let c = u3 + seq![d, '.'];
    let e = unescape_entities(c);
    let u7 = if c.contains('&') {
        let u4 = lemma_replace_keeps_final_period(u3, d, "&quot;"@, "\""@);
        let u5 = lemma_replace_keeps_final_period(u4, d, "&amp;"@, "&"@);
        let u6 = lemma_replace_keeps_final_period(u5, d, "&lt;"@, "<"@);
        lemma_replace_keeps_final_period(u6, d, "&gt;"@, ">"@)
    } else {
        u3
    };
    assert(e == u7 + seq![d, '.']);
    let p = seq![' '] + u7;
    assert(seq![' '] + e + seq![' '] =~= p + seq![d, '.', ' ']);
    lemma_regexp_splits_final_period_after_digit(p, d);
}

/// A character that the `13a` tokenizer always makes a token of its own: the
/// ASCII symbols other than `'`, `-`, `.` and `,` (and other than the space).
pub open spec fn is_standalone_symbol(c: char) -> bool {
    let u = c as u32;
    ||| 0x21 <= u <= 0x26
    ||| 0x28 <= u <= 0x2b
    ||| u == 0x2f
    ||| 0x3a <= u <= 0x40
    ||| 0x5b <= u <= 0x60
    ||| 0x7b <= u <= 0x7e
}

/// Every standalone symbol in `x` has a space, or the end of the text, on each side.
pub open spec fn symbols_isolated(x: Seq<char>) -> bool {
    forall|i: int|
        0 <= i < x.len() - 1 ==> (is_standalone_symbol(#[trigger] x[i]) ==> x[i + 1] == ' ') && (
        is_standalone_symbol(x[i + 1]) ==> x[i] == ' ')
}

/// Two texts with isolated symbols joined where the seam is harmless.
proof fn lemma_isolated_concat(a: Seq<char>, b: Seq<char>)
    requires
        symbols_isolated(a),
        symbols_isolated(b),
        a.len() > 0 && b.len() > 0 ==> (is_standalone_symbol(a.last()) ==> b[0] == ' ') && (
        is_standalone_symbol(b[0]) ==> a.last() == ' '),
    ensures
        symbols_isolated(a + b),
{
    let x = a + b;
    assert forall|i: int| 0 <= i < x.len() - 1 implies (is_standalone_symbol(#[trigger] x[i]) ==> x[i + 1]
        == ' ') && (is_standalone_symbol(x[i + 1]) ==> x[i] == ' ') by {
        if i < a.len() - 1 {
            assert(x[i] == a[i] && x[i + 1] == a[i + 1]);
        } else if i == a.len() - 1 {
            assert(x[i] == a.last() && x[i + 1] == b[0]);
        } else {
            assert(x[i] == b[i - a.len()] && x[i + 1] == b[i - a.len() + 1]);
        }
    }
}

/// A suffix of text with isolated symbols has isolated symbols.
proof fn lemma_isolated_skip(x: Seq<char>, k: int)
    requires
        symbols_isolated(x),
        0 <= k <= x.len(),
    ensures
        symbols_isolated(x.skip(k)),
{
    let y = x.skip(k);
    assert forall|i: int| 0 <= i < y.len() - 1 implies (is_standalone_symbol(#[trigger] y[i]) ==> y[i + 1]
        == ' ') && (is_standalone_symbol(y[i + 1]) ==> y[i] == ' ') by {
        assert(y[i] == x[i + k] && y[i + 1] == x[i + k + 1]);
    }
}

/// Symbol padding isolates every standalone symbol.
proof fn lemma_pad_isolates(s: Seq<char>)
    ensures
        symbols_isolated(pad_symbols(s)),
        s.len() > 0 && !is_split_symbol(s[0]) ==> pad_symbols(s)[0] == s[0],
        s.len() > 0 && is_split_symbol(s[0]) ==> pad_symbols(s)[0] == ' ',
    decreases s.len(),
{
    if s.len() > 0 {
        lemma_pad_isolates(s.drop_first());
        let rest = pad_symbols(s.drop_first());
        if is_split_symbol(s[0]) {
            let h: Seq<char> = seq![' ', s[0], ' '];
            assert(symbols_isolated(h)) by {
                assert forall|i: int| 0 <= i < h.len() - 1 implies (is_standalone_symbol(#[trigger] h[i]) ==> h[i
                    + 1] == ' ') && (is_standalone_symbol(h[i + 1]) ==> h[i] == ' ') by {
                    assert(!is_standalone_symbol(' '));
                }
            }
            assert(!is_standalone_symbol(' '));
            lemma_isolated_concat(h, rest);
        } else {
            let h: Seq<char> = seq![s[0]];
            assert(!is_standalone_symbol(s[0]));
            if s.drop_first().len() > 0 {
                assert(s.drop_first()[0] == s[1]);
            }
            lemma_isolated_concat(h, rest);
        }
    }
}


/// Splitting a period off after a non-digit keeps symbols isolated and the first
/// character in place.
proof fn lemma_period_after_isolates(s: Seq<char>)
    requires
        symbols_isolated(s),
    ensures
        symbols_isolated(split_period_after(s)),
        s.len() > 0 ==> split_period_after(s).len() > 0 && split_period_after(s)[0] == s[0],
    decreases s.len(),
{
    if s.len() >= 2 {
        if !is_digit(s[0]) && is_period_or_comma(s[1]) {
            lemma_isolated_skip(s, 2);
            lemma_period_after_isolates(s.skip(2));
            let h: Seq<char> = seq![s[0], ' ', s[1], ' '];
            assert(symbols_isolated(h)) by {
                assert(!is_standalone_symbol(' '));
                assert(!is_standalone_symbol(s[1]));
                assert forall|i: int| 0 <= i < h.len() - 1 implies (is_standalone_symbol(#[trigger] h[i]) ==> h[i
                    + 1] == ' ') && (is_standalone_symbol(h[i + 1]) ==> h[i] == ' ') by {}
            }
            assert(!is_standalone_symbol(' '));
            lemma_isolated_concat(h, split_period_after(s.skip(2)));
        } else {
            lemma_isolated_skip(s, 1);
            assert(s.skip(1) =~= s.drop_first());
            lemma_period_after_isolates(s.drop_first());
            let h: Seq<char> = seq![s[0]];
            assert(s.drop_first()[0] == s[1]);
            assert(is_standalone_symbol(s[0]) ==> s[1] == ' ');
            assert(is_standalone_symbol(s[1]) ==> s[0] == ' ');
            lemma_isolated_concat(h, split_period_after(s.drop_first()));
        }
    }
}

/// Splitting a period off before a non-digit keeps symbols isolated; the first
/// character stays or becomes a space.
proof fn lemma_period_before_isolates(s: Seq<char>)
    requires
        symbols_isolated(s),
    ensures
        symbols_isolated(split_period_before(s)),
        s.len() > 0 ==> split_period_before(s).len() > 0 && (split_period_before(s)[0] == s[0]
            || split_period_before(s)[0] == ' '),
    decreases s.len(),
{
    if s.len() >= 2 {
        if is_period_or_comma(s[0]) && !is_digit(s[1]) {
            lemma_isolated_skip(s, 2);
            lemma_period_before_isolates(s.skip(2));
            let h: Seq<char> = seq![' ', s[0], ' ', s[1]];
            assert(symbols_isolated(h)) by {
                assert(!is_standalone_symbol(' '));
                assert(!is_standalone_symbol(s[0]));
                assert forall|i: int| 0 <= i < h.len() - 1 implies (is_standalone_symbol(#[trigger] h[i]) ==> h[i
                    + 1] == ' ') && (is_standalone_symbol(h[i + 1]) ==> h[i] == ' ') by {}
            }
            assert(!is_standalone_symbol(' '));
            if s.len() > 2 {
                assert(s.skip(2)[0] == s[2]);
                assert(is_standalone_symbol(s[1]) ==> s[2] == ' ');
                assert(is_standalone_symbol(s[2]) ==> s[1] == ' ');
            }
            lemma_isolated_concat(h, split_period_before(s.skip(2)));
        } else {
            lemma_isolated_skip(s, 1);
            assert(s.skip(1) =~= s.drop_first());
            lemma_period_before_isolates(s.drop_first());
            let h: Seq<char> = seq![s[0]];
            assert(s.drop_first()[0] == s[1]);
            assert(is_standalone_symbol(s[0]) ==> s[1] == ' ');
            assert(is_standalone_symbol(s[1]) ==> s[0] == ' ');
            assert(!is_standalone_symbol(' '));
            lemma_isolated_concat(h, split_period_before(s.drop_first()));
        }
    }
}

/// Splitting a dash off after a digit keeps symbols isolated and the first
/// character in place.
proof fn lemma_dash_isolates(s: Seq<char>)
    requires
        symbols_isolated(s),
    ensures
        symbols_isolated(split_dash(s)),
        s.len() > 0 ==> split_dash(s).len() > 0 && split_dash(s)[0] == s[0],
    decreases s.len(),
{
    if s.len() >= 2 {
        if is_digit(s[0]) && s[1] == '-' {
            lemma_isolated_skip(s, 2);
            lemma_dash_isolates(s.skip(2));
            let h: Seq<char> = seq![s[0], ' ', '-', ' '];
            assert(symbols_isolated(h)) by {
                assert(!is_standalone_symbol(' '));
                assert(!is_standalone_symbol('-'));
                assert(!is_standalone_symbol(s[0]));
                assert forall|i: int| 0 <= i < h.len() - 1 implies (is_standalone_symbol(#[trigger] h[i]) ==> h[i
                    + 1] == ' ') && (is_standalone_symbol(h[i + 1]) ==> h[i] == ' ') by {}
            }
            assert(!is_standalone_symbol(' '));
            lemma_isolated_concat(h, split_dash(s.skip(2)));
        } else {
            lemma_isolated_skip(s, 1);
            assert(s.skip(1) =~= s.drop_first());
            lemma_dash_isolates(s.drop_first());
            let h: Seq<char> = seq![s[0]];
            assert(s.drop_first()[0] == s[1]);
            assert(is_standalone_symbol(s[0]) ==> s[1] == ' ');
            assert(is_standalone_symbol(s[1]) ==> s[0] == ' ');
            lemma_isolated_concat(h, split_dash(s.drop_first()));
        }
    }
}

/// The regex rewrites leave every standalone symbol with a space, or the end of
/// the text, on each side.
proof fn lemma_rules_isolate(s: Seq<char>)
    ensures
        symbols_isolated(apply_rules(s)),
{
    lemma_pad_isolates(s);
    let a = pad_symbols(s);
    lemma_period_after_isolates(a);
    let b = split_period_after(a);
    lemma_period_before_isolates(b);
    lemma_dash_isolates(split_period_before(b));
}

/// A word that holds a standalone symbol is that symbol alone.
pub open spec fn symbol_stands_alone(w: Seq<char>) -> bool {
    w.len() == 1 || forall|i: int| 0 <= i < w.len() ==> !is_standalone_symbol(#[trigger] w[i])
}

/// Splitting text with isolated symbols into words leaves each symbol a word of its own.
proof fn lemma_words_isolate(s: Seq<char>, cur: Seq<char>)
    requires
        symbols_isolated(cur + s),
        symbol_stands_alone(cur),
        forall|i: int| 0 <= i < cur.len() ==> !is_space(#[trigger] cur[i]),
    ensures
        forall|k: int|
            0 <= k < words_from(s, cur).len() ==> symbol_stands_alone(#[trigger] words_from(s, cur)[k]),
    decreases s.len(),
{
    if s.len() == 0 {
        if cur.len() > 0 {
            assert(words_from(s, cur) == seq![cur]);
        }
    } else if is_space(s[0]) {
        let x = cur + s;
        lemma_isolated_skip(x, cur.len() + 1int);
        assert(x.skip(cur.len() + 1int) =~= s.drop_first());
        lemma_words_isolate(s.drop_first(), seq![]);
        let head: Seq<Seq<char>> = if cur.len() > 0 { seq![cur] } else { seq![] };
        let rest = words_from(s.drop_first(), seq![]);
        assert(words_from(s, cur) == head + rest);
        assert forall|k: int| 0 <= k < (head + rest).len() implies symbol_stands_alone(
            #[trigger] (head + rest)[k],
        ) by {
            if k >= head.len() {
                assert((head + rest)[k] == rest[k - head.len()]);
            }
        }
    } else {
        let c2 = cur.push(s[0]);
        assert(c2 + s.drop_first() =~= cur + s);
        assert forall|i: int| 0 <= i < c2.len() implies !is_space(#[trigger] c2[i]) by {
            if i < cur.len() {
            }
        }
        if cur.len() > 0 {
            let x = cur + s;
            let j = cur.len() - 1;
            assert(x[j] == cur.last() && x[j + 1] == s[0]);
            assert(is_space(' '));
            assert(!is_standalone_symbol(cur.last()));
            assert(!is_standalone_symbol(s[0]));
            assert forall|i: int| 0 <= i < c2.len() implies !is_standalone_symbol(#[trigger] c2[i]) by {
                if i < cur.len() {
                    if cur.len() == 1 {
                        assert(cur[i] == cur.last());
                    } else {
                        assert(c2[i] == cur[i]);
                    }
                }
            }
        }
        lemma_words_isolate(s.drop_first(), c2);
        assert(words_from(s, cur) == words_from(s.drop_first(), c2));
    }
}

/// Words of which each symbol stands alone, joined by single spaces, keep their
/// symbols isolated.
proof fn lemma_join_isolates(ws: Seq<Seq<char>>)
    requires
        forall|k: int| 0 <= k < ws.len() ==> symbol_stands_alone(#[trigger] ws[k]),
    ensures
        symbols_isolated(join_words(ws)),
    decreases ws.len(),
{
    assert(!is_standalone_symbol(' '));
    if ws.len() == 1 {
        let w = ws[0];
        assert(symbol_stands_alone(w));
        assert(symbols_isolated(w)) by {
            assert forall|i: int| 0 <= i < w.len() - 1 implies (is_standalone_symbol(#[trigger] w[i]) ==> w[i
                + 1] == ' ') && (is_standalone_symbol(w[i + 1]) ==> w[i] == ' ') by {}
        }
    } else if ws.len() > 1 {
        let p = ws.drop_last();
        assert forall|k: int| 0 <= k < p.len() implies symbol_stands_alone(#[trigger] p[k]) by {
            assert(p[k] == ws[k]);
        }
        lemma_join_isolates(p);
        let a = join_words(p);
        let w = ws.last();
        assert(symbol_stands_alone(w));
        assert(symbols_isolated(w)) by {
            assert forall|i: int| 0 <= i < w.len() - 1 implies (is_standalone_symbol(#[trigger] w[i]) ==> w[i
                + 1] == ' ') && (is_standalone_symbol(w[i + 1]) ==> w[i] == ' ') by {}
        }
        let sp: Seq<char> = seq![' '];
        assert(symbols_isolated(sp));
        lemma_isolated_concat(a, sp);
        lemma_isolated_concat(a + sp, w);
        assert(join_words(ws) == a + sp + w);
    }
}

/// The post-tokenizer never glues a standalone symbol to a neighbour: in its
/// output each such symbol has a space, or the end of the text, on each side.
pub proof fn lemma_regexp_isolates_symbols(line: Seq<char>)
    ensures
        symbols_isolated(tokenize_regexp_spec(line)),
        forall|k: int|
            0 <= k < words(tokenize_regexp_spec(line)).len() ==> symbol_stands_alone(
                #[trigger] words(tokenize_regexp_spec(line))[k],
            ),
{
    let r = apply_rules(line);
    lemma_rules_isolate(line);
    assert(seq![] + r =~= r);
    lemma_words_isolate(r, seq![]);
    lemma_join_isolates(words(r));
    let t = tokenize_regexp_spec(line);
    assert(seq![] + t =~= t);
    lemma_words_isolate(t, seq![]);
}

/// The `13a` tokenizer never glues a standalone symbol to a neighbour.
pub proof fn lemma_13a_isolates_symbols(line: Seq<char>)
    ensures
        symbols_isolated(tokenize_13a_spec(line)),
{
    let a = replace_all(line, "<skipped>"@, ""@);
    let b = replace_all(a, "-\n"@, ""@);
    let c = replace_all(b, "\n"@, " "@);
    let d = unescape_entities(c);
    lemma_regexp_isolates_symbols(seq![' '] + d + seq![' ']);
}

/// Text in which one character of the pattern never occurs is left as it is.
proof fn lemma_replace_missing(x: Seq<char>, pat: Seq<char>, rep: Seq<char>, j: int)
    requires
        0 <= j < pat.len(),
        forall|i: int| 0 <= i < x.len() ==> x[i] != pat[j],
    ensures
        replace_all(x, pat, rep) == x,
    decreases x.len(),
{
    if x.len() >= pat.len() {
        assert(x.take(pat.len() as int)[j] == x[j]);
        assert(x.take(pat.len() as int) != pat);
        lemma_replace_missing(x.drop_first(), pat, rep, j);
        assert(seq![x[0]] + x.drop_first() =~= x);
    }
}

/// Replacing in `a + y` leaves `a` alone when no occurrence of the pattern starts in `a`.
proof fn lemma_replace_after_prefix(a: Seq<char>, y: Seq<char>, pat: Seq<char>, rep: Seq<char>)
    requires
        pat.len() > 0,
        forall|i: int|
            0 <= i < a.len() && i + pat.len() <= (a + y).len() ==> #[trigger] (a + y).subrange(
                i,
                i + pat.len(),
            ) != pat,
    ensures
        replace_all(a + y, pat, rep) == a + replace_all(y, pat, rep),
    decreases a.len(),
{
    let s = a + y;
    let n = pat.len() as int;
    if a.len() == 0 {
        assert(s =~= y);
    } else if s.len() < n {
        assert(replace_all(y, pat, rep) == y);
    } else {
        assert(s.take(n) =~= s.subrange(0, n));
        let i0: int = 0;
        assert((a + y).subrange(i0, i0 + pat.len()) != pat);
        assert(s.subrange(0, n) =~= (a + y).subrange(i0, i0 + pat.len()));
        assert(s[0] == a[0]);
        let a1 = a.drop_first();
        assert(s.drop_first() =~= a1 + y);
        assert forall|i: int| 0 <= i < a1.len() && i + n <= (a1 + y).len() implies #[trigger] (a1
            + y).subrange(i, i + n) != pat by {
            assert((a1 + y).subrange(i, i + n) =~= s.subrange(i + 1, i + 1 + n));
        }
        lemma_replace_after_prefix(a1, y, pat, rep);
        assert(seq![a[0]] + (a1 + replace_all(y, pat, rep)) =~= a + replace_all(y, pat, rep));
    }
}

/// Replacing in `a + y` leaves `a` alone when the pattern's first character is not in `a`.
proof fn lemma_replace_after_free_prefix(a: Seq<char>, y: Seq<char>, pat: Seq<char>, rep: Seq<char>)
    requires
        pat.len() > 0,
        forall|i: int| 0 <= i < a.len() ==> a[i] != pat[0],
    ensures
        replace_all(a + y, pat, rep) == a + replace_all(y, pat, rep),
{
    assert forall|i: int|
        0 <= i < a.len() && i + pat.len() <= (a + y).len() implies #[trigger] (a + y).subrange(
        i,
        i + pat.len(),
    ) != pat by {
        assert((a + y).subrange(i, i + pat.len())[0] == a[i]);
    }
    lemma_replace_after_prefix(a, y, pat, rep);
}

/// Text free of the characters `&`, `<`, `>` and newline.
pub open spec fn free_of_markup(x: Seq<char>) -> bool {
    forall|i: int| 0 <= i < x.len() ==> x[i] != '&' && x[i] != '<' && x[i] != '>' && x[i] != '\n'
}

/// A replacement whose pattern starts with `&` leaves markup-free text around one
/// `m` alone when the pattern does not occur at the front of `m + b` and `m` holds
/// no `&` after its first character.
proof fn lemma_replace_passes(a: Seq<char>, m: Seq<char>, b: Seq<char>, pat: Seq<char>, rep: Seq<char>)
    requires
        pat.len() > 0,
        pat[0] == '&',
        free_of_markup(a),
        free_of_markup(b),
        m.len() > 0,
        forall|i: int| 1 <= i < m.len() ==> m[i] != '&',
        (m + b).len() >= pat.len() ==> (m + b).take(pat.len() as int) != pat,
    ensures
        replace_all(a + m + b, pat, rep) == a + m + b,
{
    assert(a + m + b =~= a + (m + b));
    lemma_replace_after_free_prefix(a, m + b, pat, rep);
    let t = (m + b).drop_first();
    assert forall|i: int| 0 <= i < t.len() implies t[i] != pat[0] by {
        if i + 1 < m.len() {
            assert(t[i] == m[i + 1]);
        } else {
            assert(t[i] == b[i + 1 - m.len()]);
        }
    }
    lemma_replace_missing(t, pat, rep, 0);
    assert(seq![m[0]] + t =~= m + b);
}

/// Replacing rewrites the one occurrence of the pattern between texts that hold
/// no character equal to the pattern's first.
proof fn lemma_replace_hits(a: Seq<char>, b: Seq<char>, pat: Seq<char>, rep: Seq<char>)
    requires
        pat.len() > 0,
        forall|i: int| 0 <= i < a.len() ==> a[i] != pat[0],
        forall|i: int| 0 <= i < b.len() ==> b[i] != pat[0],
    ensures
        replace_all(a + pat + b, pat, rep) == a + rep + b,
{
    assert(a + pat + b =~= a + (pat + b));
    lemma_replace_after_free_prefix(a, pat + b, pat, rep);
    assert((pat + b).take(pat.len() as int) =~= pat);
    assert((pat + b).skip(pat.len() as int) =~= b);
    lemma_replace_missing(b, pat, rep, 0);
    assert(a + (rep + b) =~= a + rep + b);
}

/// Markup-free text passes the literal replacements of the `13a` tokenizer unchanged.
proof fn lemma_13a_plain_line(x: Seq<char>)
    requires
        free_of_markup(x),
    ensures
        tokenize_13a_spec(x) == tokenize_regexp_spec(seq![' '] + x + seq![' ']),
{
    reveal_strlit("<skipped>");
    reveal_strlit("-\n");
    reveal_strlit("\n");
    lemma_replace_missing(x, "<skipped>"@, ""@, 0);
    lemma_replace_missing(x, "-\n"@, ""@, 1);
    lemma_replace_missing(x, "\n"@, " "@, 0);
    assert(!x.contains('&'));
}

/// An escaped `&quot;`, `&lt;` or `&gt;` between markup-free texts tokenizes as the
/// character it stands for, and an escaped `&amp;` as a bare `&` (unless what
/// follows starts with `lt;` or `gt;`, which the later replacements then decode too).
pub proof fn lemma_13a_unescapes_entities(a: Seq<char>, b: Seq<char>)
    requires
        free_of_markup(a),
        free_of_markup(b),
    ensures
        tokenize_13a_spec(a + "&quot;"@ + b) == tokenize_13a_spec(a + seq!['"'] + b),
        tokenize_13a_spec(a + "&lt;"@ + b) == tokenize_13a_spec(a + seq!['<'] + b),
        tokenize_13a_spec(a + "&gt;"@ + b) == tokenize_13a_spec(a + seq!['>'] + b),
        b.len() == 0 || (b[0] != 'l' && b[0] != 'g') ==> tokenize_13a_spec(a + "&amp;"@ + b)
            == tokenize_regexp_spec(seq![' '] + (a + seq!['&'] + b) + seq![' ']),
{
    reveal_strlit("<skipped>");
    reveal_strlit("-\n");
    reveal_strlit("\n");
    reveal_strlit("&quot;");
    reveal_strlit("&amp;");
    reveal_strlit("&lt;");
    reveal_strlit("&gt;");
    let q = "&quot;"@;
    let am = "&amp;"@;
    let lt = "&lt;"@;
    let gt = "&gt;"@;
    assert forall|e: Seq<char>|
        #![trigger a + e + b]
        e.len() > 0 && e[0] == '&' && (forall|i: int| 1 <= i < e.len() ==> #[trigger] e[i] != '&' && e[i]
            != '<' && e[i] != '>' && e[i] != '\n') implies {
        let line = a + e + b;
        &&& replace_all(line, "<skipped>"@, ""@) == line
        &&& replace_all(line, "-\n"@, ""@) == line
        &&& replace_all(line, "\n"@, " "@) == line
        &&& line.contains('&')
    } by {
        let line = a + e + b;
        assert forall|i: int| 0 <= i < line.len() implies line[i] != '<' && line[i] != '\n' by {
            if i < a.len() {
                assert(line[i] == a[i]);
            } else if i < a.len() + e.len() {
                assert(line[i] == e[i - a.len()]);
            } else {
                assert(line[i] == b[i - a.len() - e.len()]);
            }
        }
        lemma_replace_missing(line, "<skipped>"@, ""@, 0);
        lemma_replace_missing(line, "-\n"@, ""@, 1);
        lemma_replace_missing(line, "\n"@, " "@, 0);
        assert(line[a.len() as int] == '&');
    }
    // &quot;
    assert(q[1] == 'q' && q[2] == 'u' && q[3] == 'o' && q[4] == 't' && q[5] == ';');
    lemma_replace_hits(a, b, q, "\""@);
    let d1 = a + seq!['"'] + b;
    assert("\""@ =~= seq!['"']) by {
        reveal_strlit("\"");
    }
    assert(free_of_markup(d1)) by {
        assert forall|i: int| 0 <= i < d1.len() implies d1[i] != '&' && d1[i] != '<' && d1[i] != '>' && d1[i] != '\n' by {
            if i < a.len() {
                assert(d1[i] == a[i]);
            } else if i > a.len() {
                assert(d1[i] == b[i - a.len() - 1]);
            }
        }
    }
    lemma_replace_missing(d1, am, "&"@, 0);
    lemma_replace_missing(d1, lt, "<"@, 0);
    lemma_replace_missing(d1, gt, ">"@, 0);
    lemma_13a_plain_line(d1);
    assert(a + q + b == a + q + b);
    assert(am[1] == 'a' && lt[1] == 'l' && gt[1] == 'g' && q[1] == 'q');
    assert(am.len() == 5 && lt.len() == 4 && gt.len() == 4 && q.len() == 6);
    assert((lt + b)[1] == 'l' && (gt + b)[1] == 'g');
    assert(forall|k: int| 2 <= k <= (lt + b).len() ==> (#[trigger] (lt + b).take(k))[1] == 'l');
    assert(forall|k: int| 2 <= k <= (gt + b).len() ==> (#[trigger] (gt + b).take(k))[1] == 'g');
    // &lt;
    lemma_replace_passes(a, lt, b, q, "\""@);
    lemma_replace_passes(a, lt, b, am, "&"@);
    lemma_replace_hits(a, b, lt, "<"@);
    let d2 = a + seq!['<'] + b;
    assert("<"@ =~= seq!['<']) by {
        reveal_strlit("<");
    }
    assert forall|i: int| 0 <= i < d2.len() implies d2[i] != '&' && d2[i] != '\n' && d2[i] != '>' by {
        if i < a.len() {
            assert(d2[i] == a[i]);
        } else if i > a.len() {
            assert(d2[i] == b[i - a.len() - 1]);
        }
    }
    lemma_replace_missing(d2, gt, ">"@, 0);
    assert(!d2.contains('&'));
    lemma_replace_missing(d2, "-\n"@, ""@, 1);
    lemma_replace_missing(d2, "\n"@, " "@, 0);
    assert(d2 =~= a + (seq!['<'] + b));
    lemma_replace_after_free_prefix(a, seq!['<'] + b, "<skipped>"@, ""@);
    if (seq!['<'] + b).len() >= 9 {
        assert((seq!['<'] + b).take(9)[8] == b[7]);
        assert("<skipped>"@[8] == '>');
    }
    lemma_replace_missing(b, "<skipped>"@, ""@, 0);
    assert(seq!['<'] + b =~= seq![(seq!['<'] + b)[0]] + (seq!['<'] + b).drop_first());
    assert((seq!['<'] + b).drop_first() =~= b);
    // &gt;
    lemma_replace_passes(a, gt, b, q, "\""@);
    lemma_replace_passes(a, gt, b, am, "&"@);
    lemma_replace_passes(a, gt, b, lt, "<"@);
    lemma_replace_hits(a, b, gt, ">"@);
    let d3 = a + seq!['>'] + b;
    assert(">"@ =~= seq!['>']) by {
        reveal_strlit(">");
    }
    assert forall|i: int| 0 <= i < d3.len() implies d3[i] != '&' && d3[i] != '\n' && d3[i] != '<' by {
        if i < a.len() {
            assert(d3[i] == a[i]);
        } else if i > a.len() {
            assert(d3[i] == b[i - a.len() - 1]);
        }
    }
    assert(!d3.contains('&'));
    lemma_replace_missing(d3, "<skipped>"@, ""@, 0);
    lemma_replace_missing(d3, "-\n"@, ""@, 1);
    lemma_replace_missing(d3, "\n"@, " "@, 0);
    // &amp;
    lemma_replace_passes(a, am, b, q, "\""@);
    lemma_replace_hits(a, b, am, "&"@);
    let d4 = a + seq!['&'] + b;
    assert("&"@ =~= seq!['&']) by {
        reveal_strlit("&");
    }
    if b.len() == 0 || (b[0] != 'l' && b[0] != 'g') {
        let m: Seq<char> = seq!['&'];
        if (m + b).len() >= 4 {
            assert((m + b).take(4)[1] == b[0]);
            assert(lt[1] == 'l' && gt[1] == 'g');
        }
        lemma_replace_passes(a, m, b, lt, "<"@);
        lemma_replace_passes(a, m, b, gt, ">"@);
    }
}

/// Concatenated markup-free texts are markup-free.
proof fn lemma_markup_free_concat(a: Seq<char>, b: Seq<char>)
    requires
        free_of_markup(a),
        free_of_markup(b),
    ensures
        free_of_markup(a + b),
{
    assert forall|i: int| 0 <= i < (a + b).len() implies (a + b)[i] != '&' && (a + b)[i] != '<' && (a
        + b)[i] != '>' && (a + b)[i] != '\n' by {
        if i < a.len() {
            assert((a + b)[i] == a[i]);
        } else {
            assert((a + b)[i] == b[i - a.len()]);
        }
    }
}

/// A `<skipped>` marker between markup-free texts is dropped.
pub proof fn lemma_13a_drops_skipped_marker(a: Seq<char>, b: Seq<char>)
    requires
        free_of_markup(a),
        free_of_markup(b),
    ensures
        tokenize_13a_spec(a + "<skipped>"@ + b) == tokenize_13a_spec(a + b),
{
    reveal_strlit("<skipped>");
    reveal_strlit("-\n");
    reveal_strlit("\n");
    let sk = "<skipped>"@;
    lemma_replace_hits(a, b, sk, ""@);
    reveal_strlit("");
    assert(a + ""@ + b =~= a + b);
    lemma_markup_free_concat(a, b);
    let x = a + b;
    lemma_replace_missing(x, "-\n"@, ""@, 1);
    lemma_replace_missing(x, "\n"@, " "@, 0);
    assert(!x.contains('&'));
    lemma_13a_plain_line(x);
}

/// A hyphen that ends a line joins it to the next: `-` and the newline are dropped.
pub proof fn lemma_13a_joins_hyphenated_lines(a: Seq<char>, b: Seq<char>)
    requires
        free_of_markup(a),
        free_of_markup(b),
    ensures
        tokenize_13a_spec(a + "-\n"@ + b) == tokenize_13a_spec(a + b),
{
    reveal_strlit("<skipped>");
    reveal_strlit("-\n");
    reveal_strlit("\n");
    let hy = "-\n"@;
    let line = a + hy + b;
    assert forall|i: int| 0 <= i < line.len() implies line[i] != '<' by {
        if i < a.len() {
            assert(line[i] == a[i]);
        } else if i < a.len() + 2 {
            assert(line[i] == hy[i - a.len()]);
        } else {
            assert(line[i] == b[i - a.len() - 2]);
        }
    }
    lemma_replace_missing(line, "<skipped>"@, ""@, 0);
    assert(line =~= a + (hy + b));
    assert forall|i: int| 0 <= i < a.len() && i + hy.len() <= (a + (hy + b)).len() implies #[trigger] (a + (hy
        + b)).subrange(i, i + hy.len()) != hy by {
        let t = a + (hy + b);
        assert(t.subrange(i, i + hy.len())[1] == t[i + 1]);
        if i + 1 < a.len() {
            assert(t[i + 1] == a[i + 1]);
        } else {
            assert(t[i + 1] == hy[0]);
        }
    }
    lemma_replace_after_prefix(a, hy + b, hy, ""@);
    assert((hy + b).take(2) =~= hy);
    assert((hy + b).skip(2) =~= b);
    lemma_replace_missing(b, hy, ""@, 1);
    reveal_strlit("");
    assert(a + (""@ + b) =~= a + b);
    lemma_markup_free_concat(a, b);
    let x = a + b;
    lemma_replace_missing(x, "\n"@, " "@, 0);
    assert(!x.contains('&'));
    lemma_replace_missing(x, "<skipped>"@, ""@, 0);
    lemma_replace_missing(x, hy, ""@, 1);
    lemma_13a_plain_line(x);
}

/// A newline that does not follow a hyphen reads as a space.
pub proof fn lemma_13a_newline_is_space(a: Seq<char>, b: Seq<char>)
    requires
        free_of_markup(a),
        free_of_markup(b),
        a.len() == 0 || a.last() != '-',
    ensures
        tokenize_13a_spec(a + seq!['\n'] + b) == tokenize_13a_spec(a + seq![' '] + b),
{
    reveal_strlit("<skipped>");
    reveal_strlit("-\n");
    reveal_strlit("\n");
    reveal_strlit(" ");
    let hy = "-\n"@;
    let nl = "\n"@;
    assert(nl =~= seq!['\n']);
    let line = a + nl + b;
    assert forall|i: int| 0 <= i < line.len() implies line[i] != '<' && line[i] != '&' by {
        if i < a.len() {
            assert(line[i] == a[i]);
        } else if i > a.len() {
            assert(line[i] == b[i - a.len() - 1]);
        }
    }
    lemma_replace_missing(line, "<skipped>"@, ""@, 0);
    assert(line =~= a + (nl + b));
    assert forall|i: int| 0 <= i < a.len() && i + hy.len() <= (a + (nl + b)).len() implies #[trigger] (a + (nl
        + b)).subrange(i, i + hy.len()) != hy by {
        let t = a + (nl + b);
        if i + 1 < a.len() {
            assert(t.subrange(i, i + hy.len())[1] == a[i + 1]);
        } else {
            assert(t.subrange(i, i + hy.len())[0] == a.last());
        }
    }
    lemma_replace_after_prefix(a, nl + b, hy, ""@);
    assert forall|i: int| 0 <= i < nl.len() && i + hy.len() <= (nl + b).len() implies #[trigger] (nl
        + b).subrange(i, i + hy.len()) != hy by {
        assert((nl + b).subrange(i, i + hy.len())[0] == '\n');
    }
    lemma_replace_after_prefix(nl, b, hy, ""@);
    lemma_replace_missing(b, hy, ""@, 1);
    lemma_replace_hits(a, b, nl, " "@);
    let x = a + seq![' '] + b;
    assert(" "@ =~= seq![' ']);
    assert(free_of_markup(seq![' ']));
    lemma_markup_free_concat(a, seq![' ']);
    lemma_markup_free_concat(a + seq![' '], b);
    assert(!x.contains('&'));
    lemma_13a_plain_line(x);
}

/// Every two neighbouring characters of `x` satisfy `p`.
pub open spec fn neighbours_satisfy(x: Seq<char>, p: spec_fn(char, char) -> bool) -> bool {
    forall|i: int| 0 <= i < x.len() - 1 ==> p(#[trigger] x[i], x[i + 1])
}

/// Joining two texts keeps a neighbour relation when the seam satisfies it.
proof fn lemma_neighbours_concat(a: Seq<char>, b: Seq<char>, p: spec_fn(char, char) -> bool)
    requires
        neighbours_satisfy(a, p),
        neighbours_satisfy(b, p),
        a.len() > 0 && b.len() > 0 ==> p(a.last(), b[0]),
    ensures
        neighbours_satisfy(a + b, p),
{
    let x = a + b;
    assert forall|i: int| 0 <= i < x.len() - 1 implies p(#[trigger] x[i], x[i + 1]) by {
        if i < a.len() - 1 {
            assert(x[i] == a[i] && x[i + 1] == a[i + 1]);
        } else if i == a.len() - 1 {
            assert(x[i] == a.last() && x[i + 1] == b[0]);
        } else {
            assert(x[i] == b[i - a.len()] && x[i + 1] == b[i - a.len() + 1]);
        }
    }
}

/// Splitting into words keeps a neighbour relation inside each word.
proof fn lemma_words_keep_neighbours(s: Seq<char>, cur: Seq<char>, p: spec_fn(char, char) -> bool)
    requires
        neighbours_satisfy(cur + s, p),
        neighbours_satisfy(cur, p),
    ensures
        forall|k: int|
            0 <= k < words_from(s, cur).len() ==> neighbours_satisfy(#[trigger] words_from(s, cur)[k], p),
    decreases s.len(),
{
    if s.len() == 0 {
        if cur.len() > 0 {
            assert(words_from(s, cur) == seq![cur]);
        }
    } else if is_space(s[0]) {
        let x = cur + s;
        let y = x.skip(cur.len() + 1int);
        assert(y =~= s.drop_first());
        assert forall|i: int| 0 <= i < y.len() - 1 implies p(#[trigger] y[i], y[i + 1]) by {
            assert(y[i] == x[i + cur.len() + 1] && y[i + 1] == x[i + cur.len() + 2]);
        }
        assert(neighbours_satisfy(seq![], p));
        assert(seq![] + s.drop_first() =~= s.drop_first());
        lemma_words_keep_neighbours(s.drop_first(), seq![], p);
        let head: Seq<Seq<char>> = if cur.len() > 0 { seq![cur] } else { seq![] };
        let rest = words_from(s.drop_first(), seq![]);
        assert(words_from(s, cur) == head + rest);
        assert forall|k: int| 0 <= k < (head + rest).len() implies neighbours_satisfy(#[trigger] (head + rest)[k], p) by {
            if k >= head.len() {
                assert((head + rest)[k] == rest[k - head.len()]);
            }
        }
    } else {
        let c2 = cur.push(s[0]);
        assert(c2 + s.drop_first() =~= cur + s);
        assert forall|i: int| 0 <= i < c2.len() - 1 implies p(#[trigger] c2[i], c2[i + 1]) by {
            let x = cur + s;
            assert(c2[i] == x[i] && c2[i + 1] == x[i + 1]);
        }
        lemma_words_keep_neighbours(s.drop_first(), c2, p);
        assert(words_from(s, cur) == words_from(s.drop_first(), c2));
    }
}

/// Words that each keep a neighbour relation, joined by single spaces, keep it
/// when every character may stand next to a space.
proof fn lemma_join_keeps_neighbours(ws: Seq<Seq<char>>, p: spec_fn(char, char) -> bool)
    requires
        forall|k: int| 0 <= k < ws.len() ==> neighbours_satisfy(#[trigger] ws[k], p),
        forall|c: char| #![trigger p(c, ' ')] #![trigger p(' ', c)] p(c, ' ') && p(' ', c),
    ensures
        neighbours_satisfy(join_words(ws), p),
    decreases ws.len(),
{
    if ws.len() == 1 {
        assert(neighbours_satisfy(ws[0], p));
    } else if ws.len() > 1 {
        let q = ws.drop_last();
        assert forall|k: int| 0 <= k < q.len() implies neighbours_satisfy(#[trigger] q[k], p) by {
            assert(q[k] == ws[k]);
        }
        lemma_join_keeps_neighbours(q, p);
        let a = join_words(q);
        let w = ws.last();
        assert(neighbours_satisfy(w, p));
        let sp: Seq<char> = seq![' '];
        assert(neighbours_satisfy(sp, p));
        if a.len() > 0 {
            assert(p(a.last(), ' '));
        }
        lemma_neighbours_concat(a, sp, p);
        if w.len() > 0 {
            assert(p(' ', w[0]));
            assert((a + sp).last() == ' ');
        }
        lemma_neighbours_concat(a + sp, w, p);
        assert(join_words(ws) == a + sp + w);
    }
}

/// Collapsing whitespace keeps a neighbour relation that every character satisfies
/// next to a space.
proof fn lemma_normalize_keeps_neighbours(s: Seq<char>, p: spec_fn(char, char) -> bool)
    requires
        neighbours_satisfy(s, p),
        forall|c: char| #![trigger p(c, ' ')] #![trigger p(' ', c)] p(c, ' ') && p(' ', c),
    ensures
        neighbours_satisfy(join_words(words(s)), p),
{
    assert(seq![] + s =~= s);
    assert(neighbours_satisfy(seq![], p));
    lemma_words_keep_neighbours(s, seq![], p);
    lemma_join_keeps_neighbours(words(s), p);
}

/// A period or comma after a character that is neither a digit nor a space.
pub open spec fn period_glued(x: char, y: char) -> bool {
    is_period_or_comma(y) && !is_digit(x) && x != ' '
}

/// A hyphen right after a digit.
pub open spec fn dash_glued(x: char, y: char) -> bool {
    is_digit(x) && y == '-'
}

/// Splitting periods after non-digits leaves no period glued to a non-digit, and
/// keeps the first character.
proof fn lemma_period_after_unglues(s: Seq<char>)
    ensures
        neighbours_satisfy(split_period_after(s), |x: char, y: char| !period_glued(x, y)),
        s.len() > 0 ==> split_period_after(s).len() > 0 && split_period_after(s)[0] == s[0],
    decreases s.len(),
{
    let p = |x: char, y: char| !period_glued(x, y);
    if s.len() < 2 {
        assert(neighbours_satisfy(s, p));
    } else if !is_digit(s[0]) && is_period_or_comma(s[1]) {
        lemma_period_after_unglues(s.skip(2));
        let h: Seq<char> = seq![s[0], ' ', s[1], ' '];
        assert(neighbours_satisfy(h, p)) by {
            assert forall|i: int| 0 <= i < h.len() - 1 implies p(#[trigger] h[i], h[i + 1]) by {}
        }
        lemma_neighbours_concat(h, split_period_after(s.skip(2)), p);
    } else {
        lemma_period_after_unglues(s.drop_first());
        let h: Seq<char> = seq![s[0]];
        assert(s.drop_first()[0] == s[1]);
        assert(neighbours_satisfy(h, p));
        lemma_neighbours_concat(h, split_period_after(s.drop_first()), p);
    }
}

/// Splitting periods before non-digits keeps periods unglued from non-digits on
/// their left; the first character stays or becomes a space.
proof fn lemma_period_before_keeps_unglued(s: Seq<char>)
    requires
        neighbours_satisfy(s, |x: char, y: char| !period_glued(x, y)),
    ensures
        neighbours_satisfy(split_period_before(s), |x: char, y: char| !period_glued(x, y)),
        s.len() > 0 ==> split_period_before(s).len() > 0 && (split_period_before(s)[0] == s[0]
            || split_period_before(s)[0] == ' '),
    decreases s.len(),
{
    let p = |x: char, y: char| !period_glued(x, y);
    if s.len() >= 2 {
        if is_period_or_comma(s[0]) && !is_digit(s[1]) {
            let t = s.skip(2);
            assert forall|i: int| 0 <= i < t.len() - 1 implies p(#[trigger] t[i], t[i + 1]) by {
                assert(t[i] == s[i + 2] && t[i + 1] == s[i + 3]);
            }
            lemma_period_before_keeps_unglued(t);
            let h: Seq<char> = seq![' ', s[0], ' ', s[1]];
            assert(neighbours_satisfy(h, p)) by {
                assert forall|i: int| 0 <= i < h.len() - 1 implies p(#[trigger] h[i], h[i + 1]) by {}
            }
            if s.len() > 2 {
                assert(t[0] == s[2]);
                assert(p(s[1], s[2]));
            }
            lemma_neighbours_concat(h, split_period_before(t), p);
        } else {
            let t = s.drop_first();
            assert forall|i: int| 0 <= i < t.len() - 1 implies p(#[trigger] t[i], t[i + 1]) by {
                assert(t[i] == s[i + 1] && t[i + 1] == s[i + 2]);
            }
            lemma_period_before_keeps_unglued(t);
            let h: Seq<char> = seq![s[0]];
            assert(t[0] == s[1]);
            assert(p(s[0], s[1]));
            assert(neighbours_satisfy(h, p));
            lemma_neighbours_concat(h, split_period_before(t), p);
        }
    }
}

/// Splitting dashes after digits keeps periods unglued from non-digits on their
/// left, and keeps the first character.
proof fn lemma_dash_keeps_unglued(s: Seq<char>)
    requires
        neighbours_satisfy(s, |x: char, y: char| !period_glued(x, y)),
    ensures
        neighbours_satisfy(split_dash(s), |x: char, y: char| !period_glued(x, y)),
        s.len() > 0 ==> split_dash(s).len() > 0 && split_dash(s)[0] == s[0],
    decreases s.len(),
{
    let p = |x: char, y: char| !period_glued(x, y);
    if s.len() >= 2 {
        if is_digit(s[0]) && s[1] == '-' {
            let t = s.skip(2);
            assert forall|i: int| 0 <= i < t.len() - 1 implies p(#[trigger] t[i], t[i + 1]) by {
                assert(t[i] == s[i + 2] && t[i + 1] == s[i + 3]);
            }
            lemma_dash_keeps_unglued(t);
            let h: Seq<char> = seq![s[0], ' ', '-', ' '];
            assert(neighbours_satisfy(h, p)) by {
                assert forall|i: int| 0 <= i < h.len() - 1 implies p(#[trigger] h[i], h[i + 1]) by {}
            }
            lemma_neighbours_concat(h, split_dash(t), p);
        } else {
            let t = s.drop_first();
            assert forall|i: int| 0 <= i < t.len() - 1 implies p(#[trigger] t[i], t[i + 1]) by {
                assert(t[i] == s[i + 1] && t[i + 1] == s[i + 2]);
            }
            lemma_dash_keeps_unglued(t);
            let h: Seq<char> = seq![s[0]];
            assert(t[0] == s[1]);
            assert(p(s[0], s[1]));
            assert(neighbours_satisfy(h, p));
            lemma_neighbours_concat(h, split_dash(t), p);
        }
    }
}

/// Splitting dashes after digits leaves no hyphen right after a digit.
proof fn lemma_dash_unglues(s: Seq<char>)
    ensures
        neighbours_satisfy(split_dash(s), |x: char, y: char| !dash_glued(x, y)),
    decreases s.len(),
{
    let p = |x: char, y: char| !dash_glued(x, y);
    if s.len() < 2 {
        assert(neighbours_satisfy(s, p));
    } else if is_digit(s[0]) && s[1] == '-' {
        lemma_dash_unglues(s.skip(2));
        let h: Seq<char> = seq![s[0], ' ', '-', ' '];
        assert(neighbours_satisfy(h, p)) by {
            assert forall|i: int| 0 <= i < h.len() - 1 implies p(#[trigger] h[i], h[i + 1]) by {}
        }
        lemma_neighbours_concat(h, split_dash(s.skip(2)), p);
    } else {
        lemma_dash_unglues(s.drop_first());
        let h: Seq<char> = seq![s[0]];
        assert(neighbours_satisfy(h, p));
        if s.drop_first().len() > 0 {
            assert(split_dash(s.drop_first()).len() > 0 && split_dash(s.drop_first())[0] == s[1]) by {
                lemma_dash_first(s.drop_first());
            }
        }
        lemma_neighbours_concat(h, split_dash(s.drop_first()), p);
    }
}

/// Splitting dashes keeps the first character.
proof fn lemma_dash_first(s: Seq<char>)
    requires
        s.len() > 0,
    ensures
        split_dash(s).len() > 0 && split_dash(s)[0] == s[0],
{
}

/// In the post-tokenizer's output no period or comma is glued to a non-digit on
/// its left, and no hyphen is glued to a digit on its left.
pub proof fn lemma_regexp_splits_periods_and_dashes(line: Seq<char>)
    ensures
        forall|i: int|
            0 <= i < tokenize_regexp_spec(line).len() - 1 ==> !period_glued(
                #[trigger] tokenize_regexp_spec(line)[i],
                tokenize_regexp_spec(line)[i + 1],
            ) && !dash_glued(tokenize_regexp_spec(line)[i], tokenize_regexp_spec(line)[i + 1]),
{
    let pp = |x: char, y: char| !period_glued(x, y);
    let pd = |x: char, y: char| !dash_glued(x, y);
    let a = split_period_after(pad_symbols(line));
    lemma_period_after_unglues(pad_symbols(line));
    lemma_period_before_keeps_unglued(a);
    lemma_dash_keeps_unglued(split_period_before(a));
    lemma_dash_unglues(split_period_before(a));
    let r = apply_rules(line);
    assert(forall|c: char| #![trigger pp(c, ' ')] #![trigger pp(' ', c)] pp(c, ' ') && pp(' ', c));
    assert(forall|c: char| #![trigger pd(c, ' ')] #![trigger pd(' ', c)] pd(c, ' ') && pd(' ', c));
    lemma_normalize_keeps_neighbours(r, pp);
    lemma_normalize_keeps_neighbours(r, pd);
    let t = tokenize_regexp_spec(line);
    assert forall|i: int| 0 <= i < t.len() - 1 implies !period_glued(#[trigger] t[i], t[i + 1]) && !dash_glued(
        t[i],
        t[i + 1],
    ) by {
        assert(pp(t[i], t[i + 1]));
        assert(pd(t[i], t[i + 1]));
    }
}

/// In the `13a` tokenization no period or comma is glued to a non-digit on its
/// left, and no hyphen is glued to a digit on its left.
pub proof fn lemma_13a_splits_periods_and_dashes(line: Seq<char>)
    ensures
        forall|i: int|
            0 <= i < tokenize_13a_spec(line).len() - 1 ==> !period_glued(
                #[trigger] tokenize_13a_spec(line)[i],
                tokenize_13a_spec(line)[i + 1],
            ) && !dash_glued(tokenize_13a_spec(line)[i], tokenize_13a_spec(line)[i + 1]),
{
    let a = replace_all(line, "<skipped>"@, ""@);
    let b = replace_all(a, "-\n"@, ""@);
    let c = replace_all(b, "\n"@, " "@);
    let d = unescape_entities(c);
    lemma_regexp_splits_periods_and_dashes(seq![' '] + d + seq![' ']);
}

} // verus!
