//! Keeps the speech synthesiser from reading noise: a message that is noise
//! stops the pipeline, and any other message is cleaned of symbol runs and
//! of repeated characters before it is read.
use vstd::prelude::*;
use unicode_normalization::UnicodeNormalization;
use crate::mapper::{Input, Output};
use crate::noise::{is_noise, is_noise_text};
use crate::text::{
    all_chars, chars_of, is_blank, lemma_all_chars_prepend, lemma_all_chars_skip, is_white_space, is_whitespace, lemma_trim_empty, sub_chars, trim, trim_bounds,
    trim_end, trim_start,
};

verus! {

/// The classes of characters whose runs the cleaning replaces by a space.
pub enum RunClass {
    /// Markup symbols that are never read: `^ _ = < > { } [ ] \ | `` ` ``.
    Known,
    /// Exclamation marks, tildes and quotes: `! ~ " '`.
    Cluster,
    /// White space.
    Space,
}

/// Whether `c` belongs to the class `k`.
pub open spec fn in_class(k: RunClass, c: char) -> bool {
    match k {
        RunClass::Known => c == '^' || c == '_' || c == '=' || c == '<' || c == '>' || c == '{'
            || c == '}' || c == '[' || c == ']' || c == '\\' || c == '|' || c == '`',
        RunClass::Cluster => c == '!' || c == '~' || c == '"' || c == '\'',
        RunClass::Space => is_white_space(c),
    }
}

fn in_class_exec(k: &RunClass, c: char) -> (r: bool)
    ensures
        r == in_class(*k, c),
{
    match k {
        RunClass::Known => c == '^' || c == '_' || c == '=' || c == '<' || c == '>' || c == '{'
            || c == '}' || c == '[' || c == ']' || c == '\\' || c == '|' || c == '`',
        RunClass::Cluster => c == '!' || c == '~' || c == '"' || c == '\'',
        RunClass::Space => is_whitespace(c),
    }
}

/// The length of the run of class-`k` characters at the start of `s`.
pub open spec fn class_run_len(s: Seq<char>, k: RunClass) -> int
    decreases s.len(),
{
    if s.len() > 0 && in_class(k, s[0]) {
        1 + class_run_len(s.drop_first(), k)
    } else {
        0
    }
}

/// A run of a class fits in the text, and a class character starts one.
pub proof fn lemma_class_run_len_bounds(s: Seq<char>, k: RunClass)
    ensures
        0 <= class_run_len(s, k) <= s.len(),
        s.len() > 0 && in_class(k, s[0]) ==> class_run_len(s, k) >= 1,
    decreases s.len(),
{
    if s.len() > 0 {
        lemma_class_run_len_bounds(s.drop_first(), k);
    }
}

/// `s` with every maximal run of at least `min` class-`k` characters replaced
/// by one space, as a regular-expression replacement of `[class]{min,}` does.
pub open spec fn runs_replaced(s: Seq<char>, k: RunClass, min: int) -> Seq<char>
    decreases s.len(),
{
    if s.len() == 0 {
        Seq::empty()
    } else if in_class(k, s[0]) && class_run_len(s, k) >= min && class_run_len(s, k) >= 1 {
        proof {
            lemma_class_run_len_bounds(s, k);
        }
        seq![' '] + runs_replaced(s.skip(class_run_len(s, k)), k, min)
    } else {
        seq![s[0]] + runs_replaced(s.drop_first(), k, min)
    }
}

/// Markup symbols and clusters of two or more `! ~ " '` replaced by spaces.
pub open spec fn known_removed(s: Seq<char>) -> Seq<char> {
    runs_replaced(runs_replaced(s, RunClass::Known, 1), RunClass::Cluster, 2)
}

/// The length of the run of `c` at the start of `s`.
pub open spec fn run_len(s: Seq<char>, c: char) -> int
    decreases s.len(),
{
    if s.len() > 0 && s[0] == c {
        1 + run_len(s.drop_first(), c)
    } else {
        0
    }
}

/// How many times the pair `a b` repeats at the start of `s`.
pub open spec fn pair_count(s: Seq<char>, a: char, b: char) -> int
    decreases s.len(),
{
    if s.len() >= 2 && s[0] == a && s[1] == b {
        1 + pair_count(s.skip(2), a, b)
    } else {
        0
    }
}

/// A run of one character fits in the text, and that character starts one.
pub proof fn lemma_run_len_bounds(s: Seq<char>, c: char)
    ensures
        0 <= run_len(s, c) <= s.len(),
        s.len() > 0 && s[0] == c ==> run_len(s, c) >= 1,
    decreases s.len(),
{
    if s.len() > 0 {
        lemma_run_len_bounds(s.drop_first(), c);
    }
}

/// The repeated pairs fit in the text.
pub proof fn lemma_pair_count_bounds(s: Seq<char>, a: char, b: char)
    ensures
        0 <= 2 * pair_count(s, a, b) <= s.len(),
    decreases s.len(),
{
    if s.len() >= 2 && s[0] == a && s[1] == b {
        lemma_pair_count_bounds(s.skip(2), a, b);
    }
}

/// One pass of repeat reduction: a run of three or more equal characters
/// becomes one ("wwwwwwhat" gives "what"), and a pair repeated three or more
/// times becomes one pair ("hahahaha" gives "ha").
pub open spec fn reduced_once(s: Seq<char>) -> Seq<char>
    decreases s.len(),
{
    if s.len() == 0 {
        Seq::empty()
    } else {
        proof {
            lemma_run_len_bounds(s, s[0]);
        }
        let r = run_len(s, s[0]);
        if r >= 3 {
            seq![s[0]] + reduced_once(s.skip(r))
        } else if s.len() >= 2 && pair_count(s, s[0], s[1]) >= 3 {
            proof {
                lemma_pair_count_bounds(s, s[0], s[1]);
            }
            seq![s[0], s[1]] + reduced_once(s.skip(2 * pair_count(s, s[0], s[1])))
        } else {
            seq![s[0]] + reduced_once(s.drop_first())
        }
    }
}

/// A reduction pass never lengthens the text, and leaves it as it is when it
/// does not shorten it.
pub proof fn lemma_reduced_once_len(s: Seq<char>)
    ensures
        reduced_once(s).len() <= s.len(),
        reduced_once(s).len() == s.len() ==> reduced_once(s) == s,
    decreases s.len(),
{
    if s.len() > 0 {
        lemma_run_len_bounds(s, s[0]);
        let r = run_len(s, s[0]);
        if r >= 3 {
            lemma_reduced_once_len(s.skip(r));
        } else if s.len() >= 2 && pair_count(s, s[0], s[1]) >= 3 {
            lemma_pair_count_bounds(s, s[0], s[1]);
            lemma_reduced_once_len(s.skip(2 * pair_count(s, s[0], s[1])));
        } else {
            lemma_reduced_once_len(s.drop_first());
            if reduced_once(s).len() == s.len() {
                assert(reduced_once(s) =~= s);
            }
        }
    }
}

/// Repeat reduction applied until a pass no longer shortens the text.
pub open spec fn reduced(s: Seq<char>) -> Seq<char>
    decreases s.len(),
{
    let r = reduced_once(s);
    proof {
        lemma_reduced_once_len(s);
    }
    if r.len() == s.len() {
        r
    } else {
        reduced(r)
    }
}

/// `s` with each `'*'` replaced by a space.
pub open spec fn stars_replaced(s: Seq<char>) -> Seq<char> {
    s.map_values(|c: char| if c == '*' { ' ' } else { c })
}

/// The cleaned text: symbols removed, repeats reduced, white space collapsed
/// to single spaces, and the ends trimmed.
pub open spec fn cleaned(s: Seq<char>) -> Seq<char> {
    trim(runs_replaced(reduced(known_removed(s)), RunClass::Space, 1))
}

/// Whether the mapper stops the pipeline for the normalized text `s`: it is
/// not blank, and it is noise, or cleaning leaves nothing or noise.
pub open spec fn blocks(s: Seq<char>) -> bool {
    !is_blank(s) && (is_noise_text(s) || cleaned(s).len() == 0 || is_noise_text(cleaned(s)))
}

/// Replacing runs by spaces keeps any property of the characters that a space has.
pub proof fn lemma_runs_replaced_keeps(s: Seq<char>, k: RunClass, min: int, p: spec_fn(char) -> bool)
    requires
        all_chars(s, p),
        p(' '),
    ensures
        all_chars(runs_replaced(s, k, min), p),
    decreases s.len(),
{
    if s.len() > 0 {
        lemma_class_run_len_bounds(s, k);
        if in_class(k, s[0]) && class_run_len(s, k) >= min && class_run_len(s, k) >= 1 {
            lemma_all_chars_skip(s, p, class_run_len(s, k));
            lemma_runs_replaced_keeps(s.skip(class_run_len(s, k)), k, min, p);
            lemma_all_chars_prepend(' ', runs_replaced(s.skip(class_run_len(s, k)), k, min), p);
        } else {
            lemma_all_chars_skip(s, p, 1);
            assert(s.skip(1) =~= s.drop_first());
            lemma_runs_replaced_keeps(s.drop_first(), k, min, p);
            lemma_all_chars_prepend(s[0], runs_replaced(s.drop_first(), k, min), p);
        }
    }
}

/// After the runs of a class are replaced with `min == 1`, no character of the class is left.
pub proof fn lemma_runs_replaced_clears_class(s: Seq<char>, k: RunClass)
    requires
        !in_class(k, ' '),
    ensures
        all_chars(runs_replaced(s, k, 1), |c: char| !in_class(k, c)),
    decreases s.len(),
{
    let p = |c: char| !in_class(k, c);
    if s.len() > 0 {
        lemma_class_run_len_bounds(s, k);
        if in_class(k, s[0]) {
            lemma_runs_replaced_clears_class(s.skip(class_run_len(s, k)), k);
            lemma_all_chars_prepend(' ', runs_replaced(s.skip(class_run_len(s, k)), k, 1), p);
        } else {
            lemma_runs_replaced_clears_class(s.drop_first(), k);
            lemma_all_chars_prepend(s[0], runs_replaced(s.drop_first(), k, 1), p);
        }
    }
}

/// A reduction pass only keeps characters of the text.
pub proof fn lemma_reduced_once_keeps(s: Seq<char>, p: spec_fn(char) -> bool)
    requires
        all_chars(s, p),
    ensures
        all_chars(reduced_once(s), p),
    decreases s.len(),
{
    if s.len() > 0 {
        lemma_run_len_bounds(s, s[0]);
        let r = run_len(s, s[0]);
        if r >= 3 {
            lemma_all_chars_skip(s, p, r);
            lemma_reduced_once_keeps(s.skip(r), p);
            lemma_all_chars_prepend(s[0], reduced_once(s.skip(r)), p);
        } else if s.len() >= 2 && pair_count(s, s[0], s[1]) >= 3 {
            lemma_pair_count_bounds(s, s[0], s[1]);
            let m = 2 * pair_count(s, s[0], s[1]);
            lemma_all_chars_skip(s, p, m);
            lemma_reduced_once_keeps(s.skip(m), p);
            lemma_all_chars_prepend(s[1], reduced_once(s.skip(m)), p);
            lemma_all_chars_prepend(s[0], seq![s[1]] + reduced_once(s.skip(m)), p);
            assert(seq![s[0], s[1]] + reduced_once(s.skip(m)) =~= seq![s[0]] + (seq![s[1]]
                + reduced_once(s.skip(m))));
        } else {
            lemma_all_chars_skip(s, p, 1);
            assert(s.skip(1) =~= s.drop_first());
            lemma_reduced_once_keeps(s.drop_first(), p);
            lemma_all_chars_prepend(s[0], reduced_once(s.drop_first()), p);
        }
    }
}

/// Repeat reduction only keeps characters of the text.
pub proof fn lemma_reduced_keeps(s: Seq<char>, p: spec_fn(char) -> bool)
    requires
        all_chars(s, p),
    ensures
        all_chars(reduced(s), p),
    decreases s.len(),
{
    lemma_reduced_once_len(s);
    lemma_reduced_once_keeps(s, p);
    if reduced_once(s).len() != s.len() {
        lemma_reduced_keeps(reduced_once(s), p);
    }
}

/// Trimming only keeps characters of the text.
pub proof fn lemma_trim_keeps(s: Seq<char>, p: spec_fn(char) -> bool)
    requires
        all_chars(s, p),
    ensures
        all_chars(trim(s), p),
{
    lemma_trim_start_keeps(s, p);
    lemma_trim_end_keeps(trim_start(s), p);
}

proof fn lemma_trim_start_keeps(s: Seq<char>, p: spec_fn(char) -> bool)
    requires
        all_chars(s, p),
    ensures
        all_chars(trim_start(s), p),
    decreases s.len(),
{
    if s.len() > 0 && is_white_space(s[0]) {
        lemma_all_chars_skip(s, p, 1);
        assert(s.skip(1) =~= s.drop_first());
        lemma_trim_start_keeps(s.drop_first(), p);
    }
}

proof fn lemma_trim_end_keeps(s: Seq<char>, p: spec_fn(char) -> bool)
    requires
        all_chars(s, p),
    ensures
        all_chars(trim_end(s), p),
    decreases s.len(),
{
    if s.len() > 0 && is_white_space(s.last()) {
        assert forall|i: int| 0 <= i < s.drop_last().len() implies p(#[trigger] s.drop_last()[i]) by {
            assert(s.drop_last()[i] == s[i]);
        }
        lemma_trim_end_keeps(s.drop_last(), p);
    }
}

/// Repeat reduction reaches a fixpoint: reducing its result again changes nothing.
pub proof fn lemma_reduced_is_fixpoint(s: Seq<char>)
    ensures
        reduced_once(reduced(s)) == reduced(s),
        reduced(reduced(s)) == reduced(s),
    decreases s.len(),
{
    lemma_reduced_once_len(s);
    let r = reduced_once(s);
    if r.len() == s.len() {
        assert(r == s);
        lemma_reduced_once_len(r);
    } else {
        lemma_reduced_is_fixpoint(r);
    }
}

/// A text that a reduction pass leaves as it is holds no character three or
/// more times in a row and no pair of characters three or more times in a row.
pub proof fn lemma_unchanged_has_no_repeats(s: Seq<char>, i: int)
    requires
        reduced_once(s) == s,
        0 <= i < s.len(),
    ensures
        run_len(s.skip(i), s[i]) < 3,
        i + 1 < s.len() ==> pair_count(s.skip(i), s[i], s[i + 1]) < 3,
    decreases i,
{
    lemma_run_len_bounds(s, s[0]);
    let r = run_len(s, s[0]);
    if r >= 3 {
        lemma_reduced_once_len(s.skip(r));
        assert(false);
    } else if s.len() >= 2 && pair_count(s, s[0], s[1]) >= 3 {
        lemma_pair_count_bounds(s, s[0], s[1]);
        lemma_reduced_once_len(s.skip(2 * pair_count(s, s[0], s[1])));
        assert(false);
    } else {
        let rest = s.drop_first();
        assert(reduced_once(s) == seq![s[0]] + reduced_once(rest));
        assert(reduced_once(rest) =~= rest) by {
            assert forall|j: int| 0 <= j < rest.len() implies reduced_once(rest)[j] == rest[j] by {
                assert((seq![s[0]] + reduced_once(rest))[j + 1] == s[j + 1]);
            }
        }
        if i == 0 {
            assert(s.skip(0) =~= s);
        } else {
            lemma_unchanged_has_no_repeats(rest, i - 1);
            assert(rest.skip(i - 1) =~= s.skip(i));
            assert(rest[i - 1] == s[i]);
        }
    }
}

/// The result of repeat reduction holds no character three or more times in a
/// row and no pair of characters three or more times in a row.
pub proof fn lemma_reduced_has_no_repeats(s: Seq<char>, i: int)
    requires
        0 <= i < reduced(s).len(),
    ensures
        run_len(reduced(s).skip(i), reduced(s)[i]) < 3,
        i + 1 < reduced(s).len() ==> pair_count(reduced(s).skip(i), reduced(s)[i], reduced(s)[i + 1]) < 3,
{
    lemma_reduced_is_fixpoint(s);
    lemma_unchanged_has_no_repeats(reduced(s), i);
}

/// The cleaned text holds none of the markup symbols `^ _ = < > { } [ ] \ | ``.
pub proof fn lemma_cleaned_has_no_markup(s: Seq<char>)
    ensures
        all_chars(cleaned(s), |c: char| !in_class(RunClass::Known, c)),
{
    let p = |c: char| !in_class(RunClass::Known, c);
    lemma_runs_replaced_clears_class(s, RunClass::Known);
    let a = runs_replaced(s, RunClass::Known, 1);
    lemma_runs_replaced_keeps(a, RunClass::Cluster, 2, p);
    lemma_reduced_keeps(known_removed(s), p);
    lemma_runs_replaced_keeps(reduced(known_removed(s)), RunClass::Space, 1, p);
    lemma_trim_keeps(runs_replaced(reduced(known_removed(s)), RunClass::Space, 1), p);
}

/// A blank message is not blocked, and the mapper hands on an empty text.
pub proof fn lemma_blank_text_passes(s: Seq<char>)
    requires
        is_blank(s),
    ensures
        !blocks(s),
        stars_replaced(cleaned(s)).len() == 0,
{
    let p = |c: char| is_white_space(c);
    assert(all_chars(s, p));
    lemma_runs_replaced_keeps(s, RunClass::Known, 1, p);
    lemma_runs_replaced_keeps(runs_replaced(s, RunClass::Known, 1), RunClass::Cluster, 2, p);
    lemma_reduced_keeps(known_removed(s), p);
    let spaced = runs_replaced(reduced(known_removed(s)), RunClass::Space, 1);
    lemma_runs_replaced_keeps(reduced(known_removed(s)), RunClass::Space, 1, p);
    assert(is_blank(spaced));
    lemma_trim_empty(spaced);
}

/// The text handed on never holds a `'*'`.
pub proof fn lemma_no_stars(s: Seq<char>)
    ensures
        !stars_replaced(s).contains('*'),
{
}

/// `s` with its runs of class `k` of at least `min` characters replaced by spaces.
pub fn replace_runs(s: &Vec<char>, k: RunClass, min: usize) -> (r: Vec<char>)
    requires
        min >= 1,
    ensures
        r@ == runs_replaced(s@, k, min as int),
{
    let n = s.len();
    let mut out: Vec<char> = Vec::new();
    let mut i: usize = 0;
    assert(s@.skip(0) =~= s@);
    while i < n
        invariant
            i <= n == s.len(),
            min >= 1,
            runs_replaced(s@, k, min as int) == out@ + runs_replaced(s@.skip(i as int), k, min as int),
        decreases n - i,
    {
        let ghost rest = s@.skip(i as int);
        let mut j = i;
        while j < n && in_class_exec(&k, s[j])
            invariant
                i <= j <= n == s.len(),
                class_run_len(rest, k) == (j - i) + class_run_len(s@.skip(j as int), k),
                rest == s@.skip(i as int),
            decreases n - j,
        {
            assert(s@.skip(j as int).drop_first() =~= s@.skip(j + 1));
            j += 1;
        }
        proof {
            lemma_class_run_len_bounds(rest, k);
        }
        if j > i && j - i >= min {
            out.push(' ');
            assert(rest.skip(j - i) =~= s@.skip(j as int));
            i = j;
        } else {
            out.push(s[i]);
            assert(rest.drop_first() =~= s@.skip(i + 1));
            i += 1;
        }
    }
    assert(s@.skip(n as int).len() == 0);
    out
}

/// Markup symbols and clusters of `! ~ " '` replaced by spaces.
pub fn remove_known(text: &Vec<char>) -> (r: Vec<char>)
    ensures
        r@ == known_removed(text@),
{
    let without_known = replace_runs(text, RunClass::Known, 1);
    replace_runs(&without_known, RunClass::Cluster, 2)
}

/// One pass of repeat reduction.
pub fn reduce_once(chars: &Vec<char>) -> (r: Vec<char>)
    ensures
        r@ == reduced_once(chars@),
{
    let n = chars.len();
    let mut out: Vec<char> = Vec::new();
    let mut i: usize = 0;
    assert(chars@.skip(0) =~= chars@);
    while i < n
        invariant
            i <= n == chars.len(),
            reduced_once(chars@) == out@ + reduced_once(chars@.skip(i as int)),
        decreases n - i,
    {
        let ghost rest = chars@.skip(i as int);
        let c = chars[i];
        let mut j = i;
        while j < n && chars[j] == c
            invariant
                i <= j <= n == chars.len(),
                rest == chars@.skip(i as int),
                run_len(rest, c) == (j - i) + run_len(chars@.skip(j as int), c),
            decreases n - j,
        {
            assert(chars@.skip(j as int).drop_first() =~= chars@.skip(j + 1));
            j += 1;
        }
        proof {
            lemma_run_len_bounds(rest, c);
        }
        if j - i >= 3 {
            out.push(c);
            assert(rest.skip(j - i) =~= chars@.skip(j as int));
            i = j;
        } else {
            let mut done = false;
            if n - i >= 2 {
                let a = chars[i];
                let b = chars[i + 1];
                let mut k = i;
                let mut count: usize = 0;
                while n - k >= 2 && chars[k] == a && chars[k + 1] == b
                    invariant
                        i <= k <= n == chars.len(),
                        k == i + 2 * count,
                        rest == chars@.skip(i as int),
                        pair_count(rest, a, b) == count + pair_count(chars@.skip(k as int), a, b),
                    decreases n - k,
                {
                    assert(chars@.skip(k as int).skip(2) =~= chars@.skip(k + 2));
                    k += 2;
                    count += 1;
                }
                if count >= 3 {
                    out.push(a);
                    out.push(b);
                    assert(rest.skip(2 * count) =~= chars@.skip(k as int));
                    i = k;
                    done = true;
                }
            }
            if !done {
                out.push(c);
                assert(rest.drop_first() =~= chars@.skip(i + 1));
                i += 1;
            }
        }
    }
    assert(chars@.skip(n as int).len() == 0);
    out
}

/// Repeat reduction until the text no longer shortens.
pub fn reduce_repeats(text: &Vec<char>) -> (r: Vec<char>)
    ensures
        r@ == reduced(text@),
{
    let mut current = sub_chars(text, 0, text.len());
    assert(current@ =~= text@);
    loop
        invariant
            reduced(text@) == reduced(current@),
        decreases current.len(),
    {
        let next = reduce_once(&current);
        proof {
            lemma_reduced_once_len(current@);
        }
        if next.len() == current.len() {
            return next;
        }
        current = next;
    }
}

/// `s` with each `'*'` replaced by a space.
fn replace_stars(s: &Vec<char>) -> (r: String)
    ensures
        r@ == stars_replaced(s@),
{
    let mut out = String::new();
    let mut i: usize = 0;
    while i < s.len()
        invariant
            i <= s.len(),
            out@ == stars_replaced(s@.take(i as int)),
        decreases s.len() - i,
    {
        if s[i] == '*' {
            out.push(' ');
        } else {
            out.push(s[i]);
        }
        assert(stars_replaced(s@.take(i + 1)) =~= stars_replaced(s@.take(i as int)).push(
            if s@[i as int] == '*' { ' ' } else { s@[i as int] },
        ));
        i += 1;
    }
    assert(s@.take(s.len() as int) =~= s@);
    out
}

/// The reply that stops the pipeline: a single space and no further mappers.
fn blocked() -> (r: Output)
    ensures
        r.text@ == " "@,
        r.override_future_mappers matches Some(v) && v.len() == 0,
{
    Output::text(String::from_str(" ")).override_pipeline(Vec::new())
}

/// Handles text already in NFC: noise stops the pipeline (the reply is a
/// single space and no further mapper runs); any other text is cleaned, and
/// its `'*'`s become spaces.
pub fn process_normalized(normalized: &str) -> (r: Output)
    ensures
        blocks(normalized@) ==> r.text@ == " "@ && (r.override_future_mappers matches Some(v)
            && v.len() == 0),
        !blocks(normalized@) ==> r.text@ == stars_replaced(cleaned(normalized@))
            && r.override_future_mappers is None,
{
    let chars = chars_of(normalized);
    let (a, b) = trim_bounds(&chars);
    proof {
        lemma_trim_empty(normalized@);
    }
    let not_blank = a < b;
    if not_blank && is_noise(&chars) {
        return blocked();
    }
    let removed = remove_known(&chars);
    let reduced = reduce_repeats(&removed);
    let spaced = replace_runs(&reduced, RunClass::Space, 1);
    let (c, d) = trim_bounds(&spaced);
    let result = sub_chars(&spaced, c, d);
    if not_blank && (result.len() == 0 || is_noise(&result)) {
        return blocked();
    }
    Output::text(replace_stars(&result))
}

/// The Unicode NFC form of `s`, as `unicode_normalization` computes it.
pub uninterp spec fn nfc_normalized(s: Seq<char>) -> Seq<char>;

/// `UnicodeNormalization::nfc` on a string, collected: the result is the NFC
/// form of `s`, a function of `s` alone; the normalization itself is not
/// restated here.
#[verifier::external_body]
fn nfc(s: &str) -> (r: String)
    ensures
        r@ == nfc_normalized(s@),
{
    s.nfc().collect()
}

/// Normalizes the message to NFC, then handles it as `process_normalized` does.
pub fn process(input: Input) -> (r: Output)
    ensures
        blocks(nfc_normalized(input.text@)) ==> r.text@ == " "@ && (
        r.override_future_mappers matches Some(v) && v.len() == 0),
        !blocks(nfc_normalized(input.text@)) ==> r.text@ == stars_replaced(
            cleaned(nfc_normalized(input.text@)),
        ) && r.override_future_mappers is None,
{
    let normalized = nfc(input.text.as_str());
    process_normalized(normalized.as_str())
}

} // verus!
