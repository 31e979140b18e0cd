//! Detectors of noise that text-to-speech should not read: punctuation
//! alone, a few characters repeated with symbols, text that is mostly
//! symbols, and single '!' marks between a few repeated letters.
use vstd::prelude::*;
use crate::text::{is_alnum, is_white_space, is_whitespace, sub_chars, trim, trim_bounds};

verus! {

/// The alphanumeric characters of `s`, in order.
pub open spec fn alnum_chars(s: Seq<char>) -> Seq<char>
    decreases s.len(),
{
    if s.len() == 0 {
        Seq::empty()
    } else if is_alnum(s.last()) {
        alnum_chars(s.drop_last()).push(s.last())
    } else {
        alnum_chars(s.drop_last())
    }
}

/// The characters of `s` that are not white space, in order.
pub open spec fn visible_chars(s: Seq<char>) -> Seq<char>
    decreases s.len(),
{
    if s.len() == 0 {
        Seq::empty()
    } else if is_white_space(s.last()) {
        visible_chars(s.drop_last())
    } else {
        visible_chars(s.drop_last()).push(s.last())
    }
}

/// The characters of `s` without repetitions, each where it first occurs.
pub open spec fn distinct(s: Seq<char>) -> Seq<char>
    decreases s.len(),
{
    if s.len() == 0 {
        Seq::empty()
    } else {
        let d = distinct(s.drop_last());
        if d.contains(s.last()) {
            d
        } else {
            d.push(s.last())
        }
    }
}

/// The number of distinct alphanumeric characters of `s`.
pub open spec fn unique_alnum_count(s: Seq<char>) -> int {
    distinct(alnum_chars(s)).len() as int
}

/// `s` holds a symbol: a character that is neither alphanumeric nor white space.
pub open spec fn has_symbol(s: Seq<char>) -> bool {
    exists|i: int| 0 <= i < s.len() && !is_alnum(#[trigger] s[i]) && !is_white_space(s[i])
}

/// The number of `'!'` marks of `s` that stand between two alphanumeric characters.
pub open spec fn interspersed_bangs(s: Seq<char>) -> int
    decreases s.len(),
{
    if s.len() < 3 {
        0
    } else {
        let n = s.len() as int;
        interspersed_bangs(s.drop_last()) + if s[n - 2] == '!' && is_alnum(s[n - 3])
            && is_alnum(s[n - 1]) {
            1int
        } else {
            0int
        }
    }
}

/// Pure punctuation or symbols, at least two characters once trimmed, with no
/// alphanumeric character ("!!!!", "!~!~!~", "'''''''").
pub open spec fn punctuation_only(s: Seq<char>) -> bool {
    let t = trim(s);
    t.len() >= 2 && alnum_chars(t).len() == 0
}

/// At least eight alphanumeric characters but at most three distinct ones,
/// no space, and a symbol among them ("ㅎㅎㅎㅏㅏ!ㅎㅎㅎㅏㅏ!ㅎㅎㅎㅏㅏ!").
pub open spec fn low_diversity(s: Seq<char>) -> bool {
    &&& alnum_chars(s).len() >= 8
    &&& !s.contains(' ')
    &&& has_symbol(s)
    &&& unique_alnum_count(s) <= 3
}

/// At least twenty characters other than white space, less than half of them
/// alphanumeric.
pub open spec fn high_punctuation_ratio(s: Seq<char>) -> bool {
    let v = visible_chars(s);
    v.len() >= 20 && 2 * alnum_chars(v).len() < v.len()
}

/// At least three single `'!'` marks between alphanumeric characters, with at
/// most three distinct alphanumeric characters ("아!ㅇ!아!ㅏ").
pub open spec fn exclamation_noise(s: Seq<char>) -> bool {
    interspersed_bangs(s) >= 3 && unique_alnum_count(s) <= 3
}

/// `s` is noise: one of the detectors fires.
pub open spec fn is_noise_text(s: Seq<char>) -> bool {
    ||| punctuation_only(s)
    ||| low_diversity(s)
    ||| high_punctuation_ratio(s)
    ||| exclamation_noise(s)
}

/// The alphanumeric characters of `s`.
fn alnum_of(s: &Vec<char>) -> (r: Vec<char>)
    ensures
        r@ == alnum_chars(s@),
{
    let mut r: Vec<char> = Vec::new();
    let mut i: usize = 0;
    assert(s@.take(0) =~= Seq::<char>::empty());
    while i < s.len()
        invariant
            i <= s.len(),
            r@ == alnum_chars(s@.take(i as int)),
        decreases s.len() - i,
    {
        assert(s@.take(i + 1).drop_last() =~= s@.take(i as int));
        if s[i].is_alphanumeric() {
            r.push(s[i]);
        }
        i += 1;
    }
    assert(s@.take(s.len() as int) =~= s@);
    r
}

/// The characters of `s` that are not white space.
fn visible_of(s: &Vec<char>) -> (r: Vec<char>)
    ensures
        r@ == visible_chars(s@),
{
    let mut r: Vec<char> = Vec::new();
    let mut i: usize = 0;
    assert(s@.take(0) =~= Seq::<char>::empty());
    while i < s.len()
        invariant
            i <= s.len(),
            r@ == visible_chars(s@.take(i as int)),
        decreases s.len() - i,
    {
        assert(s@.take(i + 1).drop_last() =~= s@.take(i as int));
        if !is_whitespace(s[i]) {
            r.push(s[i]);
        }
        i += 1;
    }
    assert(s@.take(s.len() as int) =~= s@);
    r
}

proof fn lemma_alnum_chars_len(s: Seq<char>)
    ensures
        alnum_chars(s).len() <= s.len(),
    decreases s.len(),
{
    if s.len() > 0 {
        lemma_alnum_chars_len(s.drop_last());
    }
}

proof fn lemma_distinct_prefix(s: Seq<char>, k: int)
    requires
        0 <= k <= s.len(),
    ensures
        distinct(s.take(k)).len() <= distinct(s).len(),
    decreases s.len(),
{
    if k < s.len() {
        lemma_distinct_prefix(s.drop_last(), k);
        assert(s.drop_last().take(k) =~= s.take(k));
    } else {
        assert(s.take(k) =~= s);
    }
}

/// Whether `s` has at most three distinct characters.
fn at_most_three_distinct(s: &Vec<char>) -> (r: bool)
    ensures
        r == (distinct(s@).len() <= 3),
{
    let mut d: Vec<char> = Vec::new();
    let mut i: usize = 0;
    assert(s@.take(0) =~= Seq::<char>::empty());
    while i < s.len()
        invariant
            i <= s.len(),
            d@ == distinct(s@.take(i as int)),
            d.len() <= 3,
        decreases s.len() - i,
    {
        let c = s[i];
        let mut found = false;
        let mut j: usize = 0;
        while j < d.len()
            invariant
                j <= d.len(),
                found == (exists|k: int| 0 <= k < j && d@[k] == c),
            decreases d.len() - j,
        {
            if d[j] == c {
                found = true;
            }
            j += 1;
        }
        assert(found == d@.contains(c));
        assert(s@.take(i + 1).drop_last() =~= s@.take(i as int));
        assert(s@.take(i + 1).last() == c);
        if !found {
            d.push(c);
        }
        i += 1;
        if d.len() > 3 {
            proof {
                lemma_distinct_prefix(s@, i as int);
            }
            return false;
        }
    }
    assert(s@.take(s.len() as int) =~= s@);
    true
}

/// Pure punctuation/symbols — no alphanumeric content at all (min 2 chars).
pub fn detect_punctuation_only(text: &Vec<char>) -> (r: bool)
    ensures
        r == punctuation_only(text@),
{
    let (a, b) = trim_bounds(text);
    let t = sub_chars(text, a, b);
    t.len() >= 2 && alnum_of(&t).len() == 0
}

/// Very few unique alphanumeric chars (at most 3) repeated many times (at
/// least 8 in all) with no word breaks (spaces) and at least some
/// punctuation/symbols mixed in. Pure alphanumeric repetition without
/// punctuation (e.g. "hahahahahaha") is left to the repeat reduction.
pub fn detect_low_diversity(text: &Vec<char>) -> (r: bool)
    ensures
        r == low_diversity(text@),
{
    let alnum = alnum_of(text);
    if alnum.len() < 8 {
        return false;
    }
    let mut i: usize = 0;
    while i < text.len()
        invariant
            i <= text.len(),
            forall|k: int| 0 <= k < i ==> text@[k] != ' ',
        decreases text.len() - i,
    {
        if text[i] == ' ' {
            assert(text@[i as int] == ' ');
            return false;
        }
        i += 1;
    }
    assert(!text@.contains(' '));
    let mut has_punct = false;
    let mut j: usize = 0;
    while j < text.len()
        invariant
            j <= text.len(),
            has_punct == (exists|k: int|
                0 <= k < j && !is_alnum(#[trigger] text@[k]) && !is_white_space(text@[k])),
        decreases text.len() - j,
    {
        if !text[j].is_alphanumeric() && !is_whitespace(text[j]) {
            has_punct = true;
        }
        j += 1;
    }
    if !has_punct {
        return false;
    }
    at_most_three_distinct(&alnum)
}

/// Less than 50 % alphanumeric content in a text of 20+ non-whitespace chars.
pub fn detect_high_punctuation_ratio(text: &Vec<char>) -> (r: bool)
    ensures
        r == high_punctuation_ratio(text@),
{
    let chars = visible_of(text);
    if chars.len() < 20 {
        return false;
    }
    let alpha = alnum_of(&chars).len();
    proof {
        lemma_alnum_chars_len(chars@);
    }
    alpha < chars.len() - alpha
}

/// Single '!' marks interspersed between alphanumeric chars with at most 3
/// unique alphanumeric characters.
pub fn detect_exclamation_noise(text: &Vec<char>) -> (r: bool)
    ensures
        r == exclamation_noise(text@),
{
    let n = text.len();
    let mut interspersed: usize = 0;
    let mut i: usize = 2;
    if n >= 2 {
        assert(text@.take(2).len() < 3);
    }
    while i < n
        invariant
            2 <= i,
            n == text.len(),
            i <= n || n < 2,
            n >= 2 ==> interspersed == interspersed_bangs(text@.take(i as int)),
            interspersed <= i,
        decreases n - i,
    {
        let ghost t = text@.take(i + 1);
        assert(t.drop_last() =~= text@.take(i as int));
        if text[i - 1] == '!' && text[i - 2].is_alphanumeric() && text[i].is_alphanumeric() {
            interspersed += 1;
        }
        i += 1;
    }
    if n < 2 {
        assert(interspersed_bangs(text@) == 0);
        return false;
    }
    assert(text@.take(n as int) =~= text@);
    if interspersed < 3 {
        return false;
    }
    let alnum = alnum_of(text);
    at_most_three_distinct(&alnum)
}

/// The pipeline of detectors: the text is noise if any of them fires.
pub fn is_noise(text: &Vec<char>) -> (r: bool)
    ensures
        r == is_noise_text(text@),
{
    detect_punctuation_only(text) || detect_low_diversity(text) || detect_high_punctuation_ratio(
        text,
    ) || detect_exclamation_noise(text)
}

/// A message of more than one word is never taken for low-diversity noise:
/// only a detector other than the low-diversity one can block it.
pub proof fn lemma_spaced_text_not_low_diversity(s: Seq<char>, i: int)
    requires
        0 <= i < s.len(),
        s[i] == ' ',
    ensures
        !low_diversity(s),
        is_noise_text(s) == (punctuation_only(s) || high_punctuation_ratio(s) || exclamation_noise(s)),
{
    assert(s.contains(' '));
}

/// Letters repeated without any symbol ("hahahahahaha", "ㅋㅋㅋㅋㅋ") are not
/// low-diversity noise: they are left to the repeat reduction.
pub proof fn lemma_symbol_free_not_low_diversity(s: Seq<char>)
    requires
        forall|k: int| 0 <= k < s.len() ==> is_alnum(#[trigger] s[k]) || is_white_space(s[k]),
    ensures
        !low_diversity(s),
{
}

/// A text with fewer than eight alphanumeric characters is not low-diversity noise.
pub proof fn lemma_short_text_not_low_diversity(s: Seq<char>)
    requires
        alnum_chars(s).len() < 8,
    ensures
        !low_diversity(s),
{
}

/// A text without alphanumeric characters is never taken for interspersed
/// '!' noise: a '!' only counts between two alphanumeric characters.
pub proof fn lemma_no_alnum_no_bangs(s: Seq<char>)
    requires
        forall|k: int| 0 <= k < s.len() ==> !is_alnum(#[trigger] s[k]),
    ensures
        interspersed_bangs(s) == 0,
    decreases s.len(),
{
    if s.len() >= 3 {
        assert(!is_alnum(s[s.len() - 1]));
        lemma_no_alnum_no_bangs(s.drop_last());
    }
}

proof fn lemma_repeated_alnum(a: char, n: nat)
    requires
        is_alnum(a),
    ensures
        alnum_chars(Seq::new(n, |i: int| a)) == Seq::new(n, |i: int| a),
        n > 0 ==> distinct(Seq::new(n, |i: int| a)) == seq![a],
    decreases n,
{
    let r = Seq::new(n, |i: int| a);
    if n > 0 {
        let p = Seq::new((n - 1) as nat, |i: int| a);
        assert(r.drop_last() =~= p);
        lemma_repeated_alnum(a, (n - 1) as nat);
        assert(p.push(a) =~= r);
        if n == 1 {
            assert(p.len() == 0);
            assert(distinct(p) =~= Seq::<char>::empty());
            assert(Seq::<char>::empty().push(a) =~= seq![a]);
        } else {
            assert(seq![a].contains(a)) by {
                assert(seq![a][0] == a);
            }
        }
    }
}

/// One letter written eight times or more with a symbol after it and no
/// space ("ㅋㅋㅋㅋㅋㅋㅋㅋ!") is low-diversity noise.
pub proof fn lemma_repeated_letter_with_symbol(a: char, c: char, n: nat)
    requires
        n >= 8,
        is_alnum(a),
        a != ' ',
        !is_alnum(c),
        !is_white_space(c),
    ensures
        low_diversity(Seq::new(n, |i: int| a).push(c)),
{
    let r = Seq::new(n, |i: int| a);
    let s = r.push(c);
    lemma_repeated_alnum(a, n);
    assert(s.drop_last() =~= r);
    assert(alnum_chars(s) == alnum_chars(r));
    assert(s[n as int] == c);
    assert(has_symbol(s));
    assert(!s.contains(' ')) by {
        if s.contains(' ') {
            let k = choose|k: int| 0 <= k < s.len() && s[k] == ' ';
            if k < n {
                assert(s[k] == r[k]);
            }
        }
    }
}

} // verus!
