//! Sino-Korean numerals (일, 이, 삼, ... 십, 백, 천, 만, 억, ...), up to 무량대수 (10^68).
use vstd::prelude::*;
use crate::text::{chars_of, digit_value, has_ascii_digit, is_ascii_digit, lemma_no_digit_concat, sub_chars};

verus! {

/// The sino-Korean word for a digit `1..=9`.
pub open spec fn sino_digit(d: int) -> Seq<char> {
    if d == 1 { "일"@ }
    else if d == 2 { "이"@ }
    else if d == 3 { "삼"@ }
    else if d == 4 { "사"@ }
    else if d == 5 { "오"@ }
    else if d == 6 { "육"@ }
    else if d == 7 { "칠"@ }
    else if d == 8 { "팔"@ }
    else if d == 9 { "구"@ }
    else { Seq::empty() }
}

/// The word for a place inside a group of four digits: 십, 백, 천 (none for the units).
pub open spec fn sino_place(p: int) -> Seq<char> {
    if p == 1 { "십"@ }
    else if p == 2 { "백"@ }
    else if p == 3 { "천"@ }
    else { Seq::empty() }
}

/// The name of the `g`-th group of four digits, counted from the right
/// (만 = 10^4, 억 = 10^8, ..., 무량대수 = 10^68); groups past that have no name.
pub open spec fn group_name(g: int) -> Seq<char> {
    if g == 1 { "만"@ }
    else if g == 2 { "억"@ }
    else if g == 3 { "조"@ }
    else if g == 4 { "경"@ }
    else if g == 5 { "해"@ }
    else if g == 6 { "자"@ }
    else if g == 7 { "양"@ }
    else if g == 8 { "구"@ }
    else if g == 9 { "간"@ }
    else if g == 10 { "정"@ }
    else if g == 11 { "재"@ }
    else if g == 12 { "극"@ }
    else if g == 13 { "항하사"@ }
    else if g == 14 { "아승기"@ }
    else if g == 15 { "나유타"@ }
    else if g == 16 { "불가사의"@ }
    else if g == 17 { "무량대수"@ }
    else { Seq::empty() }
}

/// The reading of digit `d` standing at place `place` of a group: a zero is
/// silent, and a one before a place word is left out (십, not 일십).
pub open spec fn digit_term(d: int, place: int) -> Seq<char> {
    if d == 0 {
        Seq::empty()
    } else if d == 1 && place > 0 {
        sino_place(place)
    } else {
        sino_digit(d) + sino_place(place)
    }
}

/// The reading of a group of (at most four) digits, most significant first.
pub open spec fn group_reading(g: Seq<char>) -> Seq<char>
    decreases g.len(),
{
    if g.len() == 0 {
        Seq::empty()
    } else {
        digit_term(digit_value(g[0]), g.len() - 1) + group_reading(g.drop_first())
    }
}

/// A group's reading followed by its group name; a group of zeros says nothing.
pub open spec fn group_part(g: Seq<char>, gi: int) -> Seq<char> {
    let r = group_reading(g);
    if r.len() == 0 {
        Seq::empty()
    } else {
        r + group_name(gi)
    }
}

/// The reading of the digits `s`, cut into groups of four from the right;
/// the rightmost group has index `gi`.
pub open spec fn digits_reading(s: Seq<char>, gi: int) -> Seq<char>
    decreases s.len(),
{
    if s.len() == 0 {
        Seq::empty()
    } else {
        let k = if s.len() >= 4 { 4 } else { s.len() as int };
        digits_reading(s.take(s.len() - k), gi + 1) + group_part(s.skip(s.len() - k), gi)
    }
}

/// The ASCII digits of `s`, in order.
pub open spec fn ascii_digits(s: Seq<char>) -> Seq<char>
    decreases s.len(),
{
    if s.len() == 0 {
        Seq::empty()
    } else if is_ascii_digit(s.last()) {
        ascii_digits(s.drop_last()).push(s.last())
    } else {
        ascii_digits(s.drop_last())
    }
}

/// `s` without its leading `'0'`s.
pub open spec fn strip_leading_zeros(s: Seq<char>) -> Seq<char>
    decreases s.len(),
{
    if s.len() > 0 && s[0] == '0' {
        strip_leading_zeros(s.drop_first())
    } else {
        s
    }
}

/// The sino-Korean reading of the number written by the ASCII digits of `s`
/// (every other character is ignored); zero, and no digits at all, read 영.
pub open spec fn sino_reading(s: Seq<char>) -> Seq<char> {
    let t = strip_leading_zeros(ascii_digits(s));
    if t.len() == 0 {
        "영"@
    } else {
        digits_reading(t, 0)
    }
}

/// The value of the decimal digits `s`.
pub open spec fn digits_value(s: Seq<char>) -> nat
    decreases s.len(),
{
    if s.len() == 0 {
        0
    } else {
        digits_value(s.drop_last()) * 10 + digit_value(s.last()) as nat
    }
}

/// The ASCII digit for `d` in `0..=9`.
pub open spec fn digit_char(d: int) -> char {
    if d == 0 { '0' }
    else if d == 1 { '1' }
    else if d == 2 { '2' }
    else if d == 3 { '3' }
    else if d == 4 { '4' }
    else if d == 5 { '5' }
    else if d == 6 { '6' }
    else if d == 7 { '7' }
    else if d == 8 { '8' }
    else { '9' }
}

/// The decimal representation of `n`, without leading zeros ("0" for zero).
pub open spec fn decimal_digits(n: nat) -> Seq<char>
    decreases n,
{
    if n < 10 {
        seq![digit_char(n as int)]
    } else {
        decimal_digits(n / 10).push(digit_char((n % 10) as int))
    }
}

fn digit_word(d: u32) -> (r: &'static str)
    requires
        1 <= d <= 9,
    ensures
        r@ == sino_digit(d as int),
{
    if d == 1 { "일" }
    else if d == 2 { "이" }
    else if d == 3 { "삼" }
    else if d == 4 { "사" }
    else if d == 5 { "오" }
    else if d == 6 { "육" }
    else if d == 7 { "칠" }
    else if d == 8 { "팔" }
    else { "구" }
}

fn place_word(p: usize) -> (r: &'static str)
    ensures
        r@ == sino_place(p as int),
{
    proof {
        reveal_strlit("");
    }
    if p == 1 { "십" }
    else if p == 2 { "백" }
    else if p == 3 { "천" }
    else { "" }
}

fn group_word(g: usize) -> (r: &'static str)
    ensures
        r@ == group_name(g as int),
{
    proof {
        reveal_strlit("");
    }
    if g == 1 { "만" }
    else if g == 2 { "억" }
    else if g == 3 { "조" }
    else if g == 4 { "경" }
    else if g == 5 { "해" }
    else if g == 6 { "자" }
    else if g == 7 { "양" }
    else if g == 8 { "구" }
    else if g == 9 { "간" }
    else if g == 10 { "정" }
    else if g == 11 { "재" }
    else if g == 12 { "극" }
    else if g == 13 { "항하사" }
    else if g == 14 { "아승기" }
    else if g == 15 { "나유타" }
    else if g == 16 { "불가사의" }
    else if g == 17 { "무량대수" }
    else { "" }
}

/// Reads the digits `t[start..end]` as one group.
fn group_to_korean(t: &Vec<char>, start: usize, end: usize) -> (r: String)
    requires
        start <= end <= t.len(),
        forall|i: int| start <= i < end ==> is_ascii_digit(#[trigger] t@[i]),
    ensures
        r@ == group_reading(t@.subrange(start as int, end as int)),
{
    let ghost g = t@.subrange(start as int, end as int);
    let mut s = String::new();
    let mut j = start;
    while j < end
        invariant
            start <= j <= end <= t.len(),
            g == t@.subrange(start as int, end as int),
            forall|i: int| start <= i < end ==> is_ascii_digit(#[trigger] t@[i]),
            group_reading(g) == s@ + group_reading(t@.subrange(j as int, end as int)),
        decreases end - j,
    {
        let ghost rest = t@.subrange(j as int, end as int);
        let c = t[j];
        let d = (c as u32) - ('0' as u32);
        let place = end - 1 - j;
        let ghost before = s@;
        if d == 0 {
        } else if d == 1 && place > 0 {
            s.append(place_word(place));
        } else {
            s.append(digit_word(d));
            s.append(place_word(place));
        }
        assert(s@ == before + digit_term(digit_value(c), place as int));
        assert(rest.drop_first() =~= t@.subrange(j + 1, end as int));
        j += 1;
    }
    s
}

proof fn lemma_digits_reading_step(t: Seq<char>, start: int, end: int, gi: int)
    requires
        0 <= start <= end <= t.len(),
        0 < end,
        start == if end >= 4 { end - 4 } else { 0 },
    ensures
        digits_reading(t.take(end), gi) == digits_reading(t.take(start), gi + 1) + group_part(
            t.subrange(start, end),
            gi,
        ),
{
    let s = t.take(end);
    assert(s.take(start) =~= t.take(start));
    assert(s.skip(start) =~= t.subrange(start, end));
}

/// Reads a sequence of ASCII digits with no leading zero.
fn digits_to_korean(t: &Vec<char>) -> (r: String)
    requires
        forall|i: int| 0 <= i < t.len() ==> is_ascii_digit(#[trigger] t@[i]),
    ensures
        r@ == digits_reading(t@, 0),
{
    let n = t.len();
    let ng: usize = n / 4 + if n % 4 != 0 { 1 } else { 0 };
    let mut acc = String::new();
    let mut g = ng;
    assert(t@.take(0) =~= Seq::<char>::empty());
    while g > 0
        invariant
            g <= ng,
            n == t.len(),
            ng == n / 4 + if n % 4 != 0 { 1int } else { 0int },
            forall|i: int| 0 <= i < t.len() ==> is_ascii_digit(#[trigger] t@[i]),
            acc@ == digits_reading(t@.take(if n >= 4 * g { n - 4 * g } else { 0 }), g as int),
        decreases g,
    {
        let gi = g - 1;
        assert(4 * gi < n);
        let end = n - 4 * gi;
        let start = if end >= 4 { end - 4 } else { 0 };
        assert(start == if n >= 4 * g { n - 4 * g } else { 0 });
        let part = group_to_korean(t, start, end);
        if !part.as_str().is_empty() {
            acc.append(part.as_str());
            acc.append(group_word(gi));
        }
        proof {
            lemma_digits_reading_step(t@, start as int, end as int, gi as int);
        }
        g = gi;
    }
    assert(t@.take(n as int) =~= t@);
    acc
}

/// `ascii_digits` gains one character exactly when the next one is a digit.
proof fn lemma_ascii_digits_step(s: Seq<char>, i: int)
    requires
        0 <= i < s.len(),
    ensures
        ascii_digits(s.take(i + 1)) == if is_ascii_digit(s[i]) {
            ascii_digits(s.take(i)).push(s[i])
        } else {
            ascii_digits(s.take(i))
        },
{
    assert(s.take(i + 1).drop_last() =~= s.take(i));
}

proof fn lemma_strip_leading_zeros_skip(s: Seq<char>, k: int)
    requires
        0 <= k <= s.len(),
        forall|i: int| 0 <= i < k ==> #[trigger] s[i] == '0',
    ensures
        strip_leading_zeros(s) == strip_leading_zeros(s.skip(k)),
    decreases k,
{
    if k > 0 {
        lemma_strip_leading_zeros_skip(s.drop_first(), k - 1);
        assert(s.drop_first().skip(k - 1) =~= s.skip(k));
    } else {
        assert(s.skip(0) =~= s);
    }
}

/// Reads the number written by the ASCII digits among `s`.
pub(crate) fn reading_of_chars(s: &Vec<char>) -> (r: String)
    ensures
        r@ == sino_reading(s@),
{
    let mut cleaned: Vec<char> = Vec::new();
    let mut i: usize = 0;
    assert(s@.take(0) =~= Seq::<char>::empty());
    while i < s.len()
        invariant
            i <= s.len(),
            cleaned@ == ascii_digits(s@.take(i as int)),
            forall|k: int| 0 <= k < cleaned.len() ==> is_ascii_digit(#[trigger] cleaned@[k]),
        decreases s.len() - i,
    {
        proof {
            lemma_ascii_digits_step(s@, i as int);
        }
        let c = s[i];
        if '0' <= c && c <= '9' {
            cleaned.push(c);
        }
        i += 1;
    }
    assert(s@.take(s.len() as int) =~= s@);
    let mut z: usize = 0;
    while z < cleaned.len() && cleaned[z] == '0'
        invariant
            z <= cleaned.len(),
            forall|k: int| 0 <= k < z ==> #[trigger] cleaned@[k] == '0',
        decreases cleaned.len() - z,
    {
        z += 1;
    }
    proof {
        lemma_strip_leading_zeros_skip(cleaned@, z as int);
    }
    if z == cleaned.len() {
        assert(cleaned@.skip(z as int).len() == 0);
        String::from_str("영")
    } else {
        let t = sub_chars(&cleaned, z, cleaned.len());
        assert(t@ =~= cleaned@.skip(z as int));
        assert(cleaned@[z as int] != '0');
        digits_to_korean(&t)
    }
}

/// Converts a string of decimal digits to sino-Korean, supporting magnitudes
/// up to 무량대수 (10^68). Non-digit characters and commas are ignored.
pub fn to_sino_korean_str(digits: &str) -> (r: String)
    ensures
        r@ == sino_reading(digits@),
{
    let chars = chars_of(digits);
    reading_of_chars(&chars)
}

fn digit_char_of(d: u32) -> (c: char)
    requires
        d < 10,
    ensures
        c == digit_char(d as int),
{
    if d == 0 { '0' }
    else if d == 1 { '1' }
    else if d == 2 { '2' }
    else if d == 3 { '3' }
    else if d == 4 { '4' }
    else if d == 5 { '5' }
    else if d == 6 { '6' }
    else if d == 7 { '7' }
    else if d == 8 { '8' }
    else { '9' }
}

/// Appends the decimal representation of `n` to `out`.
fn push_decimal(n: u32, out: &mut Vec<char>)
    ensures
        final(out)@ == old(out)@ + decimal_digits(n as nat),
    decreases n,
{
    if n < 10 {
        out.push(digit_char_of(n));
    } else {
        push_decimal(n / 10, out);
        out.push(digit_char_of(n % 10));
    }
}

/// Reads `number` with sino-Korean numerals ("이십삼" for 23, "일만" for 10000).
pub fn to_sino_korean(number: u32) -> (r: String)
    ensures
        r@ == sino_reading(decimal_digits(number as nat)),
{
    let mut digits: Vec<char> = Vec::new();
    push_decimal(number, &mut digits);
    assert(digits@ =~= decimal_digits(number as nat));
    reading_of_chars(&digits)
}

proof fn lemma_ascii_digits_are_digits(s: Seq<char>)
    ensures
        forall|i: int| 0 <= i < ascii_digits(s).len() ==> is_ascii_digit(#[trigger] ascii_digits(s)[i]),
    decreases s.len(),
{
    if s.len() > 0 {
        lemma_ascii_digits_are_digits(s.drop_last());
        let p = ascii_digits(s.drop_last());
        if is_ascii_digit(s.last()) {
            assert forall|i: int| 0 <= i < p.push(s.last()).len() implies is_ascii_digit(
                #[trigger] p.push(s.last())[i],
            ) by {
                if i < p.len() {
                    assert(p.push(s.last())[i] == p[i]);
                }
            }
        }
    }
}

proof fn lemma_ascii_digits_of_digits(s: Seq<char>)
    requires
        forall|i: int| 0 <= i < s.len() ==> is_ascii_digit(#[trigger] s[i]),
    ensures
        ascii_digits(s) == s,
    decreases s.len(),
{
    if s.len() > 0 {
        lemma_ascii_digits_of_digits(s.drop_last());
        assert(s.drop_last().push(s.last()) =~= s);
    }
}

proof fn lemma_ascii_digits_prepend(c: char, s: Seq<char>)
    ensures
        ascii_digits(seq![c] + s) == if is_ascii_digit(c) {
            seq![c] + ascii_digits(s)
        } else {
            ascii_digits(s)
        },
    decreases s.len(),
{
    if s.len() == 0 {
        let e = Seq::<char>::empty();
        assert((seq![c] + s).drop_last() =~= e);
        assert((seq![c] + s).last() == c);
        assert(ascii_digits(e) == e);
        assert(ascii_digits(s) == e);
        assert(e.push(c) =~= seq![c] + e);
    } else {
        lemma_ascii_digits_prepend(c, s.drop_last());
        assert((seq![c] + s).drop_last() =~= seq![c] + s.drop_last());
        assert((seq![c] + s).last() == s.last());
        if is_ascii_digit(c) {
            assert((seq![c] + ascii_digits(s.drop_last())).push(s.last()) =~= seq![c]
                + ascii_digits(s.drop_last()).push(s.last()));
        }
    }
}

/// Characters other than ASCII digits, commas among them, do not change the
/// reading: only the digits are read.
pub proof fn lemma_sino_reading_ignores_non_digits(s: Seq<char>)
    ensures
        sino_reading(s) == sino_reading(ascii_digits(s)),
{
    lemma_ascii_digits_are_digits(s);
    lemma_ascii_digits_of_digits(ascii_digits(s));
}

/// A leading zero does not change the reading ("007" reads as "7").
pub proof fn lemma_sino_reading_ignores_leading_zero(s: Seq<char>)
    ensures
        sino_reading(seq!['0'] + s) == sino_reading(s),
{
    lemma_ascii_digits_prepend('0', s);
    let d = ascii_digits(s);
    assert((seq!['0'] + d).drop_first() =~= d);
}

/// The digit words hold no ASCII digit.
pub proof fn lemma_sino_digit_no_ascii_digit(d: int)
    ensures
        !has_ascii_digit(sino_digit(d)),
{
    reveal_strlit("일");
    reveal_strlit("이");
    reveal_strlit("삼");
    reveal_strlit("사");
    reveal_strlit("오");
    reveal_strlit("육");
    reveal_strlit("칠");
    reveal_strlit("팔");
    reveal_strlit("구");
    reveal_strlit("");
}

/// The place words hold no ASCII digit.
pub proof fn lemma_sino_place_no_ascii_digit(p: int)
    ensures
        !has_ascii_digit(sino_place(p)),
{
    reveal_strlit("십");
    reveal_strlit("백");
    reveal_strlit("천");
}

/// The group names hold no ASCII digit.
pub proof fn lemma_group_name_no_ascii_digit(g: int)
    ensures
        !has_ascii_digit(group_name(g)),
{
    reveal_strlit("만");
    reveal_strlit("억");
    reveal_strlit("조");
    reveal_strlit("경");
    reveal_strlit("해");
    reveal_strlit("자");
    reveal_strlit("양");
    reveal_strlit("구");
    reveal_strlit("간");
    reveal_strlit("정");
    reveal_strlit("재");
    reveal_strlit("극");
    reveal_strlit("항하사");
    reveal_strlit("아승기");
    reveal_strlit("나유타");
    reveal_strlit("불가사의");
    reveal_strlit("무량대수");
}

proof fn lemma_group_reading_no_ascii_digit(g: Seq<char>)
    ensures
        !has_ascii_digit(group_reading(g)),
    decreases g.len(),
{
    if g.len() > 0 {
        let d = digit_value(g[0]);
        let p = g.len() - 1;
        lemma_sino_digit_no_ascii_digit(d);
        lemma_sino_place_no_ascii_digit(p);
        lemma_no_digit_concat(sino_digit(d), sino_place(p));
        lemma_group_reading_no_ascii_digit(g.drop_first());
        lemma_no_digit_concat(digit_term(d, p), group_reading(g.drop_first()));
    }
}

proof fn lemma_digits_reading_no_ascii_digit(s: Seq<char>, gi: int)
    ensures
        !has_ascii_digit(digits_reading(s, gi)),
    decreases s.len(),
{
    if s.len() > 0 {
        let k = if s.len() >= 4 { 4 } else { s.len() as int };
        let g = s.skip(s.len() - k);
        lemma_digits_reading_no_ascii_digit(s.take(s.len() - k), gi + 1);
        lemma_group_reading_no_ascii_digit(g);
        lemma_group_name_no_ascii_digit(gi);
        lemma_no_digit_concat(group_reading(g), group_name(gi));
        lemma_no_digit_concat(digits_reading(s.take(s.len() - k), gi + 1), group_part(g, gi));
    }
}

/// A sino-Korean reading holds no ASCII digit.
pub proof fn lemma_sino_reading_no_ascii_digit(s: Seq<char>)
    ensures
        !has_ascii_digit(sino_reading(s)),
{
    reveal_strlit("영");
    lemma_digits_reading_no_ascii_digit(strip_leading_zeros(ascii_digits(s)), 0);
}

/// Ten to the power `n`.
pub open spec fn pow10(n: nat) -> nat
    decreases n,
{
    if n == 0 { 1 } else { 10 * pow10((n - 1) as nat) }
}

/// The digit that a digit word stands for (0 for any other character).
pub open spec fn word_digit(c: char) -> int {
    if c == '일' { 1 }
    else if c == '이' { 2 }
    else if c == '삼' { 3 }
    else if c == '사' { 4 }
    else if c == '오' { 5 }
    else if c == '육' { 6 }
    else if c == '칠' { 7 }
    else if c == '팔' { 8 }
    else if c == '구' { 9 }
    else { 0 }
}

/// The value of a place word: 십, 백, 천 (0 for any other character).
pub open spec fn word_place(c: char) -> int {
    if c == '십' { 10 }
    else if c == '백' { 100 }
    else if c == '천' { 1000 }
    else { 0 }
}

/// The value of the group words 만 and 억 (0 for any other character).
pub open spec fn word_group(c: char) -> int {
    if c == '만' { 10000 }
    else if c == '억' { 100000000 }
    else { 0 }
}

/// One step of reading a numeral aloud written in words. The state holds the
/// total of the groups already closed by a group word, the value of the
/// current group so far, and a digit that waits for its place word.
pub open spec fn read_step(st: (int, int, int), c: char) -> (int, int, int) {
    if word_digit(c) > 0 {
        (st.0, st.1, word_digit(c))
    } else if word_place(c) > 0 {
        (st.0, st.1 + (if st.2 == 0 { 1 } else { st.2 }) * word_place(c), 0)
    } else if word_group(c) > 0 {
        (st.0 + (st.1 + st.2) * word_group(c), 0, 0)
    } else {
        st
    }
}

/// The state after reading the words `s` from state `st`.
pub open spec fn read_words(st: (int, int, int), s: Seq<char>) -> (int, int, int)
    decreases s.len(),
{
    if s.len() == 0 {
        st
    } else {
        read_words(read_step(st, s[0]), s.drop_first())
    }
}

/// The number that a sino-Korean numeral (below 10^12) stands for.
pub open spec fn sino_value(s: Seq<char>) -> int {
    let st = read_words((0, 0, 0), s);
    st.0 + st.1 + st.2
}

proof fn lemma_read_words_concat(st: (int, int, int), x: Seq<char>, y: Seq<char>)
    ensures
        read_words(st, x + y) == read_words(read_words(st, x), y),
    decreases x.len(),
{
    if x.len() == 0 {
        assert(x + y =~= y);
    } else {
        assert((x + y).drop_first() =~= x.drop_first() + y);
        assert((x + y)[0] == x[0]);
        lemma_read_words_concat(read_step(st, x[0]), x.drop_first(), y);
    }
}

proof fn lemma_read_one(st: (int, int, int), c: char)
    ensures
        read_words(st, seq![c]) == read_step(st, c),
{
    assert(seq![c].drop_first().len() == 0);
    assert(read_words(read_step(st, c), seq![c].drop_first()) == read_step(st, c));
}

proof fn lemma_digits_value_concat(x: Seq<char>, y: Seq<char>)
    ensures
        digits_value(x + y) == digits_value(x) * pow10(y.len()) + digits_value(y),
    decreases y.len(),
{
    if y.len() == 0 {
        assert(x + y =~= x);
        assert(pow10(0) == 1);
        assert(digits_value(y) == 0);
    } else {
        assert((x + y).drop_last() =~= x + y.drop_last());
        assert((x + y).last() == y.last());
        lemma_digits_value_concat(x, y.drop_last());
        let a = digits_value(x);
        let q = pow10(y.drop_last().len());
        let b = digits_value(y.drop_last());
        let l = digit_value(y.last()) as nat;
        assert(pow10(y.len()) == 10 * q);
        assert(a * pow10(y.len()) == a * (10 * q));
        assert(digits_value(x + y) == digits_value(x + y.drop_last()) * 10 + l);
        assert(digits_value(x + y.drop_last()) == a * q + b);
        assert(digits_value(y) == b * 10 + l);
        assert((a * q + b) * 10 == a * (10 * q) + b * 10) by (nonlinear_arith);
    }
}

proof fn lemma_digit_term_read(t: int, g: int, d: int, p: int)
    requires
        0 <= d <= 9,
        0 <= p <= 3,
    ensures
        p > 0 ==> read_words((t, g, 0), digit_term(d, p)) == (t, g + d * pow10(p as nat), 0int),
        p == 0 ==> read_words((t, g, 0), digit_term(d, p)) == (t, g, d),
{
    reveal_strlit("일");
    reveal_strlit("이");
    reveal_strlit("삼");
    reveal_strlit("사");
    reveal_strlit("오");
    reveal_strlit("육");
    reveal_strlit("칠");
    reveal_strlit("팔");
    reveal_strlit("구");
    reveal_strlit("십");
    reveal_strlit("백");
    reveal_strlit("천");
    reveal_with_fuel(pow10, 4);
    let st = (t, g, 0int);
    if d == 0 {
    } else if d == 1 && p > 0 {
        lemma_read_one(st, sino_place(p)[0]);
        assert(sino_place(p) =~= seq![sino_place(p)[0]]);
    } else {
        let w = sino_digit(d)[0];
        assert(sino_digit(d) =~= seq![w]);
        lemma_read_one(st, w);
        lemma_read_words_concat(st, sino_digit(d), sino_place(p));
        if p > 0 {
            let c = sino_place(p)[0];
            assert(sino_place(p) =~= seq![c]);
            lemma_read_one((t, g, d), c);
        } else {
            assert(sino_place(p).len() == 0);
        }
    }
}

proof fn lemma_group_read(t: int, g: int, s: Seq<char>)
    requires
        1 <= s.len() <= 4,
        forall|i: int| 0 <= i < s.len() ==> is_ascii_digit(#[trigger] s[i]),
    ensures
        read_words((t, g, 0), group_reading(s)) == (
            t,
            g + digits_value(s) - digit_value(s.last()),
            digit_value(s.last()),
        ),
    decreases s.len(),
{
    let d = digit_value(s[0]);
    let rest = s.drop_first();
    lemma_digit_term_read(t, g, d, s.len() - 1);
    lemma_read_words_concat((t, g, 0), digit_term(d, s.len() - 1), group_reading(rest));
    assert(s =~= seq![s[0]] + rest);
    lemma_digits_value_concat(seq![s[0]], rest);
    assert(is_ascii_digit(s[0]));
    assert(seq![s[0]].drop_last() =~= Seq::<char>::empty());
    assert(digits_value(seq![s[0]].drop_last()) == 0);
    assert(digits_value(seq![s[0]]) == d);
    if s.len() == 1 {
        assert(rest.len() == 0);
        assert(digits_value(rest) == 0);
    } else {
        assert forall|i: int| 0 <= i < rest.len() implies is_ascii_digit(#[trigger] rest[i]) by {
            assert(rest[i] == s[i + 1]);
        }
        lemma_group_read(t, g + d * pow10((s.len() - 1) as nat), rest);
        assert(rest.last() == s.last());
    }
}

/// The place of the `gi`-th group of four digits: 1, 10^4 or 10^8.
pub open spec fn group_scale(gi: int) -> int {
    if gi == 0 { 1 } else if gi == 1 { 10000 } else { 100000000 }
}

#[verifier::spinoff_prover]
proof fn lemma_digits_reading_read(t: int, s: Seq<char>, gi: int)
    requires
        0 <= gi <= 2,
        s.len() <= 4 * (3 - gi),
        forall|i: int| 0 <= i < s.len() ==> is_ascii_digit(#[trigger] s[i]),
    ensures
        ({
            let st = read_words((t, 0, 0), digits_reading(s, gi));
            &&& st.0 + st.1 + st.2 == t + digits_value(s) * group_scale(gi)
            &&& gi >= 1 ==> st.1 == 0 && st.2 == 0
        }),
    decreases s.len(),
{
    if s.len() > 0 {
        reveal_strlit("만");
        reveal_strlit("억");
        reveal_with_fuel(pow10, 5);
        let k = if s.len() >= 4 { 4 } else { s.len() as int };
        let p = s.take(s.len() - k);
        let g = s.skip(s.len() - k);
        assert forall|i: int| 0 <= i < g.len() implies is_ascii_digit(#[trigger] g[i]) by {
            assert(g[i] == s[s.len() - k + i]);
        }
        assert(s =~= p + g);
        lemma_digits_value_concat(p, g);
        let t1 = if p.len() == 0 {
            assert(digits_reading(p, gi + 1).len() == 0);
            assert(digits_value(p) == 0);
            t
        } else {
            assert forall|i: int| 0 <= i < p.len() implies is_ascii_digit(#[trigger] p[i]) by {
                assert(p[i] == s[i]);
            }
            lemma_digits_reading_read(t, p, gi + 1);
            t + digits_value(p) * group_scale(gi + 1)
        };
        assert(read_words((t, 0, 0), digits_reading(p, gi + 1)) == (t1, 0int, 0int));
        lemma_read_words_concat((t, 0, 0), digits_reading(p, gi + 1), group_part(g, gi));
        lemma_group_read(t1, 0, g);
        let v = digits_value(g);
        let u = digit_value(g.last());
        if group_reading(g).len() > 0 {
            assert(group_part(g, gi) == group_reading(g) + group_name(gi));
            lemma_read_words_concat((t1, 0, 0), group_reading(g), group_name(gi));
            if gi == 1 {
                assert(group_name(gi) =~= seq!['만']);
                lemma_read_one((t1, v - u, u), '만');
            } else if gi == 2 {
                assert(group_name(gi) =~= seq!['억']);
                lemma_read_one((t1, v - u, u), '억');
            } else {
                assert(group_name(gi).len() == 0);
            }
        } else {
            assert(group_part(g, gi).len() == 0);
            assert(read_words((t1, 0, 0), group_part(g, gi)) == (t1, 0int, 0int));
            assert(v - u == 0 && u == 0);
        }
        let a = digits_value(p);
        if p.len() > 0 {
            if gi == 0 {
                assert(a * 10000 * group_scale(gi) == a * group_scale(gi + 1));
            } else {
                assert(gi == 1);
                assert(a * 10000 * 10000 == a * 100000000);
                assert(a * 10000 * group_scale(gi) == a * group_scale(gi + 1));
            }
        }
    }
}

proof fn lemma_digit_char_value(d: int)
    requires
        0 <= d <= 9,
    ensures
        is_ascii_digit(digit_char(d)),
        digit_value(digit_char(d)) == d,
        d > 0 ==> digit_char(d) != '0',
{
}

proof fn lemma_decimal_digits_len(n: nat, k: nat)
    requires
        k >= 1,
        n < pow10(k),
    ensures
        decimal_digits(n).len() <= k,
    decreases n,
{
    if n >= 10 {
        assert(pow10(k) == 10 * pow10((k - 1) as nat));
        if k == 1 {
            assert(pow10(0) == 1);
        } else {
            lemma_decimal_digits_len(n / 10, (k - 1) as nat);
        }
    }
}

proof fn lemma_decimal_digits_facts(n: nat)
    ensures
        decimal_digits(n).len() >= 1,
        forall|i: int| 0 <= i < decimal_digits(n).len() ==> is_ascii_digit(#[trigger] decimal_digits(n)[i]),
        digits_value(decimal_digits(n)) == n,
        n > 0 ==> decimal_digits(n)[0] != '0',
        n == 0 ==> decimal_digits(n) == seq!['0'],
    decreases n,
{
    let s = decimal_digits(n);
    if n < 10 {
        lemma_digit_char_value(n as int);
        assert(s.drop_last() =~= Seq::<char>::empty());
        assert(digits_value(s.drop_last()) == 0);
    } else {
        lemma_decimal_digits_facts(n / 10);
        lemma_digit_char_value((n % 10) as int);
        let p = decimal_digits(n / 10);
        assert(s.drop_last() =~= p);
        assert(n == (n / 10) * 10 + n % 10);
        assert forall|i: int| 0 <= i < s.len() implies is_ascii_digit(#[trigger] s[i]) by {
            if i < p.len() {
                assert(s[i] == p[i]);
            }
        }
        assert(s[0] == p[0]);
    }
}

/// The sino-Korean reading of a `u32` gives back the number it reads.
pub proof fn lemma_sino_value_of_reading(n: u32)
    ensures
        sino_value(sino_reading(decimal_digits(n as nat))) == n,
{
    let s = decimal_digits(n as nat);
    lemma_decimal_digits_facts(n as nat);
    reveal_with_fuel(pow10, 11);
    lemma_decimal_digits_len(n as nat, 10);
    lemma_ascii_digits_of_digits(s);
    if n == 0 {
        reveal_strlit("영");
        assert(strip_leading_zeros(s.drop_first()) =~= Seq::<char>::empty());
        assert(sino_reading(s) =~= seq!['영']);
        lemma_read_one((0, 0, 0), '영');
    } else {
        assert(strip_leading_zeros(s) == s);
        lemma_digits_reading_read(0, s, 0);
    }
}

/// Two different `u32` values have different sino-Korean readings.
pub proof fn lemma_sino_reading_injective(a: u32, b: u32)
    requires
        a != b,
    ensures
        sino_reading(decimal_digits(a as nat)) != sino_reading(decimal_digits(b as nat)),
{
    lemma_sino_value_of_reading(a);
    lemma_sino_value_of_reading(b);
}

} // verus!
