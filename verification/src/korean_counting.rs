//! Reads numbers in a message aloud in Korean: a number before a native
//! counter ("3개") takes the native numeral ("세개"), and every other number
//! takes the sino-Korean reading ("123,456원" becomes "십이만삼천사백오십육원").
use vstd::prelude::*;
use crate::mapper::{Input, Output};
use crate::native_korean::{native_reading, to_native_korean};
use crate::sino_korean::{
    ascii_digits, decimal_digits, digit_char, digits_value, lemma_sino_reading_ignores_non_digits,
    lemma_sino_reading_no_ascii_digit, reading_of_chars, sino_reading, to_sino_korean,
};
use crate::text::{
    chars_of, has_ascii_digit, lemma_no_digit_concat, digit_value, ends_with, is_ascii_digit, sub_chars, trim, trim_bounds,
};

verus! {

/// The number of native counters.
pub open spec fn native_counter_count() -> int {
    29
}

/// The counters that take native numerals, longest first so that a longer
/// counter is tried before any counter that ends it.
pub open spec fn native_counter(i: int) -> Seq<char> {
    if i == 0 { "켤레"@ }
    else if i == 1 { "사람"@ }
    else if i == 2 { "그릇"@ }
    else if i == 3 { "포기"@ }
    else if i == 4 { "송이"@ }
    else if i == 5 { "군데"@ }
    else if i == 6 { "가지"@ }
    else if i == 7 { "마디"@ }
    else if i == 8 { "바퀴"@ }
    else if i == 9 { "차례"@ }
    else if i == 10 { "두름"@ }
    else if i == 11 { "모듬"@ }
    else if i == 12 { "마리"@ }
    else if i == 13 { "자루"@ }
    else if i == 14 { "개"@ }
    else if i == 15 { "살"@ }
    else if i == 16 { "명"@ }
    else if i == 17 { "번"@ }
    else if i == 18 { "병"@ }
    else if i == 19 { "잔"@ }
    else if i == 20 { "권"@ }
    else if i == 21 { "장"@ }
    else if i == 22 { "대"@ }
    else if i == 23 { "벌"@ }
    else if i == 24 { "접"@ }
    else if i == 25 { "톳"@ }
    else if i == 26 { "손"@ }
    else if i == 27 { "모"@ }
    else { "단"@ }
}

/// `s` without its commas.
pub open spec fn without_commas(s: Seq<char>) -> Seq<char>
    decreases s.len(),
{
    if s.len() == 0 {
        Seq::empty()
    } else if s.last() == ',' {
        without_commas(s.drop_last())
    } else {
        without_commas(s.drop_last()).push(s.last())
    }
}

/// The index of the first `'.'` of `s`, or `s.len()` when there is none.
pub open spec fn dot_index(s: Seq<char>) -> int
    decreases s.len(),
{
    if s.len() == 0 {
        0
    } else if s[0] == '.' {
        0
    } else {
        1 + dot_index(s.drop_first())
    }
}

/// What comes after the first `'.'` of `s` (nothing when there is no dot).
pub open spec fn after_dot(s: Seq<char>) -> Seq<char> {
    let p = dot_index(s);
    if p < s.len() {
        s.skip(p + 1)
    } else {
        Seq::empty()
    }
}

/// `s` without its trailing `'0'`s.
pub open spec fn strip_trailing_zeros(s: Seq<char>) -> Seq<char>
    decreases s.len(),
{
    if s.len() > 0 && s.last() == '0' {
        strip_trailing_zeros(s.drop_last())
    } else {
        s
    }
}

/// The value of an ASCII digit, and 0 for any other character.
pub open spec fn digit_or_zero(c: char) -> int {
    if is_ascii_digit(c) {
        digit_value(c)
    } else {
        0
    }
}

/// The digits after a decimal point, read one by one (1.05 reads "영오" after the point).
pub open spec fn fraction_reading(s: Seq<char>) -> Seq<char>
    decreases s.len(),
{
    if s.len() == 0 {
        Seq::empty()
    } else {
        fraction_reading(s.drop_last()) + sino_reading(
            decimal_digits(digit_or_zero(s.last()) as nat),
        )
    }
}

/// The part read after the number's integer part: "쩜" and the fraction's
/// digits, when the fraction has a digit other than trailing zeros.
pub open spec fn point_reading(frac: Seq<char>) -> Seq<char> {
    if frac.len() == 0 {
        Seq::empty()
    } else {
        "쩜"@ + fraction_reading(frac)
    }
}

/// The sino-Korean reading of a number token such as "123,456" or "1.50":
/// commas are dropped and trailing zeros of the fraction are not read.
pub open spec fn number_reading(token: Seq<char>) -> Seq<char> {
    let cleaned = without_commas(token);
    sino_reading(cleaned.take(dot_index(cleaned))) + point_reading(
        strip_trailing_zeros(after_dot(cleaned)),
    )
}

/// The length of the run at the start of `s` made of digits and of commas
/// that stand between two digits.
pub open spec fn int_run_len(s: Seq<char>) -> int
    decreases s.len(),
{
    if s.len() == 0 {
        0
    } else if is_ascii_digit(s[0]) || (s[0] == ',' && s.len() > 1 && is_ascii_digit(s[1])) {
        1 + int_run_len(s.drop_first())
    } else {
        0
    }
}

/// The length of the run of ASCII digits at the start of `s`.
pub open spec fn digit_run_len(s: Seq<char>) -> int
    decreases s.len(),
{
    if s.len() > 0 && is_ascii_digit(s[0]) {
        1 + digit_run_len(s.drop_first())
    } else {
        0
    }
}

/// The length of the number token at the start of `s`: the integer part, then
/// a `'.'` and digits when a digit follows the dot.
pub open spec fn number_token_len(s: Seq<char>) -> int {
    let i = int_run_len(s);
    if i + 1 < s.len() && s[i] == '.' && is_ascii_digit(s[i + 1]) {
        i + 1 + digit_run_len(s.skip(i + 1))
    } else {
        i
    }
}

/// The integer part of a token fits in the text, and a digit starts one.
pub proof fn lemma_int_run_len_bounds(s: Seq<char>)
    ensures
        0 <= int_run_len(s) <= s.len(),
        s.len() > 0 && is_ascii_digit(s[0]) ==> int_run_len(s) >= 1,
    decreases s.len(),
{
    if s.len() > 0 {
        lemma_int_run_len_bounds(s.drop_first());
    }
}

/// A run of digits fits in the text.
pub proof fn lemma_digit_run_len_bounds(s: Seq<char>)
    ensures
        0 <= digit_run_len(s) <= s.len(),
    decreases s.len(),
{
    if s.len() > 0 {
        lemma_digit_run_len_bounds(s.drop_first());
    }
}

/// A number token that starts with a digit is at least one character long
/// and fits in the text.
pub proof fn lemma_number_token_len_bounds(s: Seq<char>)
    requires
        s.len() > 0,
        is_ascii_digit(s[0]),
    ensures
        1 <= number_token_len(s) <= s.len(),
{
    lemma_int_run_len_bounds(s);
    let i = int_run_len(s);
    if i + 1 < s.len() {
        lemma_digit_run_len_bounds(s.skip(i + 1));
    }
}

/// Every number token of `s` replaced by its sino-Korean reading; the other
/// characters are kept.
pub open spec fn numbers_replaced(s: Seq<char>) -> Seq<char>
    decreases s.len(),
{
    if s.len() == 0 {
        Seq::empty()
    } else if !is_ascii_digit(s[0]) {
        seq![s[0]] + numbers_replaced(s.drop_first())
    } else {
        proof {
            lemma_number_token_len_bounds(s);
        }
        let n = number_token_len(s);
        number_reading(s.take(n)) + numbers_replaced(s.skip(n))
    }
}

/// Every character of `s` is an ASCII digit.
pub open spec fn all_ascii_digits(s: Seq<char>) -> bool {
    forall|i: int| 0 <= i < s.len() ==> is_ascii_digit(#[trigger] s[i])
}

/// `s` without one leading `'+'`.
pub open spec fn unsigned_digits(s: Seq<char>) -> Seq<char> {
    if s.len() > 0 && s[0] == '+' {
        s.drop_first()
    } else {
        s
    }
}

/// `s` is a `u32` as `u32::from_str` accepts it: an optional `'+'`, then one
/// or more ASCII digits whose value fits in 32 bits.
pub open spec fn is_u32_text(s: Seq<char>) -> bool {
    let d = unsigned_digits(s);
    &&& d.len() > 0
    &&& all_ascii_digits(d)
    &&& digits_value(d) <= u32::MAX
}

/// The reading of the number `num` followed by the counter `unit`, or `None`
/// when `num` is not a number: an integer part that is a `u32`, then
/// optionally a `'.'` and digits. A whole number below one hundred takes the
/// native numeral; a larger one, or one with a fraction, the sino-Korean one.
pub open spec fn counted_reading(num: Seq<char>, unit: Seq<char>) -> Option<Seq<char>> {
    let int_text = num.take(dot_index(num));
    let frac = strip_trailing_zeros(after_dot(num));
    if is_u32_text(int_text) && all_ascii_digits(frac) {
        let v = digits_value(unsigned_digits(int_text));
        let head = if frac.len() > 0 || v > 99 {
            sino_reading(decimal_digits(v))
        } else {
            native_reading(v as int)
        };
        Some(head + point_reading(frac) + unit)
    } else {
        None
    }
}

/// The reading of the trimmed message `t`, trying the counters from the `i`-th on:
/// the first counter that ends `t` after a number gives the reading of that
/// number and counter; when none does, every number in `t` is read sino-Korean.
pub open spec fn counting_from(t: Seq<char>, i: int) -> Seq<char>
    decreases native_counter_count() - i,
{
    if i < 0 || i >= native_counter_count() {
        numbers_replaced(t)
    } else {
        let unit = native_counter(i);
        let num = trim(t.take(t.len() - unit.len()));
        if unit.len() <= t.len() && t.skip(t.len() - unit.len()) == unit && num.len() > 0
            && counted_reading(num, unit) is Some {
            counted_reading(num, unit)->0
        } else {
            counting_from(t, i + 1)
        }
    }
}

/// What the mapper makes of the message `text`.
pub open spec fn counting_text(text: Seq<char>) -> Seq<char> {
    counting_from(trim(text), 0)
}

fn counter_word(i: usize) -> (r: &'static str)
    requires
        i < 29,
    ensures
        r@ == native_counter(i as int),
{
    if i == 0 { "켤레" }
    else if i == 1 { "사람" }
    else if i == 2 { "그릇" }
    else if i == 3 { "포기" }
    else if i == 4 { "송이" }
    else if i == 5 { "군데" }
    else if i == 6 { "가지" }
    else if i == 7 { "마디" }
    else if i == 8 { "바퀴" }
    else if i == 9 { "차례" }
    else if i == 10 { "두름" }
    else if i == 11 { "모듬" }
    else if i == 12 { "마리" }
    else if i == 13 { "자루" }
    else if i == 14 { "개" }
    else if i == 15 { "살" }
    else if i == 16 { "명" }
    else if i == 17 { "번" }
    else if i == 18 { "병" }
    else if i == 19 { "잔" }
    else if i == 20 { "권" }
    else if i == 21 { "장" }
    else if i == 22 { "대" }
    else if i == 23 { "벌" }
    else if i == 24 { "접" }
    else if i == 25 { "톳" }
    else if i == 26 { "손" }
    else if i == 27 { "모" }
    else { "단" }
}

/// The native counters, in the order in which they are tried.
pub fn native_counters() -> (r: Vec<&'static str>)
    ensures
        r.len() == native_counter_count(),
        forall|i: int| 0 <= i < r.len() ==> (#[trigger] r[i])@ == native_counter(i),
{
    let mut r: Vec<&'static str> = Vec::new();
    let mut i: usize = 0;
    while i < 29
        invariant
            i <= 29,
            r.len() == i,
            forall|k: int| 0 <= k < r.len() ==> (#[trigger] r[k])@ == native_counter(k),
        decreases 29 - i,
    {
        r.push(counter_word(i));
        i += 1;
    }
    r
}

/// The index just past the integer part that starts at `start`.
fn int_run_end(s: &Vec<char>, start: usize) -> (e: usize)
    requires
        start <= s.len(),
    ensures
        e == start + int_run_len(s@.skip(start as int)),
        e <= s.len(),
{
    let n = s.len();
    let mut i = start;
    while i < n && (('0' <= s[i] && s[i] <= '9') || (s[i] == ',' && i + 1 < n && '0' <= s[i + 1]
        && s[i + 1] <= '9'))
        invariant
            start <= i <= n == s.len(),
            int_run_len(s@.skip(start as int)) == (i - start) + int_run_len(s@.skip(i as int)),
        decreases n - i,
    {
        assert(s@.skip(i as int).drop_first() =~= s@.skip(i + 1));
        i += 1;
    }
    i
}

/// The index just past the run of digits that starts at `start`.
fn digit_run_end(s: &Vec<char>, start: usize) -> (e: usize)
    requires
        start <= s.len(),
    ensures
        e == start + digit_run_len(s@.skip(start as int)),
        e <= s.len(),
{
    let n = s.len();
    let mut i = start;
    while i < n && '0' <= s[i] && s[i] <= '9'
        invariant
            start <= i <= n == s.len(),
            digit_run_len(s@.skip(start as int)) == (i - start) + digit_run_len(
                s@.skip(i as int),
            ),
        decreases n - i,
    {
        assert(s@.skip(i as int).drop_first() =~= s@.skip(i + 1));
        i += 1;
    }
    i
}

/// The index of the first `'.'` in `s`, or `s.len()`.
fn find_dot(s: &Vec<char>) -> (p: usize)
    ensures
        p == dot_index(s@),
{
    let mut i: usize = 0;
    assert(s@.skip(0) =~= s@);
    while i < s.len() && s[i] != '.'
        invariant
            i <= s.len(),
            dot_index(s@) == i + dot_index(s@.skip(i as int)),
        decreases s.len() - i,
    {
        assert(s@.skip(i as int).drop_first() =~= s@.skip(i + 1));
        i += 1;
    }
    i
}

proof fn lemma_strip_trailing_zeros_take(s: Seq<char>, k: int)
    requires
        0 <= k <= s.len(),
        forall|i: int| k <= i < s.len() ==> #[trigger] s[i] == '0',
    ensures
        strip_trailing_zeros(s) == strip_trailing_zeros(s.take(k)),
    decreases s.len() - k,
{
    if k < s.len() {
        lemma_strip_trailing_zeros_take(s.drop_last(), k);
        assert(s.drop_last().take(k) =~= s.take(k));
    } else {
        assert(s.take(k) =~= s);
    }
}

/// `strip_trailing_zeros(s@)` as a new vector.
fn without_trailing_zeros(s: &Vec<char>) -> (r: Vec<char>)
    ensures
        r@ == strip_trailing_zeros(s@),
{
    let mut e = s.len();
    while e > 0 && s[e - 1] == '0'
        invariant
            e <= s.len(),
            forall|i: int| e <= i < s.len() ==> #[trigger] s@[i] == '0',
        decreases e,
    {
        e -= 1;
    }
    proof {
        lemma_strip_trailing_zeros_take(s@, e as int);
    }
    let r = sub_chars(s, 0, e);
    assert(r@ =~= s@.take(e as int));
    r
}

/// What follows the first `'.'` of `s`, with the part before it ending at `p`.
fn chars_after_dot(s: &Vec<char>, p: usize) -> (r: Vec<char>)
    requires
        p == dot_index(s@),
        p <= s.len(),
    ensures
        r@ == after_dot(s@),
{
    if p < s.len() {
        let r = sub_chars(s, p + 1, s.len());
        assert(r@ =~= s@.skip(p + 1));
        r
    } else {
        Vec::new()
    }
}

proof fn lemma_dot_index_bound(s: Seq<char>)
    ensures
        0 <= dot_index(s) <= s.len(),
    decreases s.len(),
{
    if s.len() > 0 {
        lemma_dot_index_bound(s.drop_first());
    }
}

/// Appends "쩜" and the reading of each digit of `frac` (nothing when `frac` is empty).
fn push_point_reading(out: &mut String, frac: &Vec<char>)
    ensures
        final(out)@ == old(out)@ + point_reading(frac@),
{
    if frac.len() == 0 {
        return;
    }
    let ghost start = out@;
    out.append("쩜");
    let mut j: usize = 0;
    assert(frac@.take(0) =~= Seq::<char>::empty());
    while j < frac.len()
        invariant
            j <= frac.len(),
            frac.len() > 0,
            out@ == start + "쩜"@ + fraction_reading(frac@.take(j as int)),
        decreases frac.len() - j,
    {
        let c = frac[j];
        let d: u32 = if '0' <= c && c <= '9' { (c as u32) - ('0' as u32) } else { 0 };
        assert(d == digit_or_zero(c));
        let w = to_sino_korean(d);
        out.append(w.as_str());
        assert(frac@.take(j + 1).drop_last() =~= frac@.take(j as int));
        j += 1;
    }
    assert(frac@.take(frac.len() as int) =~= frac@);
}

/// Reads a number token ("123,456" or "1.50") sino-Korean.
pub fn number_to_sino(token: &Vec<char>) -> (r: String)
    ensures
        r@ == number_reading(token@),
{
    let mut cleaned: Vec<char> = Vec::new();
    let mut i: usize = 0;
    assert(token@.take(0) =~= Seq::<char>::empty());
    while i < token.len()
        invariant
            i <= token.len(),
            cleaned@ == without_commas(token@.take(i as int)),
        decreases token.len() - i,
    {
        assert(token@.take(i + 1).drop_last() =~= token@.take(i as int));
        if token[i] != ',' {
            cleaned.push(token[i]);
        }
        i += 1;
    }
    assert(token@.take(token.len() as int) =~= token@);
    let p = find_dot(&cleaned);
    proof {
        lemma_dot_index_bound(cleaned@);
    }
    let int_part = sub_chars(&cleaned, 0, p);
    assert(int_part@ =~= cleaned@.take(p as int));
    let mut s = reading_of_chars(&int_part);
    let frac_part = chars_after_dot(&cleaned, p);
    let frac = without_trailing_zeros(&frac_part);
    push_point_reading(&mut s, &frac);
    s
}

/// Every number token of `text` replaced by its sino-Korean reading. A number
/// token is a run of digits optionally containing comma thousands-separators
/// and a single decimal point (e.g. `123,456` or `1.5`).
pub fn replace_numbers(text: &Vec<char>) -> (r: String)
    ensures
        r@ == numbers_replaced(text@),
{
    let n = text.len();
    let mut out = String::new();
    let mut i: usize = 0;
    assert(text@.skip(0) =~= text@);
    while i < n
        invariant
            i <= n == text.len(),
            numbers_replaced(text@) == out@ + numbers_replaced(text@.skip(i as int)),
        decreases n - i,
    {
        let ghost rest = text@.skip(i as int);
        let c = text[i];
        if !('0' <= c && c <= '9') {
            out.push(c);
            assert(rest.drop_first() =~= text@.skip(i + 1));
            i += 1;
        } else {
            let start = i;
            proof {
                lemma_number_token_len_bounds(rest);
                lemma_int_run_len_bounds(rest);
            }
            let mut e = int_run_end(text, start);
            if n - e > 1 && text[e] == '.' && '0' <= text[e + 1] && text[e + 1] <= '9' {
                assert(rest.skip(e - start + 1) =~= text@.skip(e + 1));
                e = digit_run_end(text, e + 1);
            }
            assert(e == start + number_token_len(rest));
            let token = sub_chars(text, start, e);
            assert(token@ =~= rest.take(number_token_len(rest)));
            let w = number_to_sino(&token);
            out.append(w.as_str());
            assert(rest.skip(number_token_len(rest)) =~= text@.skip(e as int));
            i = e;
        }
    }
    assert(text@.skip(n as int).len() == 0);
    out
}

proof fn lemma_digits_value_prefix(s: Seq<char>, k: int)
    requires
        0 <= k <= s.len(),
    ensures
        digits_value(s.take(k)) <= digits_value(s),
    decreases s.len(),
{
    if k < s.len() {
        lemma_digits_value_prefix(s.drop_last(), k);
        assert(s.drop_last().take(k) =~= s.take(k));
    } else {
        assert(s.take(k) =~= s);
    }
}

/// The value of `s` read as `u32::from_str` reads it, or `None` when it does not parse.
fn parse_u32(s: &Vec<char>) -> (r: Option<u32>)
    ensures
        r is Some <==> is_u32_text(s@),
        r matches Some(v) ==> v == digits_value(unsigned_digits(s@)),
{
    let from: usize = if s.len() > 0 && s[0] == '+' { 1 } else { 0 };
    let ghost d = unsigned_digits(s@);
    assert(d =~= s@.skip(from as int));
    if from == s.len() {
        return None;
    }
    let mut v: u64 = 0;
    let mut i = from;
    assert(d.take(0) =~= Seq::<char>::empty());
    while i < s.len()
        invariant
            from <= i <= s.len(),
            from < s.len(),
            d =~= s@.skip(from as int),
            d == unsigned_digits(s@),
            v == digits_value(d.take(i - from)),
            v <= u32::MAX,
            forall|k: int| 0 <= k < i - from ==> is_ascii_digit(#[trigger] d[k]),
        decreases s.len() - i,
    {
        let c = s[i];
        assert(d[i - from] == c);
        if !('0' <= c && c <= '9') {
            assert(!is_ascii_digit(d[i - from]));
            return None;
        }
        let nv = v * 10 + ((c as u32) - ('0' as u32)) as u64;
        assert(d.take(i - from + 1).drop_last() =~= d.take(i - from));
        assert(d.take(i - from + 1).last() == c);
        assert(nv == digits_value(d.take(i - from + 1)));
        if nv > 4294967295 {
            proof {
                lemma_digits_value_prefix(d, i - from + 1);
            }
            return None;
        }
        v = nv;
        i += 1;
    }
    assert(d.take(i - from) =~= d);
    Some(v as u32)
}

/// Whether every character of `v` is an ASCII digit.
fn all_digits(v: &Vec<char>) -> (r: bool)
    ensures
        r == all_ascii_digits(v@),
{
    let mut k: usize = 0;
    while k < v.len()
        invariant
            k <= v.len(),
            forall|j: int| 0 <= j < k ==> is_ascii_digit(#[trigger] v@[j]),
        decreases v.len() - k,
    {
        if !('0' <= v[k] && v[k] <= '9') {
            assert(!is_ascii_digit(v@[k as int]));
            return false;
        }
        k += 1;
    }
    true
}

/// Reads `num` before the counter `unit` ("3", "개" gives "세개"; "1.5", "개"
/// gives "일쩜오개"), or `None` when `num` is not a number.
fn convert_chars(num: &Vec<char>, unit: &str) -> (r: Option<String>)
    ensures
        match r {
            Some(s) => counted_reading(num@, unit@) == Some(s@),
            None => counted_reading(num@, unit@) is None,
        },
{
    let p = find_dot(num);
    proof {
        lemma_dot_index_bound(num@);
    }
    let int_text = sub_chars(num, 0, p);
    assert(int_text@ =~= num@.take(p as int));
    let frac_text = chars_after_dot(num, p);
    let frac = without_trailing_zeros(&frac_text);
    let integer = match parse_u32(&int_text) {
        Some(v) => v,
        None => return None,
    };
    if !all_digits(&frac) {
        return None;
    }
    let has_decimal = frac.len() > 0;
    let mut result = if has_decimal || integer > 99 {
        to_sino_korean(integer)
    } else {
        to_native_korean(integer)
    };
    push_point_reading(&mut result, &frac);
    result.append(unit);
    Some(result)
}

/// Reads `num_str` before the counter `unit` ("3", "개" gives "세개"; "1.5",
/// "개" gives "일쩜오개"), or `None` when `num_str` is not a number.
pub fn convert(num_str: &str, unit: &str) -> (r: Option<String>)
    ensures
        match r {
            Some(s) => counted_reading(num_str@, unit@) == Some(s@),
            None => counted_reading(num_str@, unit@) is None,
        },
{
    let num = chars_of(num_str);
    convert_chars(&num, unit)
}

/// Reads the numbers of a message aloud: "3 개" becomes "세개", "가격은
/// 1,000원입니다" becomes "가격은 천원입니다".
pub fn process(input: Input) -> (r: Output)
    ensures
        r.text@ == counting_text(input.text@),
        r.override_future_mappers is None,
{
    let all = chars_of(input.text.as_str());
    let (a, b) = trim_bounds(&all);
    let text = sub_chars(&all, a, b);
    let mut i: usize = 0;
    while i < 29
        invariant
            i <= 29,
            text@ == trim(input.text@),
            counting_from(text@, 0) == counting_from(text@, i as int),
        decreases 29 - i,
    {
        let unit = counter_word(i);
        let unit_chars = chars_of(unit);
        if ends_with(&text, &unit_chars) {
            let rest = sub_chars(&text, 0, text.len() - unit_chars.len());
            assert(rest@ =~= text@.take(text.len() - unit_chars.len()));
            let (c, d) = trim_bounds(&rest);
            if c < d {
                let num = sub_chars(&rest, c, d);
                match convert_chars(&num, unit) {
                    Some(result) => {
                        return Output::text(result);
                    },
                    None => {},
                }
            }
        }
        i += 1;
    }
    Output::text(replace_numbers(&text))
}

/// The counters are tried longest first, so that a counter is tried before
/// any shorter one that could end it.
pub proof fn lemma_native_counters_longest_first(i: int, j: int)
    requires
        0 <= i < j < native_counter_count(),
    ensures
        native_counter(i).len() >= native_counter(j).len(),
{
    reveal_strlit("켤레");
    reveal_strlit("사람");
    reveal_strlit("그릇");
    reveal_strlit("포기");
    reveal_strlit("송이");
    reveal_strlit("군데");
    reveal_strlit("가지");
    reveal_strlit("마디");
    reveal_strlit("바퀴");
    reveal_strlit("차례");
    reveal_strlit("두름");
    reveal_strlit("모듬");
    reveal_strlit("마리");
    reveal_strlit("자루");
    reveal_strlit("개");
    reveal_strlit("살");
    reveal_strlit("명");
    reveal_strlit("번");
    reveal_strlit("병");
    reveal_strlit("잔");
    reveal_strlit("권");
    reveal_strlit("장");
    reveal_strlit("대");
    reveal_strlit("벌");
    reveal_strlit("접");
    reveal_strlit("톳");
    reveal_strlit("손");
    reveal_strlit("모");
    reveal_strlit("단");
    assert(forall|k: int| 0 <= k < 14 ==> #[trigger] native_counter(k).len() == 2);
    assert(forall|k: int| 14 <= k < 29 ==> #[trigger] native_counter(k).len() == 1);
}

/// Text without digits has no number token to replace.
pub proof fn lemma_numbers_replaced_without_digits(s: Seq<char>)
    requires
        !has_ascii_digit(s),
    ensures
        numbers_replaced(s) == s,
    decreases s.len(),
{
    if s.len() > 0 {
        assert(!is_ascii_digit(s[0]));
        assert(!has_ascii_digit(s.drop_first())) by {
            if has_ascii_digit(s.drop_first()) {
                let i = choose|i: int| 0 <= i < s.drop_first().len() && is_ascii_digit(
                    #[trigger] s.drop_first()[i],
                );
                assert(s[i + 1] == s.drop_first()[i]);
            }
        }
        lemma_numbers_replaced_without_digits(s.drop_first());
        assert(seq![s[0]] + s.drop_first() =~= s);
    }
}

proof fn lemma_no_digit_drop_first(s: Seq<char>)
    requires
        s.len() > 0,
        !has_ascii_digit(s),
    ensures
        !has_ascii_digit(s.drop_first()),
{
    if has_ascii_digit(s.drop_first()) {
        let i = choose|i: int| 0 <= i < s.drop_first().len() && is_ascii_digit(
            #[trigger] s.drop_first()[i],
        );
        assert(s[i + 1] == s.drop_first()[i]);
    }
}

proof fn lemma_no_digit_subrange(s: Seq<char>, a: int, b: int)
    requires
        0 <= a <= b <= s.len(),
        !has_ascii_digit(s),
    ensures
        !has_ascii_digit(s.subrange(a, b)),
{
    if has_ascii_digit(s.subrange(a, b)) {
        let i = choose|i: int| 0 <= i < s.subrange(a, b).len() && is_ascii_digit(
            #[trigger] s.subrange(a, b)[i],
        );
        assert(s[a + i] == s.subrange(a, b)[i]);
    }
}

proof fn lemma_no_digit_trim_start(s: Seq<char>)
    requires
        !has_ascii_digit(s),
    ensures
        !has_ascii_digit(crate::text::trim_start(s)),
    decreases s.len(),
{
    if s.len() > 0 && crate::text::is_white_space(s[0]) {
        lemma_no_digit_drop_first(s);
        lemma_no_digit_trim_start(s.drop_first());
    }
}

proof fn lemma_no_digit_trim_end(s: Seq<char>)
    requires
        !has_ascii_digit(s),
    ensures
        !has_ascii_digit(crate::text::trim_end(s)),
    decreases s.len(),
{
    if s.len() > 0 && crate::text::is_white_space(s.last()) {
        lemma_no_digit_subrange(s, 0, s.len() - 1);
        assert(s.subrange(0, s.len() - 1) =~= s.drop_last());
        lemma_no_digit_trim_end(s.drop_last());
    }
}

proof fn lemma_counting_from_without_digits(t: Seq<char>, i: int)
    requires
        !has_ascii_digit(t),
    ensures
        counting_from(t, i) == t,
    decreases native_counter_count() - i,
{
    if 0 <= i < native_counter_count() {
        let unit = native_counter(i);
        if unit.len() <= t.len() {
            let k = t.len() - unit.len();
            lemma_no_digit_subrange(t, 0, k);
            assert(t.subrange(0, k) =~= t.take(k));
            let num = trim(t.take(k));
            lemma_no_digit_trim_start(t.take(k));
            lemma_no_digit_trim_end(crate::text::trim_start(t.take(k)));
            let p = dot_index(num);
            lemma_dot_index_bound(num);
            if is_u32_text(num.take(p)) {
                let d = unsigned_digits(num.take(p));
                assert(is_ascii_digit(d[0]));
                if num.take(p).len() > 0 && num.take(p)[0] == '+' {
                    assert(d[0] == num.take(p)[1]);
                    assert(num.take(p)[1] == num[1]);
                    assert(is_ascii_digit(num[1]));
                } else {
                    assert(d[0] == num.take(p)[0]);
                    assert(num.take(p)[0] == num[0]);
                    assert(is_ascii_digit(num[0]));
                }
            }
        }
        lemma_counting_from_without_digits(t, i + 1);
    } else {
        lemma_numbers_replaced_without_digits(t);
    }
}

/// A message without digits is only trimmed: there is no number to read.
pub proof fn lemma_counting_without_digits(text: Seq<char>)
    requires
        !has_ascii_digit(trim(text)),
    ensures
        counting_text(text) == trim(text),
{
    lemma_counting_from_without_digits(trim(text), 0);
}

proof fn lemma_fraction_reading_no_ascii_digit(s: Seq<char>)
    ensures
        !has_ascii_digit(fraction_reading(s)),
    decreases s.len(),
{
    if s.len() > 0 {
        lemma_fraction_reading_no_ascii_digit(s.drop_last());
        let w = sino_reading(decimal_digits(digit_or_zero(s.last()) as nat));
        lemma_sino_reading_no_ascii_digit(decimal_digits(digit_or_zero(s.last()) as nat));
        lemma_no_digit_concat(fraction_reading(s.drop_last()), w);
    }
}

/// The reading of a number token holds no ASCII digit.
pub proof fn lemma_number_reading_no_ascii_digit(token: Seq<char>)
    ensures
        !has_ascii_digit(number_reading(token)),
{
    let cleaned = without_commas(token);
    let frac = strip_trailing_zeros(after_dot(cleaned));
    lemma_sino_reading_no_ascii_digit(cleaned.take(dot_index(cleaned)));
    reveal_strlit("쩜");
    lemma_fraction_reading_no_ascii_digit(frac);
    lemma_no_digit_concat("쩜"@, fraction_reading(frac));
    lemma_no_digit_concat(sino_reading(cleaned.take(dot_index(cleaned))), point_reading(frac));
}

/// After the replacement no ASCII digit is left: every number has been read in words.
pub proof fn lemma_numbers_replaced_no_ascii_digit(s: Seq<char>)
    ensures
        !has_ascii_digit(numbers_replaced(s)),
    decreases s.len(),
{
    if s.len() > 0 {
        if !is_ascii_digit(s[0]) {
            lemma_numbers_replaced_no_ascii_digit(s.drop_first());
            lemma_no_digit_concat(seq![s[0]], numbers_replaced(s.drop_first()));
        } else {
            lemma_number_token_len_bounds(s);
            let n = number_token_len(s);
            lemma_number_reading_no_ascii_digit(s.take(n));
            lemma_numbers_replaced_no_ascii_digit(s.skip(n));
            lemma_no_digit_concat(number_reading(s.take(n)), numbers_replaced(s.skip(n)));
        }
    }
}

/// Replacing the numbers a second time changes nothing.
pub proof fn lemma_numbers_replaced_idempotent(s: Seq<char>)
    ensures
        numbers_replaced(numbers_replaced(s)) == numbers_replaced(s),
{
    lemma_numbers_replaced_no_ascii_digit(s);
    lemma_numbers_replaced_without_digits(numbers_replaced(s));
}

/// A character that can stand in a number token: a digit, a comma or a dot.
pub open spec fn is_number_char(c: char) -> bool {
    is_ascii_digit(c) || c == ',' || c == '.'
}

/// No number token can run across the point where `a` ends and `b` begins.
pub open spec fn seam_splits_no_number(a: Seq<char>, b: Seq<char>) -> bool {
    a.len() == 0 || b.len() == 0 || !is_number_char(a.last()) || !is_number_char(b[0])
}

proof fn lemma_int_run_chars(s: Seq<char>, j: int)
    requires
        0 <= j < int_run_len(s),
    ensures
        is_ascii_digit(s[j]) || s[j] == ',',
    decreases s.len(),
{
    lemma_int_run_len_bounds(s);
    if j > 0 {
        lemma_int_run_chars(s.drop_first(), j - 1);
        assert(s[j] == s.drop_first()[j - 1]);
    }
}

proof fn lemma_int_run_concat(a: Seq<char>, b: Seq<char>)
    requires
        a.len() > 0,
        seam_splits_no_number(a, b),
    ensures
        int_run_len(a + b) == int_run_len(a),
    decreases a.len(),
{
    let s = a + b;
    if b.len() == 0 {
        assert(s =~= a);
    } else if a.len() == 1 {
        assert(s.drop_first() =~= b);
        assert(int_run_len(a.drop_first()) == 0);
        assert(s[0] == a[0] && s[1] == b[0] && a.last() == a[0]);
        if is_ascii_digit(a[0]) || a[0] == ',' {
            assert(!is_number_char(b[0]));
            assert(int_run_len(b) == 0);
        }
    } else {
        assert(s.drop_first() =~= a.drop_first() + b);
        assert(a.drop_first().last() == a.last());
        assert(s[0] == a[0] && s[1] == a[1]);
        lemma_int_run_concat(a.drop_first(), b);
    }
}

proof fn lemma_digit_run_concat(a: Seq<char>, b: Seq<char>)
    requires
        a.len() > 0,
        seam_splits_no_number(a, b),
    ensures
        digit_run_len(a + b) == digit_run_len(a),
    decreases a.len(),
{
    let s = a + b;
    if b.len() == 0 {
        assert(s =~= a);
    } else if a.len() == 1 {
        assert(s.drop_first() =~= b);
        assert(digit_run_len(a.drop_first()) == 0);
        assert(s[0] == a[0] && a.last() == a[0]);
        if is_ascii_digit(a[0]) {
            assert(!is_number_char(b[0]));
            assert(digit_run_len(b) == 0);
        }
    } else {
        assert(s.drop_first() =~= a.drop_first() + b);
        assert(a.drop_first().last() == a.last());
        assert(s[0] == a[0]);
        lemma_digit_run_concat(a.drop_first(), b);
    }
}

proof fn lemma_number_token_concat(a: Seq<char>, b: Seq<char>)
    requires
        a.len() > 0,
        seam_splits_no_number(a, b),
    ensures
        number_token_len(a + b) == number_token_len(a),
{
    let s = a + b;
    lemma_int_run_concat(a, b);
    lemma_int_run_len_bounds(a);
    let i = int_run_len(a);
    if i + 1 < a.len() {
        assert(s[i] == a[i]);
        assert(s[i + 1] == a[i + 1]);
        assert(s.skip(i + 1) =~= a.skip(i + 1) + b);
        assert(a.skip(i + 1).last() == a.last());
        lemma_digit_run_concat(a.skip(i + 1), b);
    } else if i == a.len() {
        lemma_int_run_chars(a, a.len() - 1);
        if b.len() > 0 {
            assert(s[i] == b[0]);
        }
    } else {
        assert(i == a.len() - 1);
        assert(s[i] == a.last());
        if b.len() > 0 {
            assert(s[i + 1] == b[0]);
        }
    }
}

/// Replacing the numbers of two texts one after the other gives the same as
/// replacing them in the joined text, when no number runs across the seam.
pub proof fn lemma_numbers_replaced_concat(a: Seq<char>, b: Seq<char>)
    requires
        seam_splits_no_number(a, b),
    ensures
        numbers_replaced(a + b) == numbers_replaced(a) + numbers_replaced(b),
    decreases a.len(),
{
    let s = a + b;
    if a.len() == 0 {
        assert(s =~= b);
        assert(numbers_replaced(a) + numbers_replaced(b) =~= numbers_replaced(b));
    } else if !is_ascii_digit(a[0]) {
        let a1 = a.drop_first();
        assert(s[0] == a[0]);
        assert(s.drop_first() =~= a1 + b);
        if a1.len() > 0 {
            assert(a1.last() == a.last());
        }
        lemma_numbers_replaced_concat(a1, b);
        assert(seq![a[0]] + (numbers_replaced(a1) + numbers_replaced(b)) =~= (seq![a[0]]
            + numbers_replaced(a1)) + numbers_replaced(b));
    } else {
        lemma_number_token_concat(a, b);
        lemma_number_token_len_bounds(a);
        let n = number_token_len(a);
        assert(s[0] == a[0]);
        assert(s.take(n) =~= a.take(n));
        let a1 = a.skip(n);
        assert(s.skip(n) =~= a1 + b);
        if a1.len() > 0 {
            assert(a1.last() == a.last());
        }
        lemma_numbers_replaced_concat(a1, b);
        assert(number_reading(a.take(n)) + (numbers_replaced(a1) + numbers_replaced(b)) =~= (
        number_reading(a.take(n)) + numbers_replaced(a1)) + numbers_replaced(b));
    }
}

proof fn lemma_without_commas_of_plain(s: Seq<char>)
    requires
        forall|k: int| 0 <= k < s.len() ==> #[trigger] s[k] != ',',
    ensures
        without_commas(s) == s,
    decreases s.len(),
{
    if s.len() > 0 {
        lemma_without_commas_of_plain(s.drop_last());
        assert(s.drop_last().push(s.last()) =~= s);
    }
}

proof fn lemma_dot_index_after(a: Seq<char>, rest: Seq<char>)
    requires
        forall|k: int| 0 <= k < a.len() ==> #[trigger] a[k] != '.',
        rest.len() > 0,
        rest[0] == '.',
    ensures
        dot_index(a + rest) == a.len(),
    decreases a.len(),
{
    if a.len() > 0 {
        assert((a + rest)[0] == a[0]);
        assert((a + rest).drop_first() =~= a.drop_first() + rest);
        lemma_dot_index_after(a.drop_first(), rest);
    } else {
        assert(a + rest =~= rest);
    }
}

proof fn lemma_single_digit_reading(c: char)
    requires
        is_ascii_digit(c),
    ensures
        sino_reading(decimal_digits(digit_or_zero(c) as nat)) == sino_reading(seq![c]),
{
    let d = digit_or_zero(c);
    assert(decimal_digits(d as nat) == seq![digit_char(d)]);
    assert(digit_char(d) == c);
}

proof fn lemma_fraction_reading_digitwise(f: Seq<char>)
    requires
        forall|k: int| 0 <= k < f.len() ==> is_ascii_digit(#[trigger] f[k]),
    ensures
        fraction_reading(f) == f.map_values(|c: char| sino_reading(seq![c])).flatten(),
    decreases f.len(),
{
    let g = |c: char| sino_reading(seq![c]);
    if f.len() == 0 {
        assert(f.map_values(g) =~= Seq::<Seq<char>>::empty());
    } else {
        let p = f.drop_last();
        lemma_fraction_reading_digitwise(p);
        assert(is_ascii_digit(f[f.len() - 1]));
        lemma_single_digit_reading(f.last());
        assert(f.map_values(g) =~= p.map_values(g).push(g(f.last())));
        p.map_values(g).lemma_flatten_push(g(f.last()));
    }
}

proof fn lemma_decimal_token_reading(i: Seq<char>, f: Seq<char>)
    requires
        forall|k: int| 0 <= k < i.len() ==> is_ascii_digit(#[trigger] i[k]),
        forall|k: int| 0 <= k < f.len() ==> is_ascii_digit(#[trigger] f[k]),
    ensures
        number_reading(i + seq!['.'] + f) == sino_reading(i) + point_reading(strip_trailing_zeros(f)),
{
    let t = i + seq!['.'] + f;
    assert forall|k: int| 0 <= k < t.len() implies #[trigger] t[k] != ',' by {
        if k < i.len() {
            assert(t[k] == i[k]);
        } else if k > i.len() {
            assert(t[k] == f[k - i.len() - 1]);
        }
    }
    lemma_without_commas_of_plain(t);
    assert forall|k: int| 0 <= k < i.len() implies #[trigger] i[k] != '.' by {
        assert(is_ascii_digit(i[k]));
    }
    assert(t =~= i + (seq!['.'] + f));
    lemma_dot_index_after(i, seq!['.'] + f);
    assert(t.take(i.len() as int) =~= i);
    assert(after_dot(t) =~= f);
}

/// The digits after a decimal point are read one by one, each with its own
/// sino-Korean word, after "쩜" ("3.14" reads "삼쩜일사", not "삼쩜십사").
pub proof fn lemma_fraction_read_digit_by_digit(i: Seq<char>, f: Seq<char>)
    requires
        forall|k: int| 0 <= k < i.len() ==> is_ascii_digit(#[trigger] i[k]),
        forall|k: int| 0 <= k < f.len() ==> is_ascii_digit(#[trigger] f[k]),
        f.len() > 0,
        f.last() != '0',
    ensures
        number_reading(i + seq!['.'] + f) == sino_reading(i) + "쩜"@ + f.map_values(
            |c: char| sino_reading(seq![c]),
        ).flatten(),
{
    lemma_decimal_token_reading(i, f);
    assert(strip_trailing_zeros(f) == f);
    lemma_fraction_reading_digitwise(f);
    assert(sino_reading(i) + ("쩜"@ + fraction_reading(f)) =~= sino_reading(i) + "쩜"@
        + fraction_reading(f));
}

/// A trailing zero of the fraction is not read ("1.50" reads as "1.5").
pub proof fn lemma_fraction_trailing_zero_silent(i: Seq<char>, f: Seq<char>)
    requires
        forall|k: int| 0 <= k < i.len() ==> is_ascii_digit(#[trigger] i[k]),
        forall|k: int| 0 <= k < f.len() ==> is_ascii_digit(#[trigger] f[k]),
    ensures
        number_reading(i + seq!['.'] + f.push('0')) == number_reading(i + seq!['.'] + f),
{
    lemma_decimal_token_reading(i, f);
    assert forall|k: int| 0 <= k < f.push('0').len() implies is_ascii_digit(#[trigger] f.push('0')[k]) by {
        if k < f.len() {
            assert(f.push('0')[k] == f[k]);
        }
    }
    lemma_decimal_token_reading(i, f.push('0'));
    assert(f.push('0').drop_last() =~= f);
}

proof fn lemma_without_commas_digits(t: Seq<char>)
    requires
        forall|k: int| 0 <= k < t.len() ==> is_ascii_digit(#[trigger] t[k]) || t[k] == ',',
    ensures
        ascii_digits(without_commas(t)) == ascii_digits(t),
        forall|k: int| 0 <= k < without_commas(t).len() ==> #[trigger] without_commas(t)[k] != '.',
    decreases t.len(),
{
    if t.len() > 0 {
        let p = t.drop_last();
        assert forall|k: int| 0 <= k < p.len() implies is_ascii_digit(#[trigger] p[k]) || p[k] == ',' by {
            assert(p[k] == t[k]);
        }
        lemma_without_commas_digits(p);
        assert(is_ascii_digit(t[t.len() - 1]) || t[t.len() - 1] == ',');
        let w = without_commas(p);
        if t.last() != ',' {
            assert(w.push(t.last()).drop_last() =~= w);
            assert forall|k: int| 0 <= k < w.push(t.last()).len() implies #[trigger] w.push(t.last())[k] != '.' by {
                if k < w.len() {
                    assert(w.push(t.last())[k] == w[k]);
                }
            }
        }
    }
}

proof fn lemma_dot_index_none(s: Seq<char>)
    requires
        forall|k: int| 0 <= k < s.len() ==> #[trigger] s[k] != '.',
    ensures
        dot_index(s) == s.len(),
    decreases s.len(),
{
    if s.len() > 0 {
        assert(s[0] != '.');
        assert forall|k: int| 0 <= k < s.drop_first().len() implies #[trigger] s.drop_first()[k] != '.' by {
            assert(s.drop_first()[k] == s[k + 1]);
        }
        lemma_dot_index_none(s.drop_first());
    }
}

/// A number without a decimal point is read as a whole, its commas left
/// out ("1,234" reads "천이백삼십사", as "1234" does).
pub proof fn lemma_integer_token_reading(t: Seq<char>)
    requires
        forall|k: int| 0 <= k < t.len() ==> is_ascii_digit(#[trigger] t[k]) || t[k] == ',',
    ensures
        number_reading(t) == sino_reading(ascii_digits(t)),
{
    lemma_without_commas_digits(t);
    let c = without_commas(t);
    lemma_dot_index_none(c);
    assert(c.take(c.len() as int) =~= c);
    assert(after_dot(c).len() == 0);
    assert(strip_trailing_zeros(after_dot(c)) == after_dot(c));
    lemma_sino_reading_ignores_non_digits(c);
    assert(sino_reading(c) + Seq::<char>::empty() =~= sino_reading(c));
}

} // verus!
