//! Native Korean numerals (한, 두, 세, ... 아흔아홉) used in front of counters.
use vstd::prelude::*;

verus! {

/// The native numeral for a units digit `1..=9` as it stands before a counter.
pub open spec fn native_unit(u: int) -> Seq<char> {
    if u == 1 { "한"@ }
    else if u == 2 { "두"@ }
    else if u == 3 { "세"@ }
    else if u == 4 { "네"@ }
    else if u == 5 { "다섯"@ }
    else if u == 6 { "여섯"@ }
    else if u == 7 { "일곱"@ }
    else if u == 8 { "여덟"@ }
    else if u == 9 { "아홉"@ }
    else { Seq::empty() }
}

/// The native numeral for a tens digit `1..=9` when a units digit follows.
pub open spec fn native_tens(t: int) -> Seq<char> {
    if t == 1 { "열"@ }
    else if t == 2 { "스물"@ }
    else if t == 3 { "서른"@ }
    else if t == 4 { "마흔"@ }
    else if t == 5 { "쉰"@ }
    else if t == 6 { "예순"@ }
    else if t == 7 { "일흔"@ }
    else if t == 8 { "여든"@ }
    else if t == 9 { "아흔"@ }
    else { Seq::empty() }
}

/// The native numeral for a round tens number: only twenty changes form
/// (스무 instead of 스물) when nothing follows it.
pub open spec fn native_tens_alone(t: int) -> Seq<char> {
    if t == 2 { "스무"@ } else { native_tens(t) }
}

/// The native Korean reading of a number below one hundred.
pub open spec fn native_reading(n: int) -> Seq<char> {
    let t = n / 10;
    let u = n % 10;
    if t == 0 && u == 0 {
        "영"@
    } else if t == 0 {
        native_unit(u)
    } else if u == 0 {
        native_tens_alone(t)
    } else {
        native_tens(t) + native_unit(u)
    }
}

fn unit_word(u: u32) -> (r: &'static str)
    requires
        1 <= u <= 9,
    ensures
        r@ == native_unit(u as int),
{
    if u == 1 { "한" }
    else if u == 2 { "두" }
    else if u == 3 { "세" }
    else if u == 4 { "네" }
    else if u == 5 { "다섯" }
    else if u == 6 { "여섯" }
    else if u == 7 { "일곱" }
    else if u == 8 { "여덟" }
    else { "아홉" }
}

fn tens_word(t: u32) -> (r: &'static str)
    requires
        1 <= t <= 9,
    ensures
        r@ == native_tens(t as int),
{
    if t == 1 { "열" }
    else if t == 2 { "스물" }
    else if t == 3 { "서른" }
    else if t == 4 { "마흔" }
    else if t == 5 { "쉰" }
    else if t == 6 { "예순" }
    else if t == 7 { "일흔" }
    else if t == 8 { "여든" }
    else { "아흔" }
}

/// Reads a number below one hundred with native Korean numerals, in the form
/// used before a counter ("세" in "세 개", "스무" in "스무 살").
/// Numbers from one hundred up have no such reading; callers use the
/// sino-Korean reading for them.
pub fn to_native_korean(number: u32) -> (r: String)
    requires
        number < 100,
    ensures
        r@ == native_reading(number as int),
{
    let t = number / 10;
    let u = number % 10;
    if t == 0 && u == 0 {
        String::from_str("영")
    } else if t == 0 {
        String::from_str(unit_word(u))
    } else if u == 0 {
        if t == 2 {
            String::from_str("스무")
        } else {
            String::from_str(tens_word(t))
        }
    } else {
        let mut s = String::from_str(tens_word(t));
        s.append(unit_word(u));
        s
    }
}

/// The units digit that a native reading ends with (0 where it ends with none).
pub open spec fn trailing_unit(s: Seq<char>) -> int {
    if s.len() == 0 {
        0
    } else {
        let c = s.last();
        if c == '한' { 1 }
        else if c == '두' { 2 }
        else if c == '세' { 3 }
        else if c == '네' { 4 }
        else if c == '섯' { if s.len() >= 2 && s[s.len() - 2] == '다' { 5 } else { 6 } }
        else if c == '곱' { 7 }
        else if c == '덟' { 8 }
        else if c == '홉' { 9 }
        else { 0 }
    }
}

/// The tens digit that a native tens word starts with (0 for any other word).
pub open spec fn leading_tens(s: Seq<char>) -> int {
    if s.len() == 0 {
        0
    } else {
        let c = s[0];
        if c == '열' { 1 }
        else if c == '스' { 2 }
        else if c == '서' { 3 }
        else if c == '마' { 4 }
        else if c == '쉰' { 5 }
        else if c == '예' { 6 }
        else if c == '일' { 7 }
        else if c == '여' { 8 }
        else if c == '아' { 9 }
        else { 0 }
    }
}

/// The number that a native reading stands for: its units word at the end,
/// its tens word before that.
pub open spec fn native_value(s: Seq<char>) -> int {
    let u = trailing_unit(s);
    10 * leading_tens(s.subrange(0, s.len() - native_unit(u).len())) + u
}

proof fn lemma_unit_word_ends(x: Seq<char>, u: int)
    requires
        1 <= u <= 9,
    ensures
        trailing_unit(x + native_unit(u)) == u,
        native_unit(u).len() >= 1,
        (x + native_unit(u)).subrange(0, (x + native_unit(u)).len() - native_unit(u).len()) == x,
{
    reveal_strlit("한");
    reveal_strlit("두");
    reveal_strlit("세");
    reveal_strlit("네");
    reveal_strlit("다섯");
    reveal_strlit("여섯");
    reveal_strlit("일곱");
    reveal_strlit("여덟");
    reveal_strlit("아홉");
    let s = x + native_unit(u);
    assert(s.subrange(0, s.len() - native_unit(u).len()) =~= x);
    assert(s.last() == native_unit(u).last());
    if native_unit(u).len() == 2 {
        assert(s[s.len() - 2] == native_unit(u)[0]);
    }
}

proof fn lemma_tens_word_starts(t: int)
    requires
        1 <= t <= 9,
    ensures
        leading_tens(native_tens(t)) == t,
        leading_tens(native_tens_alone(t)) == t,
        trailing_unit(native_tens_alone(t)) == 0,
{
    reveal_strlit("열");
    reveal_strlit("스물");
    reveal_strlit("스무");
    reveal_strlit("서른");
    reveal_strlit("마흔");
    reveal_strlit("쉰");
    reveal_strlit("예순");
    reveal_strlit("일흔");
    reveal_strlit("여든");
    reveal_strlit("아흔");
}

/// Every native reading below one hundred gives back the number it reads.
pub proof fn lemma_native_value_of_reading(n: int)
    requires
        0 <= n < 100,
    ensures
        native_value(native_reading(n)) == n,
{
    let t = n / 10;
    let u = n % 10;
    let e = Seq::<char>::empty();
    if t == 0 && u == 0 {
        reveal_strlit("영");
        assert(native_reading(n).subrange(0, native_reading(n).len() - native_unit(0).len())
            =~= native_reading(n));
    } else if t == 0 {
        lemma_unit_word_ends(e, u);
        assert(e + native_unit(u) =~= native_unit(u));
    } else if u == 0 {
        lemma_tens_word_starts(t);
        let s = native_tens_alone(t);
        assert(s.subrange(0, s.len() - native_unit(0).len()) =~= s);
    } else {
        lemma_unit_word_ends(native_tens(t), u);
        lemma_tens_word_starts(t);
    }
}

/// Two different numbers below one hundred have different native readings.
pub proof fn lemma_native_reading_injective(a: int, b: int)
    requires
        0 <= a < 100,
        0 <= b < 100,
        a != b,
    ensures
        native_reading(a) != native_reading(b),
{
    lemma_native_value_of_reading(a);
    lemma_native_value_of_reading(b);
}

} // verus!
