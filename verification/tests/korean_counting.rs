use mappers::korean_counting::{convert, native_counters, process};
use mappers::mapper::Input;
use mappers::native_korean::to_native_korean;
use mappers::sino_korean::{to_sino_korean, to_sino_korean_str};

fn cv(s: &str, unit: &str) -> String {
    convert(s, unit).unwrap()
}

fn input(text: &str) -> Input {
    Input {
        text: text.to_string(),
        mapping_list: None,
    }
}

#[test]
fn test_to_native_korean() {
    assert_eq!(to_native_korean(1), "한");
    assert_eq!(to_native_korean(2), "두");
    assert_eq!(to_native_korean(3), "세");
    assert_eq!(to_native_korean(4), "네");
    assert_eq!(to_native_korean(5), "다섯");
    assert_eq!(to_native_korean(6), "여섯");
    assert_eq!(to_native_korean(7), "일곱");
    assert_eq!(to_native_korean(8), "여덟");
    assert_eq!(to_native_korean(9), "아홉");
    assert_eq!(to_native_korean(10), "열");

    assert_eq!(to_native_korean(11), "열한");
    assert_eq!(to_native_korean(20), "스무");
    assert_eq!(to_native_korean(23), "스물세");
    assert_eq!(to_native_korean(30), "서른");
    assert_eq!(to_native_korean(45), "마흔다섯");
    assert_eq!(to_native_korean(99), "아흔아홉");
}

#[test]
fn test_to_sino_korean() {
    assert_eq!(to_sino_korean(0), "영");
    assert_eq!(to_sino_korean(1), "일");
    assert_eq!(to_sino_korean(2), "이");
    assert_eq!(to_sino_korean(3), "삼");
    assert_eq!(to_sino_korean(4), "사");
    assert_eq!(to_sino_korean(5), "오");
    assert_eq!(to_sino_korean(6), "육");
    assert_eq!(to_sino_korean(7), "칠");
    assert_eq!(to_sino_korean(8), "팔");
    assert_eq!(to_sino_korean(9), "구");
    assert_eq!(to_sino_korean(10), "십");

    assert_eq!(to_sino_korean(11), "십일");
    assert_eq!(to_sino_korean(20), "이십");
    assert_eq!(to_sino_korean(23), "이십삼");
    assert_eq!(to_sino_korean(30), "삼십");
    assert_eq!(to_sino_korean(45), "사십오");
    assert_eq!(to_sino_korean(99), "구십구");
}

#[test]
fn test_to_sino_korean_groups() {
    assert_eq!(to_sino_korean(100), "백");
    assert_eq!(to_sino_korean(1000), "천");
    assert_eq!(to_sino_korean(10000), "일만");
    assert_eq!(to_sino_korean(12345), "일만이천삼백사십오");
    assert_eq!(to_sino_korean(100000000), "일억");
    assert_eq!(to_sino_korean(1234567890), "십이억삼천사백오십육만칠천팔백구십");
}

#[test]
fn test_to_sino_korean_str_large() {
    assert_eq!(to_sino_korean_str("0"), "영");
    assert_eq!(to_sino_korean_str("000123"), "백이십삼");
    assert_eq!(to_sino_korean_str("1000000000000"), "일조");
    assert_eq!(to_sino_korean_str("10000000000000000"), "일경");
    // 10^20 = 해
    assert_eq!(to_sino_korean_str("100000000000000000000"), "일해");
    // 10^68 = 무량대수
    let mut muryang = String::from("1");
    muryang.push_str(&"0".repeat(68));
    assert_eq!(to_sino_korean_str(&muryang), "일무량대수");
    // mixed groups across high magnitudes: 5 * 10^68 + 3
    let mut mixed = String::from("5");
    mixed.push_str(&"0".repeat(67));
    mixed.push('3');
    assert_eq!(to_sino_korean_str(&mixed), "오무량대수삼");
}

#[test]
fn test_integer_native() {
    assert_eq!(cv("1", "개"), "한개");
    assert_eq!(cv("2", "살"), "두살");
    assert_eq!(cv("5", "마리"), "다섯마리");
    assert_eq!(cv("10", "명"), "열명");
    assert_eq!(cv("23", "잔"), "스물세잔");
    assert_eq!(cv("99", "번"), "아흔아홉번");
}

#[test]
fn test_integer_sino_large() {
    assert_eq!(cv("100", "개"), "백개");
    assert_eq!(cv("150", "장"), "백오십장");
    assert_eq!(cv("1000", "권"), "천권");
}

#[test]
fn test_decimal_sino() {
    assert_eq!(cv("1.5", "개"), "일쩜오개");
    assert_eq!(cv("2.3", "살"), "이쩜삼살");
    assert_eq!(cv("10.75", "잔"), "십쩜칠오잔");
}

#[test]
fn test_decimal_trailing_zero_stripped() {
    assert_eq!(cv("1.50", "개"), "일쩜오개");
    assert_eq!(cv("2.10", "명"), "이쩜일명");
}

#[test]
fn test_whitespace_between_number_and_unit() {
    assert_eq!(process(input("3 개")).text, "세개");
    assert_eq!(process(input("1.5  마리")).text, "일쩜오마리");
}

#[test]
fn test_no_match_passthrough() {
    assert_eq!(process(input("hello")).text, "hello");
    assert_eq!(process(input("abc개")).text, "abc개");
}

#[test]
fn test_replace_comma_price() {
    assert_eq!(process(input("123,456원")).text, "십이만삼천사백오십육원");
    assert_eq!(process(input("가격은 1,000원입니다")).text, "가격은 천원입니다");
}

#[test]
fn test_replace_multiple_numbers() {
    assert_eq!(
        process(input("3번 버스를 10분 기다렸다")).text,
        "삼번 버스를 십분 기다렸다"
    );
}

#[test]
fn test_replace_decimal_in_text() {
    assert_eq!(process(input("무게는 1.5kg")).text, "무게는 일쩜오kg");
}

#[test]
fn test_replace_preserves_non_numbers() {
    assert_eq!(process(input("hello")).text, "hello");
    assert_eq!(process(input("abc개")).text, "abc개");
}

#[test]
fn test_replace_zero() {
    assert_eq!(process(input("재고 0")).text, "재고 영");
}

#[test]
fn test_replace_dot_not_decimal() {
    assert_eq!(process(input("끝났다. 100개 남았다")).text, "끝났다. 백개 남았다");
}

#[test]
fn test_all_units_match() {
    for unit in native_counters() {
        assert!(convert("3", unit).is_some(), "unit {unit} did not match");
    }
}
