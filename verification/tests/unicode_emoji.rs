use mappers::mapper::Input;
use mappers::unicode_emoji::{process, EmojiTable};

/// The readings that these tests look up, sorted by key as the generated table is.
fn table() -> EmojiTable {
    let mut entries: Vec<(String, String)> = vec![
        ("😀".to_string(), "활짝 웃는 얼굴".to_string()),
        ("👋🏻".to_string(), "흔드는 손: 하얀 피부".to_string()),
        ("👨\u{200d}👩\u{200d}👦".to_string(), "가족: 남자 여자 남자 아이".to_string()),
        ("❤".to_string(), "빨간색 하트".to_string()),
        ("🇰🇷".to_string(), "깃발: 대한민국".to_string()),
        ("🇺🇸".to_string(), "깃발: 미국".to_string()),
        (
            "🏴\u{e0067}\u{e0062}\u{e0065}\u{e006e}\u{e0067}\u{e007f}".to_string(),
            "깃발: 잉글랜드".to_string(),
        ),
    ];
    entries.sort();
    EmojiTable::from_sorted(entries).unwrap()
}

fn run(text: &str) -> String {
    process(
        Input {
            text: text.to_string(),
            mapping_list: None,
        },
        &table(),
    )
    .text
}

#[test]
fn base_emoji() {
    assert_eq!(run("😀"), "활짝 웃는 얼굴");
}

#[test]
fn skin_tone_modifier() {
    assert_eq!(run("👋🏻"), "흔드는 손: 하얀 피부");
}

#[test]
fn zwj_family_sequence() {
    assert_eq!(run("👨‍👩‍👦"), "가족: 남자 여자 남자 아이");
}

#[test]
fn variation_selector_normalized() {
    assert_eq!(run("❤"), run("❤️"));
    assert_eq!(run("❤"), "빨간색 하트");
}

#[test]
fn country_flag() {
    assert_eq!(run("🇰🇷"), "깃발: 대한민국");
    assert_eq!(run("🇺🇸"), "깃발: 미국");
}

#[test]
fn subdivision_tag_flag() {
    assert_eq!(run("🏴󠁧󠁢󠁥󠁮󠁧󠁿"), "깃발: 잉글랜드");
}

#[test]
fn mixed_text_preserves_punctuation_and_spacing() {
    assert_eq!(run("안녕!😀?"), "안녕!활짝 웃는 얼굴?");
}

#[test]
fn non_emoji_passthrough() {
    assert_eq!(run("Hello, 안녕하세요!"), "Hello, 안녕하세요!");
}

#[test]
fn unsorted_table_is_refused() {
    let entries = vec![
        ("😀".to_string(), "활짝 웃는 얼굴".to_string()),
        ("❤".to_string(), "빨간색 하트".to_string()),
    ];
    assert!(EmojiTable::from_sorted(entries).is_none());
    let duplicate = vec![
        ("❤".to_string(), "a".to_string()),
        ("❤".to_string(), "b".to_string()),
    ];
    assert!(EmojiTable::from_sorted(duplicate).is_none());
}

#[test]
fn lookup_misses_between_keys() {
    let t = table();
    assert!(t.lookup(&"☺".chars().collect()).is_none());
    assert!(t.lookup(&"😁".chars().collect()).is_none());
    assert_eq!(t.lookup(&"😀".chars().collect()).unwrap(), "활짝 웃는 얼굴");
}
