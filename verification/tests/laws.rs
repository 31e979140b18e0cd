use mappers::korean_counting::{convert, native_counters, process as count, replace_numbers};
use mappers::native_korean::to_native_korean;
use mappers::noise::detect_punctuation_only;
use mappers::mapper::Input;
use mappers::noise::detect_high_punctuation_ratio;
use mappers::remove_parentheses;
use mappers::replace_mention::{replace_channel_mentions, replace_user_mentions};
use mappers::sino_korean::{to_sino_korean, to_sino_korean_str};
use mappers::supertonic_block::{process as clean, process_normalized, reduce_once, reduce_repeats};
use mappers::text::is_whitespace;

fn input(text: &str) -> Input {
    Input {
        text: text.to_string(),
        mapping_list: None,
    }
}

fn strings(alphabet: &[char], count: usize, max_len: usize, seed: u64) -> Vec<String> {
    let mut state: u64 = seed;
    let mut next = move || {
        state ^= state << 13;
        state ^= state >> 7;
        state ^= state << 17;
        state
    };
    (0..count)
        .map(|_| {
            let len = (next() % (max_len as u64 + 1)) as usize;
            (0..len).map(|_| alphabet[(next() % alphabet.len() as u64) as usize]).collect()
        })
        .collect()
}

#[test]
fn whitespace_matches_std() {
    for u in 0..=0x10FFFFu32 {
        if let Some(c) = char::from_u32(u) {
            assert_eq!(is_whitespace(c), c.is_whitespace(), "{u:#x}");
        }
    }
}

#[test]
fn sino_reading_ignores_other_characters() {
    assert_eq!(to_sino_korean_str("1,2a3"), to_sino_korean_str("123"));
    assert_eq!(to_sino_korean_str("1,2a3"), "백이십삼");
    assert_eq!(to_sino_korean_str("00123"), to_sino_korean_str("123"));
    assert_eq!(to_sino_korean_str(""), "영");
    assert_eq!(to_sino_korean_str("abc"), "영");
}

#[test]
fn sino_reading_of_edge_numbers() {
    assert_eq!(to_sino_korean(u32::MAX), "사십이억구천사백구십육만칠천이백구십오");
    assert_eq!(to_sino_korean(10001), "일만일");
    assert_eq!(to_sino_korean(100000001), "일억일");
    assert_eq!(to_sino_korean(111), "백십일");
    assert_eq!(to_sino_korean_str(&"1".repeat(76)).chars().count() > 0, true);
}

#[test]
fn counters_longest_first() {
    let counters = native_counters();
    assert_eq!(counters.len(), 29);
    for w in counters.windows(2) {
        assert!(w[0].chars().count() >= w[1].chars().count());
    }
}

/// `convert` as a plain-std function: the number must parse as a float, its
/// integer part as a `u32`, and its fraction must be digits.
fn convert_by_std(num: &str, unit: &str) -> Option<String> {
    num.parse::<f64>().ok()?;
    let (int_str, frac_str) = match num.find('.') {
        Some(p) => (&num[..p], &num[p + 1..]),
        None => (num, ""),
    };
    let integer: u32 = int_str.parse().ok()?;
    let frac = frac_str.trim_end_matches('0');
    let mut out = if !frac.is_empty() || integer > 99 {
        to_sino_korean(integer)
    } else {
        mappers::native_korean::to_native_korean(integer)
    };
    if !frac.is_empty() {
        out.push_str("쩜");
        for c in frac.chars() {
            out.push_str(&to_sino_korean(c.to_digit(10)?));
        }
    }
    out.push_str(unit);
    Some(out)
}

#[test]
fn convert_agrees_with_float_parsing() {
    let alphabet = ['0', '1', '9', '.', '+', '-', 'e', 'E', 'n', 'a', 'i', 'f', ' ', '_', 'x'];
    for s in strings(&alphabet, 40000, 7, 0x9e37_79b9_7f4a_7c15) {
        assert_eq!(convert(&s, "개"), convert_by_std(&s, "개"), "input {s:?}");
    }
    for s in ["+3", "1.", ".5", "4294967295", "4294967296", "1e5", "1.5e3", "inf", "NaN",
        "00099", "99.000", "+.5", "-1", "1.0e0", "١"] {
        assert_eq!(convert(s, "개"), convert_by_std(s, "개"), "input {s:?}");
    }
    assert_eq!(convert("+3", "개").unwrap(), "세개");
    assert_eq!(convert("1.", "개").unwrap(), "한개");
    assert_eq!(convert("1.05", "개").unwrap(), "일쩜영오개");
    assert!(convert(".5", "개").is_none());
    assert!(convert("4294967296", "개").is_none());
}

#[test]
fn counting_edge_cases() {
    assert_eq!(count(input("  hello  ")).text, "hello");
    assert_eq!(count(input("3.5.5개")).text, "삼쩜오.오개");
    assert_eq!(count(input("100마리")).text, "백마리");
    assert_eq!(count(input("20살")).text, "스무살");
    assert_eq!(count(input("1,000원")).text, "천원");
    assert_eq!(count(input("1,,000")).text, "일,,영");
    assert_eq!(count(input("0.0")).text, "영");
    assert_eq!(count(input("")).text, "");
}

#[test]
fn ratio_detector_agrees_with_float_ratio() {
    let alphabet = ['a', '가', '!', '-', ' ', '?'];
    for s in strings(&alphabet, 20000, 40, 0x1234_5678_9abc_def1) {
        let visible: Vec<char> = s.chars().filter(|c| !c.is_whitespace()).collect();
        let expected = visible.len() >= 20
            && (visible.iter().filter(|c| c.is_alphanumeric()).count() as f64
                / visible.len() as f64)
                < 0.5;
        assert_eq!(detect_high_punctuation_ratio(&s.chars().collect()), expected, "{s:?}");
    }
}

#[test]
fn cleaning_edge_cases() {
    let out = clean(input("a*b"));
    assert_eq!(out.text, "a b");
    assert_eq!(out.override_future_mappers, None);
    assert_eq!(clean(input("a^^b")).text, "a b");
    assert_eq!(clean(input("안녕~!~친구")).text, "안녕 친구");
    assert_eq!(clean(input("ㅋㅋㅋㅋㅋ")).text, "ㅋ");
    assert_eq!(clean(input("abababab cd")).text, "ab cd");
    assert_eq!(clean(input("\u{3000}\t")).text, "");
    assert_eq!(process_normalized("  ").text, "");
}

#[test]
fn cleaning_normalizes_first() {
    let decomposed = "\u{110b}\u{1161}\u{11ab}\u{1102}\u{1167}\u{11bc}";
    assert_eq!(clean(input(decomposed)).text, "안녕");
    assert_eq!(process_normalized(decomposed).text, decomposed);
}

#[test]
fn cleaned_text_has_no_markup_or_stars() {
    let alphabet = ['a', 'b', '^', '_', '=', '<', '>', '{', '}', '[', ']', '\\', '|', '`', '*', ' ', '!', '가'];
    for s in strings(&alphabet, 5000, 16, 0xdead_beef_cafe_f00d) {
        let out = clean(input(&s));
        if out.override_future_mappers.is_none() {
            assert!(!out.text.chars().any(|c| "^_=<>{}[]\\|`*".contains(c)), "{s:?} -> {:?}", out.text);
        }
    }
}

#[test]
fn parentheses_leave_no_pair() {
    for s in strings(&['(', ')', 'a'], 5000, 12, 0x0bad_c0de_1234_5678) {
        let out = remove_parentheses::process(input(&s)).text;
        if let Some(open) = out.find('(') {
            assert!(!out[open..].contains(')'), "{s:?} -> {out:?}");
        }
    }
}

#[test]
fn text_without_mentions_is_unchanged() {
    let text = "no mentions <@ here <#x>";
    assert_eq!(replace_user_mentions(text, &vec![None]), text);
    assert_eq!(replace_channel_mentions(text, &vec![Some("c".to_string())]), text);
}

fn chars(s: &str) -> Vec<char> {
    s.chars().collect()
}

#[test]
fn punctuation_only_counts_characters() {
    assert!(!detect_punctuation_only(&chars("…")));
    assert!(!detect_punctuation_only(&chars("  😀  ")));
    assert!(detect_punctuation_only(&chars("……")));
    assert!(detect_punctuation_only(&chars(" ?! ")));
    assert!(!detect_punctuation_only(&chars("?")));
    assert!(!detect_punctuation_only(&chars("?a")));
    let out = clean(input("…"));
    assert_eq!(out.text, "…");
    assert!(out.override_future_mappers.is_none());
}

#[test]
fn native_readings_are_distinct() {
    let mut seen = std::collections::HashSet::new();
    for n in 0..100u32 {
        assert!(seen.insert(to_native_korean(n)), "{n}");
    }
}

#[test]
fn sino_readings_are_distinct_on_samples() {
    let mut seen = std::collections::HashSet::new();
    let mut samples: Vec<u32> = (0..20000).collect();
    samples.extend([100_000_000, 100_000_001, 110_000_000, 1_000_000_000, u32::MAX, u32::MAX - 1]);
    for n in samples {
        assert!(seen.insert(to_sino_korean(n)), "{n}");
    }
}

#[test]
fn replacing_numbers_twice_changes_nothing() {
    for text in ["1,234.50원", "a1b22c333", "3.14와 2,000", "no digits", "", "0.0.1"] {
        let once = replace_numbers(&chars(text));
        assert!(!once.chars().any(|c| c.is_ascii_digit()), "{text}");
        assert_eq!(replace_numbers(&chars(&once)), once, "{text}");
    }
    assert_eq!(replace_numbers(&chars("1,234.50원")), "천이백삼십사쩜오원");
}

#[test]
fn replacing_numbers_splits_at_a_seam_without_numbers() {
    let pairs = [("12 ", "34"), ("12", " 34"), ("가1", "나2"), ("3.", "x"), ("1,", "a"), ("", "5")];
    for (a, b) in pairs {
        let joined = format!("{a}{b}");
        assert_eq!(
            replace_numbers(&chars(&joined)),
            replace_numbers(&chars(a)) + &replace_numbers(&chars(b)),
            "{a}|{b}"
        );
    }
    // a seam inside a number does not split it
    assert_ne!(replace_numbers(&chars("12")), replace_numbers(&chars("1")) + &replace_numbers(&chars("2")));
}

#[test]
fn repeat_reduction_reaches_a_fixpoint() {
    for text in ["wwwwwwhat", "hahahahaha", "ㅋㅋㅋㅋㅋ", "abababx", "aabbaabbaabb", "plain"] {
        let r = reduce_repeats(&chars(text));
        assert_eq!(reduce_once(&r), r, "{text}");
        assert_eq!(reduce_repeats(&r), r, "{text}");
        for w in r.windows(3) {
            assert!(!(w[0] == w[1] && w[1] == w[2]), "{text}");
        }
        for w in r.windows(6) {
            assert!(!(w[0..2] == w[2..4] && w[2..4] == w[4..6]), "{text}");
        }
    }
    assert_eq!(reduce_repeats(&chars("wwwwwwhat")), chars("what"));
    assert_eq!(reduce_repeats(&chars("hahahaha")), chars("ha"));
}
