use mappers::mapper::{Input, Output};
use mappers::supertonic_block::process;

fn make_input(text: &str) -> Input {
    Input {
        text: text.to_string(),
        mapping_list: None,
    }
}

/// Helper: returns true if the output blocks TTS (whitespace-only text + pipeline override).
fn is_blocked(output: &Output) -> bool {
    output.text.trim().is_empty() && output.override_future_mappers == Some(vec![])
}

// ── Pure punctuation (should be BLOCKED) ──

#[test]
fn block_repeated_exclamations() {
    let out = process(make_input("!!!!!!!!!!!!!!!!"));
    assert!(is_blocked(&out), "should block: !!!!!!!!!!!!!!!!");
}

#[test]
fn block_exclamation_tilde_mixed() {
    let out = process(make_input("!~!~!~!!~!~!~!"));
    assert!(is_blocked(&out), "should block: !~!~!~!!~!~!~!");
}

#[test]
fn block_exclamation_tilde_alternating() {
    let out = process(make_input("!~!~!~!~!"));
    assert!(is_blocked(&out), "should block: !~!~!~!~!");
}

#[test]
fn block_short_exclamation_tilde() {
    let out = process(make_input("!~!"));
    assert!(is_blocked(&out), "should block: !~!");
}

#[test]
fn block_two_exclamations() {
    let out = process(make_input("!!"));
    assert!(is_blocked(&out), "should block: !!");
}

#[test]
fn block_three_exclamations() {
    let out = process(make_input("!!!"));
    assert!(is_blocked(&out), "should block: !!!");
}

#[test]
fn block_repeated_tildes() {
    let out = process(make_input("~~~~"));
    assert!(is_blocked(&out), "should block: ~~~~");
}

#[test]
fn block_exclamation_tilde_pair() {
    let out = process(make_input("!~"));
    assert!(is_blocked(&out), "should block: !~");
}

#[test]
fn block_quotes_cluster() {
    let out = process(make_input("'''''''"));
    assert!(is_blocked(&out), "should block: '''''''");
}

#[test]
fn block_exclamations_with_spaces() {
    let out = process(make_input("!! !! !!"));
    assert!(is_blocked(&out), "should block: !! !! !!");
}

// ── Korean exclamation noise (should be BLOCKED) ──

#[test]
fn block_korean_excl_noise_short() {
    let out = process(make_input("아!ㅇ!아!ㅏ"));
    assert!(is_blocked(&out), "should block: 아!ㅇ!아!ㅏ");
}

#[test]
fn block_korean_excl_noise_long() {
    let text = "아!ㅇ!아!!ㅏㅏㅇ!!아!아!ㅇ!아!!ㅏㅏㅇ!!아!아!ㅇ!아!!ㅏㅏㅇ!!아!아!ㅇ!아!!ㅏㅏㅇ!!아!아!ㅇ!아!!ㅏㅏㅇ!!아!아!ㅇ!아!!ㅏㅏㅇ!!아!아!ㅇ!아!!ㅏㅏㅇ!!아!";
    let out = process(make_input(text));
    assert!(
        is_blocked(&out),
        "should block: long Korean exclamation noise"
    );
}

#[test]
fn block_korean_excl_noise_repeated_syllable() {
    let out = process(make_input("와!와!와!와!"));
    assert!(is_blocked(&out), "should block: 와!와!와!와!");
}

// ── Low-diversity noise (should be BLOCKED) ──

#[test]
fn block_korean_low_diversity_repeated_clusters() {
    let out = process(make_input("ㅎㅎㅎㅏㅏ!ㅎㅎㅎㅏㅏ!ㅎㅎㅎㅏㅏ!"));
    assert!(
        is_blocked(&out),
        "should block: ㅎㅎㅎㅏㅏ!ㅎㅎㅎㅏㅏ!ㅎㅎㅎㅏㅏ!"
    );
}

#[test]
fn block_korean_low_diversity_single_char() {
    // Has punctuation (!) mixed in → low_diversity catches it
    let out = process(make_input("ㅋㅋㅋ!ㅋㅋㅋ!ㅋㅋㅋ!"));
    assert!(
        is_blocked(&out),
        "should block: ㅋ×9 with ! (low diversity)"
    );
}

// ── High punctuation ratio noise (should be BLOCKED) ──

#[test]
fn block_korean_high_punct_ratio() {
    let text = "쁘!!-에!이!!ㅡ!-ㅇ!!ㅎ!!흫!이-흐!!!흐헿!ㅎ!ㅎ!!헤하!!핳ㅎㅎㅏ!";
    let out = process(make_input(text));
    assert!(
        is_blocked(&out),
        "should block: Korean punctuation-heavy noise"
    );
}

// ── Normal text (should NOT be blocked) ──

#[test]
fn pass_single_exclamation() {
    let out = process(make_input("!"));
    assert!(!is_blocked(&out), "single ! should not be blocked");
    assert_eq!(out.text, "!");
}

#[test]
fn pass_normal_text_with_exclamations() {
    let out = process(make_input("Hello!!!"));
    assert!(!is_blocked(&out), "Hello!!! should not be blocked");
    assert_eq!(out.text, "Hello");
}

#[test]
fn pass_korean_text() {
    let out = process(make_input("안녕하세요"));
    assert!(!is_blocked(&out), "Korean text should not be blocked");
    assert_eq!(out.text, "안녕하세요");
}

#[test]
fn pass_korean_with_exclamations() {
    let out = process(make_input("안녕!!!"));
    assert!(!is_blocked(&out), "안녕!!! should not be blocked");
    assert_eq!(out.text, "안녕");
}

#[test]
fn pass_mixed_text() {
    let out = process(make_input("Hello! World!"));
    assert!(!is_blocked(&out), "Hello! World! should not be blocked");
    assert_eq!(out.text, "Hello! World!");
}

#[test]
fn pass_empty_string() {
    let out = process(make_input(""));
    assert!(!is_blocked(&out), "empty string should not be 'blocked'");
    assert_eq!(out.text, "");
}

#[test]
fn pass_whitespace_only() {
    let out = process(make_input("   "));
    assert!(!is_blocked(&out), "whitespace-only should not be 'blocked'");
    assert_eq!(out.text, "");
}

#[test]
fn pass_exclamations_around_text() {
    let out = process(make_input("!!!Hello!!!"));
    assert!(!is_blocked(&out), "!!!Hello!!! should not be blocked");
    assert_eq!(out.text, "Hello");
}

// ── Korean exclamation boundary (should NOT be blocked) ──

#[test]
fn pass_korean_single_exclamation() {
    let out = process(make_input("안녕!"));
    assert!(!is_blocked(&out), "안녕! should not be blocked");
}

#[test]
fn pass_korean_two_words_with_exclamations() {
    let out = process(make_input("안녕! 반가워!"));
    assert!(!is_blocked(&out), "안녕! 반가워! should not be blocked");
}

#[test]
fn pass_korean_many_unique_with_exclamations() {
    // 4 unique syllables — above the ≤3 threshold
    let out = process(make_input("진짜!대박!진짜!대박!"));
    assert!(
        !is_blocked(&out),
        "진짜!대박!진짜!대박! should not be blocked"
    );
}

#[test]
fn pass_english_exclamation_between_words() {
    let out = process(make_input("Hello!World!Go!"));
    assert!(!is_blocked(&out), "Hello!World!Go! should not be blocked");
}

// ── Low-diversity boundary (should NOT be blocked) ──

#[test]
fn pass_korean_short_laughter() {
    let out = process(make_input("ㅋㅋㅋ"));
    assert!(!is_blocked(&out), "ㅋㅋㅋ should not be blocked");
}

#[test]
fn pass_korean_four_unique_no_space() {
    // 4 unique syllables, no punctuation → passes (reduce_repeats handles it)
    let out = process(make_input("진짜대박진짜대박"));
    assert!(!is_blocked(&out), "진짜대박진짜대박 should not be blocked");
}

// ── High punctuation ratio boundary (should NOT be blocked) ──

#[test]
fn pass_text_with_some_punctuation() {
    // 10 non-ws chars, 8 alphanumeric → 80% → pass
    let out = process(make_input("Wow!!! That's"));
    assert!(!is_blocked(&out), "Wow!!! That's should not be blocked");
}

#[test]
fn pass_short_text_high_punct() {
    // < 10 non-ws chars → detector skips
    let out = process(make_input("!!Hi!!"));
    assert!(
        !is_blocked(&out),
        "!!Hi!! should not be blocked (too short)"
    );
}

// ── reduce_repeats tests ──

#[test]
fn reduce_repeated_chars() {
    let out = process(make_input("wwwwwwhat"));
    assert!(!is_blocked(&out));
    assert_eq!(out.text, "what");
}

#[test]
fn reduce_alternating_pairs() {
    let out = process(make_input("hahahahahaha"));
    assert!(!is_blocked(&out));
    assert_eq!(out.text, "ha");
}
