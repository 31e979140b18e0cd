use mappers::mapper::{Input, MappingList, TextRule};
use mappers::{emoji_replacer, process_markdown, remove_code_block, remove_parentheses, remove_url};

fn input(text: &str) -> Input {
    Input {
        text: text.to_string(),
        mapping_list: None,
    }
}

/// A small deterministic generator of test strings over a given alphabet.
fn strings(alphabet: &[char], count: usize, max_len: usize) -> Vec<String> {
    let mut state: u64 = 0x2545_f491_4f6c_dd1d;
    let mut out = Vec::new();
    for _ in 0..count {
        state ^= state << 13;
        state ^= state >> 7;
        state ^= state << 17;
        let len = (state % (max_len as u64 + 1)) as usize;
        let mut s = String::new();
        for _ in 0..len {
            state ^= state << 13;
            state ^= state >> 7;
            state ^= state << 17;
            s.push(alphabet[(state % alphabet.len() as u64) as usize]);
        }
        out.push(s);
    }
    out
}

fn regex_replace(pattern: &str, text: &str, rep: &str) -> String {
    regex::Regex::new(pattern).unwrap().replace_all(text, rep).into_owned()
}

#[test]
fn parentheses_removed() {
    assert_eq!(remove_parentheses::process(input("안녕(하세요)반가워")).text, "안녕반가워");
    assert_eq!(remove_parentheses::process(input("(a(b)c)")).text, "c)");
    assert_eq!(remove_parentheses::process(input("(unclosed")).text, "(unclosed");
    assert_eq!(remove_parentheses::process(input("()x")).text, "x");
}

#[test]
fn parentheses_agree_with_regex() {
    for s in strings(&['(', ')', 'a', '\n', ' '], 3000, 12) {
        assert_eq!(
            remove_parentheses::process(input(&s)).text,
            regex_replace(r"\([^)]*\)", &s, ""),
            "input {s:?}"
        );
    }
}

#[test]
fn url_replaced() {
    assert_eq!(remove_url::process(input("see https://a.b/c now")).text, "see 링크 now");
    assert_eq!(remove_url::process(input("http:// x")).text, "http:// x");
    assert_eq!(remove_url::process(input("xhttps://y")).text, "x링크");
    assert_eq!(remove_url::process(input("HTTP://y")).text, "HTTP://y");
}

#[test]
fn url_agrees_with_regex() {
    for s in strings(&['h', 't', 'p', 's', ':', '/', 'x', ' ', '\u{3000}'], 6000, 14) {
        assert_eq!(
            remove_url::process(input(&s)).text,
            regex_replace(r"https?://[^\s]+", &s, "링크"),
            "input {s:?}"
        );
    }
    for s in ["http://a", "https://b c", "httphttp://x", "https://", "http://https://q"] {
        assert_eq!(
            remove_url::process(input(s)).text,
            regex_replace(r"https?://[^\s]+", s, "링크")
        );
    }
}

#[test]
fn code_block_replaced() {
    assert_eq!(remove_code_block::process(input("a```code\nmore```b")).text, "a코드b");
    assert_eq!(remove_code_block::process(input("``````")).text, "코드");
    assert_eq!(remove_code_block::process(input("```x")).text, "```x");
}

#[test]
fn code_block_agrees_with_regex() {
    for s in strings(&['`', 'a', '\n'], 6000, 14) {
        assert_eq!(
            remove_code_block::process(input(&s)).text,
            regex_replace(r"(?s)```.*?```", &s, "코드"),
            "input {s:?}"
        );
    }
}

#[test]
fn markdown_read() {
    assert_eq!(process_markdown::process(input("~~a~~")).text, "a");
    assert_eq!(process_markdown::process(input("~~a\nb~~")).text, "~~a\nb~~");
    assert_eq!(process_markdown::process(input("~~~a~~")).text, "~a");
    assert_eq!(process_markdown::process(input("[label](http://x)")).text, "링크와 함께 label");
    assert_eq!(process_markdown::process(input("[[a](b)")).text, "링크와 함께 [a");
    assert_eq!(process_markdown::process(input("[](x)")).text, "[](x)");
}

#[test]
fn markdown_agrees_with_regex() {
    for s in strings(&['~', 'a', '\n', '[', ']', '(', ')'], 8000, 14) {
        let expected = regex_replace(r"~~(.+?)~~", &s, "$1");
        let expected = regex_replace(r"\[([^\]]+)\]\([^)]+\)", &expected, "링크와 함께 $1");
        assert_eq!(process_markdown::process(input(&s)).text, expected, "input {s:?}");
    }
}

fn rules_input(text: &str, rules: Vec<(&str, &str, bool)>) -> Input {
    Input {
        text: text.to_string(),
        mapping_list: Some(MappingList {
            text_rules: rules
                .into_iter()
                .map(|(pattern, replacement, case_sensitive)| TextRule {
                    pattern: pattern.to_string(),
                    replacement: replacement.to_string(),
                    case_sensitive,
                })
                .collect(),
        }),
    }
}

#[test]
fn replacement_rules_in_order() {
    let out = emoji_replacer::process(rules_input(
        "Hello hello",
        vec![("hello", "안녕", true), ("안녕", "반가워", false)],
    ));
    assert_eq!(out.text, "Hello 반가워");
    let out = emoji_replacer::process(rules_input("Hello hello", vec![("hello", "안녕", false)]));
    assert_eq!(out.text, "안녕 안녕");
}

#[test]
fn replacement_rule_groups_and_invalid_patterns() {
    let out = emoji_replacer::process(rules_input(
        "ab12",
        vec![("(", "x", true), (r"([a-z]+)(\d+)", "$2$1", true)],
    ));
    assert_eq!(out.text, "12ab");
}

#[test]
fn no_rules_passthrough() {
    assert_eq!(emoji_replacer::process(input("그대로")).text, "그대로");
    assert_eq!(emoji_replacer::process(rules_input("그대로", vec![])).text, "그대로");
}

#[test]
fn rule_lists_compose() {
    let joined = emoji_replacer::process(rules_input("aXa", vec![("a", "b", true), ("b", "c", true)]));
    let first = emoji_replacer::process(rules_input("aXa", vec![("a", "b", true)]));
    let second = emoji_replacer::process(rules_input(&first.text, vec![("b", "c", true)]));
    assert_eq!(joined.text, second.text);
    assert_eq!(joined.text, "cXc");
}
