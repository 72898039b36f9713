use llama_monitor::text::{chars_of, decimal_chars, parse_u16, same_text, text_less};

fn chars(s: &str) -> Vec<char> {
    chars_of(s)
}

#[test]
fn parse_u16_accepts_digits_and_plus() {
    assert_eq!(parse_u16("49341"), Some(49341));
    assert_eq!(parse_u16("+80"), Some(80));
    assert_eq!(parse_u16("0080"), Some(80));
    assert_eq!(parse_u16("0"), Some(0));
    assert_eq!(parse_u16("65535"), Some(65535));
}

#[test]
fn parse_u16_rejects_what_std_rejects() {
    assert_eq!(parse_u16(""), None);
    assert_eq!(parse_u16("+"), None);
    assert_eq!(parse_u16("-1"), None);
    assert_eq!(parse_u16("65536"), None);
    assert_eq!(parse_u16("99999999999999999999"), None);
    assert_eq!(parse_u16("12a"), None);
    assert_eq!(parse_u16(" 12"), None);
    assert_eq!(parse_u16("++1"), None);
    assert_eq!(parse_u16("１２"), None);
}

#[test]
fn parse_u16_agrees_with_std() {
    let samples = [
        "", "+", "-", "0", "1", "+0", "-0", "007", "65535", "65536", "70000", "123456", "+65535",
        "+65536", "1_000", "1e3", "0x10", "٣", "9", "00000000000000000000001", "65534", " ", "1 ",
    ];
    for s in samples.iter() {
        assert_eq!(parse_u16(s), s.parse::<u16>().ok(), "input {:?}", s);
    }
    for n in (0u32..70000).step_by(37) {
        let s = n.to_string();
        assert_eq!(parse_u16(&s), s.parse::<u16>().ok());
    }
}

#[test]
fn decimal_chars_writes_numbers() {
    let d: String = decimal_chars(0).into_iter().collect();
    assert_eq!(d, "0");
    let d: String = decimal_chars(1234567890).into_iter().collect();
    assert_eq!(d, "1234567890");
    let d: String = decimal_chars(u64::MAX).into_iter().collect();
    assert_eq!(d, u64::MAX.to_string());
}

#[test]
fn same_text_compares_characters() {
    assert!(same_text("loaded", "loaded"));
    assert!(!same_text("loaded", "loade"));
    assert!(!same_text("loaded", "Loaded"));
    assert!(same_text("", ""));
    assert!(same_text("héllo", "héllo"));
}

#[test]
fn text_less_agrees_with_string_order() {
    let samples = [
        "", "a", "b", "ab", "abc", "abd", "B", "z", "é", "e", "ü", "日本", "日", "\u{10000}", "\u{ffff}",
        "model-a", "model-b", "model", "Model", "qwen2:7b", "qwen2:72b", "llama3/8b",
    ];
    for a in samples.iter() {
        for b in samples.iter() {
            let expected = a.to_string() < b.to_string();
            assert_eq!(text_less(&chars(a), &chars(b)), expected, "{:?} < {:?}", a, b);
        }
    }
}
