use llama_monitor::ui::{byte_magnitude, fmt_byte_count, fmt_count, fmt_ctx, param_magnitude, shorten_model_id, slot_state, Magnitude, SlotState};

#[test]
fn shorten_drops_the_org() {
    assert_eq!(shorten_model_id("unsloth/Qwen3-8B-GGUF:Q4_K_M"), "Qwen3-8B-GGUF:Q4_K_M");
    assert_eq!(shorten_model_id("plain"), "plain");
    assert_eq!(shorten_model_id("a/b/c"), "c");
    assert_eq!(shorten_model_id("org/"), "");
}

#[test]
fn shorten_keeps_the_end_of_long_ids() {
    assert_eq!(shorten_model_id("org/0123456789abcdefghijklmnopqrstuvwxyz"), "…6789abcdefghijklmnopqrstuvwxyz");
    let s = shorten_model_id("org/abcdefghijklmnopqrstuvwxyz0123456789");
    assert_eq!(s.chars().count(), 31);
    // exactly 32 bytes stays as it is
    let t = "abcdefghijklmnopqrstuvwxyz012345";
    assert_eq!(t.len(), 32);
    assert_eq!(shorten_model_id(t), t);
}

#[test]
fn shorten_with_multibyte_characters() {
    // 33 bytes but only 32 characters: the last 30 characters are kept
    let id = format!("é{}", "x".repeat(31));
    assert_eq!(shorten_model_id(&id), format!("…{}", "x".repeat(30)));
    // 11 three-byte characters: over 32 bytes, fewer than 30 characters
    let cjk = "日".repeat(11);
    assert_eq!(shorten_model_id(&cjk), format!("…{cjk}"));
    // a character that straddles byte 31 from the end is no problem
    let id = format!("xx{}", "é".repeat(40));
    assert_eq!(shorten_model_id(&id), format!("…{}", "é".repeat(30)));
}

#[test]
fn fmt_ctx_units() {
    assert_eq!(fmt_ctx(0), "0");
    assert_eq!(fmt_ctx(999), "999");
    assert_eq!(fmt_ctx(1_000), "1k");
    assert_eq!(fmt_ctx(32_768), "32k");
    assert_eq!(fmt_ctx(999_999), "999k");
    assert_eq!(fmt_ctx(1_000_000), "1M");
    assert_eq!(fmt_ctx(131_072_000), "131M");
}

#[test]
fn magnitudes() {
    assert_eq!(byte_magnitude(0), Magnitude::Units);
    assert_eq!(byte_magnitude(1_048_575), Magnitude::Units);
    assert_eq!(byte_magnitude(1_048_576), Magnitude::Mega);
    assert_eq!(byte_magnitude(1_073_741_823), Magnitude::Mega);
    assert_eq!(byte_magnitude(1_073_741_824), Magnitude::Giga);
    assert_eq!(param_magnitude(999_999), Magnitude::Units);
    assert_eq!(param_magnitude(1_000_000), Magnitude::Mega);
    assert_eq!(param_magnitude(7_000_000_000), Magnitude::Giga);
}

#[test]
fn slot_states() {
    assert_eq!(slot_state(true, true), SlotState::Prefill);
    assert_eq!(slot_state(true, false), SlotState::Prefill);
    assert_eq!(slot_state(false, true), SlotState::Generate);
    assert_eq!(slot_state(false, false), SlotState::Idle);
}

#[test]
fn plain_counts() {
    assert_eq!(fmt_byte_count(0), "0B");
    assert_eq!(fmt_byte_count(1023), "1023B");
    assert_eq!(fmt_count(0), "0");
    assert_eq!(fmt_count(999_999), "999999");
}
