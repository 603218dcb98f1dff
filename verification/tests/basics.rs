use treeq::clipboard::base64_encode;
use treeq::color::{code_for, paint, paint_depth, Color, ColorMode, DEPTH_TINT_COUNT};
use treeq::detect::{detect_format, Format};

#[test]
fn encodes_rfc4648_test_vectors() {
    assert_eq!(base64_encode(b""), "");
    assert_eq!(base64_encode(b"f"), "Zg==");
    assert_eq!(base64_encode(b"fo"), "Zm8=");
    assert_eq!(base64_encode(b"foo"), "Zm9v");
    assert_eq!(base64_encode(b"foob"), "Zm9vYg==");
    assert_eq!(base64_encode(b"fooba"), "Zm9vYmE=");
    assert_eq!(base64_encode(b"foobar"), "Zm9vYmFy");
}

#[test]
fn wraps_text_in_ansi_codes_when_enabled() {
    assert_eq!(paint("foo", Color::Key, ColorMode::Ansi16), "\x1b[36mfoo\x1b[0m");
}

#[test]
fn returns_plain_text_when_disabled() {
    assert_eq!(paint("foo", Color::Key, ColorMode::Off), "foo");
}

#[test]
fn wraps_text_in_truecolor_codes_in_the_truecolor_tier() {
    assert_eq!(
        paint("foo", Color::Key, ColorMode::Truecolor),
        "\x1b[38;2;86;182;194mfoo\x1b[0m"
    );
}

#[test]
fn ansi16_tier_uses_the_original_16_color_codes() {
    assert_eq!(code_for(Color::Key, ColorMode::Ansi16), "\x1b[36m");
    assert_eq!(code_for(Color::Str, ColorMode::Ansi16), "\x1b[32m");
    assert_eq!(code_for(Color::Number, ColorMode::Ansi16), "\x1b[33m");
    assert_eq!(code_for(Color::Bool, ColorMode::Ansi16), "\x1b[35m");
    assert_eq!(code_for(Color::Null, ColorMode::Ansi16), "\x1b[90m");
    assert_eq!(code_for(Color::Structure, ColorMode::Ansi16), "\x1b[2m");
}

#[test]
fn truecolor_tier_gives_every_semantic_bucket_a_distinct_24_bit_code() {
    let codes: std::collections::HashSet<&str> =
        [Color::Key, Color::Str, Color::Number, Color::Bool, Color::Null]
            .map(|c| code_for(c, ColorMode::Truecolor))
            .into_iter()
            .collect();
    assert_eq!(codes.len(), 5, "every non-structural bucket must be distinct");
    for c in codes {
        assert!(c.starts_with("\x1b[38;2;"), "expected a 24-bit truecolor escape, got {c:?}");
    }
}

#[test]
fn structural_stays_a_plain_dim_modifier_in_both_tiers() {
    assert_eq!(code_for(Color::Structure, ColorMode::Ansi16), "\x1b[2m");
    assert_eq!(code_for(Color::Structure, ColorMode::Truecolor), "\x1b[2m");
}

#[test]
fn detect_is_off_when_the_caller_says_color_is_disabled() {
    assert_eq!(ColorMode::detect(false, false), ColorMode::Off);
    assert_eq!(ColorMode::detect(false, true), ColorMode::Off);
}

#[test]
fn detect_picks_a_real_tier_when_the_caller_says_color_is_enabled() {
    // Whichever tier the terminal supports, `detect` must not report `Off`
    // when the caller says color is on.
    assert_ne!(ColorMode::detect(true, false), ColorMode::Off);
    assert_ne!(ColorMode::detect(true, true), ColorMode::Off);
}

#[test]
fn detect_picks_truecolor_only_when_the_terminal_supports_it() {
    assert_eq!(ColorMode::detect(true, true), ColorMode::Truecolor);
    assert_eq!(ColorMode::detect(true, false), ColorMode::Ansi16);
}

#[test]
fn color_mode_enabled_matches_whether_it_is_off() {
    assert!(!ColorMode::Off.enabled());
    assert!(ColorMode::Ansi16.enabled());
    assert!(ColorMode::Truecolor.enabled());
}

#[test]
fn depth_tints_cycle_through_distinct_codes() {
    let tints: std::collections::HashSet<String> =
        (0..DEPTH_TINT_COUNT).map(|d| paint_depth("x", d, true)).collect();
    assert_eq!(
        tints.len(),
        DEPTH_TINT_COUNT,
        "every depth in one full cycle must get a distinct tint"
    );
}

#[test]
fn color_depth_tint_wraps_around_past_the_palette_length() {
    assert_eq!(paint_depth("x", 0, true), paint_depth("x", DEPTH_TINT_COUNT, true));
}

#[test]
fn depth_zero_matches_the_original_plain_structural_dim() {
    assert_eq!(paint_depth("x", 0, true), "\x1b[2mx\x1b[0m");
}

#[test]
fn depth_tint_returns_plain_text_when_disabled() {
    assert_eq!(paint_depth("x", 3, false), "x");
}

#[test]
fn detects_xml_from_leading_angle_bracket() {
    assert_eq!(detect_format("  <root/>"), Some(Format::Xml));
}

#[test]
fn detects_json_otherwise() {
    assert_eq!(detect_format(r#"{"a": 1}"#), Some(Format::Json));
}

#[test]
fn returns_none_for_empty_input() {
    assert_eq!(detect_format("   "), None);
}
