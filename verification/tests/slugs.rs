use blag::utils::{format_datetime, format_safe_text, slug_from_lowercase, MAX_SLUG_LEN};

#[test]
fn slug_of_plain_title() {
    assert_eq!(format_safe_text("Hello World"), "hello_world");
}

#[test]
fn slug_is_lower_case() {
    assert_eq!(format_safe_text("ReadMe"), "readme");
}

#[test]
fn slug_replaces_every_kind_of_white_space() {
    assert_eq!(format_safe_text("a b\tc\nd\u{a0}e\u{3000}f"), "a_b_c_d_e_f");
}

#[test]
fn slug_replaces_unsafe_punctuation_with_hyphen() {
    assert_eq!(format_safe_text("a/b:c?d!e.f"), "a-b-c-d-e-f");
}

#[test]
fn slug_drops_everything_else() {
    assert_eq!(format_safe_text("C++ & Rust (2024) #1 \u{e9}t\u{e9}"), "c__rust_2024_1_t");
}

#[test]
fn slug_keeps_underscore_and_hyphen() {
    assert_eq!(format_safe_text("already_safe-name-01"), "already_safe-name-01");
}

#[test]
fn slug_of_empty_title_is_empty() {
    assert_eq!(format_safe_text(""), "");
    assert_eq!(format_safe_text("\u{4f60}\u{597d}"), "");
}

#[test]
fn slug_follows_unicode_lower_case() {
    // U+212A KELVIN SIGN is a capital whose lower case is the letter k.
    assert_eq!(format_safe_text("\u{212a}elvin"), "kelvin");
    // U+0130 lowers to an i followed by a combining dot, which is dropped.
    assert_eq!(format_safe_text("\u{130}stanbul"), "istanbul");
}

#[test]
fn slug_is_cut_to_the_maximum_length() {
    let long = "a".repeat(MAX_SLUG_LEN + 25);
    let slug = format_safe_text(&long);
    assert_eq!(slug.len(), MAX_SLUG_LEN);
    assert_eq!(slug, "a".repeat(MAX_SLUG_LEN));
    let exact = "b".repeat(MAX_SLUG_LEN);
    assert_eq!(format_safe_text(&exact), exact);
}

#[test]
fn slug_is_cut_after_dropping() {
    let mut title = String::new();
    for _ in 0..MAX_SLUG_LEN {
        title.push_str("x#");
    }
    assert_eq!(format_safe_text(&title), "x".repeat(MAX_SLUG_LEN));
}

#[test]
fn slug_derivation_is_idempotent() {
    for title in ["Hello World", "a/b:c?d!e.f", "  spaced  out  ", "MiXeD_case-99", ""] {
        let once = format_safe_text(title);
        let twice = format_safe_text(&once);
        assert_eq!(once, twice);
    }
}

#[test]
fn slug_from_lowercase_does_not_lower() {
    // The caller owes the lower case: capitals are dropped like any other
    // character outside the slug alphabet.
    assert_eq!(slug_from_lowercase("Hello World"), "ello_orld");
    assert_eq!(slug_from_lowercase("hello world"), "hello_world");
}

#[test]
fn date_text_at_the_epoch() {
    assert_eq!(format_datetime(0, 0), Some("January  1, 1970".to_string()));
}

#[test]
fn date_text_with_two_digit_day() {
    // 2024-03-15 12:00:00 UTC
    assert_eq!(format_datetime(1_710_504_000, 0), Some("March 15, 2024".to_string()));
}

#[test]
fn date_text_depends_on_the_offset() {
    // 2023-12-31 23:30:00 UTC
    let t = 1_704_065_400;
    assert_eq!(format_datetime(t, 0), Some("December 31, 2023".to_string()));
    assert_eq!(format_datetime(t, 3600), Some("January  1, 2024".to_string()));
    assert_eq!(format_datetime(0, -3600), Some("December 31, 1969".to_string()));
}

#[test]
fn date_text_ends_where_the_calendar_ends() {
    assert!(format_datetime(8_210_266_876_799, 0).is_some());
    assert!(format_datetime(8_210_266_876_799, 86_399).is_some());
    assert!(format_datetime(8_210_266_876_799, -86_399).is_some());
    assert_eq!(format_datetime(8_210_266_876_800, 0), None);
    assert_eq!(format_datetime(u64::MAX, 0), None);
}

#[test]
fn date_text_needs_an_offset_of_less_than_a_day() {
    assert_eq!(format_datetime(0, 86_400), None);
    assert_eq!(format_datetime(0, -86_400), None);
    assert!(format_datetime(0, 86_399).is_some());
    assert!(format_datetime(0, -86_399).is_some());
}
