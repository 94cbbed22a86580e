use argos_engine::limits::{
    clamp_limit, clamp_page, truncate_source, DEFAULT_LIMIT, MAX_LIMIT, SOURCE_MAX_CHARS,
};
use argos_engine::text::truncate_string;

#[test]
fn limit_is_clamped() {
    assert_eq!(clamp_limit(None), DEFAULT_LIMIT);
    assert_eq!(clamp_limit(Some(0)), 1);
    assert_eq!(clamp_limit(Some(9999)), MAX_LIMIT);
}

#[test]
fn page_never_below_one() {
    assert_eq!(clamp_page(None), 1);
    assert_eq!(clamp_page(Some(0)), 1);
}

#[test]
fn limits_inside_the_range_are_kept() {
    assert_eq!(clamp_limit(Some(1)), 1);
    assert_eq!(clamp_limit(Some(25)), 25);
    assert_eq!(clamp_limit(Some(50)), 50);
    assert_eq!(clamp_limit(Some(51)), 50);
    assert_eq!(clamp_page(Some(7)), 7);
}

#[test]
fn truncation_keeps_short_text() {
    assert_eq!(truncate_string("short", 10), "short");
    assert_eq!(truncate_string("exactly10!", 10), "exactly10!");
    assert_eq!(truncate_string("", 3), "");
}

#[test]
fn truncation_cuts_by_characters_and_appends_ellipsis() {
    assert_eq!(truncate_string("abcdefghijk", 10), "abcdefghij...");
    // Characters, not bytes: four two-byte letters cut at two.
    assert_eq!(truncate_string("ñañá", 2), "ña...");
    assert_eq!(truncate_string("abc", 0), "...");
}

#[test]
fn source_budget_is_enforced() {
    let long = "a".repeat(40);
    let cut = truncate_source(&long);
    assert_eq!(cut.chars().count(), SOURCE_MAX_CHARS + 3);
    assert!(cut.ends_with("..."));
    assert_eq!(truncate_source("example.com"), "example.com");
}
