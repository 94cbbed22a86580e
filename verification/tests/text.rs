use argos_engine::text::{
    chars_eq, decimal_string, find_chars, parse_u64_chars, split_chars, to_lower, trim_chars,
    truncate_string,
};

fn v(s: &str) -> Vec<char> {
    s.chars().collect()
}

fn s(v: &[char]) -> String {
    v.iter().collect()
}

#[test]
fn decimal_rendering() {
    assert_eq!(decimal_string(0), "0");
    assert_eq!(decimal_string(429), "429");
    assert_eq!(decimal_string(u64::MAX), "18446744073709551615");
}

#[test]
fn u64_parsing_matches_std() {
    assert_eq!(parse_u64_chars(&v("90")), Some(90));
    assert_eq!(parse_u64_chars(&v("+7")), Some(7));
    assert_eq!(parse_u64_chars(&v("007")), Some(7));
    assert_eq!(parse_u64_chars(&v("")), None);
    assert_eq!(parse_u64_chars(&v("+")), None);
    assert_eq!(parse_u64_chars(&v("-1")), None);
    assert_eq!(parse_u64_chars(&v("1a")), None);
    assert_eq!(parse_u64_chars(&v("18446744073709551615")), Some(u64::MAX));
    assert_eq!(parse_u64_chars(&v("18446744073709551616")), None);
}

#[test]
fn trimming_and_case() {
    assert_eq!(s(&trim_chars(&v(" \t a b \n"))), "a b");
    assert_eq!(s(&to_lower(&v("MiXeD Ñ"))), "mixed Ñ");
}

#[test]
fn splitting_and_searching() {
    let parts: Vec<String> = split_chars(&v("a,,b"), ',').iter().map(|p| s(p)).collect();
    assert_eq!(parts, vec!["a", "", "b"]);
    assert_eq!(split_chars(&v(""), ',').len(), 1);
    assert_eq!(find_chars(&v("xxuddg=1"), &v("uddg=")), Some(2));
    assert_eq!(find_chars(&v("abc"), &v("d")), None);
    assert!(chars_eq(&v("ab"), &v("ab")));
    assert!(!chars_eq(&v("ab"), &v("abc")));
}

#[test]
fn truncation_respects_the_budget_exactly() {
    let text = "é".repeat(10);
    let cut = truncate_string(&text, 4);
    assert_eq!(cut, "éééé...");
    assert!(cut.chars().count() <= 4 + 3);
}
