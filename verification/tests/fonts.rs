use ttycast::fonts::fallback_patterns;

#[test]
fn fallback_patterns_ask_by_codepoint_and_prefer_monospace() {
    let patterns = fallback_patterns('\u{e0b0}');
    assert_eq!(patterns[0], "monospace:charset=e0b0");
    assert_eq!(patterns[1], ":charset=e0b0");
}

#[test]
fn fallback_patterns_pad_short_codepoints() {
    assert_eq!(fallback_patterns('A')[1], ":charset=0041");
}

#[test]
fn long_codepoints_are_not_cut() {
    assert_eq!(fallback_patterns('\u{1f600}')[1], ":charset=1f600");
    assert_eq!(fallback_patterns('\u{0}')[0], "monospace:charset=0000");
}
