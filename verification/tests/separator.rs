#[test]
fn separator_unescapes_common_sequences() {
    assert_eq!(wlr::util::unescape_separator("\\n"), "\n");
    assert_eq!(wlr::util::unescape_separator("\\t"), "\t");
    assert_eq!(wlr::util::unescape_separator("a\\\\b"), "a\\b");
    assert_eq!(wlr::util::unescape_separator("x\\qy"), "x\\qy");
    assert_eq!(wlr::util::unescape_separator(""), "");
}

#[test]
fn separator_keeps_plain_text_and_a_trailing_backslash() {
    assert_eq!(wlr::util::unescape_separator("--"), "--");
    assert_eq!(wlr::util::unescape_separator("end\\"), "end\\");
    assert_eq!(wlr::util::unescape_separator("\\n--\\n"), "\n--\n");
    assert_eq!(wlr::util::unescape_separator("é\\tü"), "é\tü");
}
