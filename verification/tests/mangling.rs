use ruddy::mangling::{escape, unescape};

#[test]
fn escape_keeps_letters_and_digits() {
    assert_eq!(escape("abc12"), "abc12");
    assert_eq!(escape(""), "");
}

#[test]
fn escape_marks_everything_else() {
    assert_eq!(escape("a-b"), "a_2D_b");
    assert_eq!(escape("1x"), "_31_x");
    assert_eq!(escape("x1"), "x1");
    assert_eq!(escape("a_b"), "a_5F_b");
    assert_eq!(escape("λ"), "_3BB_");
    assert_eq!(escape("漢"), "_6F22_");
}

#[test]
fn unescape_inverts_escape() {
    for name in ["", "abc", "a-b", "1x", "a_b", "λ", "漢字", "foo bar", "__", "0", "Z9_"] {
        assert_eq!(unescape(&escape(name)), Some(name.to_string()));
    }
}

#[test]
fn unescape_rejects_what_no_escape_writes() {
    assert_eq!(unescape("a_"), None);
    assert_eq!(unescape("a__b"), None);
    assert_eq!(unescape("a_02D_b"), None);
    assert_eq!(unescape("a_41_"), None);
    assert_eq!(unescape("a_2d_b"), None);
    assert_eq!(unescape("1x"), None);
    assert_eq!(unescape("a-b"), None);
    assert_eq!(unescape("_D800_"), None);
    assert_eq!(unescape("_31_x"), Some("1x".to_string()));
}
