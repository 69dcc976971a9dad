use namel3ss_native::normalize::normalize_text;

#[test]
fn empty_text_stays_empty() {
    assert_eq!(normalize_text(""), "");
}

#[test]
fn breaks_and_spaces_are_normalized() {
    assert_eq!(
        normalize_text("  Hello   world  \r\n\r\n\r\n\r\nnext  line\rend "),
        "Hello world\n\nnext line\nend"
    );
}

#[test]
fn hyphenated_words_are_joined() {
    assert_eq!(normalize_text("exam-\nple and co-\n op"), "example and co-\nop");
}

#[test]
fn running_headers_are_dropped() {
    assert_eq!(
        normalize_text("Summary\nbody one\npage 1\u{c}Summary\nbody two\npage 2\u{c}Summary\nbody three\npage 3"),
        "body one\npage 1\nbody two\npage 2\nbody three\npage 3"
    );
}

#[test]
fn running_footers_are_dropped() {
    assert_eq!(
        normalize_text("one\nConfidential\u{c}two\n  Confidential \u{c}three\nConfidential\n"),
        "one\ntwo\nthree"
    );
}

#[test]
fn lines_on_few_pages_are_kept() {
    assert_eq!(normalize_text("A\nx\u{c}B\ny"), "A\nx\nB\ny");
}
