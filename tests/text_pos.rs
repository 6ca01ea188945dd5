use include_doc::text_pos::TextPos;

#[test]
fn text_pos_from_str_offset() {
    let s = "abc\ndef";
    check(s, 0, 1, 1);
    check(s, 1, 1, 2);
    check(s, 2, 1, 3);
    check(s, 3, 1, 4);
    check(s, 4, 2, 1);
    check(s, 5, 2, 2);
    fn check(s: &str, offset: usize, line: usize, column: usize) {
        assert_eq!(TextPos::from_str_offset(s, offset), TextPos { line, column });
    }
}

#[test]
fn text_pos_counts_characters() {
    let s = "héllo\nwörld";
    // 'é' takes two bytes but one column.
    assert_eq!(TextPos::from_str_offset(s, 3), TextPos { line: 1, column: 3 });
    assert_eq!(TextPos::from_str_offset(s, 7), TextPos { line: 2, column: 1 });
    assert_eq!(TextPos::from_str_offset(s, 1000), TextPos { line: 2, column: 6 });
}
