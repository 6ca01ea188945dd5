use include_doc::attr::ActionArg;
use include_doc::resolve::{find_first, find_last, line_offset, line_offset_rev, trim, Unresolved};

#[test]
fn line_offsets_from_start() {
    let t = b"ab\ncd\nef";
    assert_eq!(line_offset(t, 0), 0);
    assert_eq!(line_offset(t, 1), 0);
    assert_eq!(line_offset(t, 2), 3);
    assert_eq!(line_offset(t, 3), 6);
    assert_eq!(line_offset(t, 4), 8);
    assert_eq!(line_offset(t, 100), 8);
    assert_eq!(line_offset(b"", 1), 0);
}

#[test]
fn line_offsets_from_end() {
    let t = b"ab\ncd\nef\n";
    assert_eq!(line_offset_rev(t, 0), 9);
    assert_eq!(line_offset_rev(t, 1), 8);
    assert_eq!(line_offset_rev(t, 2), 5);
    assert_eq!(line_offset_rev(t, 3), 2);
    assert_eq!(line_offset_rev(t, 4), 0);
}

#[test]
fn anchors_first_and_last() {
    let t = b"X foo Y foo Z";
    assert_eq!(find_first(t, b"foo"), Some(2));
    assert_eq!(find_last(t, b"foo"), Some(8));
    assert_eq!(find_first(t, b"bar"), None);
    assert_eq!(find_last(t, b"bar"), None);
    assert_eq!(find_first(t, b""), Some(0));
    assert_eq!(find_last(t, b""), Some(13));
}

#[test]
fn trim_between_anchors() {
    let t = b"X foo Y foo Z";
    let foo = ActionArg::Text(b"foo".to_vec());
    assert_eq!(trim(t, &foo, &foo), Ok(2..7));
}

#[test]
fn trim_reversed_anchors() {
    let t = b"X foo Y bar Z";
    let start = ActionArg::Text(b"bar".to_vec());
    let end = ActionArg::Text(b"foo".to_vec());
    assert_eq!(trim(t, &start, &end), Err(Unresolved::Reversed));
}

#[test]
fn trim_missing_anchors() {
    let t = b"abc";
    let z = ActionArg::Text(b"z".to_vec());
    assert_eq!(trim(t, &z, &ActionArg::Unset), Err(Unresolved::StartNotFound));
    assert_eq!(trim(t, &ActionArg::Unset, &z), Err(Unresolved::EndNotFound));
}

#[test]
fn trim_drops_whitespace() {
    let t = "\n\n \t hello\nworld \r\n\n".as_bytes();
    let r = trim(t, &ActionArg::Unset, &ActionArg::Unset).unwrap();
    assert_eq!(&t[r], b"hello\nworld");
    let u = "\u{3000}\u{a0}x\u{2029}\u{85}".as_bytes();
    let r = trim(u, &ActionArg::Unset, &ActionArg::Unset).unwrap();
    assert_eq!(&u[r], b"x");
    let blank = b" \n\t ";
    let r = trim(blank, &ActionArg::Unset, &ActionArg::Unset).unwrap();
    assert_eq!(r.start, r.end);
}

#[test]
fn trim_with_line_numbers() {
    let t = b"one\ntwo\nthree\n";
    let r = trim(t, &ActionArg::Line(2), &ActionArg::LineRev(1)).unwrap();
    assert_eq!(&t[r], b"two\nthree");
    let r = trim(t, &ActionArg::Line(1), &ActionArg::LineRev(0)).unwrap();
    assert_eq!(&t[r], b"one\ntwo\nthree");
}
