use include_doc::attr::{Attr, BadAttrError, Mismatch};
use include_doc::engine::{apply, IncludedSource};
use include_doc::fmt::{fmt_link, fmt_source, fmt_source_with};

#[test]
fn link_names_file_and_line() {
    assert_eq!(fmt_link(b"src/lib.rs", 12), b"--> src/lib.rs:12".to_vec());
    assert_eq!(fmt_link(b"a.rs", 0), b"--> a.rs:0".to_vec());
}

#[test]
fn source_with_labels_aligns_them() {
    let lines = vec![(b"9".to_vec(), b"x".to_vec()), (b"10".to_vec(), b"y".to_vec())];
    assert_eq!(fmt_source_with(&lines, b"|"), b"  9 | x\n 10 | y".to_vec());
}

#[test]
fn source_without_labels() {
    let lines = vec![(Vec::new(), b"text".to_vec())];
    assert_eq!(fmt_source_with(&lines, b"|"), b" | text".to_vec());
    assert_eq!(fmt_source_with(&Vec::new(), b"|"), Vec::<u8>::new());
}

#[test]
fn source_separator_is_a_bar() {
    let lines = vec![(Vec::new(), b"text".to_vec())];
    let out = String::from_utf8(fmt_source(&lines)).unwrap();
    assert!(out == " | text" || out == " \u{1b}[1;36m|\u{1b}[0m text", "{:?}", out);
}

#[test]
fn mismatch_messages() {
    assert_eq!(Mismatch::Kind.message(), b"mismatch attribute kind.".to_vec());
    assert_eq!(Mismatch::Path.message(), b"mismatch include path.".to_vec());
}

#[test]
fn attr_message_points_at_line() {
    let input = "x\n// #[include_doc(\"a\", start)]\n";
    let items = Attr::find_iter(input);
    let a = items[0].as_ref().unwrap();
    let m = String::from_utf8(a.message(b"f.rs", input.as_bytes())).unwrap();
    assert!(m.starts_with("--> f.rs:2\n "), "{:?}", m);
    assert!(m.ends_with(" // #[include_doc(\"a\", start)]"), "{:?}", m);
}

#[test]
fn bad_attr_message() {
    let input = "// #[include_doc(oops)]\n";
    let e = BadAttrError { range: 0..23 };
    let m = String::from_utf8(e.message(b"f.rs", input.as_bytes())).unwrap();
    assert!(m.starts_with("invalid attribute\n--> f.rs:1\n "), "{:?}", m);
    assert!(m.ends_with(" // #[include_doc(oops)]"), "{:?}", m);
}

#[test]
fn error_messages() {
    let input = "// #[include_doc(\"a\", start)]\n// #[include_doc(\"b\", end)]\n";
    let err = apply(input.as_bytes(), &Vec::new()).err().unwrap();
    let m = String::from_utf8(err.to_error_message(b"f.rs", input.as_bytes())).unwrap();
    assert!(m.starts_with("mismatch include path.\n--> f.rs:1\n--> f.rs:2\n 1 "), "{:?}", m);
    assert!(m.ends_with(" // #[include_doc(\"b\", end)]"), "{:?}", m);

    let input = "// #[include_doc(\"a\", start)]\n// #[include_doc(\"a\", end)]\n";
    let sources: Vec<Result<IncludedSource, Vec<u8>>> = vec![Err(b"gone".to_vec())];
    let err = apply(input.as_bytes(), &sources).err().unwrap();
    let m = String::from_utf8(err.to_error_message(b"f.rs", input.as_bytes())).unwrap();
    assert!(m.starts_with("cannot read `a` (gone)\n--> f.rs:1\n"), "{:?}", m);

    let input = "// #[include_doc(\"a\", end)]\n";
    let err = apply(input.as_bytes(), &Vec::new()).err().unwrap();
    let m = String::from_utf8(err.to_error_message(b"f.rs", input.as_bytes())).unwrap();
    assert!(m.starts_with("missing start attribute\n--> f.rs:1\n"), "{:?}", m);
}

#[test]
fn error_messages_for_included_files() {
    let input = "// #[include_doc(\"a\", start(\"zz\"))]\n// #[include_doc(\"a\", end)]\n";
    let sources: Vec<Result<IncludedSource, Vec<u8>>> =
        vec![Ok(IncludedSource { rel_path: b"a".to_vec(), text: b"abc".to_vec() })];
    let err = apply(input.as_bytes(), &sources).err().unwrap();
    let m = String::from_utf8(err.to_error_message(b"f.rs", input.as_bytes())).unwrap();
    assert!(m.starts_with("start text not found\n--> f.rs:1\n"), "{:?}", m);

    let input = "// #[include_doc(\"a\", start(3))]\n// #[include_doc(\"a\", end(1))]\n";
    let sources: Vec<Result<IncludedSource, Vec<u8>>> =
        vec![Ok(IncludedSource { rel_path: b"a".to_vec(), text: b"x\ny\nz\n".to_vec() })];
    let err = apply(input.as_bytes(), &sources).err().unwrap();
    let m = String::from_utf8(err.to_error_message(b"f.rs", input.as_bytes())).unwrap();
    assert!(m.starts_with("start text comes after end text\n--> f.rs:1\n--> f.rs:2\n"), "{:?}", m);

    let input = "// #[include_doc(\"a\", start)]\n// #[include_doc(\"a\", end)]\n";
    let sources: Vec<Result<IncludedSource, Vec<u8>>> = vec![Ok(IncludedSource {
        rel_path: b"docs/a.md".to_vec(),
        text: b"one\n// #![include_doc(\"b\", end)]\n".to_vec(),
    })];
    let err = apply(input.as_bytes(), &sources).err().unwrap();
    let m = String::from_utf8(err.to_error_message(b"f.rs", input.as_bytes())).unwrap();
    assert!(m.starts_with("source file contains attribute\n--> f.rs:1\n--> docs/a.md:2\n"), "{:?}", m);
    assert!(m.ends_with(" // #![include_doc(\"b\", end)]"), "{:?}", m);
}
