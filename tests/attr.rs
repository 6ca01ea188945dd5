use include_doc::attr::{Action, ActionArg, Attr, BadAttrError, Kind, Mismatch};

fn attr_check(s: &str, kind: Kind, path: &str, action: Action, arg: ActionArg) {
    let expected = Attr {
        range: 0..s.len(),
        kind,
        path: path.as_bytes().to_vec(),
        action,
        arg,
    };
    let items = Attr::find_iter(s);
    assert_eq!(items, vec![Ok(expected)], "input = `{}`", s);
}

fn text(s: &str) -> ActionArg {
    ActionArg::Text(s.as_bytes().to_vec())
}

#[test]
fn attr_outer() {
    attr_check(r#"// #[include_doc("abc",start)]"#, Kind::Outer, "abc", Action::Start, ActionArg::Unset);
}

#[test]
fn attr_inner() {
    attr_check(r#"// #![include_doc("abc",start)]"#, Kind::Inner, "abc", Action::Start, ActionArg::Unset);
}

#[test]
fn attr_start() {
    attr_check(r#"// #[include_doc("abc",start)]"#, Kind::Outer, "abc", Action::Start, ActionArg::Unset);
}

#[test]
fn attr_end() {
    attr_check(r#"// #[include_doc("abc",end)]"#, Kind::Outer, "abc", Action::End, ActionArg::Unset);
}

#[test]
fn attr_arg_none() {
    attr_check(r#"// #[include_doc("abc",start)]"#, Kind::Outer, "abc", Action::Start, ActionArg::Unset);
}

#[test]
fn attr_arg_text() {
    attr_check(
        r#"// #[include_doc("abc",start("this is text"))]"#,
        Kind::Outer,
        "abc",
        Action::Start,
        text("this is text"),
    );
}

#[test]
fn attr_arg_offset() {
    attr_check(r#"// #[include_doc("abc",start(10))]"#, Kind::Outer, "abc", Action::Start, ActionArg::Line(10));
}

#[test]
fn attr_arg_offset_end() {
    attr_check(
        r#"// #[include_doc("abc",start(-10))]"#,
        Kind::Outer,
        "abc",
        Action::Start,
        ActionArg::LineRev(10),
    );
}

#[test]
fn attr_space_arg_none() {
    attr_check(
        r#"  //   #[  include_doc  (  "abc"  ,  start  )  ]  "#,
        Kind::Outer,
        "abc",
        Action::Start,
        ActionArg::Unset,
    );
}

#[test]
fn attr_space_arg_text() {
    attr_check(
        r#"  //   #[  include_doc  (  "abc"  ,  start  (  "this is text"  )  )  ]  "#,
        Kind::Outer,
        "abc",
        Action::Start,
        text("this is text"),
    );
}

fn check_find_iter(text: &str, expected: Vec<Result<Attr, BadAttrError>>) {
    let items = Attr::find_iter(text);
    assert_eq!(items, expected);
}

#[test]
fn find_attr_1() {
    check_find_iter(
        r#"
// #[include_doc("abc", start)]
"#,
        vec![Ok(Attr {
            range: 1..32,
            kind: Kind::Outer,
            path: b"abc".to_vec(),
            action: Action::Start,
            arg: ActionArg::Unset,
        })],
    );
}

#[test]
fn find_attr_2() {
    check_find_iter(
        r#"
// #[include_doc("abc", start)]
// #[include_doc("abc", end)]
"#,
        vec![
            Ok(Attr {
                range: 1..32,
                kind: Kind::Outer,
                path: b"abc".to_vec(),
                action: Action::Start,
                arg: ActionArg::Unset,
            }),
            Ok(Attr {
                range: 33..62,
                kind: Kind::Outer,
                path: b"abc".to_vec(),
                action: Action::End,
                arg: ActionArg::Unset,
            }),
        ],
    );
}

#[test]
fn find_attr_error() {
    check_find_iter(
        r#"
// #[include_doc("abc", unknown)]
"#,
        vec![Err(BadAttrError { range: 1..34 })],
    );
}

#[test]
fn find_attr_error2() {
    check_find_iter(
        r#"
// #[include_doc("abc", unknown)]
// #[include_doc("abc", unknown)]
"#,
        vec![Err(BadAttrError { range: 1..34 }), Err(BadAttrError { range: 35..68 })],
    );
}

#[test]
fn end_with_line_argument() {
    let s = r#"// #![include_doc("a/b.txt", end(3))]"#;
    attr_check(s, Kind::Inner, "a/b.txt", Action::End, ActionArg::Line(3));
}

#[test]
fn number_too_large_is_malformed() {
    let s = r#"// #[include_doc("abc", start(99999999999999999999999))]"#;
    assert_eq!(Attr::find_iter(s), vec![Err(BadAttrError { range: 0..s.len() })]);
}

#[test]
fn largest_number_parses() {
    let s = format!(r#"// #[include_doc("abc", start({}))]"#, usize::MAX);
    attr_check(&s, Kind::Outer, "abc", Action::Start, ActionArg::Line(usize::MAX));
}

#[test]
fn shaped_line_with_garbage_is_malformed() {
    let s = "x\n  // #[include_doc garbage ]  \ny";
    assert_eq!(Attr::find_iter(s), vec![Err(BadAttrError { range: 2..32 })]);
}

#[test]
fn unshaped_lines_are_skipped() {
    let s = "// include_doc(\"a\", start)\n/// #[include_doc(\"a\", start)]\n// #[include_doc(\"a\", start)] x\n";
    assert!(Attr::find_iter(s).is_empty());
    assert_eq!(Attr::find_may_bad(s), None);
}

#[test]
fn directive_needs_its_own_line() {
    let s = "let x = 1; // #[include_doc(\"a\", start)]";
    assert!(Attr::find_iter(s).is_empty());
}

#[test]
fn find_may_bad_reports_first() {
    let s = "a\n// #[include_doc(\"abc\", unknown)]\n// #[include_doc(\"abc\", start)]\n";
    assert_eq!(Attr::find_may_bad(s), Some(2..35));
}

#[test]
fn mismatch_kind_before_path() {
    let a = &Attr::find_iter(r#"// #[include_doc("a", start)]"#)[0];
    let b = &Attr::find_iter(r#"// #![include_doc("b", end)]"#)[0];
    let c = &Attr::find_iter(r#"// #[include_doc("b", end)]"#)[0];
    let d = &Attr::find_iter(r#"// #[include_doc("a", end)]"#)[0];
    let (a, b, c, d) = (a.as_ref().unwrap(), b.as_ref().unwrap(), c.as_ref().unwrap(), d.as_ref().unwrap());
    assert_eq!(a.mismatch(b), Some(Mismatch::Kind));
    assert_eq!(a.mismatch(c), Some(Mismatch::Path));
    assert_eq!(a.mismatch(d), None);
}

#[test]
fn attr_line_and_range() {
    let input = "a\nb\n// #[include_doc(\"x\", start)]\n";
    let items = Attr::find_iter(input);
    let a = items[0].as_ref().unwrap();
    assert_eq!(a.range(), 4..33);
    assert_eq!(a.line(input), 3);
}
