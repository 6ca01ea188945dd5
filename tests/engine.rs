use include_doc::attr::{Action, Mismatch};
use include_doc::engine::{
    apply, collect_pairs, is_modified, make_pair, to_doc_comment, ApplyError, ApplyResult,
    IncludedSource,
};
use include_doc::attr::{Attr, Kind};

fn src(rel: &str, text: &str) -> Result<IncludedSource, Vec<u8>> {
    Ok(IncludedSource { rel_path: rel.as_bytes().to_vec(), text: text.as_bytes().to_vec() })
}

fn run(input: &str, sources: Vec<Result<IncludedSource, Vec<u8>>>) -> Result<ApplyResult, ApplyError> {
    apply(input.as_bytes(), &sources)
}

const SCENARIO: &str = "fn a() {}\n// #[include_doc(\"lib.txt\", start)]\nplaceholder\n// #[include_doc(\"lib.txt\", end)]\nfn b() {}\n";

#[test]
fn scenario_hello_world() {
    let r = run(SCENARIO, vec![src("lib.txt", "hello\nworld\n")]).unwrap();
    let text = String::from_utf8(r.text.unwrap()).unwrap();
    assert_eq!(
        text,
        "fn a() {}\n// #[include_doc(\"lib.txt\", start)]\n/// hello\n/// world\n// #[include_doc(\"lib.txt\", end)]\nfn b() {}\n"
    );
    assert_eq!(r.logs.len(), 1);
    assert_eq!(r.logs[0].source_rel_path, b"lib.txt".to_vec());
    assert!(r.logs[0].is_modified);
}

#[test]
fn second_run_changes_nothing() {
    let first = run(SCENARIO, vec![src("lib.txt", "hello\nworld\n")]).unwrap();
    let once = String::from_utf8(first.text.unwrap()).unwrap();
    let second = run(&once, vec![src("lib.txt", "hello\nworld\n")]).unwrap();
    assert!(second.text.is_none());
    assert_eq!(second.logs.len(), 1);
    assert!(!second.logs[0].is_modified);
}

#[test]
fn inner_kind_renders_inner_comments() {
    let input = "// #![include_doc(\"r.md\", start)]\n// #![include_doc(\"r.md\", end)]\n";
    let r = run(input, vec![src("r.md", "\n\n  Title\r\nbody  \n\n")]).unwrap();
    assert_eq!(
        String::from_utf8(r.text.unwrap()).unwrap(),
        "// #![include_doc(\"r.md\", start)]\n//! Title\n//! body\n// #![include_doc(\"r.md\", end)]\n"
    );
}

#[test]
fn empty_range_leaves_markers_adjacent() {
    let input = "// #[include_doc(\"e\", start)]\nold\n// #[include_doc(\"e\", end)]";
    let r = run(input, vec![src("e", "  \n \n")]).unwrap();
    assert_eq!(
        String::from_utf8(r.text.unwrap()).unwrap(),
        "// #[include_doc(\"e\", start)]\n// #[include_doc(\"e\", end)]"
    );
}

#[test]
fn no_directives_means_unchanged() {
    let r = run("fn main() {}\n", vec![]).unwrap();
    assert!(r.text.is_none());
    assert!(r.logs.is_empty());
}

#[test]
fn line_arguments_select_lines() {
    let input = "// #[include_doc(\"f\", start(2))]\n// #[include_doc(\"f\", end(-1))]\n";
    let r = run(input, vec![src("f", "one\ntwo\nthree\nfour\n")]).unwrap();
    assert_eq!(
        String::from_utf8(r.text.unwrap()).unwrap(),
        "// #[include_doc(\"f\", start(2))]\n/// two\n/// three\n/// four\n// #[include_doc(\"f\", end(-1))]\n"
    );
}

#[test]
fn text_arguments_select_between_anchors() {
    let input = "// #[include_doc(\"f\", start(\"foo\"))]\n// #[include_doc(\"f\", end(\"foo\"))]\n";
    let r = run(input, vec![src("f", "X foo Y foo Z")]).unwrap();
    assert_eq!(
        String::from_utf8(r.text.unwrap()).unwrap(),
        "// #[include_doc(\"f\", start(\"foo\"))]\n/// foo Y\n// #[include_doc(\"f\", end(\"foo\"))]\n"
    );
}

#[test]
fn well_nested_pairs_pair_up() {
    let input = "// #[include_doc(\"a\", start)]\n// #[include_doc(\"a\", end)]\nx\n// #![include_doc(\"b\", start)]\n// #![include_doc(\"b\", end)]\n";
    let p = collect_pairs(input.as_bytes());
    assert!(p.error.is_none());
    assert_eq!(p.pairs.len(), 2);
    assert_eq!(p.pairs[1].0.path, b"b".to_vec());
    assert_eq!(p.pairs[1].1.range, 91..119);
}

#[test]
fn mismatched_path_is_reported() {
    let input = "// #[include_doc(\"a\", start)]\n// #[include_doc(\"b\", end)]\n";
    let p = collect_pairs(input.as_bytes());
    assert!(p.pairs.is_empty());
    match p.error {
        Some(ApplyError::MismatchAttr { start, end, mismatch }) => {
            assert_eq!(mismatch, Mismatch::Path);
            assert_eq!(start.path, b"a".to_vec());
            assert_eq!(end.path, b"b".to_vec());
        }
        other => panic!("unexpected {:?}", other),
    }
    assert!(matches!(run(input, vec![]), Err(ApplyError::MismatchAttr { .. })));
}

#[test]
fn mismatched_kind_is_reported() {
    let input = "// #[include_doc(\"a\", start)]\n// #![include_doc(\"b\", end)]\n";
    match collect_pairs(input.as_bytes()).error {
        Some(ApplyError::MismatchAttr { mismatch, .. }) => assert_eq!(mismatch, Mismatch::Kind),
        other => panic!("unexpected {:?}", other),
    }
}

#[test]
fn missing_end_is_reported() {
    let input = "// #[include_doc(\"a\", start)]\n";
    match run(input, vec![]) {
        Err(ApplyError::MissingAttr(a)) => assert_eq!(a.action, Action::Start),
        other => panic!("unexpected {:?}", other.is_ok()),
    }
}

#[test]
fn missing_start_is_reported() {
    let input = "// #[include_doc(\"a\", end)]\n";
    match run(input, vec![]) {
        Err(ApplyError::MissingAttr(a)) => assert_eq!(a.action, Action::End),
        other => panic!("unexpected {:?}", other.is_ok()),
    }
}

#[test]
fn second_start_reports_the_first() {
    let input = "// #[include_doc(\"a\", start)]\n// #[include_doc(\"b\", start)]\n// #[include_doc(\"b\", end)]\n";
    match collect_pairs(input.as_bytes()).error {
        Some(ApplyError::MissingAttr(a)) => assert_eq!(a.path, b"a".to_vec()),
        other => panic!("unexpected {:?}", other),
    }
}

#[test]
fn malformed_directive_is_reported() {
    let input = "// #[include_doc(\"a\", middle)]\n";
    match run(input, vec![]) {
        Err(ApplyError::BadAttr(e)) => assert_eq!(e.range, 0..30),
        other => panic!("unexpected {:?}", other.is_ok()),
    }
}

#[test]
fn make_pair_steps() {
    let items = Attr::find_iter("// #[include_doc(\"a\", start)]\n// #[include_doc(\"a\", end)]\n");
    let mut items = items.into_iter();
    let mut pending = None;
    assert!(matches!(make_pair(&mut pending, items.next().unwrap()), Ok(None)));
    assert!(pending.is_some());
    match make_pair(&mut pending, items.next().unwrap()) {
        Ok(Some((s, e))) => {
            assert_eq!(s.action, Action::Start);
            assert_eq!(e.action, Action::End);
        }
        _ => panic!("no pair"),
    }
    assert!(pending.is_none());
}

#[test]
fn anchor_not_found_is_reported() {
    let input = "// #[include_doc(\"f\", start(\"zzz\"))]\n// #[include_doc(\"f\", end)]\n";
    match run(input, vec![src("f", "abc")]) {
        Err(ApplyError::TextNotFound(a)) => assert_eq!(a.action, Action::Start),
        other => panic!("unexpected {:?}", other.is_ok()),
    }
    let input = "// #[include_doc(\"f\", start)]\n// #[include_doc(\"f\", end(\"zzz\"))]\n";
    match run(input, vec![src("f", "abc")]) {
        Err(ApplyError::TextNotFound(a)) => assert_eq!(a.action, Action::End),
        other => panic!("unexpected {:?}", other.is_ok()),
    }
}

#[test]
fn reversed_range_is_reported() {
    let input = "// #[include_doc(\"f\", start(3))]\n// #[include_doc(\"f\", end(2))]\n";
    assert!(matches!(
        run(input, vec![src("f", "a\nb\nc\n")]),
        Err(ApplyError::RangeReversed { .. })
    ));
}

#[test]
fn read_failure_is_reported() {
    let input = "// #[include_doc(\"f\", start)]\n// #[include_doc(\"f\", end)]\n";
    match run(input, vec![Err(b"no such file".to_vec())]) {
        Err(ApplyError::SourceRead { attr, reason }) => {
            assert_eq!(attr.path, b"f".to_vec());
            assert_eq!(reason, b"no such file".to_vec());
        }
        other => panic!("unexpected {:?}", other.is_ok()),
    }
}

#[test]
fn included_directive_is_refused() {
    let input = "// #[include_doc(\"f\", start)]\n// #[include_doc(\"f\", end)]\n";
    let included = "text\n  // #[include_doc(\"g\", start)]\nmore";
    match run(input, vec![src("f", included)]) {
        Err(ApplyError::SourceContent { source_rel_path, source_text, source_range, .. }) => {
            assert_eq!(source_rel_path, b"f".to_vec());
            assert_eq!(source_text, included.as_bytes().to_vec());
            assert_eq!(source_range, 5..36);
        }
        other => panic!("unexpected {:?}", other.is_ok()),
    }
}

#[test]
fn first_error_in_document_order_wins() {
    // The first pair's anchor is missing; the unmatched start after it comes later.
    let input = "// #[include_doc(\"f\", start(\"zzz\"))]\n// #[include_doc(\"f\", end)]\n// #[include_doc(\"g\", start)]\n";
    assert!(matches!(run(input, vec![src("f", "abc")]), Err(ApplyError::TextNotFound(_))));
}

#[test]
fn doc_comment_lines() {
    assert_eq!(to_doc_comment(b"a\r\nb\n\nc", b"/// "), b"/// a\n/// b\n/// \n/// c\n".to_vec());
    assert_eq!(to_doc_comment(b"", b"/// "), Vec::<u8>::new());
    assert_eq!(to_doc_comment(b"x\n", b"//! "), b"//! x\n".to_vec());
    assert_eq!(Kind::Inner.doc_comment_prefix(), b"//! ".to_vec());
    assert_eq!(Kind::Outer.doc_comment_prefix(), b"/// ".to_vec());
}

#[test]
fn modification_check() {
    let input = "// #[include_doc(\"f\", start)]\n/// a\n// #[include_doc(\"f\", end)]\n";
    let items = Attr::find_iter(input);
    let s = items[0].as_ref().unwrap();
    let e = items[1].as_ref().unwrap();
    assert!(!is_modified(b"/// a\n", input.as_bytes(), s, e));
    assert!(is_modified(b"/// b\n", input.as_bytes(), s, e));
}
