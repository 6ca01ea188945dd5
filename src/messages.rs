//! Error reports.

use crate::attr::{Action, Attr, AttrView, BadAttrError, Mismatch};
use crate::engine::{ApplyError, ErrView};
use crate::fmt::{
    decimal, fmt_link, fmt_source_with, is_bar, link_text, lines_view, push_all,
    push_decimal, source_block, source_line,
};
use crate::text_pos::{pos_after, to_line};
use std::ops::Range;
use vstd::prelude::*;

verus! {

/// `mismatch attribute kind.`
pub open spec fn text_mismatch_kind() -> Seq<u8> {
    seq![109u8, 105u8, 115u8, 109u8, 97u8, 116u8, 99u8, 104u8, 32u8, 97u8, 116u8, 116u8, 114u8, 105u8, 98u8, 117u8, 116u8, 101u8, 32u8, 107u8, 105u8, 110u8, 100u8, 46u8]
}

fn text_mismatch_kind_bytes() -> (r: Vec<u8>)
    ensures
        r@ == text_mismatch_kind(),
{
    vec![109u8, 105u8, 115u8, 109u8, 97u8, 116u8, 99u8, 104u8, 32u8, 97u8, 116u8, 116u8, 114u8, 105u8, 98u8, 117u8, 116u8, 101u8, 32u8, 107u8, 105u8, 110u8, 100u8, 46u8]
}

/// `mismatch include path.`
pub open spec fn text_mismatch_path() -> Seq<u8> {
    seq![109u8, 105u8, 115u8, 109u8, 97u8, 116u8, 99u8, 104u8, 32u8, 105u8, 110u8, 99u8, 108u8, 117u8, 100u8, 101u8, 32u8, 112u8, 97u8, 116u8, 104u8, 46u8]
}

fn text_mismatch_path_bytes() -> (r: Vec<u8>)
    ensures
        r@ == text_mismatch_path(),
{
    vec![109u8, 105u8, 115u8, 109u8, 97u8, 116u8, 99u8, 104u8, 32u8, 105u8, 110u8, 99u8, 108u8, 117u8, 100u8, 101u8, 32u8, 112u8, 97u8, 116u8, 104u8, 46u8]
}

/// `invalid attribute`
pub open spec fn text_invalid() -> Seq<u8> {
    seq![105u8, 110u8, 118u8, 97u8, 108u8, 105u8, 100u8, 32u8, 97u8, 116u8, 116u8, 114u8, 105u8, 98u8, 117u8, 116u8, 101u8]
}

fn text_invalid_bytes() -> (r: Vec<u8>)
    ensures
        r@ == text_invalid(),
{
    vec![105u8, 110u8, 118u8, 97u8, 108u8, 105u8, 100u8, 32u8, 97u8, 116u8, 116u8, 114u8, 105u8, 98u8, 117u8, 116u8, 101u8]
}

/// `missing end attribute`
pub open spec fn text_missing_end() -> Seq<u8> {
    seq![109u8, 105u8, 115u8, 115u8, 105u8, 110u8, 103u8, 32u8, 101u8, 110u8, 100u8, 32u8, 97u8, 116u8, 116u8, 114u8, 105u8, 98u8, 117u8, 116u8, 101u8]
}

fn text_missing_end_bytes() -> (r: Vec<u8>)
    ensures
        r@ == text_missing_end(),
{
    vec![109u8, 105u8, 115u8, 115u8, 105u8, 110u8, 103u8, 32u8, 101u8, 110u8, 100u8, 32u8, 97u8, 116u8, 116u8, 114u8, 105u8, 98u8, 117u8, 116u8, 101u8]
}

/// `missing start attribute`
pub open spec fn text_missing_start() -> Seq<u8> {
    seq![109u8, 105u8, 115u8, 115u8, 105u8, 110u8, 103u8, 32u8, 115u8, 116u8, 97u8, 114u8, 116u8, 32u8, 97u8, 116u8, 116u8, 114u8, 105u8, 98u8, 117u8, 116u8, 101u8]
}

fn text_missing_start_bytes() -> (r: Vec<u8>)
    ensures
        r@ == text_missing_start(),
{
    vec![109u8, 105u8, 115u8, 115u8, 105u8, 110u8, 103u8, 32u8, 115u8, 116u8, 97u8, 114u8, 116u8, 32u8, 97u8, 116u8, 116u8, 114u8, 105u8, 98u8, 117u8, 116u8, 101u8]
}

/// `start text not found`
pub open spec fn text_start_not_found() -> Seq<u8> {
    seq![115u8, 116u8, 97u8, 114u8, 116u8, 32u8, 116u8, 101u8, 120u8, 116u8, 32u8, 110u8, 111u8, 116u8, 32u8, 102u8, 111u8, 117u8, 110u8, 100u8]
}

fn text_start_not_found_bytes() -> (r: Vec<u8>)
    ensures
        r@ == text_start_not_found(),
{
    vec![115u8, 116u8, 97u8, 114u8, 116u8, 32u8, 116u8, 101u8, 120u8, 116u8, 32u8, 110u8, 111u8, 116u8, 32u8, 102u8, 111u8, 117u8, 110u8, 100u8]
}

/// `end text not found`
pub open spec fn text_end_not_found() -> Seq<u8> {
    seq![101u8, 110u8, 100u8, 32u8, 116u8, 101u8, 120u8, 116u8, 32u8, 110u8, 111u8, 116u8, 32u8, 102u8, 111u8, 117u8, 110u8, 100u8]
}

fn text_end_not_found_bytes() -> (r: Vec<u8>)
    ensures
        r@ == text_end_not_found(),
{
    vec![101u8, 110u8, 100u8, 32u8, 116u8, 101u8, 120u8, 116u8, 32u8, 110u8, 111u8, 116u8, 32u8, 102u8, 111u8, 117u8, 110u8, 100u8]
}

/// `start text comes after end text`
pub open spec fn text_reversed() -> Seq<u8> {
    seq![115u8, 116u8, 97u8, 114u8, 116u8, 32u8, 116u8, 101u8, 120u8, 116u8, 32u8, 99u8, 111u8, 109u8, 101u8, 115u8, 32u8, 97u8, 102u8, 116u8, 101u8, 114u8, 32u8, 101u8, 110u8, 100u8, 32u8, 116u8, 101u8, 120u8, 116u8]
}

fn text_reversed_bytes() -> (r: Vec<u8>)
    ensures
        r@ == text_reversed(),
{
    vec![115u8, 116u8, 97u8, 114u8, 116u8, 32u8, 116u8, 101u8, 120u8, 116u8, 32u8, 99u8, 111u8, 109u8, 101u8, 115u8, 32u8, 97u8, 102u8, 116u8, 101u8, 114u8, 32u8, 101u8, 110u8, 100u8, 32u8, 116u8, 101u8, 120u8, 116u8]
}

/// `cannot read ``
pub open spec fn text_cannot_read() -> Seq<u8> {
    seq![99u8, 97u8, 110u8, 110u8, 111u8, 116u8, 32u8, 114u8, 101u8, 97u8, 100u8, 32u8, 96u8]
}

fn text_cannot_read_bytes() -> (r: Vec<u8>)
    ensures
        r@ == text_cannot_read(),
{
    vec![99u8, 97u8, 110u8, 110u8, 111u8, 116u8, 32u8, 114u8, 101u8, 97u8, 100u8, 32u8, 96u8]
}

/// `source file contains attribute`
pub open spec fn text_polluted() -> Seq<u8> {
    seq![115u8, 111u8, 117u8, 114u8, 99u8, 101u8, 32u8, 102u8, 105u8, 108u8, 101u8, 32u8, 99u8, 111u8, 110u8, 116u8, 97u8, 105u8, 110u8, 115u8, 32u8, 97u8, 116u8, 116u8, 114u8, 105u8, 98u8, 117u8, 116u8, 101u8]
}

fn text_polluted_bytes() -> (r: Vec<u8>)
    ensures
        r@ == text_polluted(),
{
    vec![115u8, 111u8, 117u8, 114u8, 99u8, 101u8, 32u8, 102u8, 105u8, 108u8, 101u8, 32u8, 99u8, 111u8, 110u8, 116u8, 97u8, 105u8, 110u8, 115u8, 32u8, 97u8, 116u8, 116u8, 114u8, 105u8, 98u8, 117u8, 116u8, 101u8]
}

/// The line, counted from one, of byte offset `off` of `t`.
pub open spec fn line_of(t: Seq<u8>, off: int) -> nat {
    pos_after(t, if off < t.len() { off } else { t.len() as int }).0
}

/// Bytes `a .. b` of `t`, or nothing if that is no range of `t`.
pub open spec fn excerpt(t: Seq<u8>, a: int, b: int) -> Seq<u8> {
    if 0 <= a <= b <= t.len() {
        t.subrange(a, b)
    } else {
        seq![]
    }
}

fn excerpt_exec(t: &[u8], range: &Range<usize>) -> (r: Vec<u8>)
    ensures
        r@ == excerpt(t@, range.start as int, range.end as int),
{
    if range.start <= range.end && range.end <= t.len() {
        crate::attr::copy_range(t, range.start, range.end)
    } else {
        Vec::new()
    }
}

pub open spec fn mismatch_text(m: Mismatch) -> Seq<u8> {
    match m {
        Mismatch::Kind => text_mismatch_kind(),
        Mismatch::Path => text_mismatch_path(),
    }
}

impl Mismatch {
    /// What the mismatch is, in words.
    pub fn message(&self) -> (r: Vec<u8>)
        ensures
            r@ == mismatch_text(*self),
    {
        match self {
            Mismatch::Kind => text_mismatch_kind_bytes(),
            Mismatch::Path => text_mismatch_path_bytes(),
        }
    }
}

/// A directive's place and line: the link to its line, a line feed, and
/// the line as an excerpt.
pub open spec fn attr_message_text(a: AttrView, rel_path: Seq<u8>, input: Seq<u8>, sep: Seq<u8>) -> Seq<u8> {
    link_text(rel_path, line_of(input, a.start)) + seq![10u8] + source_line(
        seq![],
        excerpt(input, a.start, a.end),
        0,
        sep,
    )
}

fn excerpt_line(input: &[u8], range: &Range<usize>, sep: &[u8]) -> (r: Vec<u8>)
    ensures
        r@ == source_line(seq![], excerpt(input@, range.start as int, range.end as int), 0, sep@),
{
    let mut lines: Vec<(Vec<u8>, Vec<u8>)> = Vec::new();
    lines.push((Vec::new(), excerpt_exec(input, range)));
    proof {
        assert(lines_view(lines@) =~= seq![(Seq::<u8>::empty(), excerpt(input@, range.start as int, range.end as int))]);
        assert(crate::fmt::max_label(lines_view(lines@), 0) == 0);
        assert(crate::fmt::max_label(lines_view(lines@), 1) == 0);
    }
    fmt_source_with(&lines, sep)
}

fn attr_message_with(a: &Attr, rel_path: &[u8], input: &[u8], sep: &[u8]) -> (r: Vec<u8>)
    requires
        input@.len() < usize::MAX,
    ensures
        r@ == attr_message_text(a@, rel_path@, input@, sep@),
{
    let mut r = fmt_link(rel_path, to_line(input, a.range.start));
    r.push(10u8);
    let ex = excerpt_line(input, &a.range, sep);
    push_all(&mut r, ex.as_slice());
    r
}

impl Attr {
    /// Where the directive stands in `input`, for an error report.
    pub fn message(&self, rel_path: &[u8], input: &[u8]) -> (r: Vec<u8>)
        requires
            input@.len() < usize::MAX,
        ensures
            exists|sep: Seq<u8>| is_bar(sep) && r@ == attr_message_text(self@, rel_path@, input@, sep),
    {
        let sep = crate::fmt::separator();
        attr_message_with(self, rel_path, input, sep.as_slice())
    }
}

/// The report of a line that does not parse as a directive.
pub open spec fn bad_attr_text(a: int, b: int, rel_path: Seq<u8>, input: Seq<u8>, sep: Seq<u8>) -> Seq<u8> {
    text_invalid() + seq![10u8] + link_text(rel_path, line_of(input, a)) + seq![10u8, 32u8] + sep
        + seq![32u8] + excerpt(input, a, b)
}

fn bad_attr_with(e: &BadAttrError, rel_path: &[u8], input: &[u8], sep: &[u8]) -> (r: Vec<u8>)
    requires
        input@.len() < usize::MAX,
    ensures
        r@ == bad_attr_text(e.range.start as int, e.range.end as int, rel_path@, input@, sep@),
{
    let mut r = text_invalid_bytes();
    r.push(10u8);
    let link = fmt_link(rel_path, to_line(input, e.range.start));
    push_all(&mut r, link.as_slice());
    r.push(10u8);
    r.push(32u8);
    push_all(&mut r, sep);
    r.push(32u8);
    let ex = excerpt_exec(input, &e.range);
    push_all(&mut r, ex.as_slice());
    proof {
        assert(r@ =~= bad_attr_text(e.range.start as int, e.range.end as int, rel_path@, input@, sep@));
    }
    r
}

impl BadAttrError {
    /// The report of the line that does not parse.
    pub fn message(&self, rel_path: &[u8], input: &[u8]) -> (r: Vec<u8>)
        requires
            input@.len() < usize::MAX,
        ensures
            exists|sep: Seq<u8>|
                is_bar(sep) && r@ == bad_attr_text(
                    self.range.start as int,
                    self.range.end as int,
                    rel_path@,
                    input@,
                    sep,
                ),
    {
        let sep = crate::fmt::separator();
        bad_attr_with(self, rel_path, input, sep.as_slice())
    }
}

/// The two directives of a pair, each as a link, then both as an excerpt
/// labelled with their line numbers.
pub open spec fn two_lines_text(s: AttrView, e: AttrView, rel_path: Seq<u8>, input: Seq<u8>, sep: Seq<u8>) -> Seq<u8> {
    link_text(rel_path, line_of(input, s.start)) + seq![10u8] + link_text(
        rel_path,
        line_of(input, e.start),
    ) + seq![10u8] + source_block(
        seq![
            (decimal(line_of(input, s.start)), excerpt(input, s.start, s.end)),
            (decimal(line_of(input, e.start)), excerpt(input, e.start, e.end)),
        ],
        sep,
    )
}

/// The report of an error met while processing `input`, the file at
/// `rel_path`.
pub open spec fn error_text(e: ErrView, rel_path: Seq<u8>, input: Seq<u8>, sep: Seq<u8>) -> Seq<u8> {
    match e {
        ErrView::BadAttr(a, b) => bad_attr_text(a, b, rel_path, input, sep),
        ErrView::MissingAttr(x) => (if x.action == Action::Start {
            text_missing_end()
        } else {
            text_missing_start()
        }) + seq![10u8] + attr_message_text(x, rel_path, input, sep),
        ErrView::MismatchAttr(s, x, m) => mismatch_text(m) + seq![10u8] + two_lines_text(
            s,
            x,
            rel_path,
            input,
            sep,
        ),
        ErrView::TextNotFound(x) => (if x.action == Action::Start {
            text_start_not_found()
        } else {
            text_end_not_found()
        }) + seq![10u8] + attr_message_text(x, rel_path, input, sep),
        ErrView::RangeReversed(s, x) => text_reversed() + seq![10u8] + two_lines_text(
            s,
            x,
            rel_path,
            input,
            sep,
        ),
        ErrView::SourceRead(x, reason) => text_cannot_read() + x.path + seq![96u8, 32u8, 40u8]
            + reason + seq![41u8, 10u8] + attr_message_text(x, rel_path, input, sep),
        ErrView::SourceContent(x, source_rel_path, source_text, a, b) => text_polluted() + seq![10u8]
            + link_text(rel_path, line_of(input, x.start)) + seq![10u8] + link_text(
            source_rel_path,
            line_of(source_text, a),
        ) + seq![10u8] + source_line(seq![], excerpt(source_text, a, b), 0, sep),
    }
}

/// The texts that an error report counts lines in are shorter than the
/// largest `usize`.
pub open spec fn texts_fit(e: &ApplyError, input: Seq<u8>) -> bool {
    &&& input.len() < usize::MAX
    &&& match e {
        ApplyError::SourceContent { source_text, .. } => source_text@.len() < usize::MAX,
        _ => true,
    }
}

fn two_lines_with(s: &Attr, e: &Attr, rel_path: &[u8], input: &[u8], sep: &[u8]) -> (r: Vec<u8>)
    requires
        input@.len() < usize::MAX,
    ensures
        r@ == two_lines_text(s@, e@, rel_path@, input@, sep@),
{
    let start_line = to_line(input, s.range.start);
    let end_line = to_line(input, e.range.start);
    let mut r = fmt_link(rel_path, start_line);
    r.push(10u8);
    let l2 = fmt_link(rel_path, end_line);
    push_all(&mut r, l2.as_slice());
    r.push(10u8);
    let mut n1: Vec<u8> = Vec::new();
    push_decimal(&mut n1, start_line);
    let mut n2: Vec<u8> = Vec::new();
    push_decimal(&mut n2, end_line);
    let mut lines: Vec<(Vec<u8>, Vec<u8>)> = Vec::new();
    lines.push((n1, excerpt_exec(input, &s.range)));
    lines.push((n2, excerpt_exec(input, &e.range)));
    let block = fmt_source_with(&lines, sep);
    push_all(&mut r, block.as_slice());
    proof {
        assert(lines_view(lines@) =~= seq![
            (decimal(line_of(input@, s@.start)), excerpt(input@, s@.start, s@.end)),
            (decimal(line_of(input@, e@.start)), excerpt(input@, e@.start, e@.end)),
        ]);
        assert(r@ =~= two_lines_text(s@, e@, rel_path@, input@, sep@));
    }
    r
}

fn error_message_with(err: &ApplyError, rel_path: &[u8], input: &[u8], sep: &[u8]) -> (r: Vec<u8>)
    requires
        texts_fit(err, input@),
    ensures
        r@ == error_text(err@, rel_path@, input@, sep@),
{
    match err {
        ApplyError::BadAttr(e) => bad_attr_with(e, rel_path, input, sep),
        ApplyError::MissingAttr(x) => {
            let mut r = if x.action == Action::Start {
                text_missing_end_bytes()
            } else {
                text_missing_start_bytes()
            };
            r.push(10u8);
            let m = attr_message_with(x, rel_path, input, sep);
            push_all(&mut r, m.as_slice());
            r
        },
        ApplyError::MismatchAttr { start, end, mismatch } => {
            let mut r = mismatch.message();
            r.push(10u8);
            let m = two_lines_with(start, end, rel_path, input, sep);
            push_all(&mut r, m.as_slice());
            r
        },
        ApplyError::TextNotFound(x) => {
            let mut r = if x.action == Action::Start {
                text_start_not_found_bytes()
            } else {
                text_end_not_found_bytes()
            };
            r.push(10u8);
            let m = attr_message_with(x, rel_path, input, sep);
            push_all(&mut r, m.as_slice());
            r
        },
        ApplyError::RangeReversed { start, end } => {
            let mut r = text_reversed_bytes();
            r.push(10u8);
            let m = two_lines_with(start, end, rel_path, input, sep);
            push_all(&mut r, m.as_slice());
            r
        },
        ApplyError::SourceRead { attr, reason } => {
            let mut r = text_cannot_read_bytes();
            push_all(&mut r, attr.path.as_slice());
            r.push(96u8);
            r.push(32u8);
            r.push(40u8);
            push_all(&mut r, reason.as_slice());
            r.push(41u8);
            r.push(10u8);
            let m = attr_message_with(attr, rel_path, input, sep);
            push_all(&mut r, m.as_slice());
            proof {
                assert(r@ =~= error_text(err@, rel_path@, input@, sep@));
            }
            r
        },
        ApplyError::SourceContent { attr, source_rel_path, source_text, source_range } => {
            let mut r = text_polluted_bytes();
            r.push(10u8);
            let l1 = fmt_link(rel_path, to_line(input, attr.range.start));
            push_all(&mut r, l1.as_slice());
            r.push(10u8);
            let l2 = fmt_link(
                source_rel_path.as_slice(),
                to_line(source_text.as_slice(), source_range.start),
            );
            push_all(&mut r, l2.as_slice());
            r.push(10u8);
            let ex = excerpt_line(source_text.as_slice(), source_range, sep);
            push_all(&mut r, ex.as_slice());
            proof {
                assert(r@ =~= error_text(err@, rel_path@, input@, sep@));
            }
            r
        },
    }
}

impl ApplyError {
    /// The report of the error, met while processing `input`, the file at
    /// `rel_path`.
    pub fn to_error_message(&self, rel_path: &[u8], input: &[u8]) -> (r: Vec<u8>)
        requires
            texts_fit(self, input@),
        ensures
            exists|sep: Seq<u8>| is_bar(sep) && r@ == error_text(self@, rel_path@, input@, sep),
    {
        let sep = crate::fmt::separator();
        error_message_with(self, rel_path, input, sep.as_slice())
    }
}

} // verus!
