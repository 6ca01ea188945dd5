//! The directive grammar: finding marker comments in a text and reading
//! what they say.

use crate::text_pos::{pos_after, to_line};
use std::ops::Range;
use vstd::prelude::*;
use vstd::string::StringSliceAdditionalSpecFns;

verus! {

// ---------------------------------------------------------------------------
// Directive records
// ---------------------------------------------------------------------------

/// Which documentation comment a directive renders into.
#[derive(Clone, Copy, Eq, PartialEq, Debug, Structural)]
pub enum Kind {
    /// `// #![include_doc(..)]`, rendered as `//!` lines.
    Inner,
    /// `// #[include_doc(..)]`, rendered as `///` lines.
    Outer,
}

/// Whether a directive opens or closes an included region.
#[derive(Clone, Copy, Eq, PartialEq, Debug, Structural)]
pub enum Action {
    Start,
    End,
}

/// Where in the included text a region begins (on a start directive) or
/// ends (on an end directive).
#[derive(Eq, PartialEq, Debug)]
pub enum ActionArg {
    /// The beginning, or the end, of the text.
    Unset,
    /// The beginning of the given line, counted from one.
    Line(usize),
    /// The line feed found by counting this many line feeds back from the end.
    LineRev(usize),
    /// The first (start) or last (end) occurrence of these bytes.
    Text(Vec<u8>),
}

/// The mathematical value of an [`ActionArg`].
pub enum ArgView {
    Unset,
    Line(nat),
    LineRev(nat),
    Text(Seq<u8>),
}

impl View for ActionArg {
    type V = ArgView;

    open spec fn view(&self) -> ArgView {
        match self {
            ActionArg::Unset => ArgView::Unset,
            ActionArg::Line(n) => ArgView::Line(*n as nat),
            ActionArg::LineRev(n) => ArgView::LineRev(*n as nat),
            ActionArg::Text(t) => ArgView::Text(t@),
        }
    }
}

/// Which field a start and an end directive disagree on.
#[derive(Clone, Copy, Eq, PartialEq, Debug, Structural)]
pub enum Mismatch {
    Kind,
    Path,
}

/// A well-formed directive found in a text.
#[derive(Eq, PartialEq, Debug)]
pub struct Attr {
    /// The byte range of the directive's whole line, line feed excluded.
    pub range: Range<usize>,
    /// The bytes between the quotes: the included file's path.
    pub path: Vec<u8>,
    pub kind: Kind,
    pub action: Action,
    pub arg: ActionArg,
}

/// The mathematical value of an [`Attr`].
pub struct AttrView {
    pub start: int,
    pub end: int,
    pub path: Seq<u8>,
    pub kind: Kind,
    pub action: Action,
    pub arg: ArgView,
}

impl View for Attr {
    type V = AttrView;

    open spec fn view(&self) -> AttrView {
        AttrView {
            start: self.range.start as int,
            end: self.range.end as int,
            path: self.path@,
            kind: self.kind,
            action: self.action,
            arg: self.arg@,
        }
    }
}

/// A line that has the shape of a directive but does not parse as one.
#[derive(Eq, PartialEq, Debug)]
pub struct BadAttrError {
    /// The byte range of the whole line, line feed excluded.
    pub range: Range<usize>,
}

/// What the scan of a text yields for one directive-shaped line: the
/// directive, or the byte range of a line that does not parse.
pub type ScanItem = Result<AttrView, (int, int)>;

pub open spec fn item_view(r: Result<Attr, BadAttrError>) -> ScanItem {
    match r {
        Ok(a) => Ok(a@),
        Err(e) => Err((e.range.start as int, e.range.end as int)),
    }
}

// ---------------------------------------------------------------------------
// Grammar
// ---------------------------------------------------------------------------

pub open spec fn is_blank(b: u8) -> bool {
    b == 32 || b == 9
}

pub open spec fn is_digit(b: u8) -> bool {
    48 <= b && b <= 57
}

/// The first position at or after `i` that holds no space or tab.
pub open spec fn skip_blank(s: Seq<u8>, i: int) -> int
    decreases s.len() - i,
{
    if 0 <= i < s.len() && is_blank(s[i]) {
        skip_blank(s, i + 1)
    } else {
        i
    }
}

/// The length of `s` once trailing spaces and tabs of its first `n` bytes
/// are dropped.
pub open spec fn trim_blank_end(s: Seq<u8>, n: int) -> int
    decreases n,
{
    if 0 < n <= s.len() && is_blank(s[n - 1]) {
        trim_blank_end(s, n - 1)
    } else {
        n
    }
}

/// The first position at or after `i` that holds a double quote, or a
/// position at or past the end if there is none.
pub open spec fn next_quote(s: Seq<u8>, i: int) -> int
    decreases s.len() - i,
{
    if 0 <= i < s.len() && s[i] != 34 {
        next_quote(s, i + 1)
    } else {
        i
    }
}

/// The first position at or after `i` that holds no decimal digit.
pub open spec fn digits_end(s: Seq<u8>, i: int) -> int
    decreases s.len() - i,
{
    if 0 <= i < s.len() && is_digit(s[i]) {
        digits_end(s, i + 1)
    } else {
        i
    }
}

/// The number written in decimal by the bytes `i .. j` of `s`.
pub open spec fn digits_value(s: Seq<u8>, i: int, j: int) -> nat
    decreases j - i,
{
    if j <= i {
        0
    } else {
        digits_value(s, i, j - 1) * 10 + (s[j - 1] - 48) as nat
    }
}

pub open spec fn byte_at(s: Seq<u8>, i: int, b: u8) -> bool {
    0 <= i < s.len() && s[i] == b
}

pub open spec fn word_at(s: Seq<u8>, i: int, w: Seq<u8>) -> bool {
    0 <= i && i + w.len() <= s.len() && s.subrange(i, i + w.len()) == w
}

pub open spec fn word_comment() -> Seq<u8> {
    seq![47u8, 47u8]
}

pub open spec fn word_include_doc() -> Seq<u8> {
    seq![105u8, 110u8, 99u8, 108u8, 117u8, 100u8, 101u8, 95u8, 100u8, 111u8, 99u8]
}

pub open spec fn word_start() -> Seq<u8> {
    seq![115u8, 116u8, 97u8, 114u8, 116u8]
}

pub open spec fn word_end() -> Seq<u8> {
    seq![101u8, 110u8, 100u8]
}

/// The common head of every directive-shaped line:
/// blanks, `//`, blanks, `#`, an optional `!`, `[`, blanks, `include_doc`.
/// Gives the kind and the position that follows the head.
pub open spec fn head_end(s: Seq<u8>) -> Option<(Kind, int)> {
    let a = skip_blank(s, 0);
    if !word_at(s, a, word_comment()) {
        None
    } else {
        let b = skip_blank(s, a + 2);
        if !byte_at(s, b, 35) {
            None
        } else {
            let inner = byte_at(s, b + 1, 33);
            let c = if inner { b + 2 } else { b + 1 };
            if !byte_at(s, c, 91) {
                None
            } else {
                let d = skip_blank(s, c + 1);
                if !word_at(s, d, word_include_doc()) {
                    None
                } else {
                    Some((if inner { Kind::Inner } else { Kind::Outer }, d + 11))
                }
            }
        }
    }
}

/// A line looks like a directive: it has the head, and after the head it
/// ends with `]` followed only by blanks.
pub open spec fn is_shaped(s: Seq<u8>) -> bool {
    match head_end(s) {
        Some((_, i)) => {
            let e = trim_blank_end(s, s.len() as int);
            i < e && s[e - 1] == 93
        },
        None => false,
    }
}

/// The optional argument group that may follow `start` or `end`, read from
/// position `i`: `( "text" )`, `( N )` or `( -N )`, with blanks anywhere
/// between the tokens and after the group. Gives the argument and the
/// position after the group and its trailing blanks.
pub open spec fn parse_arg(s: Seq<u8>, i: int) -> Option<(ArgView, int)> {
    if !byte_at(s, i, 40) {
        Some((ArgView::Unset, i))
    } else {
        let j = skip_blank(s, i + 1);
        let inner: Option<(ArgView, int)> = if byte_at(s, j, 34) {
            let q = next_quote(s, j + 1);
            if q < s.len() {
                Some((ArgView::Text(s.subrange(j + 1, q)), q + 1))
            } else {
                None
            }
        } else {
            let neg = byte_at(s, j, 45);
            let k = if neg { j + 1 } else { j };
            let d = digits_end(s, k);
            let v = digits_value(s, k, d);
            if d == k || v > usize::MAX {
                None
            } else {
                Some((if neg { ArgView::LineRev(v) } else { ArgView::Line(v) }, d))
            }
        };
        match inner {
            None => None,
            Some((arg, k)) => {
                let m = skip_blank(s, k);
                if byte_at(s, m, 41) {
                    Some((arg, skip_blank(s, m + 1)))
                } else {
                    None
                }
            },
        }
    }
}

/// What follows the head of a well-formed directive, read from position
/// `i`: `( "PATH" , start|end ARG ) ]`, blanks allowed between all tokens
/// and at the end of the line.
pub open spec fn parse_body(s: Seq<u8>, i: int) -> Option<(Seq<u8>, Action, ArgView)> {
    let a = skip_blank(s, i);
    let b = skip_blank(s, a + 1);
    let q = next_quote(s, b + 1);
    let c = skip_blank(s, q + 1);
    let d = skip_blank(s, c + 1);
    if !byte_at(s, a, 40) || !byte_at(s, b, 34) || q >= s.len() || !byte_at(s, c, 44) {
        None
    } else {
        let act: Option<(Action, int)> = if word_at(s, d, word_start()) {
            Some((Action::Start, d + 5))
        } else if word_at(s, d, word_end()) {
            Some((Action::End, d + 3))
        } else {
            None
        };
        match act {
            None => None,
            Some((action, e)) => match parse_arg(s, skip_blank(s, e)) {
                None => None,
                Some((arg, f)) => {
                    let g = skip_blank(s, f + 1);
                    if byte_at(s, f, 41) && byte_at(s, g, 93) && skip_blank(s, g + 1) == s.len() {
                        Some((s.subrange(b + 1, q), action, arg))
                    } else {
                        None
                    }
                },
            },
        }
    }
}

/// The directive that a line spanning bytes `start .. end` of its text
/// holds, or the line's range if it is shaped like one but does not parse.
pub open spec fn line_item(s: Seq<u8>, start: int, end: int) -> ScanItem {
    match head_end(s) {
        Some((kind, i)) => match parse_body(s, i) {
            Some((path, action, arg)) => Ok(
                AttrView { start, end, path, kind, action, arg },
            ),
            None => Err((start, end)),
        },
        None => Err((start, end)),
    }
}

/// The end of the line that begins at `i`: the next line feed, or the end
/// of the text.
pub open spec fn line_end(t: Seq<u8>, i: int) -> int
    decreases t.len() - i,
{
    if 0 <= i < t.len() && t[i] != 10 {
        line_end(t, i + 1)
    } else {
        i
    }
}

pub proof fn lemma_line_end(t: Seq<u8>, i: int)
    requires
        0 <= i <= t.len(),
    ensures
        i <= line_end(t, i) <= t.len(),
        line_end(t, i) < t.len() ==> t[line_end(t, i)] == 10,
        forall|k: int| i <= k < line_end(t, i) ==> t[k] != 10,
    decreases t.len() - i,
{
    if i < t.len() && t[i] != 10 {
        lemma_line_end(t, i + 1);
    }
}

/// One item for each directive-shaped line of `t` from the line that
/// begins at `i` on, in order.
pub open spec fn scan_from(t: Seq<u8>, i: int) -> Seq<ScanItem>
    decreases t.len() - i,
    via scan_from_decreases
{
    if i < 0 || i > t.len() {
        seq![]
    } else {
        let e = line_end(t, i);
        let line = t.subrange(i, e);
        let here: Seq<ScanItem> = if is_shaped(line) {
            seq![line_item(line, i, e)]
        } else {
            seq![]
        };
        if e < t.len() {
            here + scan_from(t, e + 1)
        } else {
            here
        }
    }
}

#[via_fn]
proof fn scan_from_decreases(t: Seq<u8>, i: int) {
    if 0 <= i <= t.len() {
        lemma_line_end(t, i);
    }
}

/// The items of all directive-shaped lines of a text, in order.
pub open spec fn scan(t: Seq<u8>) -> Seq<ScanItem> {
    scan_from(t, 0)
}


// ---------------------------------------------------------------------------
// Reading the grammar
// ---------------------------------------------------------------------------

fn skip_blank_exec(s: &[u8], i: usize) -> (r: usize)
    requires
        i <= s@.len(),
    ensures
        r as int == skip_blank(s@, i as int),
        i <= r <= s@.len(),
{
    let mut j = i;
    while j < s.len() && (s[j] == 32 || s[j] == 9)
        invariant
            i <= j <= s@.len(),
            skip_blank(s@, j as int) == skip_blank(s@, i as int),
        decreases s@.len() - j,
    {
        j = j + 1;
    }
    j
}

fn trim_blank_end_exec(s: &[u8]) -> (r: usize)
    ensures
        r as int == trim_blank_end(s@, s@.len() as int),
        r <= s@.len(),
{
    let mut n = s.len();
    while n > 0 && (s[n - 1] == 32 || s[n - 1] == 9)
        invariant
            n <= s@.len(),
            trim_blank_end(s@, n as int) == trim_blank_end(s@, s@.len() as int),
        decreases n,
    {
        n = n - 1;
    }
    n
}

fn next_quote_exec(s: &[u8], i: usize) -> (r: usize)
    requires
        i <= s@.len(),
    ensures
        r as int == next_quote(s@, i as int),
        i <= r <= s@.len(),
{
    let mut j = i;
    while j < s.len() && s[j] != 34
        invariant
            i <= j <= s@.len(),
            next_quote(s@, j as int) == next_quote(s@, i as int),
        decreases s@.len() - j,
    {
        j = j + 1;
    }
    j
}

fn digits_end_exec(s: &[u8], i: usize) -> (r: usize)
    requires
        i <= s@.len(),
    ensures
        r as int == digits_end(s@, i as int),
        i <= r <= s@.len(),
{
    let mut j = i;
    while j < s.len() && 48 <= s[j] && s[j] <= 57
        invariant
            i <= j <= s@.len(),
            digits_end(s@, j as int) == digits_end(s@, i as int),
        decreases s@.len() - j,
    {
        j = j + 1;
    }
    j
}

proof fn lemma_digits_value_grows(s: Seq<u8>, i: int, k: int, j: int)
    requires
        i <= k <= j <= s.len(),
        0 <= i,
        forall|m: int| i <= m < j ==> is_digit(#[trigger] s[m]),
    ensures
        digits_value(s, i, k) <= digits_value(s, i, j),
    decreases j - k,
{
    if k < j {
        lemma_digits_value_grows(s, i, k, j - 1);
    }
}

/// The value of the decimal digits `i .. j` of `s`, if it fits in `usize`.
fn digits_value_exec(s: &[u8], i: usize, j: usize) -> (r: Option<usize>)
    requires
        i <= j <= s@.len(),
        forall|m: int| i <= m < j ==> is_digit(#[trigger] s@[m]),
    ensures
        r.is_some() <==> digits_value(s@, i as int, j as int) <= usize::MAX,
        r.is_some() ==> r.unwrap() as nat == digits_value(s@, i as int, j as int),
{
    let mut v: usize = 0;
    let mut k = i;
    while k < j
        invariant
            i <= k <= j <= s@.len(),
            forall|m: int| i <= m < j ==> is_digit(#[trigger] s@[m]),
            v as nat == digits_value(s@, i as int, k as int),
        decreases j - k,
    {
        let d = (s[k] - 48) as usize;
        if v > (usize::MAX - d) / 10 {
            proof {
                assert(v * 10 + d > usize::MAX) by (nonlinear_arith)
                    requires
                        v > (usize::MAX - d) / 10,
                        d <= 9;
                lemma_digits_value_grows(s@, i as int, k as int + 1, j as int);
            }
            return None;
        }
        proof {
            assert(v * 10 + d <= usize::MAX) by (nonlinear_arith)
                requires
                    v <= (usize::MAX - d) / 10,
                    d <= 9;
        }
        v = v * 10 + d;
        k = k + 1;
    }
    Some(v)
}

fn word_at_exec(s: &[u8], i: usize, w: &[u8]) -> (r: bool)
    ensures
        r == word_at(s@, i as int, w@),
{
    let n = s.len();
    if i > n || n - i < w.len() {
        return false;
    }
    let mut k: usize = 0;
    while k < w.len()
        invariant
            n == s@.len(),
            i + w@.len() <= s@.len(),
            k <= w@.len(),
            forall|m: int| 0 <= m < k ==> s@[i + m] == w@[m],
        decreases w@.len() - k,
    {
        if s[i + k] != w[k] {
            proof {
                assert(s@.subrange(i as int, i + w@.len())[k as int] != w@[k as int]);
            }
            return false;
        }
        k = k + 1;
    }
    proof {
        assert(s@.subrange(i as int, i + w@.len()) =~= w@);
    }
    true
}

pub fn copy_range(s: &[u8], lo: usize, hi: usize) -> (r: Vec<u8>)
    requires
        lo <= hi <= s@.len(),
    ensures
        r@ == s@.subrange(lo as int, hi as int),
{
    let mut r: Vec<u8> = Vec::new();
    let mut k = lo;
    while k < hi
        invariant
            lo <= k <= hi <= s@.len(),
            r@ == s@.subrange(lo as int, k as int),
        decreases hi - k,
    {
        r.push(s[k]);
        proof {
            assert(r@ =~= s@.subrange(lo as int, k + 1));
        }
        k = k + 1;
    }
    r
}

/// A copy of all of `s`.
pub fn copy_all(s: &[u8]) -> (r: Vec<u8>)
    ensures
        r@ == s@,
{
    let r = copy_range(s, 0, s.len());
    proof {
        assert(s@.subrange(0, s@.len() as int) =~= s@);
    }
    r
}

fn head_end_exec(s: &[u8]) -> (r: Option<(Kind, usize)>)
    ensures
        r.is_some() == head_end(s@).is_some(),
        r.is_some() ==> r.unwrap().0 == head_end(s@).unwrap().0 && r.unwrap().1 as int
            == head_end(s@).unwrap().1 && r.unwrap().1 <= s@.len(),
{
    let comment: Vec<u8> = vec![47u8, 47u8];
    let include_doc: Vec<u8> = vec![105u8, 110u8, 99u8, 108u8, 117u8, 100u8, 101u8, 95u8, 100u8, 111u8, 99u8];
    assert(comment@ == word_comment());
    assert(include_doc@ == word_include_doc());
    assert(word_comment().len() == 2);
    assert(word_include_doc().len() == 11);
    let n = s.len();
    let a = skip_blank_exec(s, 0);
    if !word_at_exec(s, a, comment.as_slice()) {
        return None;
    }
    let b = skip_blank_exec(s, a + 2);
    if !(b < n && s[b] == 35) {
        return None;
    }
    let inner = b + 1 < n && s[b + 1] == 33;
    let c = if inner { b + 2 } else { b + 1 };
    if !(c < n && s[c] == 91) {
        return None;
    }
    let d = skip_blank_exec(s, c + 1);
    if !word_at_exec(s, d, include_doc.as_slice()) {
        return None;
    }
    Some((if inner { Kind::Inner } else { Kind::Outer }, d + 11))
}

fn is_shaped_exec(s: &[u8]) -> (r: bool)
    ensures
        r == is_shaped(s@),
{
    match head_end_exec(s) {
        Some((_, i)) => {
            let e = trim_blank_end_exec(s);
            i < e && s[e - 1] == 93
        },
        None => false,
    }
}

fn parse_arg_exec(s: &[u8], i: usize) -> (r: Option<(ActionArg, usize)>)
    requires
        i <= s@.len(),
    ensures
        r.is_some() == parse_arg(s@, i as int).is_some(),
        r.is_some() ==> r.unwrap().0@ == parse_arg(s@, i as int).unwrap().0 && r.unwrap().1 as int
            == parse_arg(s@, i as int).unwrap().1 && r.unwrap().1 <= s@.len(),
{
    if !(i < s.len() && s[i] == 40) {
        return Some((ActionArg::Unset, i));
    }
    let j = skip_blank_exec(s, i + 1);
    let arg;
    let k;
    if j < s.len() && s[j] == 34 {
        let q = next_quote_exec(s, j + 1);
        if q >= s.len() {
            return None;
        }
        arg = ActionArg::Text(copy_range(s, j + 1, q));
        k = q + 1;
    } else {
        let neg = j < s.len() && s[j] == 45;
        let k0 = if neg { j + 1 } else { j };
        let d = digits_end_exec(s, k0);
        if d == k0 {
            return None;
        }
        proof {
            lemma_digits_run(s@, k0 as int);
        }
        match digits_value_exec(s, k0, d) {
            None => {
                return None;
            },
            Some(v) => {
                arg = if neg { ActionArg::LineRev(v) } else { ActionArg::Line(v) };
            },
        }
        k = d;
    }
    let m = skip_blank_exec(s, k);
    if !(m < s.len() && s[m] == 41) {
        return None;
    }
    Some((arg, skip_blank_exec(s, m + 1)))
}

proof fn lemma_digits_run(s: Seq<u8>, i: int)
    requires
        0 <= i <= s.len(),
    ensures
        i <= digits_end(s, i) <= s.len(),
        forall|m: int| i <= m < digits_end(s, i) ==> is_digit(#[trigger] s[m]),
    decreases s.len() - i,
{
    if i < s.len() && is_digit(s[i]) {
        lemma_digits_run(s, i + 1);
    }
}

fn parse_body_exec(s: &[u8], i: usize) -> (r: Option<(Vec<u8>, Action, ActionArg)>)
    requires
        i <= s@.len(),
    ensures
        r.is_some() == parse_body(s@, i as int).is_some(),
        r.is_some() ==> r.unwrap().0@ == parse_body(s@, i as int).unwrap().0 && r.unwrap().1
            == parse_body(s@, i as int).unwrap().1 && r.unwrap().2@ == parse_body(
            s@,
            i as int,
        ).unwrap().2,
{
    let start_word: Vec<u8> = vec![115u8, 116u8, 97u8, 114u8, 116u8];
    let end_word: Vec<u8> = vec![101u8, 110u8, 100u8];
    assert(start_word@ == word_start());
    assert(end_word@ == word_end());
    assert(word_start().len() == 5);
    assert(word_end().len() == 3);
    let a = skip_blank_exec(s, i);
    if !(a < s.len() && s[a] == 40) {
        return None;
    }
    let b = skip_blank_exec(s, a + 1);
    if !(b < s.len() && s[b] == 34) {
        return None;
    }
    let q = next_quote_exec(s, b + 1);
    if q >= s.len() {
        return None;
    }
    let c = skip_blank_exec(s, q + 1);
    if !(c < s.len() && s[c] == 44) {
        return None;
    }
    let d = skip_blank_exec(s, c + 1);
    let action;
    let e;
    if word_at_exec(s, d, start_word.as_slice()) {
        action = Action::Start;
        e = d + 5;
    } else if word_at_exec(s, d, end_word.as_slice()) {
        action = Action::End;
        e = d + 3;
    } else {
        return None;
    }
    let e2 = skip_blank_exec(s, e);
    match parse_arg_exec(s, e2) {
        None => None,
        Some((arg, f)) => {
            if !(f < s.len() && s[f] == 41) {
                return None;
            }
            let g = skip_blank_exec(s, f + 1);
            if !(g < s.len() && s[g] == 93) {
                return None;
            }
            if skip_blank_exec(s, g + 1) != s.len() {
                return None;
            }
            Some((copy_range(s, b + 1, q), action, arg))
        },
    }
}

/// What a directive-shaped line spanning bytes `start .. end` of its text
/// holds.
fn parse_line(s: &[u8], start: usize, end: usize) -> (r: Result<Attr, BadAttrError>)
    ensures
        item_view(r) == line_item(s@, start as int, end as int),
{
    match head_end_exec(s) {
        Some((kind, i)) => match parse_body_exec(s, i) {
            Some((path, action, arg)) => Ok(Attr { range: start..end, path, kind, action, arg }),
            None => Err(BadAttrError { range: start..end }),
        },
        None => Err(BadAttrError { range: start..end }),
    }
}


fn line_end_exec(t: &[u8], i: usize) -> (r: usize)
    requires
        i <= t@.len(),
    ensures
        r as int == line_end(t@, i as int),
        i <= r <= t@.len(),
{
    let n = t.len();
    let mut j = i;
    while j < n && t[j] != 10
        invariant
            n == t@.len(),
            i <= j <= n,
            line_end(t@, j as int) == line_end(t@, i as int),
        decreases n - j,
    {
        j = j + 1;
    }
    j
}

/// Equality of two byte strings.
pub fn bytes_eq(a: &[u8], b: &[u8]) -> (r: bool)
    ensures
        r == (a@ == b@),
{
    if a.len() != b.len() {
        return false;
    }
    let mut k: usize = 0;
    while k < a.len()
        invariant
            a@.len() == b@.len(),
            k <= a@.len(),
            forall|m: int| 0 <= m < k ==> a@[m] == b@[m],
        decreases a@.len() - k,
    {
        if a[k] != b[k] {
            return false;
        }
        k = k + 1;
    }
    proof {
        assert(a@ =~= b@);
    }
    true
}

/// The views of a list of scan results.
pub open spec fn items_view(v: Seq<Result<Attr, BadAttrError>>) -> Seq<ScanItem> {
    v.map_values(|x: Result<Attr, BadAttrError>| item_view(x))
}

/// The byte range that a scan item covers.
pub open spec fn item_range(x: ScanItem) -> (int, int) {
    match x {
        Ok(a) => (a.start, a.end),
        Err(r) => r,
    }
}

/// Which field two directives disagree on, the kind first.
pub open spec fn mismatch_of(a: AttrView, b: AttrView) -> Option<Mismatch> {
    if a.kind != b.kind {
        Some(Mismatch::Kind)
    } else if a.path != b.path {
        Some(Mismatch::Path)
    } else {
        None
    }
}

impl ActionArg {
    /// A copy of the argument.
    pub fn duplicate(&self) -> (r: ActionArg)
        ensures
            r@ == self@,
    {
        match self {
            ActionArg::Unset => ActionArg::Unset,
            ActionArg::Line(n) => ActionArg::Line(*n),
            ActionArg::LineRev(n) => ActionArg::LineRev(*n),
            ActionArg::Text(t) => {
                let c = copy_range(t.as_slice(), 0, t.len());
                proof {
                    assert(t@.subrange(0, t@.len() as int) =~= t@);
                }
                ActionArg::Text(c)
            },
        }
    }
}

impl Attr {
    /// A copy of the directive.
    pub fn duplicate(&self) -> (r: Attr)
        ensures
            r@ == self@,
    {
        let r = Attr {
            range: self.range.start..self.range.end,
            path: copy_range(self.path.as_slice(), 0, self.path.len()),
            kind: self.kind,
            action: self.action,
            arg: self.arg.duplicate(),
        };
        proof {
            assert(self.path@.subrange(0, self.path@.len() as int) =~= self.path@);
        }
        r
    }

    /// Which field `self` and `other` disagree on: the kind, else the path.
    pub fn mismatch(&self, other: &Self) -> (r: Option<Mismatch>)
        ensures
            r == mismatch_of(self@, other@),
    {
        if self.kind != other.kind {
            Some(Mismatch::Kind)
        } else if !bytes_eq(self.path.as_slice(), other.path.as_slice()) {
            Some(Mismatch::Path)
        } else {
            None
        }
    }

    /// The byte range of the directive's line.
    pub fn range(&self) -> (r: Range<usize>)
        ensures
            r == self.range,
    {
        self.range.start..self.range.end
    }

    /// Every directive-shaped line of `text`, in order: the directive it
    /// holds, or the error that it does not parse.
    pub fn find_iter(text: &str) -> (r: Vec<Result<Attr, BadAttrError>>)
        ensures
            items_view(r@) == scan(text.spec_bytes()),
    {
        Self::find_in(text.as_bytes())
    }

    /// As `find_iter`, on the bytes of a text.
    pub fn find_in(t: &[u8]) -> (r: Vec<Result<Attr, BadAttrError>>)
        ensures
            items_view(r@) == scan(t@),
    {
        let n = t.len();
        let mut res: Vec<Result<Attr, BadAttrError>> = Vec::new();
        let mut i: usize = 0;
        loop
            invariant_except_break
                items_view(res@) + scan_from(t@, i as int) == scan(t@),
            invariant
                n == t@.len(),
                i <= n,
            ensures
                items_view(res@) == scan(t@),
            decreases n - i,
        {
            let e = line_end_exec(t, i);
            let line = &t[i..e];
            let ghost before = res@;
            if is_shaped_exec(line) {
                res.push(parse_line(line, i, e));
                proof {
                    assert(items_view(res@) =~= items_view(before) + seq![line_item(line@, i as int, e as int)]);
                }
            }
            let ghost here: Seq<ScanItem> = if is_shaped(line@) {
                seq![line_item(line@, i as int, e as int)]
            } else {
                seq![]
            };
            proof {
                assert(items_view(res@) =~= items_view(before) + here);
            }
            if e < n {
                proof {
                    assert(scan_from(t@, i as int) == here + scan_from(t@, e + 1));
                    assert(items_view(before) + (here + scan_from(t@, e + 1)) =~= items_view(res@)
                        + scan_from(t@, e + 1));
                }
                i = e + 1;
            } else {
                proof {
                    assert(scan_from(t@, i as int) == here);
                }
                break;
            }
        }
        res
    }

    /// The byte range of the first directive-shaped line of `text`, whether
    /// or not it parses.
    pub fn find_may_bad(text: &str) -> (r: Option<Range<usize>>)
        ensures
            r.is_some() == (scan(text.spec_bytes()).len() > 0),
            r.is_some() ==> (r.unwrap().start as int, r.unwrap().end as int) == item_range(
                scan(text.spec_bytes())[0],
            ),
    {
        Self::find_may_bad_in(text.as_bytes())
    }

    /// As `find_may_bad`, on the bytes of a text.
    pub fn find_may_bad_in(t: &[u8]) -> (r: Option<Range<usize>>)
        ensures
            r.is_some() == (scan(t@).len() > 0),
            r.is_some() ==> (r.unwrap().start as int, r.unwrap().end as int) == item_range(
                scan(t@)[0],
            ),
    {
        let found = Self::find_in(t);
        if found.len() == 0 {
            return None;
        }
        proof {
            assert(items_view(found@)[0] == item_view(found@[0]));
        }
        match &found[0] {
            Ok(a) => Some(a.range()),
            Err(e) => Some(e.range()),
        }
    }

    /// The line, counted from one, on which the directive stands in `input`.
    pub fn line(&self, input: &str) -> (r: usize)
        requires
            input.spec_bytes().len() < usize::MAX,
        ensures
            r as nat == pos_after(
                input.spec_bytes(),
                if self.range.start < input.spec_bytes().len() {
                    self.range.start as int
                } else {
                    input.spec_bytes().len() as int
                },
            ).0,
    {
        to_line(input.as_bytes(), self.range.start)
    }
}

impl BadAttrError {
    /// The byte range of the line that does not parse.
    pub fn range(&self) -> (r: Range<usize>)
        ensures
            r == self.range,
    {
        self.range.start..self.range.end
    }
}

} // verus!
