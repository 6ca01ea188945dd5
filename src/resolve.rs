//! Selecting the part of an included file that a pair of directives asks
//! for.

use crate::attr::{word_at, ActionArg, ArgView};
use std::ops::Range;
use vstd::prelude::*;

verus! {

// ---------------------------------------------------------------------------
// Line anchors
// ---------------------------------------------------------------------------

/// Scanning `t` from `i` on, the position just after the `k`-th line feed
/// met, or the end of `t` if fewer are met.
pub open spec fn after_newlines(t: Seq<u8>, i: int, k: int) -> int
    decreases t.len() - i,
{
    if i < 0 || i >= t.len() {
        t.len() as int
    } else if t[i] == 10 && k <= 1 {
        i + 1
    } else if t[i] == 10 {
        after_newlines(t, i + 1, k - 1)
    } else {
        after_newlines(t, i + 1, k)
    }
}

/// The offset at which line `line` (counted from one) of `t` begins; lines
/// up to one give the beginning, lines past the last give the end.
pub open spec fn line_offset_spec(t: Seq<u8>, line: nat) -> int {
    if line <= 1 {
        0
    } else {
        after_newlines(t, 0, line - 1)
    }
}

/// Scanning the first `n` bytes of `t` backwards, the position of the
/// `k`-th line feed met, or zero if fewer are met.
pub open spec fn before_newlines(t: Seq<u8>, n: int, k: int) -> int
    decreases n,
{
    if n <= 0 || n > t.len() {
        0
    } else if t[n - 1] == 10 && k <= 1 {
        n - 1
    } else if t[n - 1] == 10 {
        before_newlines(t, n - 1, k - 1)
    } else {
        before_newlines(t, n - 1, k)
    }
}

/// The offset of the `line`-th line feed counted back from the end of `t`;
/// zero gives the end of `t`, a count past the first line feed gives zero.
pub open spec fn line_offset_rev_spec(t: Seq<u8>, line: nat) -> int {
    if line == 0 {
        t.len() as int
    } else {
        before_newlines(t, t.len() as int, line as int)
    }
}

/// The offset at which line `line`, counted from one, of `text` begins.
pub fn line_offset(text: &[u8], line: usize) -> (r: usize)
    ensures
        r as int == line_offset_spec(text@, line as nat),
        r <= text@.len(),
{
    if line <= 1 {
        return 0;
    }
    let n = text.len();
    let mut k = line - 1;
    let mut i: usize = 0;
    while i < n
        invariant
            n == text@.len(),
            i <= n,
            k >= 1,
            after_newlines(text@, i as int, k as int) == line_offset_spec(text@, line as nat),
        decreases n - i,
    {
        if text[i] == 10 {
            if k == 1 {
                return i + 1;
            }
            k = k - 1;
        }
        i = i + 1;
    }
    n
}

/// The offset of the `line`-th line feed of `text`, counted back from its
/// end.
pub fn line_offset_rev(text: &[u8], line: usize) -> (r: usize)
    ensures
        r as int == line_offset_rev_spec(text@, line as nat),
        r <= text@.len(),
{
    let n = text.len();
    if line == 0 {
        return n;
    }
    let mut k = line;
    let mut i: usize = n;
    while i > 0
        invariant
            n == text@.len(),
            i <= n,
            k >= 1,
            before_newlines(text@, i as int, k as int) == line_offset_rev_spec(text@, line as nat),
        decreases i,
    {
        if text[i - 1] == 10 {
            if k == 1 {
                return i - 1;
            }
            k = k - 1;
        }
        i = i - 1;
    }
    0
}

// ---------------------------------------------------------------------------
// Text anchors
// ---------------------------------------------------------------------------

/// The first position at or after `i` where `p` occurs in `t`.
pub open spec fn find_from(t: Seq<u8>, p: Seq<u8>, i: int) -> Option<int>
    decreases t.len() + 1 - i,
{
    if i < 0 || i > t.len() {
        None
    } else if word_at(t, i, p) {
        Some(i)
    } else {
        find_from(t, p, i + 1)
    }
}

/// The last position at or before `i` where `p` occurs in `t`.
pub open spec fn rfind_to(t: Seq<u8>, p: Seq<u8>, i: int) -> Option<int>
    decreases i + 1,
{
    if i < 0 {
        None
    } else if word_at(t, i, p) {
        Some(i)
    } else {
        rfind_to(t, p, i - 1)
    }
}

/// Where `p` first occurs in `t`.
pub open spec fn first_occurrence(t: Seq<u8>, p: Seq<u8>) -> Option<int> {
    find_from(t, p, 0)
}

/// Where `p` last occurs in `t`.
pub open spec fn last_occurrence(t: Seq<u8>, p: Seq<u8>) -> Option<int> {
    rfind_to(t, p, t.len() as int)
}

fn word_at_slice(t: &[u8], i: usize, p: &[u8]) -> (r: bool)
    requires
        i <= t@.len(),
    ensures
        r == word_at(t@, i as int, p@),
{
    let n = t.len();
    if n - i < p.len() {
        return false;
    }
    let mut k: usize = 0;
    while k < p.len()
        invariant
            n == t@.len(),
            i + p@.len() <= n,
            k <= p@.len(),
            forall|m: int| 0 <= m < k ==> t@[i + m] == p@[m],
        decreases p@.len() - k,
    {
        if t[i + k] != p[k] {
            proof {
                assert(t@.subrange(i as int, i + p@.len())[k as int] != p@[k as int]);
            }
            return false;
        }
        k = k + 1;
    }
    proof {
        assert(t@.subrange(i as int, i + p@.len()) =~= p@);
    }
    true
}

/// The offset of the first occurrence of `p` in `t`.
pub fn find_first(t: &[u8], p: &[u8]) -> (r: Option<usize>)
    ensures
        r.is_some() == first_occurrence(t@, p@).is_some(),
        r.is_some() ==> r.unwrap() as int == first_occurrence(t@, p@).unwrap() && r.unwrap() <= t@.len(),
{
    let n = t.len();
    let mut i: usize = 0;
    while i <= n
        invariant
            n == t@.len(),
            i <= n + 1,
            find_from(t@, p@, i as int) == first_occurrence(t@, p@),
        decreases n + 1 - i,
    {
        if word_at_slice(t, i, p) {
            return Some(i);
        }
        if i == n {
            return None;
        }
        i = i + 1;
    }
    None
}

/// The offset of the last occurrence of `p` in `t`.
pub fn find_last(t: &[u8], p: &[u8]) -> (r: Option<usize>)
    ensures
        r.is_some() == last_occurrence(t@, p@).is_some(),
        r.is_some() ==> r.unwrap() as int == last_occurrence(t@, p@).unwrap() && r.unwrap() <= t@.len(),
{
    let n = t.len();
    let mut i: usize = n;
    loop
        invariant
            n == t@.len(),
            i <= n,
            rfind_to(t@, p@, i as int) == last_occurrence(t@, p@),
        decreases i,
    {
        if word_at_slice(t, i, p) {
            return Some(i);
        }
        if i == 0 {
            return None;
        }
        i = i - 1;
    }
}


// ---------------------------------------------------------------------------
// Whitespace
// ---------------------------------------------------------------------------

/// A one-byte character with the Unicode White_Space property.
pub open spec fn is_ascii_space(b: u8) -> bool {
    (9 <= b && b <= 13) || b == 32
}

/// The width of the UTF-8 encoding of a White_Space character (U+0009 to
/// U+000D, U+0020, U+0085, U+00A0, U+1680, U+2000 to U+200A, U+2028,
/// U+2029, U+202F, U+205F, U+3000) beginning at byte `i` of `t` and ending
/// at or before `hi`; zero if there is none.
pub open spec fn space_width_at(t: Seq<u8>, i: int, hi: int) -> int {
    if 0 <= i && i + 1 <= hi && hi <= t.len() && is_ascii_space(t[i]) {
        1
    } else if 0 <= i && i + 2 <= hi && hi <= t.len() && t[i] == 0xC2 && (t[i + 1] == 0x85
        || t[i + 1] == 0xA0) {
        2
    } else if 0 <= i && i + 3 <= hi && hi <= t.len() && ((t[i] == 0xE1 && t[i + 1] == 0x9A
        && t[i + 2] == 0x80) || (t[i] == 0xE2 && t[i + 1] == 0x80 && ((0x80 <= t[i + 2] && t[i
        + 2] <= 0x8A) || t[i + 2] == 0xA8 || t[i + 2] == 0xA9 || t[i + 2] == 0xAF)) || (t[i]
        == 0xE2 && t[i + 1] == 0x81 && t[i + 2] == 0x9F) || (t[i] == 0xE3 && t[i + 1] == 0x80
        && t[i + 2] == 0x80)) {
        3
    } else {
        0
    }
}

/// The width of the encoding of a White_Space character that ends just
/// before `j` and begins at or after `lo`; zero if there is none.
pub open spec fn space_width_before(t: Seq<u8>, lo: int, j: int) -> int {
    if lo <= j - 1 && space_width_at(t, j - 1, j) == 1 {
        1
    } else if lo <= j - 2 && space_width_at(t, j - 2, j) == 2 {
        2
    } else if lo <= j - 3 && space_width_at(t, j - 3, j) == 3 {
        3
    } else {
        0
    }
}

/// The range `lo .. hi` of `t` without its leading whitespace: where it
/// begins.
pub open spec fn trim_front(t: Seq<u8>, lo: int, hi: int) -> int
    decreases hi - lo,
{
    if lo < hi && space_width_at(t, lo, hi) > 0 {
        trim_front(t, lo + space_width_at(t, lo, hi), hi)
    } else {
        lo
    }
}

/// The range `lo .. hi` of `t` without its trailing whitespace: where it
/// ends.
pub open spec fn trim_back(t: Seq<u8>, lo: int, hi: int) -> int
    decreases hi - lo,
{
    if lo < hi && space_width_before(t, lo, hi) > 0 {
        trim_back(t, lo, hi - space_width_before(t, lo, hi))
    } else {
        hi
    }
}

fn space_width_at_exec(t: &[u8], i: usize, hi: usize) -> (r: usize)
    requires
        i <= hi <= t@.len(),
    ensures
        r as int == space_width_at(t@, i as int, hi as int),
        r <= 3,
{
    if i < hi && ((9 <= t[i] && t[i] <= 13) || t[i] == 32) {
        1
    } else if hi - i >= 2 && t[i] == 0xC2 && (t[i + 1] == 0x85 || t[i + 1] == 0xA0) {
        2
    } else if hi - i >= 3 && ((t[i] == 0xE1 && t[i + 1] == 0x9A && t[i + 2] == 0x80) || (t[i]
        == 0xE2 && t[i + 1] == 0x80 && ((0x80 <= t[i + 2] && t[i + 2] <= 0x8A) || t[i + 2]
        == 0xA8 || t[i + 2] == 0xA9 || t[i + 2] == 0xAF)) || (t[i] == 0xE2 && t[i + 1] == 0x81
        && t[i + 2] == 0x9F) || (t[i] == 0xE3 && t[i + 1] == 0x80 && t[i + 2] == 0x80)) {
        3
    } else {
        0
    }
}

fn space_width_before_exec(t: &[u8], lo: usize, j: usize) -> (r: usize)
    requires
        lo <= j <= t@.len(),
    ensures
        r as int == space_width_before(t@, lo as int, j as int),
        r <= j - lo,
{
    if j - lo >= 1 && space_width_at_exec(t, j - 1, j) == 1 {
        1
    } else if j - lo >= 2 && space_width_at_exec(t, j - 2, j) == 2 {
        2
    } else if j - lo >= 3 && space_width_at_exec(t, j - 3, j) == 3 {
        3
    } else {
        0
    }
}

// ---------------------------------------------------------------------------
// Resolving a range
// ---------------------------------------------------------------------------

/// Why the range of a pair cannot be taken from the included text.
#[derive(Clone, Copy, Eq, PartialEq, Debug, Structural)]
pub enum Unresolved {
    /// The start directive's anchor text does not occur.
    StartNotFound,
    /// The end directive's anchor text does not occur.
    EndNotFound,
    /// The range would begin after it ends.
    Reversed,
}

/// Where the range begins, by the start directive's argument.
pub open spec fn lower_bound(t: Seq<u8>, a: ArgView) -> Option<int> {
    match a {
        ArgView::Unset => Some(0),
        ArgView::Line(n) => Some(line_offset_spec(t, n)),
        ArgView::LineRev(n) => Some(line_offset_rev_spec(t, n)),
        ArgView::Text(p) => first_occurrence(t, p),
    }
}

/// Where the range ends, by the end directive's argument.
pub open spec fn upper_bound(t: Seq<u8>, a: ArgView) -> Option<int> {
    match a {
        ArgView::Unset => Some(t.len() as int),
        ArgView::Line(n) => Some(line_offset_spec(t, n)),
        ArgView::LineRev(n) => Some(line_offset_rev_spec(t, n)),
        ArgView::Text(p) => last_occurrence(t, p),
    }
}

/// The range of `t` that a pair with arguments `a` (start) and `b` (end)
/// selects, whitespace dropped at both ends.
pub open spec fn resolve_spec(t: Seq<u8>, a: ArgView, b: ArgView) -> Result<(int, int), Unresolved> {
    match lower_bound(t, a) {
        None => Err(Unresolved::StartNotFound),
        Some(lo) => match upper_bound(t, b) {
            None => Err(Unresolved::EndNotFound),
            Some(hi) => if lo > hi {
                Err(Unresolved::Reversed)
            } else {
                let s = trim_front(t, lo, hi);
                Ok((s, trim_back(t, s, hi)))
            },
        },
    }
}

fn bound(text: &[u8], arg: &ActionArg, is_start: bool) -> (r: Option<usize>)
    ensures
        r.is_some() == (if is_start { lower_bound(text@, arg@) } else { upper_bound(text@, arg@) }).is_some(),
        r.is_some() ==> r.unwrap() as int == (if is_start {
            lower_bound(text@, arg@)
        } else {
            upper_bound(text@, arg@)
        }).unwrap() && r.unwrap() <= text@.len(),
{
    match arg {
        ActionArg::Unset => Some(if is_start { 0 } else { text.len() }),
        ActionArg::Line(n) => Some(line_offset(text, *n)),
        ActionArg::LineRev(n) => Some(line_offset_rev(text, *n)),
        ActionArg::Text(p) => if is_start {
            find_first(text, p.as_slice())
        } else {
            find_last(text, p.as_slice())
        },
    }
}

/// The range of `text` that a pair selects: from the start directive's
/// argument `start` to the end directive's argument `end`, whitespace
/// dropped at both ends.
pub fn trim(text: &[u8], start: &ActionArg, end: &ActionArg) -> (r: Result<Range<usize>, Unresolved>)
    ensures
        match resolve_spec(text@, start@, end@) {
            Ok((lo, hi)) => r.is_ok() && r.unwrap().start as int == lo && r.unwrap().end as int == hi,
            Err(e) => r == Err::<Range<usize>, Unresolved>(e),
        },
        r.is_ok() ==> r.unwrap().start <= r.unwrap().end <= text@.len(),
{
    let lo = match bound(text, start, true) {
        Some(i) => i,
        None => {
            return Err(Unresolved::StartNotFound);
        },
    };
    let hi = match bound(text, end, false) {
        Some(i) => i,
        None => {
            return Err(Unresolved::EndNotFound);
        },
    };
    if lo > hi {
        return Err(Unresolved::Reversed);
    }
    let mut s = lo;
    loop
        invariant
            lo <= s <= hi <= text@.len(),
            trim_front(text@, s as int, hi as int) == trim_front(text@, lo as int, hi as int),
        ensures
            lo <= s <= hi,
            trim_front(text@, s as int, hi as int) == s,
            trim_front(text@, lo as int, hi as int) == s,
        decreases hi - s,
    {
        let w = space_width_at_exec(text, s, hi);
        if s == hi || w == 0 {
            break;
        }
        s = s + w;
    }
    let mut e = hi;
    loop
        invariant
            s <= e <= hi <= text@.len(),
            trim_front(text@, s as int, hi as int) == s,
            trim_back(text@, s as int, e as int) == trim_back(text@, s as int, hi as int),
        ensures
            s <= e <= hi,
            trim_back(text@, s as int, hi as int) == e,
        decreases e - s,
    {
        let w = space_width_before_exec(text, s, e);
        if s == e || w == 0 {
            break;
        }
        e = e - w;
    }
    Ok(s..e)
}


// ---------------------------------------------------------------------------
// Laws of the resolver
// ---------------------------------------------------------------------------

/// The number of line feeds in `t` from offset `i` on.
pub open spec fn newlines_from(t: Seq<u8>, i: int) -> nat
    decreases t.len() - i,
{
    if i < 0 || i >= t.len() {
        0
    } else {
        (if t[i] == 10 { 1nat } else { 0nat }) + newlines_from(t, i + 1)
    }
}

/// The number of lines of `t`: a line feed that ends `t` opens no further
/// line, and an empty text has none.
pub open spec fn line_count(t: Seq<u8>) -> nat {
    if t.len() == 0 {
        0
    } else if t[t.len() - 1] == 10 {
        newlines_from(t, 0)
    } else {
        newlines_from(t, 0) + 1
    }
}

proof fn lemma_after_too_few(t: Seq<u8>, i: int, k: int)
    requires
        0 <= i <= t.len(),
        k >= 1,
        newlines_from(t, i) < k || (newlines_from(t, i) == k && t.len() > 0 && t[t.len() - 1]
            == 10),
    ensures
        after_newlines(t, i, k) == t.len(),
    decreases t.len() - i,
{
    if i < t.len() {
        if t[i] == 10 && k <= 1 {
            if newlines_from(t, i + 1) > 0 {
                lemma_newlines_positive(t, i + 1);
            } else {
                lemma_no_newlines_after(t, i + 1);
                if i + 1 < t.len() {
                    assert(t[t.len() - 1] != 10);
                }
            }
        } else if t[i] == 10 {
            lemma_after_too_few(t, i + 1, k - 1);
        } else {
            lemma_after_too_few(t, i + 1, k);
        }
    }
}

proof fn lemma_newlines_positive(t: Seq<u8>, i: int)
    requires
        0 <= i,
        newlines_from(t, i) > 0,
    ensures
        i < t.len(),
    decreases t.len() - i,
{
}

proof fn lemma_no_newlines_after(t: Seq<u8>, i: int)
    requires
        0 <= i,
        newlines_from(t, i) == 0,
    ensures
        forall|j: int| i <= j < t.len() ==> t[j] != 10,
    decreases t.len() - i,
{
    if i < t.len() {
        lemma_no_newlines_after(t, i + 1);
    }
}

/// Line anchors: line one begins at offset zero, zero line feeds back from
/// the end is the end, and any line past the last of the text begins at
/// its end.
pub proof fn law_line_anchors(t: Seq<u8>, n: nat)
    ensures
        line_offset_spec(t, 1) == 0,
        line_offset_rev_spec(t, 0) == t.len(),
        n > line_count(t) ==> line_offset_spec(t, n) == t.len(),
{
    if n > line_count(t) && n > 1 {
        lemma_after_too_few(t, 0, n - 1);
    }
    if t.len() > 0 && t[t.len() - 1] == 10 {
        lemma_newline_counted(t, 0, t.len() - 1);
    }
}

proof fn lemma_newline_counted(t: Seq<u8>, i: int, j: int)
    requires
        0 <= i <= j < t.len(),
        t[j] == 10,
    ensures
        newlines_from(t, i) >= 1,
    decreases j - i,
{
    if i < j {
        lemma_newline_counted(t, i + 1, j);
    }
}

/// Text anchors: a start anchor resolves to the first occurrence of its
/// text, an end anchor to the last, and a start that falls after the end
/// is refused.
pub proof fn law_anchor_search(t: Seq<u8>, p: Seq<u8>, a: ArgView, b: ArgView)
    ensures
        lower_bound(t, ArgView::Text(p)) is Some ==> ({
            let i = lower_bound(t, ArgView::Text(p))->0;
            word_at(t, i, p) && forall|j: int| 0 <= j < i ==> !word_at(t, j, p)
        }),
        upper_bound(t, ArgView::Text(p)) is Some ==> ({
            let i = upper_bound(t, ArgView::Text(p))->0;
            word_at(t, i, p) && forall|j: int| i < j <= t.len() ==> !word_at(t, j, p)
        }),
        lower_bound(t, ArgView::Text(p)) is None <==> upper_bound(t, ArgView::Text(p)) is None,
        lower_bound(t, a) is Some && upper_bound(t, b) is Some && lower_bound(t, a)->0 > upper_bound(
            t,
            b,
        )->0 ==> resolve_spec(t, a, b) == Err::<(int, int), Unresolved>(Unresolved::Reversed),
{
    lemma_find_from(t, p, 0);
    lemma_rfind_to(t, p, t.len() as int);
}

proof fn lemma_find_from(t: Seq<u8>, p: Seq<u8>, i: int)
    requires
        0 <= i <= t.len() + 1,
    ensures
        find_from(t, p, i) is Some ==> ({
            let k = find_from(t, p, i)->0;
            i <= k && word_at(t, k, p) && forall|j: int| i <= j < k ==> !word_at(t, j, p)
        }),
        find_from(t, p, i) is None ==> forall|j: int| i <= j <= t.len() ==> !word_at(t, j, p),
    decreases t.len() + 1 - i,
{
    if i <= t.len() && !word_at(t, i, p) {
        lemma_find_from(t, p, i + 1);
    }
}

proof fn lemma_rfind_to(t: Seq<u8>, p: Seq<u8>, i: int)
    requires
        -1 <= i <= t.len(),
    ensures
        rfind_to(t, p, i) is Some ==> ({
            let k = rfind_to(t, p, i)->0;
            k <= i && word_at(t, k, p) && forall|j: int| k < j <= i ==> !word_at(t, j, p)
        }),
        rfind_to(t, p, i) is None ==> forall|j: int| 0 <= j <= i ==> !word_at(t, j, p),
    decreases i + 1,
{
    if i >= 0 && !word_at(t, i, p) {
        lemma_rfind_to(t, p, i - 1);
    }
}

proof fn lemma_trim_front(t: Seq<u8>, lo: int, hi: int)
    requires
        lo <= hi,
    ensures
        lo <= trim_front(t, lo, hi) <= hi,
        trim_front(t, lo, hi) == hi || space_width_at(t, trim_front(t, lo, hi), hi) == 0,
    decreases hi - lo,
{
    if lo < hi && space_width_at(t, lo, hi) > 0 {
        lemma_trim_front(t, lo + space_width_at(t, lo, hi), hi);
    }
}

proof fn lemma_trim_back(t: Seq<u8>, lo: int, hi: int)
    requires
        lo <= hi,
    ensures
        lo <= trim_back(t, lo, hi) <= hi,
        trim_back(t, lo, hi) == lo || space_width_before(t, lo, trim_back(t, lo, hi)) == 0,
    decreases hi - lo,
{
    if lo < hi && space_width_before(t, lo, hi) > 0 {
        lemma_trim_back(t, lo, hi - space_width_before(t, lo, hi));
    }
}

/// Trimming: a resolved range is empty, or neither begins nor ends with a
/// whitespace character.
pub proof fn law_trimmed(t: Seq<u8>, a: ArgView, b: ArgView)
    ensures
        resolve_spec(t, a, b) is Ok ==> ({
            let (s, e) = resolve_spec(t, a, b)->Ok_0;
            s == e || (space_width_at(t, s, e) == 0 && space_width_before(t, s, e) == 0)
        }),
{
    if let (Some(lo), Some(hi)) = (lower_bound(t, a), upper_bound(t, b)) {
        if lo <= hi {
            lemma_trim_front(t, lo, hi);
            let s = trim_front(t, lo, hi);
            lemma_trim_back(t, s, hi);
        }
    }
}

} // verus!
