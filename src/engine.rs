//! Pairing directives and substituting the rendered blocks between them.

use crate::attr::{
    copy_all, is_shaped, item_range, item_view, items_view, lemma_line_end, line_end, line_item,
    mismatch_of, scan, scan_from, Action, Attr, AttrView, BadAttrError, Kind, Mismatch, ScanItem,
};
use crate::resolve::{resolve_spec, trim, Unresolved};
use std::ops::Range;
use vstd::prelude::*;

verus! {

// ---------------------------------------------------------------------------
// Errors
// ---------------------------------------------------------------------------

/// Why a file cannot be processed. Every error stops the file's processing.
#[derive(Debug)]
pub enum ApplyError {
    /// A line shaped like a directive does not parse.
    BadAttr(BadAttrError),
    /// A start directive without its end, or an end directive without its
    /// start.
    MissingAttr(Attr),
    /// A start and the end that follows it disagree on kind or path.
    MismatchAttr { start: Attr, end: Attr, mismatch: Mismatch },
    /// The anchor text of this directive does not occur in the included text.
    TextNotFound(Attr),
    /// The selected range of the included text would begin after it ends.
    RangeReversed { start: Attr, end: Attr },
    /// The included file could not be read, for the reason given.
    SourceRead { attr: Attr, reason: Vec<u8> },
    /// The selected range of the included text holds a directive-shaped
    /// line, at `source_range` of `source_text`.
    SourceContent {
        attr: Attr,
        source_rel_path: Vec<u8>,
        source_text: Vec<u8>,
        source_range: Range<usize>,
    },
}

/// The mathematical value of an [`ApplyError`].
pub enum ErrView {
    BadAttr(int, int),
    MissingAttr(AttrView),
    MismatchAttr(AttrView, AttrView, Mismatch),
    TextNotFound(AttrView),
    RangeReversed(AttrView, AttrView),
    SourceRead(AttrView, Seq<u8>),
    SourceContent(AttrView, Seq<u8>, Seq<u8>, int, int),
}

impl View for ApplyError {
    type V = ErrView;

    open spec fn view(&self) -> ErrView {
        match self {
            ApplyError::BadAttr(e) => ErrView::BadAttr(e.range.start as int, e.range.end as int),
            ApplyError::MissingAttr(a) => ErrView::MissingAttr(a@),
            ApplyError::MismatchAttr { start, end, mismatch } => ErrView::MismatchAttr(
                start@,
                end@,
                *mismatch,
            ),
            ApplyError::TextNotFound(a) => ErrView::TextNotFound(a@),
            ApplyError::RangeReversed { start, end } => ErrView::RangeReversed(start@, end@),
            ApplyError::SourceRead { attr, reason } => ErrView::SourceRead(attr@, reason@),
            ApplyError::SourceContent { attr, source_rel_path, source_text, source_range } =>
                ErrView::SourceContent(
                attr@,
                source_rel_path@,
                source_text@,
                source_range.start as int,
                source_range.end as int,
            ),
        }
    }
}

// ---------------------------------------------------------------------------
// Pairing
// ---------------------------------------------------------------------------

/// What one directive does to the pairing: the pending start afterwards,
/// and a completed pair, nothing, or an error.
pub open spec fn pair_step(pending: Option<AttrView>, item: ScanItem) -> (
    Option<AttrView>,
    Result<Option<(AttrView, AttrView)>, ErrView>,
) {
    match item {
        Err((a, b)) => (pending, Err(ErrView::BadAttr(a, b))),
        Ok(x) => if x.action == Action::Start {
            (
                Some(x),
                match pending {
                    Some(p) => Err(ErrView::MissingAttr(p)),
                    None => Ok(None),
                },
            )
        } else {
            (
                None,
                match pending {
                    None => Err(ErrView::MissingAttr(x)),
                    Some(p) => match mismatch_of(p, x) {
                        Some(m) => Err(ErrView::MismatchAttr(p, x, m)),
                        None => Ok(Some((p, x))),
                    },
                },
            )
        },
    }
}

/// The pairs completed from item `i` of `items` on, with `pending` the
/// start that waits for its end, and the error that stops the pairing, if
/// any. A start still pending at the end is an error.
pub open spec fn pair_from(items: Seq<ScanItem>, i: int, pending: Option<AttrView>) -> (
    Seq<(AttrView, AttrView)>,
    Option<ErrView>,
)
    decreases items.len() - i,
{
    if i < 0 || i >= items.len() {
        (
            seq![],
            match pending {
                Some(p) => Some(ErrView::MissingAttr(p)),
                None => None,
            },
        )
    } else {
        let (next, out) = pair_step(pending, items[i]);
        match out {
            Err(e) => (seq![], Some(e)),
            Ok(None) => pair_from(items, i + 1, next),
            Ok(Some(p)) => {
                let (ps, err) = pair_from(items, i + 1, next);
                (seq![p] + ps, err)
            },
        }
    }
}

/// The pairs of a sequence of directives, in order, and the error that
/// stops the pairing, if any.
pub open spec fn pairing(items: Seq<ScanItem>) -> (Seq<(AttrView, AttrView)>, Option<ErrView>) {
    pair_from(items, 0, None)
}

pub open spec fn opt_view(a: Option<Attr>) -> Option<AttrView> {
    match a {
        Some(x) => Some(x@),
        None => None,
    }
}

pub open spec fn step_view(r: Result<Option<(Attr, Attr)>, ApplyError>) -> Result<
    Option<(AttrView, AttrView)>,
    ErrView,
> {
    match r {
        Ok(Some((s, e))) => Ok(Some((s@, e@))),
        Ok(None) => Ok(None),
        Err(e) => Err(e@),
    }
}

/// Feeds one directive to the pairing: `start` holds the start that waits
/// for its end.
pub fn make_pair(start: &mut Option<Attr>, attr: Result<Attr, BadAttrError>) -> (r: Result<
    Option<(Attr, Attr)>,
    ApplyError,
>)
    ensures
        (opt_view(*final(start)), step_view(r)) == pair_step(opt_view(*old(start)), item_view(attr)),
{
    match attr {
        Ok(attr) => {
            if attr.action == Action::Start {
                let prev = start.take();
                *start = Some(attr);
                match prev {
                    Some(prev) => Err(ApplyError::MissingAttr(prev)),
                    None => Ok(None),
                }
            } else {
                let end = attr;
                match start.take() {
                    Some(s) => match s.mismatch(&end) {
                        Some(mismatch) => Err(ApplyError::MismatchAttr { start: s, end, mismatch }),
                        None => Ok(Some((s, end))),
                    },
                    None => Err(ApplyError::MissingAttr(end)),
                }
            }
        },
        Err(e) => Err(ApplyError::BadAttr(e)),
    }
}

/// The pairs of a text's directives, in order, and the error that stops
/// their pairing, if any.
pub struct PairScan {
    pub pairs: Vec<(Attr, Attr)>,
    pub error: Option<ApplyError>,
}

pub open spec fn pairs_view(v: Seq<(Attr, Attr)>) -> Seq<(AttrView, AttrView)> {
    v.map_values(|p: (Attr, Attr)| (p.0@, p.1@))
}

pub open spec fn err_opt_view(e: Option<ApplyError>) -> Option<ErrView> {
    match e {
        Some(x) => Some(x@),
        None => None,
    }
}

/// Pairs the directives of `input` in document order.
pub fn collect_pairs(input: &[u8]) -> (r: PairScan)
    ensures
        (pairs_view(r.pairs@), err_opt_view(r.error)) == pairing(scan(input@)),
{
    let mut in_order = Attr::find_in(input);
    let ghost items = items_view(in_order@);
    let ghost all = in_order@;
    let mut found: Vec<Result<Attr, BadAttrError>> = Vec::new();
    while in_order.len() > 0
        invariant
            in_order@.len() + found@.len() == all.len(),
            in_order@ == all.subrange(0, in_order@.len() as int),
            forall|k: int| 0 <= k < found@.len() ==> #[trigger] found@[k] == all[all.len() - 1 - k],
        decreases in_order@.len(),
    {
        let x = in_order.pop().unwrap();
        found.push(x);
        proof {
            assert(in_order@ =~= all.subrange(0, in_order@.len() as int));
        }
    }
    assert(forall|k: int| 0 <= k < all.len() ==> #[trigger] items[k] == item_view(all[k]));
    let mut pairs: Vec<(Attr, Attr)> = Vec::new();
    let mut pending: Option<Attr> = None;
    let ghost mut i: int = 0;
    while found.len() > 0
        invariant
            0 <= i <= items.len(),
            found@.len() == items.len() - i,
            forall|k: int| 0 <= k < found@.len() ==> item_view(#[trigger] found@[k]) == items[items.len() - 1 - k],
            items == scan(input@),
            pairs_view(pairs@) + pair_from(items, i, opt_view(pending)).0 == pairing(items).0,
            pair_from(items, i, opt_view(pending)).1 == pairing(items).1,
        decreases found@.len(),
    {
        let item = found.pop().unwrap();
        let ghost before = pairs@;
        let ghost old_pending = opt_view(pending);
        match make_pair(&mut pending, item) {
            Err(e) => {
                return PairScan { pairs, error: Some(e) };
            },
            Ok(None) => {},
            Ok(Some(p)) => {
                pairs.push(p);
                proof {
                    assert(pairs_view(pairs@) =~= pairs_view(before) + seq![(p.0@, p.1@)]);
                }
            },
        }
        proof {
            i = i + 1;
        }
    }
    let error = match pending {
        Some(p) => Some(ApplyError::MissingAttr(p)),
        None => None,
    };
    proof {
        assert(pairs_view(pairs@) =~= pairs_view(pairs@) + pair_from(items, i, opt_view(pending)).0);
    }
    PairScan { pairs, error }
}


// ---------------------------------------------------------------------------
// Rendering
// ---------------------------------------------------------------------------

/// The prefix of each rendered line: `//! ` for inner directives, `/// `
/// for outer ones.
pub open spec fn prefix_of(k: Kind) -> Seq<u8> {
    match k {
        Kind::Inner => seq![47u8, 47u8, 33u8, 32u8],
        Kind::Outer => seq![47u8, 47u8, 47u8, 32u8],
    }
}

impl Kind {
    /// The prefix of each line rendered for this kind.
    pub fn doc_comment_prefix(self) -> (r: Vec<u8>)
        ensures
            r@ == prefix_of(self),
    {
        match self {
            Kind::Inner => vec![47u8, 47u8, 33u8, 32u8],
            Kind::Outer => vec![47u8, 47u8, 47u8, 32u8],
        }
    }
}

/// The lines of `s` from the line that begins at `i` on, each written as
/// `prefix`, the line and a line feed. A line's end is a line feed, and a
/// carriage return before that line feed belongs to no line; a line feed
/// that ends `s` opens no further line.
pub open spec fn render_from(s: Seq<u8>, i: int, prefix: Seq<u8>) -> Seq<u8>
    decreases s.len() - i,
    via render_from_decreases
{
    if i < 0 || i >= s.len() {
        seq![]
    } else {
        let e = line_end(s, i);
        let line = if e < s.len() && e > i && s[e - 1] == 13 {
            s.subrange(i, e - 1)
        } else {
            s.subrange(i, e)
        };
        let here = prefix + line + seq![10u8];
        if e < s.len() {
            here + render_from(s, e + 1, prefix)
        } else {
            here
        }
    }
}

#[via_fn]
proof fn render_from_decreases(s: Seq<u8>, i: int, prefix: Seq<u8>) {
    if 0 <= i < s.len() {
        lemma_line_end(s, i);
    }
}

/// Every line of `s` written as `prefix`, the line and a line feed.
pub open spec fn render(s: Seq<u8>, prefix: Seq<u8>) -> Seq<u8> {
    render_from(s, 0, prefix)
}

/// Appends bytes `lo .. hi` of `s` to `out`.
pub fn push_range(out: &mut Vec<u8>, s: &[u8], lo: usize, hi: usize)
    requires
        lo <= hi <= s@.len(),
    ensures
        final(out)@ == old(out)@ + s@.subrange(lo as int, hi as int),
{
    let mut k = lo;
    while k < hi
        invariant
            lo <= k <= hi <= s@.len(),
            out@ == old(out)@ + s@.subrange(lo as int, k as int),
        decreases hi - k,
    {
        out.push(s[k]);
        proof {
            assert(out@ =~= old(out)@ + s@.subrange(lo as int, k + 1));
        }
        k = k + 1;
    }
}

fn line_end_in(s: &[u8], i: usize) -> (r: usize)
    requires
        i <= s@.len(),
    ensures
        r as int == line_end(s@, i as int),
        i <= r <= s@.len(),
{
    let n = s.len();
    let mut j = i;
    while j < n && s[j] != 10
        invariant
            n == s@.len(),
            i <= j <= n,
            line_end(s@, j as int) == line_end(s@, i as int),
        decreases n - j,
    {
        j = j + 1;
    }
    j
}

/// Each line of `s` written as `prefix`, the line and a line feed.
pub fn to_doc_comment(s: &[u8], prefix: &[u8]) -> (r: Vec<u8>)
    ensures
        r@ == render(s@, prefix@),
{
    let n = s.len();
    let mut r: Vec<u8> = Vec::new();
    let mut i: usize = 0;
    while i < n
        invariant
            n == s@.len(),
            i <= n,
            r@ + render_from(s@, i as int, prefix@) == render(s@, prefix@),
        decreases n - i,
    {
        let e = line_end_in(s, i);
        let ghost before = r@;
        push_range(&mut r, prefix, 0, prefix.len());
        let stop = if e < n && e > i && s[e - 1] == 13 { e - 1 } else { e };
        push_range(&mut r, s, i, stop);
        r.push(10u8);
        proof {
            assert(prefix@.subrange(0, prefix@.len() as int) =~= prefix@);
            let line = s@.subrange(i as int, stop as int);
            assert(r@ =~= before + (prefix@ + line + seq![10u8]));
        }
        if e < n {
            proof {
                assert(before + render_from(s@, i as int, prefix@) =~= r@ + render_from(s@, e + 1, prefix@));
            }
            i = e + 1;
        } else {
            proof {
                assert(before + render_from(s@, i as int, prefix@) =~= r@);
                assert(render_from(s@, n as int, prefix@) =~= Seq::<u8>::empty());
            }
            i = n;
        }
    }
    proof {
        assert(r@ + render_from(s@, i as int, prefix@) =~= r@);
    }
    r
}

/// Whether the text `old` that stands between two directives differs from
/// a line feed followed by `new`.
pub open spec fn modified_spec(new: Seq<u8>, old: Seq<u8>) -> bool {
    !(old.len() > 0 && old[0] == 10 && old.subrange(1, old.len() as int) == new)
}

/// Whether the text between `start` and `end` in `text_old` differs from a
/// line feed followed by `text_new`.
pub fn is_modified(text_new: &[u8], text_old: &[u8], start: &Attr, end: &Attr) -> (r: bool)
    requires
        start.range.end <= end.range.start <= text_old@.len(),
    ensures
        r == modified_spec(
            text_new@,
            text_old@.subrange(start.range.end as int, end.range.start as int),
        ),
{
    let lo = start.range.end;
    let hi = end.range.start;
    if lo == hi || text_old[lo] != 10 {
        return true;
    }
    let same = crate::attr::bytes_eq(&text_old[lo + 1..hi], text_new);
    proof {
        assert(text_old@.subrange(lo as int, hi as int).subrange(1, hi - lo) =~= text_old@.subrange(
            lo + 1,
            hi as int,
        ));
    }
    !same
}


// ---------------------------------------------------------------------------
// Order of directives
// ---------------------------------------------------------------------------

/// The items `i ..` of `items` cover ranges between `lo` and `hi`, one after
/// another and apart.
pub open spec fn items_ordered(items: Seq<ScanItem>, i: int, lo: int, hi: int) -> bool {
    &&& forall|k: int|
        i <= k < items.len() ==> lo <= (#[trigger] item_range(items[k])).0 <= item_range(items[k]).1
            <= hi
    &&& forall|k: int, l: int|
        i <= k < l < items.len() ==> (#[trigger] item_range(items[k])).1 < (#[trigger] item_range(
            items[l],
        )).0
}

/// Each pair covers, in order, a start directive and an end directive
/// between `lo` and `hi`, and each pair comes after those before it.
pub open spec fn pairs_ordered(ps: Seq<(AttrView, AttrView)>, lo: int, hi: int) -> bool {
    &&& forall|j: int|
        0 <= j < ps.len() ==> lo <= (#[trigger] ps[j]).0.start <= ps[j].0.end <= ps[j].1.start
            <= ps[j].1.end <= hi
    &&& forall|j: int, k: int|
        0 <= j < k < ps.len() ==> (#[trigger] ps[j]).1.end <= (#[trigger] ps[k]).0.start
}

pub proof fn lemma_scan_ordered(t: Seq<u8>, i: int)
    requires
        0 <= i <= t.len(),
    ensures
        items_ordered(scan_from(t, i), 0, i, t.len() as int),
    decreases t.len() - i,
{
    lemma_line_end(t, i);
    let e = line_end(t, i);
    let line = t.subrange(i, e);
    let here: Seq<ScanItem> = if is_shaped(line) {
        seq![line_item(line, i, e)]
    } else {
        seq![]
    };
    assert(item_range(line_item(line, i, e)) == (i, e));
    if e < t.len() {
        lemma_scan_ordered(t, e + 1);
        let rest = scan_from(t, e + 1);
        let all = scan_from(t, i);
        assert(all == here + rest);
        assert forall|k: int| 0 <= k < all.len() implies i <= (#[trigger] item_range(all[k])).0
            <= item_range(all[k]).1 <= t.len() by {
            if k >= here.len() {
                assert(all[k] == rest[k - here.len()]);
            }
        }
        assert forall|k: int, l: int| 0 <= k < l < all.len() implies (#[trigger] item_range(
            all[k],
        )).1 < (#[trigger] item_range(all[l])).0 by {
            assert(all[l] == rest[l - here.len()]);
            if k >= here.len() {
                assert(all[k] == rest[k - here.len()]);
            }
        }
    }
}

proof fn lemma_pairs_ordered_lower(ps: Seq<(AttrView, AttrView)>, lo: int, m: int, hi: int)
    requires
        pairs_ordered(ps, lo, hi),
        m <= lo,
    ensures
        pairs_ordered(ps, m, hi),
{
}

proof fn lemma_pairs_ordered_cons(p: (AttrView, AttrView), ps: Seq<(AttrView, AttrView)>, m: int, hi: int)
    requires
        pairs_ordered(ps, p.1.end, hi),
        m <= p.0.start <= p.0.end <= p.1.start <= p.1.end <= hi,
    ensures
        pairs_ordered(seq![p] + ps, m, hi),
{
    let all = seq![p] + ps;
    assert forall|j: int, k: int| 0 <= j < k < all.len() implies (#[trigger] all[j]).1.end
        <= (#[trigger] all[k]).0.start by {
        if j > 0 {
            assert(all[j] == ps[j - 1]);
        }
        assert(all[k] == ps[k - 1]);
    }
    assert forall|j: int| 0 <= j < all.len() implies m <= (#[trigger] all[j]).0.start
        <= all[j].0.end <= all[j].1.start <= all[j].1.end <= hi by {
        if j > 0 {
            assert(all[j] == ps[j - 1]);
        }
    }
}

proof fn lemma_pairs_ordered(items: Seq<ScanItem>, i: int, pending: Option<AttrView>, m: int, hi: int)
    requires
        0 <= i <= items.len(),
        items_ordered(items, i, m, hi),
        pending is Some ==> pending->0.start <= pending->0.end <= m,
    ensures
        pairs_ordered(
            pair_from(items, i, pending).0,
            match pending {
                Some(p) => p.start,
                None => m,
            },
            hi,
        ),
    decreases items.len() - i,
{
    if i < items.len() {
        let r = item_range(items[i]);
        assert(items_ordered(items, i + 1, r.1, hi));
        match items[i] {
            Err(_) => {},
            Ok(x) => {
                if x.action == Action::Start {
                    if pending is None {
                        lemma_pairs_ordered(items, i + 1, Some(x), r.1, hi);
                        lemma_pairs_ordered_lower(pair_from(items, i + 1, Some(x)).0, x.start, m, hi);
                    }
                } else {
                    match pending {
                        None => {},
                        Some(p) => {
                            if mismatch_of(p, x) is None {
                                lemma_pairs_ordered(items, i + 1, None, r.1, hi);
                                assert(pair_from(items, i, pending).0 == seq![(p, x)] + pair_from(
                                    items,
                                    i + 1,
                                    None,
                                ).0);
                                lemma_pairs_ordered_cons((p, x), pair_from(items, i + 1, None).0, p.start, hi);
                            }
                        },
                    }
                }
            },
        }
    }
}

/// The pairs of a text's directives are in document order.
proof fn lemma_pairing_ordered(t: Seq<u8>)
    ensures
        pairs_ordered(pairing(scan(t)).0, 0, t.len() as int),
{
    lemma_scan_ordered(t, 0);
    lemma_pairs_ordered(scan(t), 0, None, 0, t.len() as int);
}


// ---------------------------------------------------------------------------
// Substitution
// ---------------------------------------------------------------------------

/// An included file as the caller read it: its path relative to the root,
/// and its bytes.
pub struct IncludedSource {
    pub rel_path: Vec<u8>,
    pub text: Vec<u8>,
}

/// What happened to one pair: the included file, and whether the pair's
/// text changed.
pub struct LogEntry {
    pub source_rel_path: Vec<u8>,
    pub is_modified: bool,
}

/// The outcome for one file: its new text if any pair changed it, and one
/// log entry for each pair.
pub struct ApplyResult {
    pub text: Option<Vec<u8>>,
    pub logs: Vec<LogEntry>,
}

pub open spec fn source_view(s: Result<IncludedSource, Vec<u8>>) -> Result<(Seq<u8>, Seq<u8>), Seq<u8>> {
    match s {
        Ok(x) => Ok((x.rel_path@, x.text@)),
        Err(reason) => Err(reason@),
    }
}

pub open spec fn sources_view(v: Seq<Result<IncludedSource, Vec<u8>>>) -> Seq<
    Result<(Seq<u8>, Seq<u8>), Seq<u8>>,
> {
    v.map_values(|s: Result<IncludedSource, Vec<u8>>| source_view(s))
}

pub open spec fn logs_view(v: Seq<LogEntry>) -> Seq<(Seq<u8>, bool)> {
    v.map_values(|l: LogEntry| (l.source_rel_path@, l.is_modified))
}

/// The block that replaces the text between the directives of pair `p` of
/// `input`, with whether it differs from what stands there, or the error
/// that stops the file. `src` is the included file, or why it could not be
/// read.
pub open spec fn pair_outcome(
    input: Seq<u8>,
    p: (AttrView, AttrView),
    src: Result<(Seq<u8>, Seq<u8>), Seq<u8>>,
) -> Result<(Seq<u8>, bool), ErrView> {
    match src {
        Err(reason) => Err(ErrView::SourceRead(p.0, reason)),
        Ok((rel, text)) => match resolve_spec(text, p.0.arg, p.1.arg) {
            Err(Unresolved::StartNotFound) => Err(ErrView::TextNotFound(p.0)),
            Err(Unresolved::EndNotFound) => Err(ErrView::TextNotFound(p.1)),
            Err(Unresolved::Reversed) => Err(ErrView::RangeReversed(p.0, p.1)),
            Ok((a, b)) => {
                let sel = text.subrange(a, b);
                if scan(sel).len() > 0 {
                    Err(
                        ErrView::SourceContent(
                            p.0,
                            rel,
                            sel,
                            item_range(scan(sel)[0]).0,
                            item_range(scan(sel)[0]).1,
                        ),
                    )
                } else {
                    let block = render(sel, prefix_of(p.0.kind));
                    Ok((block, modified_spec(block, input.subrange(p.0.end, p.1.start))))
                }
            },
        },
    }
}

pub open spec fn rel_of(src: Result<(Seq<u8>, Seq<u8>), Seq<u8>>) -> Seq<u8> {
    match src {
        Ok((rel, _)) => rel,
        Err(_) => seq![],
    }
}

/// The text of `input` from offset `last` on, with the pairs `j ..` of
/// `pairs` substituted, whether any of them changed, and their log; or the
/// first error.
pub open spec fn apply_from(
    input: Seq<u8>,
    pairs: Seq<(AttrView, AttrView)>,
    sources: Seq<Result<(Seq<u8>, Seq<u8>), Seq<u8>>>,
    j: int,
    last: int,
) -> Result<(Seq<u8>, bool, Seq<(Seq<u8>, bool)>), ErrView>
    decreases pairs.len() - j,
{
    if j < 0 || j >= pairs.len() {
        Ok((input.subrange(last, input.len() as int), false, seq![]))
    } else {
        match pair_outcome(input, pairs[j], sources[j]) {
            Err(e) => Err(e),
            Ok((block, m)) => match apply_from(input, pairs, sources, j + 1, pairs[j].1.start) {
                Err(e) => Err(e),
                Ok((rest, any, logs)) => Ok(
                    (
                        input.subrange(last, pairs[j].0.end) + seq![10u8] + block + rest,
                        m || any,
                        seq![(rel_of(sources[j]), m)] + logs,
                    ),
                ),
            },
        }
    }
}

/// The outcome of the substitution on `input`, with `sources[j]` the file
/// that pair `j` includes: the new text if any pair changed (else none)
/// and the log, or the first error in document order.
pub open spec fn apply_spec(input: Seq<u8>, sources: Seq<Result<(Seq<u8>, Seq<u8>), Seq<u8>>>) -> Result<
    (Option<Seq<u8>>, Seq<(Seq<u8>, bool)>),
    ErrView,
> {
    let (pairs, err) = pairing(scan(input));
    match apply_from(input, pairs, sources, 0, 0) {
        Err(e) => Err(e),
        Ok((text, any, logs)) => match err {
            Some(e) => Err(e),
            None => Ok((if any { Some(text) } else { None }, logs)),
        },
    }
}

pub open spec fn result_view(r: Result<ApplyResult, ApplyError>) -> Result<
    (Option<Seq<u8>>, Seq<(Seq<u8>, bool)>),
    ErrView,
> {
    match r {
        Ok(x) => Ok(
            (
                match x.text {
                    Some(t) => Some(t@),
                    None => None,
                },
                logs_view(x.logs@),
            ),
        ),
        Err(e) => Err(e@),
    }
}

/// Adds what is known so far (the text, whether it changed, the log) in
/// front of the outcome of the rest.
pub open spec fn join(
    text: Seq<u8>,
    any: bool,
    logs: Seq<(Seq<u8>, bool)>,
    rest: Result<(Seq<u8>, bool, Seq<(Seq<u8>, bool)>), ErrView>,
) -> Result<(Seq<u8>, bool, Seq<(Seq<u8>, bool)>), ErrView> {
    match rest {
        Err(e) => Err(e),
        Ok((t, a, l)) => Ok((text + t, any || a, logs + l)),
    }
}

/// Works out the block of one pair: resolves its range in the included
/// text, refuses a range that holds a directive-shaped line, renders it and
/// compares it with what stands between the directives.
fn substitute_pair(
    input: &[u8],
    start: &Attr,
    end: &Attr,
    src: &Result<IncludedSource, Vec<u8>>,
) -> (r: Result<(Vec<u8>, bool), ApplyError>)
    requires
        start.range.end <= end.range.start <= input@.len(),
    ensures
        match r {
            Ok((block, m)) => pair_outcome(input@, (start@, end@), source_view(*src)) == Ok::<
                (Seq<u8>, bool),
                ErrView,
            >((block@, m)),
            Err(e) => pair_outcome(input@, (start@, end@), source_view(*src)) == Err::<
                (Seq<u8>, bool),
                ErrView,
            >(e@),
        },
{
    match src {
        Err(reason) => Err(
            ApplyError::SourceRead {
                attr: start.duplicate(),
                reason: copy_all(reason.as_slice()),
            },
        ),
        Ok(s) => {
            let text = s.text.as_slice();
            match trim(text, &start.arg, &end.arg) {
                Err(Unresolved::StartNotFound) => Err(ApplyError::TextNotFound(start.duplicate())),
                Err(Unresolved::EndNotFound) => Err(ApplyError::TextNotFound(end.duplicate())),
                Err(Unresolved::Reversed) => Err(
                    ApplyError::RangeReversed { start: start.duplicate(), end: end.duplicate() },
                ),
                Ok(range) => {
                    let sel = &text[range.start..range.end];
                    match Attr::find_may_bad_in(sel) {
                        Some(bad) => Err(
                            ApplyError::SourceContent {
                                attr: start.duplicate(),
                                source_rel_path: copy_all(s.rel_path.as_slice()),
                                source_text: copy_all(sel),
                                source_range: bad,
                            },
                        ),
                        None => {
                            let prefix = start.kind.doc_comment_prefix();
                            let block = to_doc_comment(sel, prefix.as_slice());
                            let m = is_modified(block.as_slice(), input, start, end);
                            Ok((block, m))
                        },
                    }
                },
            }
        },
    }
}


proof fn lemma_apply_step(
    input: Seq<u8>,
    pairs: Seq<(AttrView, AttrView)>,
    srcs: Seq<Result<(Seq<u8>, Seq<u8>), Seq<u8>>>,
    j: int,
    last: int,
    text: Seq<u8>,
    any: bool,
    logs: Seq<(Seq<u8>, bool)>,
    block: Seq<u8>,
    m: bool,
)
    requires
        0 <= j < pairs.len(),
        pair_outcome(input, pairs[j], srcs[j]) == Ok::<(Seq<u8>, bool), ErrView>((block, m)),
    ensures
        join(text, any, logs, apply_from(input, pairs, srcs, j, last)) == join(
            text + input.subrange(last, pairs[j].0.end) + seq![10u8] + block,
            any || m,
            logs + seq![(rel_of(srcs[j]), m)],
            apply_from(input, pairs, srcs, j + 1, pairs[j].1.start),
        ),
{
    let here = input.subrange(last, pairs[j].0.end) + seq![10u8] + block;
    match apply_from(input, pairs, srcs, j + 1, pairs[j].1.start) {
        Ok((t, a, l)) => {
            assert(apply_from(input, pairs, srcs, j, last) == Ok::<
                (Seq<u8>, bool, Seq<(Seq<u8>, bool)>),
                ErrView,
            >((here + t, m || a, seq![(rel_of(srcs[j]), m)] + l)));
            assert(text + (here + t) =~= text + input.subrange(last, pairs[j].0.end) + seq![10u8]
                + block + t);
            assert(logs + (seq![(rel_of(srcs[j]), m)] + l) =~= logs + seq![(rel_of(srcs[j]), m)] + l);
        },
        Err(e) => {
            assert(apply_from(input, pairs, srcs, j, last) == Err::<
                (Seq<u8>, bool, Seq<(Seq<u8>, bool)>),
                ErrView,
            >(e));
        },
    }
}

/// Substitutes every pair of directives of `input`: the text between a
/// start and its end becomes a line feed and the rendered range of the
/// included file. `sources[j]` is the file that pair `j` names, or why it
/// could not be read.
pub fn apply(input: &[u8], sources: &Vec<Result<IncludedSource, Vec<u8>>>) -> (r: Result<
    ApplyResult,
    ApplyError,
>)
    requires
        sources@.len() == pairing(scan(input@)).0.len(),
    ensures
        result_view(r) == apply_spec(input@, sources_view(sources@)),
{
    let found = collect_pairs(input);
    proof {
        lemma_pairing_ordered(input@);
    }
    let ghost pairs = pairing(scan(input@)).0;
    let ghost srcs = sources_view(sources@);
    let mut text: Vec<u8> = Vec::new();
    let mut logs: Vec<LogEntry> = Vec::new();
    let mut any = false;
    let mut last: usize = 0;
    let mut j: usize = 0;
    while j < found.pairs.len()
        invariant
            pairs_view(found.pairs@) == pairs,
            pairs == pairing(scan(input@)).0,
            err_opt_view(found.error) == pairing(scan(input@)).1,
            srcs == sources_view(sources@),
            j <= pairs.len(),
            sources@.len() == pairs.len(),
            pairs_ordered(pairs, 0, input@.len() as int),
            last <= input@.len(),
            j == 0 ==> last == 0,
            j > 0 ==> last == pairs[j - 1].1.start,
            join(text@, any, logs_view(logs@), apply_from(input@, pairs, srcs, j as int, last as int))
                == apply_from(input@, pairs, srcs, 0, 0),
        decreases pairs.len() - j,
    {
        let pair = &found.pairs[j];
        let start = &pair.0;
        let end = &pair.1;
        proof {
            assert(pairs[j as int] == (start@, end@));
            assert(srcs[j as int] == source_view(sources@[j as int]));
            if j > 0 {
                assert(pairs[j - 1].1.end <= pairs[j as int].0.start);
            }
        }
        match substitute_pair(input, start, end, &sources[j]) {
            Err(e) => {
                proof {
                    assert(apply_from(input@, pairs, srcs, j as int, last as int) == Err::<(Seq<u8>, bool, Seq<(Seq<u8>, bool)>), ErrView>(e@));
                    assert(apply_from(input@, pairs, srcs, 0, 0) == Err::<(Seq<u8>, bool, Seq<(Seq<u8>, bool)>), ErrView>(e@));
                    assert(pairs == pairing(scan(input@)).0);
                }
                return Err(e);
            },
            Ok((block, m)) => {
                let ghost before_text = text@;
                let ghost before_logs = logs@;
                push_range(&mut text, input, last, start.range.end);
                text.push(10u8);
                push_range(&mut text, block.as_slice(), 0, block.len());
                let rel = match &sources[j] {
                    Ok(s) => copy_all(s.rel_path.as_slice()),
                    Err(_) => Vec::new(),
                };
                logs.push(LogEntry { source_rel_path: rel, is_modified: m });
                proof {
                    assert(block@.subrange(0, block@.len() as int) =~= block@);
                    assert(text@ =~= before_text + input@.subrange(last as int, start.range.end as int)
                        + seq![10u8] + block@);
                    assert(logs_view(logs@) =~= logs_view(before_logs) + seq![(rel_of(srcs[j as int]), m)]);
                    lemma_apply_step(input@, pairs, srcs, j as int, last as int, before_text, any, logs_view(before_logs), block@, m);
                }
                any = any || m;
                last = end.range.start;
            },
        }
        j = j + 1;
    }
    let ghost before_text = text@;
    push_range(&mut text, input, last, input.len());
    match found.error {
        Some(e) => {
            return Err(e);
        },
        None => {},
    }
    Ok(ApplyResult { text: if any { Some(text) } else { None }, logs })
}


// ---------------------------------------------------------------------------
// Laws of pairing and substitution
// ---------------------------------------------------------------------------

/// Directives that come as starts each directly followed by an end of the
/// same kind and path.
pub open spec fn well_nested(items: Seq<ScanItem>) -> bool {
    &&& items.len() % 2 == 0
    &&& forall|k: int| 0 <= k < items.len() ==> (#[trigger] items[k]) is Ok
    &&& forall|j: int|
        0 <= j < items.len() / 2 ==> {
            let x = (#[trigger] items[2 * j])->Ok_0;
            let y = items[2 * j + 1]->Ok_0;
            x.action == Action::Start && y.action == Action::End && x.kind == y.kind && x.path
                == y.path
        }
}

pub proof fn lemma_pair_well_nested(items: Seq<ScanItem>, j: int)
    requires
        well_nested(items),
        0 <= j <= items.len() / 2,
    ensures
        pair_from(items, 2 * j, None).1 is None,
        pair_from(items, 2 * j, None).0.len() == items.len() / 2 - j,
        forall|m: int|
            0 <= m < items.len() / 2 - j ==> #[trigger] pair_from(items, 2 * j, None).0[m] == (
                items[2 * (j + m)]->Ok_0,
                items[2 * (j + m) + 1]->Ok_0,
            ),
    decreases items.len() / 2 - j,
{
    if j < items.len() / 2 {
        lemma_pair_well_nested(items, j + 1);
        let x = items[2 * j]->Ok_0;
        let y = items[2 * j + 1]->Ok_0;
        assert(items[2 * j + 1] is Ok);
        assert(pair_from(items, 2 * j, None) == pair_from(items, 2 * j + 1, Some(x)));
        let rest = pair_from(items, 2 * (j + 1), None);
        assert(pair_from(items, 2 * j + 1, Some(x)) == (seq![(x, y)] + rest.0, rest.1));
        assert forall|m: int| 0 <= m < items.len() / 2 - j implies #[trigger] pair_from(
            items,
            2 * j,
            None,
        ).0[m] == (items[2 * (j + m)]->Ok_0, items[2 * (j + m) + 1]->Ok_0) by {
            if m > 0 {
                assert(pair_from(items, 2 * j, None).0[m] == rest.0[m - 1]);
                assert(2 * (j + 1 + (m - 1)) == 2 * (j + m));
            }
        }
    }
}

/// Well-nested directives never give a pairing error: each start is paired
/// with the end that follows it.
pub proof fn law_pairing_correct(t: Seq<u8>)
    requires
        well_nested(scan(t)),
    ensures
        pairing(scan(t)).1 is None,
        pairing(scan(t)).0.len() == scan(t).len() / 2,
        forall|j: int|
            0 <= j < scan(t).len() / 2 ==> #[trigger] pairing(scan(t)).0[j] == (
                scan(t)[2 * j]->Ok_0,
                scan(t)[2 * j + 1]->Ok_0,
            ),
{
    lemma_pair_well_nested(scan(t), 0);
}

/// A pending start followed by an end that names another path is reported
/// as a mismatch (of kind first, if the kinds differ too), and no pair is
/// made.
pub proof fn law_mismatch_detected(items: Seq<ScanItem>, i: int, x: AttrView)
    requires
        0 <= i < items.len(),
        items[i] is Ok,
        items[i]->Ok_0.action == Action::End,
        items[i]->Ok_0.path != x.path,
    ensures
        pair_from(items, i, Some(x)) == (
            Seq::<(AttrView, AttrView)>::empty(),
            Some(
                ErrView::MismatchAttr(
                    x,
                    items[i]->Ok_0,
                    if x.kind != items[i]->Ok_0.kind {
                        Mismatch::Kind
                    } else {
                        Mismatch::Path
                    },
                ),
            ),
        ),
{
}

proof fn lemma_scan_finds_line(t: Seq<u8>, j: int, i: int)
    requires
        0 <= j <= i <= t.len(),
        i == j || t[i - 1] == 10,
        is_shaped(t.subrange(i, line_end(t, i))),
    ensures
        scan_from(t, j).len() > 0,
    decreases i - j,
{
    lemma_line_end(t, j);
    let e = line_end(t, j);
    if i > j && !is_shaped(t.subrange(j, e)) {
        assert(e <= i - 1);
        lemma_scan_finds_line(t, e + 1, i);
    }
}

/// An included range that holds a directive-shaped line is refused: the
/// pair fails with the error that names the offending line.
pub proof fn law_pollution_guard(
    input: Seq<u8>,
    p: (AttrView, AttrView),
    rel: Seq<u8>,
    text: Seq<u8>,
    i: int,
)
    requires
        resolve_spec(text, p.0.arg, p.1.arg) is Ok,
        ({
            let (a, b) = resolve_spec(text, p.0.arg, p.1.arg)->Ok_0;
            let sel = text.subrange(a, b);
            &&& 0 <= i <= sel.len()
            &&& i == 0 || sel[i - 1] == 10
            &&& is_shaped(sel.subrange(i, line_end(sel, i)))
        }),
    ensures
        pair_outcome(input, p, Ok((rel, text))) is Err,
        pair_outcome(input, p, Ok((rel, text)))->Err_0 is SourceContent,
{
    let (a, b) = resolve_spec(text, p.0.arg, p.1.arg)->Ok_0;
    lemma_scan_finds_line(text.subrange(a, b), 0, i);
}


pub proof fn lemma_current_from(
    input: Seq<u8>,
    pairs: Seq<(AttrView, AttrView)>,
    srcs: Seq<Result<(Seq<u8>, Seq<u8>), Seq<u8>>>,
    j: int,
    last: int,
)
    requires
        0 <= j <= pairs.len(),
        srcs.len() == pairs.len(),
        forall|k: int|
            j <= k < pairs.len() ==> (#[trigger] pair_outcome(input, pairs[k], srcs[k])) is Ok
                && input.subrange(pairs[k].0.end, pairs[k].1.start) == seq![10u8] + pair_outcome(
                input,
                pairs[k],
                srcs[k],
            )->Ok_0.0,
    ensures
        apply_from(input, pairs, srcs, j, last) is Ok,
        !apply_from(input, pairs, srcs, j, last)->Ok_0.1,
    decreases pairs.len() - j,
{
    if j < pairs.len() {
        let o = pair_outcome(input, pairs[j], srcs[j]);
        let between = input.subrange(pairs[j].0.end, pairs[j].1.start);
        assert(between.subrange(1, between.len() as int) =~= o->Ok_0.0);
        lemma_current_from(input, pairs, srcs, j + 1, pairs[j].1.start);
    }
}

/// A file whose pairs each already hold, between their directives, a line
/// feed followed by the block rendered from the included file is left as
/// it is: the substitution succeeds and reports no new text.
pub proof fn law_current_file_unchanged(
    input: Seq<u8>,
    sources: Seq<Result<(Seq<u8>, Seq<u8>), Seq<u8>>>,
)
    requires
        pairing(scan(input)).1 is None,
        sources.len() == pairing(scan(input)).0.len(),
        forall|k: int|
            0 <= k < pairing(scan(input)).0.len() ==> (#[trigger] pair_outcome(
                input,
                pairing(scan(input)).0[k],
                sources[k],
            )) is Ok && input.subrange(
                pairing(scan(input)).0[k].0.end,
                pairing(scan(input)).0[k].1.start,
            ) == seq![10u8] + pair_outcome(input, pairing(scan(input)).0[k], sources[k])->Ok_0.0,
    ensures
        apply_spec(input, sources) is Ok,
        apply_spec(input, sources)->Ok_0.0 is None,
{
    lemma_current_from(input, pairing(scan(input)).0, sources, 0, 0);
}

} // verus!
