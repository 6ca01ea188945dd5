//! Scanning texts made of parts, and why a second run changes nothing.

use crate::attr::{
    head_end, is_shaped, item_range, lemma_line_end, line_end, line_item, mismatch_of, scan,
    scan_from, Action, AttrView, Kind, ScanItem,
};
use crate::engine::{
    apply_from, apply_spec, items_ordered, law_pairing_correct, lemma_current_from,
    lemma_scan_ordered, pair_from, pair_outcome, pairing, prefix_of, render_from, well_nested,
};
use crate::resolve::resolve_spec;
use vstd::prelude::*;

verus! {

/// A scan item moved `d` bytes on.
pub open spec fn shift_item(x: ScanItem, d: int) -> ScanItem {
    match x {
        Ok(v) => Ok(
            AttrView {
                start: v.start + d,
                end: v.end + d,
                path: v.path,
                kind: v.kind,
                action: v.action,
                arg: v.arg,
            },
        ),
        Err((a, b)) => Err((a + d, b + d)),
    }
}

/// Scan items moved `d` bytes on.
pub open spec fn shift(xs: Seq<ScanItem>, d: int) -> Seq<ScanItem> {
    xs.map_values(|x: ScanItem| shift_item(x, d))
}

proof fn lemma_line_end_suffix(a: Seq<u8>, b: Seq<u8>, j: int)
    requires
        0 <= j <= b.len(),
    ensures
        line_end(a + b, a.len() + j) == a.len() + line_end(b, j),
    decreases b.len() - j,
{
    if j < b.len() {
        assert((a + b)[a.len() + j] == b[j]);
        lemma_line_end_suffix(a, b, j + 1);
    }
}

proof fn lemma_line_end_prefix(a: Seq<u8>, b: Seq<u8>, i: int)
    requires
        0 <= i < a.len(),
        a[a.len() - 1] == 10,
    ensures
        line_end(a + b, i) == line_end(a, i),
    decreases a.len() - i,
{
    assert((a + b)[i] == a[i]);
    if a[i] != 10 {
        lemma_line_end_prefix(a, b, i + 1);
    }
}

proof fn lemma_shift_concat(xs: Seq<ScanItem>, ys: Seq<ScanItem>, d: int)
    ensures
        shift(xs + ys, d) == shift(xs, d) + shift(ys, d),
{
    assert(shift(xs + ys, d) =~= shift(xs, d) + shift(ys, d));
}

proof fn lemma_scan_suffix(a: Seq<u8>, b: Seq<u8>, j: int)
    requires
        0 <= j <= b.len(),
    ensures
        scan_from(a + b, a.len() + j) == shift(scan_from(b, j), a.len() as int),
    decreases b.len() - j,
{
    lemma_line_end(b, j);
    lemma_line_end_suffix(a, b, j);
    let e = line_end(b, j);
    let line = b.subrange(j, e);
    assert((a + b).subrange(a.len() + j, a.len() + e) =~= line);
    let here: Seq<ScanItem> = if is_shaped(line) {
        seq![line_item(line, j, e)]
    } else {
        seq![]
    };
    assert(shift(here, a.len() as int) =~= (if is_shaped(line) {
        seq![line_item(line, a.len() + j, a.len() + e)]
    } else {
        seq![]
    }));
    if e < b.len() {
        lemma_scan_suffix(a, b, e + 1);
        lemma_shift_concat(here, scan_from(b, e + 1), a.len() as int);
    }
}

proof fn lemma_scan_prefix(a: Seq<u8>, b: Seq<u8>, i: int)
    requires
        a.len() > 0,
        a[a.len() - 1] == 10,
        0 <= i <= a.len(),
    ensures
        scan_from(a + b, i) == scan_from(a, i) + shift(scan(b), a.len() as int),
    decreases a.len() - i,
{
    if i == a.len() {
        lemma_scan_suffix(a, b, 0);
        assert(a.subrange(i, i) =~= Seq::<u8>::empty());
        assert(!is_shaped(Seq::<u8>::empty()));
        assert(scan_from(a, i) =~= Seq::<ScanItem>::empty());
        assert(scan_from(a + b, i) == shift(scan(b), a.len() as int));
        assert(scan_from(a + b, i) =~= scan_from(a, i) + shift(scan(b), a.len() as int));
    } else {
        lemma_line_end(a, i);
        lemma_line_end_prefix(a, b, i);
        let e = line_end(a, i);
        assert(e < a.len());
        assert((a + b).subrange(i, e) =~= a.subrange(i, e));
        lemma_scan_prefix(a, b, e + 1);
        let line = a.subrange(i, e);
        let here: Seq<ScanItem> = if is_shaped(line) {
            seq![line_item(line, i, e)]
        } else {
            seq![]
        };
        assert(scan_from(a + b, i) == here + scan_from(a + b, e + 1));
        assert(scan_from(a, i) == here + scan_from(a, e + 1));
        assert(here + (scan_from(a, e + 1) + shift(scan(b), a.len() as int)) =~= (here + scan_from(
            a,
            e + 1,
        )) + shift(scan(b), a.len() as int));
    }
}

/// Scanning a text that is split after a line feed is scanning both parts,
/// the second moved by the length of the first.
pub proof fn lemma_scan_concat(a: Seq<u8>, b: Seq<u8>)
    requires
        a.len() == 0 || b.len() == 0 || a[a.len() - 1] == 10,
    ensures
        scan(a + b) == scan(a) + shift(scan(b), a.len() as int),
{
    if b.len() == 0 && a.len() > 0 {
        assert(a + b =~= a);
        assert(b.subrange(0, 0) =~= Seq::<u8>::empty());
        assert(!is_shaped(Seq::<u8>::empty()));
        assert(scan(b) =~= Seq::<ScanItem>::empty());
        assert(scan(a + b) =~= scan(a) + shift(scan(b), a.len() as int));
    } else if a.len() == 0 {
        assert(a + b =~= b);
        assert(a.subrange(0, 0) =~= Seq::<u8>::empty());
        assert(!is_shaped(Seq::<u8>::empty()));
        assert(scan(a) =~= Seq::<ScanItem>::empty());
        assert(shift(scan(b), 0) =~= scan(b));
        assert(scan(a + b) =~= scan(a) + shift(scan(b), 0));
    } else {
        lemma_scan_prefix(a, b, 0);
    }
}


proof fn lemma_line_end_at(t: Seq<u8>, i: int, j: int)
    requires
        0 <= i <= j < t.len(),
        forall|k: int| i <= k < j ==> t[k] != 10,
        t[j] == 10,
    ensures
        line_end(t, i) == j,
    decreases j - i,
{
    if i < j {
        lemma_line_end_at(t, i + 1, j);
    }
}

proof fn lemma_prefixed_not_shaped(k: Kind, line: Seq<u8>)
    ensures
        !is_shaped(prefix_of(k) + line),
{
    let x = prefix_of(k) + line;
    assert(x[0] == 47 && x[1] == 47 && (x[2] == 47 || x[2] == 33));
    assert(x.subrange(0, 2) =~= seq![47u8, 47u8]);
    assert(head_end(x) is None);
}

/// A rendered block holds no directive-shaped line, and ends with a line
/// feed unless it is empty.
pub proof fn lemma_render_quiet(s: Seq<u8>, i: int, k: Kind)
    requires
        0 <= i,
    ensures
        scan(render_from(s, i, prefix_of(k))) == Seq::<ScanItem>::empty(),
        render_from(s, i, prefix_of(k)).len() == 0 || render_from(s, i, prefix_of(k)).last() == 10,
    decreases s.len() - i,
{
    let prefix = prefix_of(k);
    if i < s.len() {
        lemma_line_end(s, i);
        let e = line_end(s, i);
        let line = if e < s.len() && e > i && s[e - 1] == 13 {
            s.subrange(i, e - 1)
        } else {
            s.subrange(i, e)
        };
        let here = prefix + line + seq![10u8];
        let n = here.len() - 1;
        assert forall|m: int| 0 <= m < n implies here[m] != 10 by {
            if m >= 4 {
                assert(here[m] == line[m - 4]);
                assert(line[m - 4] == s[i + m - 4]);
            }
        }
        lemma_line_end_at(here, 0, n);
        assert(here.subrange(0, n) =~= prefix + line);
        lemma_prefixed_not_shaped(k, line);
        assert(here.subrange(n + 1, n + 1) =~= Seq::<u8>::empty());
        assert(!is_shaped(Seq::<u8>::empty()));
        assert(scan_from(here, n + 1) =~= Seq::<ScanItem>::empty());
        assert(scan(here) =~= Seq::<ScanItem>::empty());
        if e < s.len() {
            let rest = render_from(s, e + 1, prefix);
            lemma_render_quiet(s, e + 1, k);
            lemma_scan_concat(here, rest);
            assert(shift(scan(rest), here.len() as int) =~= Seq::<ScanItem>::empty());
            assert(scan(here + rest) =~= Seq::<ScanItem>::empty());
            if rest.len() > 0 {
                assert((here + rest).last() == rest.last());
            }
        }
    } else {
        assert(scan(Seq::<u8>::empty()) =~= Seq::<ScanItem>::empty()) by {
            assert(Seq::<u8>::empty().subrange(0, 0) =~= Seq::<u8>::empty());
            assert(!is_shaped(Seq::<u8>::empty()));
        }
    }
}

proof fn lemma_paired_is_nested(items: Seq<ScanItem>, j: int)
    requires
        0 <= 2 * j <= items.len(),
        pair_from(items, 2 * j, None).1 is None,
    ensures
        items.len() % 2 == 0,
        forall|k: int| 2 * j <= k < items.len() ==> (#[trigger] items[k]) is Ok,
        forall|m: int|
            j <= m < items.len() / 2 ==> {
                let x = (#[trigger] items[2 * m])->Ok_0;
                let y = items[2 * m + 1]->Ok_0;
                x.action == Action::Start && y.action == Action::End && x.kind == y.kind && x.path
                    == y.path
            },
    decreases items.len() - 2 * j,
{
    if 2 * j < items.len() {
        let x = items[2 * j]->Ok_0;
        assert(items[2 * j] is Ok);
        assert(x.action == Action::Start);
        assert(pair_from(items, 2 * j, None) == pair_from(items, 2 * j + 1, Some(x)));
        if 2 * j + 1 >= items.len() {
            assert(pair_from(items, 2 * j + 1, Some(x)).1 is Some);
        }
        assert(2 * j + 1 < items.len());
        let y = items[2 * j + 1]->Ok_0;
        if items[2 * j + 1] is Err {
            assert(pair_from(items, 2 * j + 1, Some(x)).1 is Some);
        }
        assert(items[2 * j + 1] is Ok);
        assert(y.action == Action::End);
        assert(mismatch_of(x, y) is None);
        assert(pair_from(items, 2 * j + 1, Some(x)).1 == pair_from(items, 2 * (j + 1), None).1);
        lemma_paired_is_nested(items, j + 1);
        assert forall|k: int| 2 * j <= k < items.len() implies (#[trigger] items[k]) is Ok by {
            if k >= 2 * j + 2 {
                assert(items[k] is Ok);
            }
        }
    }
}

/// Directives that pair without error are well nested.
pub proof fn lemma_paired_well_nested(items: Seq<ScanItem>)
    requires
        pairing(items).1 is None,
    ensures
        well_nested(items),
{
    lemma_paired_is_nested(items, 0);
}


proof fn lemma_scan_lines(t: Seq<u8>, i: int)
    requires
        0 <= i <= t.len(),
    ensures
        forall|k: int|
            0 <= k < scan_from(t, i).len() ==> {
                let (a, b) = #[trigger] item_range(scan_from(t, i)[k]);
                &&& (a == i || (a > 0 && t[a - 1] == 10))
                &&& b == line_end(t, a)
                &&& a < b
            },
    decreases t.len() - i,
{
    lemma_line_end(t, i);
    let e = line_end(t, i);
    let line = t.subrange(i, e);
    let here: Seq<ScanItem> = if is_shaped(line) {
        seq![line_item(line, i, e)]
    } else {
        seq![]
    };
    if is_shaped(line) {
        assert(line.len() >= 2);
        assert(item_range(line_item(line, i, e)) == (i, e));
    }
    if e < t.len() {
        lemma_scan_lines(t, e + 1);
        let all = scan_from(t, i);
        let rest = scan_from(t, e + 1);
        assert(all == here + rest);
        assert forall|k: int| 0 <= k < all.len() implies {
            let (a, b) = #[trigger] item_range(all[k]);
            &&& (a == i || (a > 0 && t[a - 1] == 10))
            &&& b == line_end(t, a)
            &&& a < b
        } by {
            if k >= here.len() {
                assert(all[k] == rest[k - here.len()]);
            }
        }
    }
}

proof fn lemma_shift_twice(xs: Seq<ScanItem>, d1: int, d2: int)
    ensures
        shift(shift(xs, d1), d2) == shift(xs, d1 + d2),
{
    assert(shift(shift(xs, d1), d2) =~= shift(xs, d1 + d2));
}

/// In an ordered list split in two, where the first part holds exactly the
/// items that begin before `c`, the first part has `q` items when item
/// `q` is the first to begin at or after `c`.
proof fn lemma_split_count(xs: Seq<ScanItem>, ys: Seq<ScanItem>, zs: Seq<ScanItem>, c: int, q: int)
    requires
        xs == ys + zs,
        forall|k: int| 0 <= k < ys.len() ==> (#[trigger] item_range(ys[k])).0 < c,
        forall|k: int| 0 <= k < zs.len() ==> (#[trigger] item_range(zs[k])).0 >= c,
        0 <= q <= xs.len(),
        q == 0 || item_range(xs[q - 1]).0 < c,
        q == xs.len() || item_range(xs[q]).0 >= c,
    ensures
        ys.len() == q,
{
    if ys.len() > q {
        assert(xs[q] == ys[q]);
    }
    if ys.len() < q {
        assert(xs[q - 1] == zs[q - 1 - ys.len()]);
    }
}

proof fn lemma_scan_starts(t: Seq<u8>)
    ensures
        forall|k: int|
            0 <= k < scan(t).len() ==> 0 <= (#[trigger] item_range(scan(t)[k])).0 < item_range(
                scan(t)[k],
            ).1 <= t.len(),
{
    lemma_scan_ordered(t, 0);
    lemma_scan_lines(t, 0);
}

/// The scan of the part `a .. b` of a text, cut at line starts, is the part
/// of the text's scan that begins in it, moved back by `a`.
#[verifier::rlimit(40)]
proof fn lemma_scan_window(t: Seq<u8>, a: int, b: int, p: int, q: int)
    requires
        0 <= a <= b <= t.len(),
        a == 0 || t[a - 1] == 10,
        b == a || b == t.len() || t[b - 1] == 10,
        0 <= p <= q <= scan(t).len(),
        p == 0 || item_range(scan(t)[p - 1]).0 < a,
        p == scan(t).len() || item_range(scan(t)[p]).0 >= a,
        q == 0 || item_range(scan(t)[q - 1]).0 < b,
        q == scan(t).len() || item_range(scan(t)[q]).0 >= b,
    ensures
        scan(t.subrange(a, b)) == shift(scan(t).subrange(p, q), -a),
{
    let xs = scan(t);
    let pa = t.subrange(0, a);
    let w = t.subrange(a, b);
    let c = t.subrange(b, t.len() as int);
    assert(t =~= pa + (w + c));
    lemma_scan_concat(pa, w + c);
    lemma_scan_concat(w, c);
    lemma_scan_starts(pa);
    lemma_scan_starts(w);
    lemma_scan_starts(w + c);
    lemma_scan_starts(c);
    let ys = scan(pa);
    let rest = shift(scan(w + c), a);
    assert forall|k: int| 0 <= k < rest.len() implies (#[trigger] item_range(rest[k])).0 >= a by {
        assert(item_range(scan(w + c)[k]).0 >= 0);
    }
    lemma_split_count(xs, ys, rest, a, p);
    let zs = shift(scan(w), a);
    let us = shift(shift(scan(c), w.len() as int), a);
    lemma_shift_concat(scan(w), shift(scan(c), w.len() as int), a);
    assert(rest == zs + us);
    let tail = xs.subrange(p, xs.len() as int);
    assert(tail =~= zs + us);
    assert forall|k: int| 0 <= k < zs.len() implies (#[trigger] item_range(zs[k])).0 < b by {
        assert(item_range(scan(w)[k]).0 < w.len());
    }
    assert forall|k: int| 0 <= k < us.len() implies (#[trigger] item_range(us[k])).0 >= b by {
        assert(item_range(scan(c)[k]).0 >= 0);
    }
    lemma_split_count(tail, zs, us, b, q - p);
    assert forall|k: int| 0 <= k < scan(w).len() implies scan(w)[k] == #[trigger] shift(
        xs.subrange(p, q),
        -a,
    )[k] by {
        assert(xs[p + k] == zs[k]);
    }
    assert(scan(w) =~= shift(xs.subrange(p, q), -a));
}


// ---------------------------------------------------------------------------
// A second run
// ---------------------------------------------------------------------------

/// Where the text copied before pair `j` begins: after the previous pair's
/// start of its end directive, or at the beginning.
pub open spec fn last_of(pairs: Seq<(AttrView, AttrView)>, j: int) -> int {
    if j <= 0 {
        0
    } else {
        pairs[j - 1].1.start
    }
}

/// Two scan items are directives with the same kind, path, action and
/// argument; only their places may differ.
pub open spec fn same_fields(x: ScanItem, y: ScanItem) -> bool {
    &&& x is Ok
    &&& y is Ok
    &&& x->Ok_0.path == y->Ok_0.path
    &&& x->Ok_0.kind == y->Ok_0.kind
    &&& x->Ok_0.action == y->Ok_0.action
    &&& x->Ok_0.arg == y->Ok_0.arg
}

/// What a successful run on `t` holds: its directives are well nested and
/// pair up in order, and every pair's block could be made.
#[verifier::opaque]
pub open spec fn run_ok(t: Seq<u8>, srcs: Seq<Result<(Seq<u8>, Seq<u8>), Seq<u8>>>) -> bool {
    let items = scan(t);
    let ps = pairing(items).0;
    &&& well_nested(items)
    &&& ps.len() == items.len() / 2
    &&& srcs.len() == ps.len()
    &&& forall|m: int|
        0 <= m < ps.len() ==> #[trigger] ps[m] == (items[2 * m]->Ok_0, items[2 * m + 1]->Ok_0)
    &&& forall|j: int|
        0 <= j <= ps.len() ==> (#[trigger] apply_from(t, ps, srcs, j, last_of(ps, j))) is Ok
    &&& forall|m: int| 0 <= m < ps.len() ==> (#[trigger] pair_outcome(t, ps[m], srcs[m])) is Ok
}

proof fn lemma_run_ok_from(
    t: Seq<u8>,
    ps: Seq<(AttrView, AttrView)>,
    srcs: Seq<Result<(Seq<u8>, Seq<u8>), Seq<u8>>>,
    j: int,
)
    requires
        0 <= j <= ps.len(),
        apply_from(t, ps, srcs, j, last_of(ps, j)) is Ok,
    ensures
        forall|k: int| j <= k <= ps.len() ==> (#[trigger] apply_from(t, ps, srcs, k, last_of(ps, k))) is Ok,
        forall|k: int| j <= k < ps.len() ==> (#[trigger] pair_outcome(t, ps[k], srcs[k])) is Ok,
    decreases ps.len() - j,
{
    if j < ps.len() {
        assert(last_of(ps, j + 1) == ps[j].1.start);
        lemma_run_ok_from(t, ps, srcs, j + 1);
    }
}

/// The text produced from pair `j` on.
pub open spec fn out_from(
    t: Seq<u8>,
    srcs: Seq<Result<(Seq<u8>, Seq<u8>), Seq<u8>>>,
    j: int,
) -> Seq<u8> {
    apply_from(t, pairing(scan(t)).0, srcs, j, last_of(pairing(scan(t)).0, j))->Ok_0.0
}

/// The block made for pair `m`.
pub open spec fn block_of(t: Seq<u8>, srcs: Seq<Result<(Seq<u8>, Seq<u8>), Seq<u8>>>, m: int) -> Seq<u8> {
    pair_outcome(t, pairing(scan(t)).0[m], srcs[m])->Ok_0.0
}

proof fn lemma_item_facts(t: Seq<u8>)
    ensures
        items_ordered(scan(t), 0, 0, t.len() as int),
        forall|k: int|
            0 <= k < scan(t).len() ==> {
                let (a, b) = #[trigger] item_range(scan(t)[k]);
                &&& (a == 0 || (a > 0 && t[a - 1] == 10))
                &&& b == line_end(t, a)
                &&& a < b
                &&& (b < t.len() ==> t[b] == 10)
            },
{
    lemma_scan_ordered(t, 0);
    lemma_scan_lines(t, 0);
    assert forall|k: int| 0 <= k < scan(t).len() implies {
        let (a, b) = #[trigger] item_range(scan(t)[k]);
        b < t.len() ==> t[b] == 10
    } by {
        let (a, b) = item_range(scan(t)[k]);
        lemma_line_end(t, a);
    }
}

/// The index, in the scan of the input text, of the first directive in
/// the text produced from pair `j` on.
pub open spec fn first_index(j: int) -> int {
    if j <= 0 {
        0
    } else {
        2 * j - 1
    }
}

/// The text produced from pair `j` on has as many directives as the
/// input has from the end directive of pair `j - 1` on.
#[verifier::opaque]
pub open spec fn fact_len(t: Seq<u8>, srcs: Seq<Result<(Seq<u8>, Seq<u8>), Seq<u8>>>, j: int) -> bool {
    scan(out_from(t, srcs, j)).len() == scan(t).len() - first_index(j)
}

/// ... with the same fields, in order.
#[verifier::opaque]
pub open spec fn fact_fields(t: Seq<u8>, srcs: Seq<Result<(Seq<u8>, Seq<u8>), Seq<u8>>>, j: int) -> bool {
    let ys = scan(out_from(t, srcs, j));
    forall|k: int|
        0 <= k < ys.len() ==> same_fields(#[trigger] ys[k], scan(t)[first_index(j) + k])
}

/// ... and between the directives of each pair stands a line feed and the
/// pair's block.
#[verifier::opaque]
pub open spec fn fact_between(t: Seq<u8>, srcs: Seq<Result<(Seq<u8>, Seq<u8>), Seq<u8>>>, j: int) -> bool {
    let r = out_from(t, srcs, j);
    let ys = scan(r);
    let g = first_index(j);
    forall|m: int|
        j <= m < pairing(scan(t)).0.len() ==> r.subrange(
            item_range(#[trigger] ys[2 * m - g]).1,
            item_range(ys[2 * m - g + 1]).0,
        ) == seq![10u8] + block_of(t, srcs, m)
}

/// ... and, past the first pair, the text begins with a directive.
#[verifier::opaque]
pub open spec fn fact_first(t: Seq<u8>, srcs: Seq<Result<(Seq<u8>, Seq<u8>), Seq<u8>>>, j: int) -> bool {
    let ys = scan(out_from(t, srcs, j));
    j > 0 && ys.len() > 0 ==> item_range(ys[0]).0 == 0
}

pub open spec fn rerun_fact(t: Seq<u8>, srcs: Seq<Result<(Seq<u8>, Seq<u8>), Seq<u8>>>, j: int) -> bool {
    &&& fact_len(t, srcs, j)
    &&& fact_fields(t, srcs, j)
    &&& fact_between(t, srcs, j)
    &&& fact_first(t, srcs, j)
}

proof fn lemma_run_pairs(t: Seq<u8>, srcs: Seq<Result<(Seq<u8>, Seq<u8>), Seq<u8>>>)
    requires
        run_ok(t, srcs),
    ensures
        scan(t).len() == 2 * pairing(scan(t)).0.len(),
        forall|k: int| 0 <= k < scan(t).len() ==> (#[trigger] scan(t)[k]) is Ok,
        forall|m: int|
            0 <= m < pairing(scan(t)).0.len() ==> #[trigger] pairing(scan(t)).0[m] == (
                scan(t)[2 * m]->Ok_0,
                scan(t)[2 * m + 1]->Ok_0,
            ),
{
    reveal(run_ok);
}

proof fn lemma_item_at(t: Seq<u8>, k: int)
    requires
        0 <= k < scan(t).len(),
    ensures
        ({
            let (a, b) = item_range(scan(t)[k]);
            &&& (a == 0 || (a > 0 && t[a - 1] == 10))
            &&& 0 <= a < b <= t.len()
            &&& (b < t.len() ==> t[b] == 10)
        }),
{
    lemma_item_facts(t);
    assert(item_range(scan(t)[k]) == item_range(scan(t)[k]));
}

proof fn lemma_items_apart(t: Seq<u8>, k: int, l: int)
    requires
        0 <= k < l < scan(t).len(),
    ensures
        item_range(scan(t)[k]).1 < item_range(scan(t)[l]).0,
{
    lemma_scan_ordered(t, 0);
    assert(item_range(scan(t)[k]).1 < item_range(scan(t)[l]).0);
}

#[verifier::rlimit(60)]
proof fn lemma_pair_bounds(t: Seq<u8>, srcs: Seq<Result<(Seq<u8>, Seq<u8>), Seq<u8>>>, j: int)
    requires
        run_ok(t, srcs),
        0 <= j < pairing(scan(t)).0.len(),
    ensures
        ({
            let items = scan(t);
            let ps = pairing(items).0;
            let s = ps[j].0;
            let e = ps[j].1;
            let ll = last_of(ps, j);
            let g = first_index(j);
            &&& item_range(items[2 * j]) == (s.start, s.end)
            &&& item_range(items[2 * j + 1]) == (e.start, e.end)
            &&& 0 <= ll <= s.start < s.end < e.start <= t.len()
            &&& t[s.end] == 10
            &&& (ll == 0 || t[ll - 1] == 10)
            &&& (g == 0 || item_range(items[g - 1]).0 < ll)
            &&& item_range(items[g]).0 >= ll
            &&& (j > 0 ==> item_range(items[g]).0 == ll)
            &&& items.len() == 2 * ps.len()
        }),
{
    lemma_run_pairs(t, srcs);
    let items = scan(t);
    let ps = pairing(items).0;
    assert(ps[j] == (items[2 * j]->Ok_0, items[2 * j + 1]->Ok_0));
    lemma_item_at(t, 2 * j);
    lemma_item_at(t, 2 * j + 1);
    lemma_items_apart(t, 2 * j, 2 * j + 1);
    if j > 0 {
        assert(ps[j - 1] == (items[2 * (j - 1)]->Ok_0, items[2 * (j - 1) + 1]->Ok_0));
        lemma_item_at(t, 2 * j - 1);
        lemma_item_at(t, 2 * j - 2);
        lemma_items_apart(t, 2 * j - 2, 2 * j - 1);
        lemma_items_apart(t, 2 * j - 1, 2 * j);
    }
}

proof fn lemma_step_text(t: Seq<u8>, srcs: Seq<Result<(Seq<u8>, Seq<u8>), Seq<u8>>>, j: int)
    requires
        run_ok(t, srcs),
        0 <= j < pairing(scan(t)).0.len(),
    ensures
        ({
            let items = scan(t);
            let ps = pairing(items).0;
            let ll = last_of(ps, j);
            let x = t.subrange(ll, ps[j].0.end + 1);
            let b = block_of(t, srcs, j);
            let r1 = out_from(t, srcs, j + 1);
            let r = out_from(t, srcs, j);
            &&& r == x + (b + r1)
            &&& x.len() == ps[j].0.end + 1 - ll
            &&& x[x.len() - 1] == 10
            &&& scan(r) == scan(x) + shift(scan(r1), (x.len() + b.len()) as int)
            &&& scan(x) == shift(items.subrange(first_index(j), 2 * j + 1), -ll)
        }),
{
    reveal(run_ok);
    let items = scan(t);
    let ps = pairing(items).0;
    lemma_pair_bounds(t, srcs, j);
    let s = ps[j].0;
    let e = ps[j].1;
    let ll = last_of(ps, j);
    let x = t.subrange(ll, s.end + 1);
    let o = pair_outcome(t, ps[j], srcs[j]);
    assert(o is Ok);
    let b = o->Ok_0.0;
    let r1 = out_from(t, srcs, j + 1);
    assert(last_of(ps, j + 1) == e.start);
    assert(apply_from(t, ps, srcs, j + 1, e.start) is Ok);
    let r = out_from(t, srcs, j);
    assert(r == t.subrange(ll, s.end) + seq![10u8] + b + r1);
    assert(r =~= x + (b + r1));
    let (lo, hi) = resolve_spec(o_text(srcs[j]), s.arg, e.arg)->Ok_0;
    lemma_render_quiet(o_text(srcs[j]).subrange(lo, hi), 0, s.kind);
    lemma_scan_concat(b, r1);
    lemma_scan_concat(x, b + r1);
    lemma_shift_twice(scan(r1), b.len() as int, x.len() as int);
    assert(shift(Seq::<ScanItem>::empty(), x.len() as int) =~= Seq::<ScanItem>::empty());
    lemma_shift_concat(Seq::<ScanItem>::empty(), shift(scan(r1), b.len() as int), x.len() as int);
    assert(Seq::<ScanItem>::empty() + shift(scan(r1), b.len() as int) =~= shift(scan(r1), b.len() as int));
    assert(scan(r) =~= scan(x) + shift(scan(r1), (x.len() + b.len()) as int));
    lemma_scan_window(t, ll, s.end + 1, first_index(j), 2 * j + 1);
}

proof fn lemma_between_last(t: Seq<u8>, srcs: Seq<Result<(Seq<u8>, Seq<u8>), Seq<u8>>>)
    ensures
        fact_between(t, srcs, pairing(scan(t)).0.len() as int),
{
    reveal(fact_between);
}

#[verifier::rlimit(60)]
proof fn lemma_rerun_last(t: Seq<u8>, srcs: Seq<Result<(Seq<u8>, Seq<u8>), Seq<u8>>>)
    requires
        run_ok(t, srcs),
    ensures
        rerun_fact(t, srcs, pairing(scan(t)).0.len() as int),
{
    lemma_between_last(t, srcs);
    reveal(fact_len);
    reveal(fact_fields);
    reveal(fact_first);
    let items = scan(t);
    let ps = pairing(items).0;
    let n = ps.len() as int;
    let g = first_index(n);
    let ll = last_of(ps, n);
    lemma_items_ok(t, srcs);
    if n > 0 {
        lemma_pair_bounds(t, srcs, n - 1);
        assert(item_range(items[2 * (n - 1) + 1]).0 == ll);
        lemma_item_at(t, 2 * n - 1);
    }
    let r = t.subrange(ll, t.len() as int);
    assert(out_from(t, srcs, n) == r);
    lemma_scan_window(t, ll, t.len() as int, g, items.len() as int);
    let ys = scan(r);
    assert forall|k: int| 0 <= k < ys.len() implies same_fields(#[trigger] ys[k], items[g + k]) by {
        assert(items[g + k] is Ok);
    }
    if n > 0 && ys.len() > 0 {
        assert(ys[0] == shift_item(items[g], -ll));
    }
}

proof fn lemma_items_ok(t: Seq<u8>, srcs: Seq<Result<(Seq<u8>, Seq<u8>), Seq<u8>>>)
    requires
        run_ok(t, srcs),
    ensures
        forall|k: int| 0 <= k < scan(t).len() ==> (#[trigger] scan(t)[k]) is Ok,
        scan(t).len() == 2 * pairing(scan(t)).0.len(),
{
    reveal(run_ok);
}

proof fn lemma_step_len_fields(t: Seq<u8>, srcs: Seq<Result<(Seq<u8>, Seq<u8>), Seq<u8>>>, j: int)
    requires
        run_ok(t, srcs),
        0 <= j < pairing(scan(t)).0.len(),
        fact_len(t, srcs, j + 1),
        fact_fields(t, srcs, j + 1),
    ensures
        fact_len(t, srcs, j),
        fact_fields(t, srcs, j),
        fact_first(t, srcs, j),
{
    reveal(fact_len);
    reveal(fact_fields);
    reveal(fact_first);
    let items = scan(t);
    let ps = pairing(items).0;
    let g = first_index(j);
    lemma_items_ok(t, srcs);
    lemma_pair_bounds(t, srcs, j);
    lemma_step_text(t, srcs, j);
    let ll = last_of(ps, j);
    let x = t.subrange(ll, ps[j].0.end + 1);
    let b = block_of(t, srcs, j);
    let r1 = out_from(t, srcs, j + 1);
    let c: int = (x.len() + b.len()) as int;
    let xs_part = scan(x);
    let ys1 = scan(r1);
    let ys = scan(out_from(t, srcs, j));
    assert(ys == xs_part + shift(ys1, c));
    assert(first_index(j + 1) == 2 * j + 1);
    assert forall|k: int| 0 <= k < ys.len() implies same_fields(#[trigger] ys[k], items[g + k]) by {
        if k < xs_part.len() {
            assert(ys[k] == shift_item(items[g + k], -ll));
            assert(items[g + k] is Ok);
        } else {
            assert(ys[k] == shift_item(ys1[k - xs_part.len()], c));
            assert(same_fields(ys1[k - xs_part.len()], items[2 * j + 1 + (k - xs_part.len())]));
        }
    }
    if j > 0 {
        assert(ys[0] == shift_item(items[g], -ll));
    }
}

#[verifier::rlimit(100)]
proof fn lemma_step_between(t: Seq<u8>, srcs: Seq<Result<(Seq<u8>, Seq<u8>), Seq<u8>>>, j: int)
    requires
        run_ok(t, srcs),
        0 <= j < pairing(scan(t)).0.len(),
        fact_len(t, srcs, j + 1),
        fact_between(t, srcs, j + 1),
        fact_first(t, srcs, j + 1),
    ensures
        fact_between(t, srcs, j),
{
    reveal(fact_between);
    let items = scan(t);
    let ps = pairing(items).0;
    let n = ps.len() as int;
    let g = first_index(j);
    lemma_items_ok(t, srcs);
    lemma_pair_bounds(t, srcs, j);
    lemma_step_text(t, srcs, j);
    let ll = last_of(ps, j);
    let x = t.subrange(ll, ps[j].0.end + 1);
    let b = block_of(t, srcs, j);
    let r1 = out_from(t, srcs, j + 1);
    let r = out_from(t, srcs, j);
    let c: int = (x.len() + b.len()) as int;
    let xs_part = scan(x);
    let ys1 = scan(r1);
    let ys = scan(r);
    assert(ys == xs_part + shift(ys1, c));
    assert(first_index(j + 1) == 2 * j + 1);
    assert(xs_part.len() == 2 * j + 1 - g);
    assert(ys1.len() == items.len() - (2 * j + 1)) by {
        reveal(fact_len);
    }
    assert(ys1.len() > 0 ==> item_range(ys1[0]).0 == 0) by {
        reveal(fact_first);
    }
    lemma_scan_starts(r1);
    lemma_scan_ordered(r1, 0);
    assert forall|m: int| j <= m < n implies r.subrange(
        item_range(#[trigger] ys[2 * m - g]).1,
        item_range(ys[2 * m - g + 1]).0,
    ) == seq![10u8] + block_of(t, srcs, m) by {
        if m == j {
            assert(ys[2 * j - g] == shift_item(items[2 * j], -ll));
            assert(ys[2 * j - g + 1] == shift_item(ys1[0], c));
            assert(r.subrange(x.len() - 1, c) =~= seq![10u8] + b);
        } else {
            let i1 = 2 * m - (2 * j + 1);
            assert(ys[2 * m - g] == shift_item(ys1[i1], c));
            assert(ys[2 * m - g + 1] == shift_item(ys1[i1 + 1], c));
            let a0 = item_range(ys1[i1]).1;
            let b0 = item_range(ys1[i1 + 1]).0;
            assert(0 <= a0 <= b0 <= r1.len());
            assert(r.subrange(a0 + c, b0 + c) =~= r1.subrange(a0, b0));
            assert(r1.subrange(a0, b0) == seq![10u8] + block_of(t, srcs, m));
        }
    }
}

proof fn lemma_rerun_step(t: Seq<u8>, srcs: Seq<Result<(Seq<u8>, Seq<u8>), Seq<u8>>>, j: int)
    requires
        run_ok(t, srcs),
        0 <= j < pairing(scan(t)).0.len(),
        rerun_fact(t, srcs, j + 1),
    ensures
        rerun_fact(t, srcs, j),
{
    lemma_step_len_fields(t, srcs, j);
    lemma_step_between(t, srcs, j);
}

proof fn lemma_rerun_from(t: Seq<u8>, srcs: Seq<Result<(Seq<u8>, Seq<u8>), Seq<u8>>>, j: int)
    requires
        run_ok(t, srcs),
        0 <= j <= pairing(scan(t)).0.len(),
    ensures
        rerun_fact(t, srcs, j),
    decreases pairing(scan(t)).0.len() - j,
{
    if j == pairing(scan(t)).0.len() {
        lemma_rerun_last(t, srcs);
    } else {
        lemma_rerun_from(t, srcs, j + 1);
        lemma_rerun_step(t, srcs, j);
    }
}

pub open spec fn o_text(src: Result<(Seq<u8>, Seq<u8>), Seq<u8>>) -> Seq<u8> {
    match src {
        Ok((_, text)) => text,
        Err(_) => seq![],
    }
}


proof fn lemma_outcome_same(
    t: Seq<u8>,
    t2: Seq<u8>,
    p: (AttrView, AttrView),
    p2: (AttrView, AttrView),
    src: Result<(Seq<u8>, Seq<u8>), Seq<u8>>,
)
    requires
        p.0.arg == p2.0.arg,
        p.1.arg == p2.1.arg,
        p.0.kind == p2.0.kind,
        pair_outcome(t, p, src) is Ok,
    ensures
        pair_outcome(t2, p2, src) is Ok,
        pair_outcome(t2, p2, src)->Ok_0.0 == pair_outcome(t, p, src)->Ok_0.0,
{
}

proof fn lemma_run_ok(t: Seq<u8>, srcs: Seq<Result<(Seq<u8>, Seq<u8>), Seq<u8>>>)
    requires
        srcs.len() == pairing(scan(t)).0.len(),
        apply_spec(t, srcs) is Ok,
    ensures
        run_ok(t, srcs),
{
    reveal(run_ok);
    let items = scan(t);
    let ps = pairing(items).0;
    assert(pairing(items).1 is None);
    lemma_paired_well_nested(items);
    law_pairing_correct(t);
    assert(last_of(ps, 0) == 0);
    assert(apply_from(t, ps, srcs, 0, 0) is Ok);
    lemma_run_ok_from(t, ps, srcs, 0);
}

#[verifier::rlimit(60)]
proof fn lemma_rerun_nested(t: Seq<u8>, srcs: Seq<Result<(Seq<u8>, Seq<u8>), Seq<u8>>>)
    requires
        run_ok(t, srcs),
    ensures
        well_nested(scan(out_from(t, srcs, 0))),
        scan(out_from(t, srcs, 0)).len() == scan(t).len(),
        forall|k: int|
            0 <= k < scan(t).len() ==> same_fields(
                #[trigger] scan(out_from(t, srcs, 0))[k],
                scan(t)[k],
            ),
{
    lemma_rerun_from(t, srcs, 0);
    reveal(fact_len);
    reveal(fact_fields);
    reveal(run_ok);
    let items = scan(t);
    let ys = scan(out_from(t, srcs, 0));
    assert(first_index(0) == 0);
    assert forall|k: int| 0 <= k < ys.len() implies same_fields(#[trigger] ys[k], items[k]) by {
        assert(same_fields(ys[k], items[0 + k]));
    }
    assert forall|j: int| 0 <= j < ys.len() / 2 implies {
        let x = (#[trigger] ys[2 * j])->Ok_0;
        let y = ys[2 * j + 1]->Ok_0;
        x.action == Action::Start && y.action == Action::End && x.kind == y.kind && x.path == y.path
    } by {
        assert(same_fields(ys[2 * j], items[2 * j]));
        assert(same_fields(ys[2 * j + 1], items[2 * j + 1]));
        assert(items[2 * j] == items[2 * j]);
    }
}

/// Substitution reaches a fixed point: run again with the same included
/// files on the text it produced (or on the text it left as it was), it
/// succeeds and changes nothing.
pub proof fn law_second_run_unchanged(
    input: Seq<u8>,
    sources: Seq<Result<(Seq<u8>, Seq<u8>), Seq<u8>>>,
)
    requires
        sources.len() == pairing(scan(input)).0.len(),
        apply_spec(input, sources) is Ok,
    ensures
        ({
            let t2 = match apply_spec(input, sources)->Ok_0.0 {
                Some(x) => x,
                None => input,
            };
            apply_spec(t2, sources) is Ok && apply_spec(t2, sources)->Ok_0.0 is None
        }),
{
    if apply_spec(input, sources)->Ok_0.0 is Some {
        let t = input;
        let srcs = sources;
        lemma_run_ok(t, srcs);
        let items = scan(t);
        let ps = pairing(items).0;
        let t2 = out_from(t, srcs, 0);
        assert(last_of(ps, 0) == 0);
        assert(apply_spec(input, sources)->Ok_0.0 == Some(t2));
        lemma_rerun_nested(t, srcs);
        lemma_rerun_from(t, srcs, 0);
        reveal(fact_between);
        law_pairing_correct(t2);
        let ys = scan(t2);
        let ps2 = pairing(ys).0;
        assert(ps.len() == ps2.len()) by {
            reveal(run_ok);
        }
        assert forall|m: int| 0 <= m < ps2.len() implies (#[trigger] pair_outcome(t2, ps2[m], srcs[m]))
            is Ok && t2.subrange(ps2[m].0.end, ps2[m].1.start) == seq![10u8] + pair_outcome(
            t2,
            ps2[m],
            srcs[m],
        )->Ok_0.0 by {
            reveal(run_ok);
            assert(ps[m] == (items[2 * m]->Ok_0, items[2 * m + 1]->Ok_0));
            assert(ps2[m] == (ys[2 * m]->Ok_0, ys[2 * m + 1]->Ok_0));
            assert(same_fields(ys[2 * m], items[2 * m]));
            assert(same_fields(ys[2 * m + 1], items[2 * m + 1]));
            assert(pair_outcome(t, ps[m], srcs[m]) is Ok);
            lemma_outcome_same(t, t2, ps[m], ps2[m], srcs[m]);
            assert(first_index(0) == 0);
            assert(t2.subrange(item_range(ys[2 * m - 0]).1, item_range(ys[2 * m - 0 + 1]).0)
                == seq![10u8] + block_of(t, srcs, m));
        }
        lemma_current_from(t2, ps2, srcs, 0, 0);
    }
}

} // verus!
