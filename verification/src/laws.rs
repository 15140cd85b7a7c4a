//! General laws of the layout engine, stated and proved against the
//! model in [`crate::model`].

use vstd::prelude::*;
use crate::model::{Node, qget, tdiv, Align, align_of, has_break, set_break, break_node,
    child_fp, Scan, Dist, dist_none, scan_line, line_dist, place_line, stack_lines,
    arrange_stacked, squeeze, overlay_child, justify_of, Justify, lemma_scan_bounds,
    lemma_place_line_len};

verus! {

/// Exact truncating division: a numerator that is an exact multiple of
/// the divisor loses nothing.
proof fn lemma_tdiv_exact(a: int, b: int)
    by (nonlinear_arith)
    requires
        b > 0,
    ensures
        tdiv(a * b, b) == a,
{
}

/// Sum of the extents of the first `i` children.
pub open spec fn widths_before(s: Seq<Node>, i: int) -> int
    decreases i,
{
    if i <= 0 {
        0
    } else {
        widths_before(s, i - 1) + qget(s[i - 1].rect, 2)
    }
}

/// One plain child: it neither stretches nor shrinks on axis 0, carries
/// no horizontal margins, and sits at its zeroed position placeholder
/// with an explicit nonzero width.
pub open spec fn plain_child(c: Node) -> bool {
    align_of(c.behave, 0) != Align::Fill && qget(c.rect, 0) == 0 && qget(c.margins, 0) == 0
        && qget(c.margins, 2) == 0 && c.size.p0 == qget(c.rect, 2) && c.size.p0 != 0
}

/// The children `lo..hi` are all plain.
pub open spec fn plain_range(s: Seq<Node>, lo: int, hi: int) -> bool {
    forall|i: int| lo <= i < hi && 0 <= i < s.len() ==> plain_child(#[trigger] s[i])
}

/// A row of plain children.
pub open spec fn plain_row(s: Seq<Node>) -> bool {
    plain_range(s, 0, s.len() as int)
}

/// Without wrapping, the first pass takes every remaining child into
/// the line and accumulates exactly the widths.
proof fn lemma_scan_nowrap(s: Seq<Node>, ext: int, idx: int, used: int, count: int,
    squeezed: int, total: int)
    requires
        plain_range(s, idx, s.len() as int),
        0 <= idx <= s.len(),
    ensures
        ({
            let sc = scan_line(s, 0, false, ext, idx, used, count, squeezed, total);
            sc.last == s.len() && !sc.broke && !sc.hard && sc.count == count
                && sc.total == total + (s.len() - idx)
                && sc.used == used + widths_before(s, s.len() as int) - widths_before(s, idx)
        }),
    decreases s.len() - idx,
{
    if idx < s.len() {
        let c = s[idx];
        assert(widths_before(s, idx + 1) == widths_before(s, idx) + qget(c.rect, 2));
        lemma_scan_nowrap(s, ext, idx + 1, used + child_fp(c, 0), count, squeezed, total + 1);
    }
}

/// Placing a line with no slack distribution walks the children left to
/// right: each child keeps its extent and sits at the running sum of the
/// widths before it.
proof fn lemma_place_plain(s: Seq<Node>, maxx2: int, x: int, idx: int, last: int)
    requires
        plain_range(s, idx, last),
        0 <= idx <= last <= s.len(),
    ensures
        ({
            let r = place_line(s, 0, false, maxx2, dist_none(), 0, x, idx, last);
            r.len() == s.len() && (forall|j: int| idx <= j < last
                ==> qget(#[trigger] r[j].rect, 0) == x + widths_before(s, j)
                    - widths_before(s, idx)
                    && qget(r[j].rect, 2) == qget(s[j].rect, 2)) && (forall|j: int|
                0 <= j < s.len() && !(idx <= j < last) ==> r[j] == s[j])
        }),
    decreases last - idx,
{
    if idx < last {
        let c = s[idx];
        let ds = dist_none();
        let x1 = x + qget(c.rect, 0) * ds.d + 0;
        lemma_tdiv_exact(x1, 1);
        let xend = x1 + qget(c.rect, 2) * ds.d;
        lemma_tdiv_exact(xend, 1);
        let c2 = Node {
            rect: crate::model::qset(crate::model::qset(c.rect, 0, x1), 2, xend - x1),
            ..c
        };
        let s2 = s.update(idx, c2);
        assert(plain_range(s2, idx + 1, last)) by {
            assert forall|i: int| idx + 1 <= i < last && 0 <= i < s2.len() implies plain_child(
                #[trigger] s2[i]) by {
                assert(s2[i] == s[i]);
            }
        }
        assert(plain_child(c));
        assert(x1 == x);
        assert(qget(c2.rect, 2) == qget(c.rect, 2));
        assert forall|j: int| 0 <= j <= s.len() implies widths_before(s2, j) == widths_before(
            s, j) by {
            lemma_widths_same(s, s2, j);
        }
        lemma_place_plain(s2, maxx2, xend, idx + 1, last);
        assert(widths_before(s, idx + 1) == widths_before(s, idx) + qget(c.rect, 2));
    }
}

/// Two child sequences with the same extents have the same width sums.
proof fn lemma_widths_same(s1: Seq<Node>, s2: Seq<Node>, i: int)
    requires
        s1.len() == s2.len(),
        i <= s1.len(),
        forall|j: int| 0 <= j < s1.len() ==> qget(#[trigger] s2[j].rect, 2)
            == qget(s1[j].rect, 2),
    ensures
        widths_before(s2, i) == widths_before(s1, i),
    decreases i,
{
    if i > 0 {
        lemma_widths_same(s1, s2, i - 1);
    }
}

/// No-wrap stacking exactness: in an unwrapped, start-aligned row whose
/// plain children have explicit widths summing to no more than the
/// parent's width, each child keeps its width and sits exactly behind
/// the children before it, so the children use no more than the
/// parent's width.
pub proof fn lemma_nowrap_stacking(t: Node)
    requires
        t.contain & 0x07 == 0x02,
        t.contain & 0x18 == 0x08,
        plain_row(t.children),
        widths_before(t.children, t.children.len() as int) <= qget(t.rect, 2),
    ensures
        ({
            let r = arrange_stacked(t, 0, false);
            r.children.len() == t.children.len() && (forall|i: int|
                0 <= i < t.children.len()
                    ==> qget(#[trigger] r.children[i].rect, 0) == qget(t.rect, 0)
                        + widths_before(t.children, i)
                        && qget(r.children[i].rect, 2) == qget(t.children[i].rect, 2))
        }),
{
    let s = t.children;
    let ext = qget(t.rect, 2);
    let x0 = qget(t.rect, 0);
    if s.len() == 0 {
    } else {
        let sc = scan_line(s, 0, false, ext, 0, 0, 0, 0, 0);
        lemma_scan_nowrap(s, ext, 0, 0, 0, 0, 0);
        let ds = line_dist(t.contain, false, s.len() as int, sc, ext);
        assert(justify_of(t.contain) == Justify::Start);
        assert(ds == dist_none());
        lemma_tdiv_exact(x0, 1);
        lemma_place_plain(s, x0 + ext, x0, 0, s.len() as int);
        let s2 = place_line(s, 0, false, x0 + ext, ds, ds.em0, x0 * ds.d, 0, s.len() as int);
        assert(x0 * ds.d == x0);
        assert(stack_lines(s2, 0, false, ext, x0, t.contain, s.len() as int) == s2);
    }
}

/// Child containment under `Fill`: a fill-aligned child squeezed into a
/// band that can hold its margins is stretched to exactly the band minus
/// its own margins.
pub proof fn lemma_fill_squeeze(c: Node, a: int, offset: int, space: int)
    requires
        a == 0 || a == 1,
        align_of(c.behave, a) == Align::Fill,
        qget(c.rect, a) == qget(c.margins, a),
        qget(c.margins, a) + qget(c.margins, a + 2) <= space,
    ensures
        qget(squeeze(c, a, offset, space).rect, a + 2) == space - qget(c.margins, a)
            - qget(c.margins, a + 2),
{
}

/// Child containment under `Fill`, overlay form: a fill-aligned child
/// placed freely against a parent extent that can hold its margins is
/// stretched to exactly that extent minus its own margins.
pub proof fn lemma_fill_overlay(c: Node, a: int, x0: int, space: int)
    requires
        a == 0 || a == 1,
        align_of(c.behave, a) == Align::Fill,
        qget(c.rect, a) == qget(c.margins, a),
        qget(c.margins, a) + qget(c.margins, a + 2) <= space,
    ensures
        qget(overlay_child(c, a, x0, space).rect, a + 2) == space - qget(c.margins, a)
            - qget(c.margins, a + 2),
{
}

/// A wrapping scan over plain children whose cumulative widths first
/// exceed the available width at child `k` ends its line exactly there.
proof fn lemma_scan_threshold(s: Seq<Node>, ext: int, k: int, idx: int, count: int,
    squeezed: int)
    requires
        plain_row(s),
        forall|i: int| 0 <= i < s.len() ==> !has_break(#[trigger] s[i].behave),
        0 < k < s.len(),
        widths_before(s, k) <= ext,
        widths_before(s, k + 1) > ext,
        forall|i: int| 0 <= i < s.len() ==> qget(#[trigger] s[i].rect, 2) >= 0,
        0 <= idx <= k,
    ensures
        scan_line(s, 0, true, ext, idx, widths_before(s, idx), count, squeezed, idx)
            == (Scan {
            last: k,
            broke: true,
            hard: false,
            used: widths_before(s, k),
            count,
            squeezed,
            total: k,
        }),
    decreases k - idx,
{
    let c = s[idx];
    assert(plain_child(c));
    assert(widths_before(s, idx + 1) == widths_before(s, idx) + qget(c.rect, 2));
    if idx < k {
        lemma_widths_mono(s, idx + 1, k);
        assert(widths_before(s, idx + 1) <= widths_before(s, k));
        lemma_scan_threshold(s, ext, k, idx + 1, count, squeezed);
    } else {
        assert(widths_before(s, k + 1) > ext);
    }
}

/// Width sums of nonnegative extents grow with the index.
proof fn lemma_widths_mono(s: Seq<Node>, i: int, j: int)
    requires
        forall|i0: int| 0 <= i0 < s.len() ==> qget(#[trigger] s[i0].rect, 2) >= 0,
        0 <= i <= j <= s.len(),
    ensures
        widths_before(s, i) <= widths_before(s, j),
    decreases j - i,
{
    if i < j {
        lemma_widths_mono(s, i, j - 1);
    }
}

/// Placing a line never touches a child's flags, nor any child outside
/// the line.
proof fn lemma_place_frame(s: Seq<Node>, a: int, wrap: bool, maxx2: int, ds: Dist, em: int,
    x: int, idx: int, last: int)
    ensures
        ({
            let r = place_line(s, a, wrap, maxx2, ds, em, x, idx, last);
            r.len() == s.len() && (forall|j: int| 0 <= j < s.len() && !(idx <= j < last)
                ==> r[j] == s[j]) && (forall|j: int| 0 <= j < s.len()
                ==> (#[trigger] r[j]).behave == s[j].behave)
        }),
    decreases last - idx,
{
    if !(idx < 0 || idx >= last || idx >= s.len()) {
        let c = s[idx];
        let x1 = x + qget(c.rect, a) * ds.d + em;
        let fill = align_of(c.behave, a) == Align::Fill;
        let xend = if fill {
            x1 + ds.filler
        } else if crate::model::pget(c.size, a) != 0 {
            x1 + qget(c.rect, a + 2) * ds.d
        } else {
            x1 + crate::model::max_i(0, qget(c.rect, a + 2) * ds.d + ds.eater)
        };
        let ix0 = tdiv(x1, ds.d);
        let ix1 = if wrap {
            tdiv(crate::model::min_i((maxx2 - qget(c.margins, a + 2)) * ds.d, xend), ds.d)
        } else {
            tdiv(xend, ds.d)
        };
        let c2 = Node {
            rect: crate::model::qset(crate::model::qset(c.rect, a, ix0), a + 2, ix1 - ix0),
            ..c
        };
        lemma_place_frame(s.update(idx, c2), a, wrap, maxx2, ds, ds.spacer,
            xend + qget(c.margins, a + 2) * ds.d, idx + 1, last);
    }
}

/// The stacked distribution never touches the children before `start`,
/// and never touches the flags of the child at `start`.
proof fn lemma_stack_frame(s: Seq<Node>, a: int, wrap: bool, ext: int, x0: int, contain: u8,
    start: int)
    ensures
        ({
            let r = stack_lines(s, a, wrap, ext, x0, contain, start);
            r.len() == s.len() && (forall|j: int| 0 <= j < start ==> r[j] == s[j]) && (0 <= start
                < s.len() ==> (#[trigger] r[start as int]).behave == s[start].behave)
        }),
    decreases s.len() - start,
{
    crate::model::lemma_stack_lines_len(s, a, wrap, ext, x0, contain, start);
    if !(start < 0 || start >= s.len()) {
        let sc = scan_line(s, a, wrap, ext, start, 0, 0, 0, 0);
        lemma_scan_bounds(s, a, wrap, ext, start, 0, 0, 0, 0);
        let s1 = if sc.broke {
            s.update(sc.last, break_node(s[sc.last]))
        } else {
            s
        };
        let ds = line_dist(contain, wrap, s.len() as int, sc, ext);
        lemma_place_line_len(s1, a, wrap, x0 + ext, ds, ds.em0, x0 * ds.d, start, sc.last);
        lemma_place_frame(s1, a, wrap, x0 + ext, ds, ds.em0, x0 * ds.d, start, sc.last);
        let s2 = place_line(s1, a, wrap, x0 + ext, ds, ds.em0, x0 * ds.d, start, sc.last);
        let next = if sc.last > start {
            sc.last
        } else {
            start + 1
        };
        assert(sc.last > start);
        lemma_stack_frame(s2, a, wrap, ext, x0, contain, next);
        assert(s2[start].behave == s[start].behave);
    }
}

/// Wrap threshold: in a wrapping row of plain children with no explicit
/// breaks whose cumulative widths first exceed the parent's width at
/// child `k`, the first line holds exactly the children before `k`, and
/// after arrangement child `k` carries the break flag that the wrap set,
/// while the children before it keep their flags.
pub proof fn lemma_wrap_threshold(t: Node, k: int)
    requires
        plain_row(t.children),
        forall|i: int| 0 <= i < t.children.len()
            ==> !has_break(#[trigger] t.children[i].behave),
        forall|i: int| 0 <= i < t.children.len()
            ==> qget(#[trigger] t.children[i].rect, 2) >= 0,
        0 < k < t.children.len(),
        widths_before(t.children, k) <= qget(t.rect, 2),
        widths_before(t.children, k + 1) > qget(t.rect, 2),
    ensures
        scan_line(t.children, 0, true, qget(t.rect, 2), 0, 0, 0, 0, 0).last == k,
        scan_line(t.children, 0, true, qget(t.rect, 2), 0, 0, 0, 0, 0).broke,
        !scan_line(t.children, 0, true, qget(t.rect, 2), 0, 0, 0, 0, 0).hard,
        ({
            let r = arrange_stacked(t, 0, true);
            r.children.len() == t.children.len()
                && r.children[k].behave == set_break(t.children[k].behave) && (forall|j: int|
                0 <= j < k ==> (#[trigger] r.children[j]).behave == t.children[j].behave)
        }),
{
    let s = t.children;
    let ext = qget(t.rect, 2);
    let x0 = qget(t.rect, 0);
    lemma_scan_threshold(s, ext, k, 0, 0, 0);
    let sc = scan_line(s, 0, true, ext, 0, 0, 0, 0, 0);
    let s1 = s.update(k, break_node(s[k]));
    let ds = line_dist(t.contain, true, s.len() as int, sc, ext);
    lemma_place_frame(s1, 0, true, x0 + ext, ds, ds.em0, x0 * ds.d, 0, k);
    let s2 = place_line(s1, 0, true, x0 + ext, ds, ds.em0, x0 * ds.d, 0, k);
    lemma_stack_frame(s2, 0, true, ext, x0, t.contain, k);
}

/// Justify spacing: three plain children of one width `e` in an
/// unwrapped justify row with even slack get two equal inner gaps of
/// half the slack, the first child flush with the parent's leading edge
/// and the last flush with its trailing edge.
pub proof fn lemma_justify_three(t: Node, e: int, extra: int)
    requires
        t.contain & 0x07 == 0x02,
        t.contain & 0x18 == 0x18,
        plain_row(t.children),
        t.children.len() == 3,
        forall|i: int| 0 <= i < 3 ==> qget(#[trigger] t.children[i].rect, 2) == e,
        e > 0,
        extra > 0,
        extra % 2 == 0,
        qget(t.rect, 2) == 3 * e + extra,
    ensures
        ({
            let r = arrange_stacked(t, 0, false);
            let x0 = qget(t.rect, 0);
            r.children.len() == 3 && qget(r.children[0].rect, 0) == x0
                && qget(r.children[1].rect, 0) == x0 + e + extra / 2
                && qget(r.children[2].rect, 0) == x0 + 2 * e + extra && (forall|i: int|
                0 <= i < 3 ==> qget(#[trigger] r.children[i].rect, 2) == e)
        }),
{
    let s = t.children;
    let ext = qget(t.rect, 2);
    let x0 = qget(t.rect, 0);
    let mx = x0 + ext;
    lemma_scan_nowrap(s, ext, 0, 0, 0, 0, 0);
    let sc = scan_line(s, 0, false, ext, 0, 0, 0, 0, 0);
    assert(plain_child(s[0]) && plain_child(s[1]) && plain_child(s[2]));
    assert(widths_before(s, 3) == 3 * e) by {
        assert(widths_before(s, 1) == e);
        assert(widths_before(s, 2) == 2 * e);
    }
    assert(sc.used == 3 * e && sc.last == 3 && !sc.broke && sc.count == 0 && sc.total == 3);
    let ds = line_dist(t.contain, false, 3, sc, ext);
    assert(justify_of(t.contain) == Justify::SpaceBetween);
    assert(ds == (Dist { d: 2, filler: 0, spacer: extra, em0: 0, eater: 0 }));
    let h = extra / 2;
    assert(extra == 2 * h);

    // Walk the three placement steps with the exact rational coordinate.
    let n0 = Node { rect: crate::model::qset(crate::model::qset(s[0].rect, 0, x0), 2, e), ..s[0] };
    let v1 = s.update(0, n0);
    assert(place_line(s, 0, false, mx, ds, 0, x0 * 2, 0, 3) == place_line(v1, 0, false, mx, ds,
        extra, (x0 + e) * 2, 1, 3)) by {
        lemma_tdiv_exact(x0, 2);
        lemma_tdiv_exact(x0 + e, 2);
    }
    let n1 = Node {
        rect: crate::model::qset(crate::model::qset(s[1].rect, 0, x0 + e + h), 2, e),
        ..s[1]
    };
    let v2 = v1.update(1, n1);
    assert(place_line(v1, 0, false, mx, ds, extra, (x0 + e) * 2, 1, 3) == place_line(v2, 0,
        false, mx, ds, extra, (x0 + 2 * e + h) * 2, 2, 3)) by {
        assert(v1[1] == s[1]);
        lemma_tdiv_exact(x0 + e + h, 2);
        lemma_tdiv_exact(x0 + 2 * e + h, 2);
    }
    let n2 = Node {
        rect: crate::model::qset(crate::model::qset(s[2].rect, 0, x0 + 2 * e + extra), 2, e),
        ..s[2]
    };
    let v3 = v2.update(2, n2);
    assert(place_line(v2, 0, false, mx, ds, extra, (x0 + 2 * e + h) * 2, 2, 3) == place_line(
        v3, 0, false, mx, ds, extra, (x0 + 3 * e + extra) * 2, 3, 3)) by {
        assert(v2[2] == s[2]);
        lemma_tdiv_exact(x0 + 2 * e + extra, 2);
        lemma_tdiv_exact(x0 + 3 * e + extra, 2);
    }
    assert(place_line(v3, 0, false, mx, ds, extra, (x0 + 3 * e + extra) * 2, 3, 3) == v3);
    let r = arrange_stacked(t, 0, false);
    assert(stack_lines(s, 0, false, ext, x0, t.contain, 0) == v3) by {
        assert(place_line(s, 0, false, mx, ds, ds.em0, x0 * ds.d, 0, sc.last) == v3);
        assert(stack_lines(v3, 0, false, ext, x0, t.contain, 3) == v3);
    }
    assert(r.children[0] == n0 && r.children[1] == n1 && r.children[2] == n2);
}

/// The largest footprint along `a` among the children `idx..`, folded
/// from `need`, as the wrapped overlay squeeze accumulates it.
pub open spec fn fold_fp(s: Seq<Node>, a: int, idx: int, need: int) -> int
    decreases s.len() - idx,
{
    if idx < 0 || idx >= s.len() {
        need
    } else {
        fold_fp(s, a, idx + 1, crate::model::max_i(need, child_fp(s[idx], a)))
    }
}

/// The largest footprint along `a` among the children `lo..hi`, at
/// least zero.
pub open spec fn range_fp(s: Seq<Node>, a: int, lo: int, hi: int) -> int
    decreases hi - lo,
{
    if lo >= hi {
        0
    } else {
        crate::model::max_i(range_fp(s, a, lo, hi - 1), child_fp(s[hi - 1], a))
    }
}

proof fn lemma_fold_fp_congr(s1: Seq<Node>, s2: Seq<Node>, a: int, idx: int, need: int)
    requires
        s1.len() == s2.len(),
        forall|j: int| idx <= j < s1.len() ==> child_fp(#[trigger] s2[j], a)
            == child_fp(s1[j], a),
    ensures
        fold_fp(s2, a, idx, need) == fold_fp(s1, a, idx, need),
    decreases s1.len() - idx,
{
    if 0 <= idx < s1.len() {
        lemma_fold_fp_congr(s1, s2, a, idx + 1,
            crate::model::max_i(need, child_fp(s1[idx], a)));
    }
}

/// Over a stretch with no break flags, the wrapped overlay squeeze makes
/// one band: every child from `start` on is squeezed against the running
/// offset with the folded maximal footprint as thickness.
proof fn lemma_wsq_nobreak(s: Seq<Node>, a: int, idx: int, start: int, offset: int, need: int)
    requires
        0 <= start <= idx,
        forall|j: int| idx <= j < s.len() ==> !has_break(#[trigger] s[j].behave),
    ensures
        crate::model::wrapped_squeeze(s, a, idx, start, offset, need)
            == (crate::model::squeeze_range(s, a, start, s.len() as int, offset,
                fold_fp(s, a, idx, need)), offset + fold_fp(s, a, idx, need)),
    decreases s.len() - idx,
{
    if 0 <= idx < s.len() {
        lemma_wsq_nobreak(s, a, idx + 1, start, offset,
            crate::model::max_i(need, child_fp(s[idx], a)));
    }
}

proof fn lemma_prefix_walk(s: Seq<Node>, a: int, x0: int, k: int, i: int)
    requires
        0 <= i <= k <= s.len(),
        forall|j: int| 0 <= j < k ==> !has_break(#[trigger] s[j].behave),
    ensures
        crate::model::wrapped_squeeze(s, a, i, 0, x0, range_fp(s, a, 0, i))
            == crate::model::wrapped_squeeze(s, a, k, 0, x0, range_fp(s, a, 0, k)),
    decreases k - i,
{
    if i < k {
        assert(range_fp(s, a, 0, i + 1) == crate::model::max_i(range_fp(s, a, 0, i),
            child_fp(s[i], a)));
        lemma_prefix_walk(s, a, x0, k, i + 1);
    }
}

/// Wrapped banding: with a single break flag at child `k`, the children
/// before `k` are squeezed against the band at the start offset, as
/// thick as their largest footprint, and the children from `k` on are
/// squeezed against the following band, advanced past the first.
pub proof fn lemma_wrapped_bands(s: Seq<Node>, a: int, x0: int, k: int)
    requires
        a == 0 || a == 1,
        0 < k < s.len(),
        has_break(s[k].behave),
        forall|j: int| 0 <= j < s.len() && j != k ==> !has_break(#[trigger] s[j].behave),
    ensures
        ({
            let w = crate::model::wrapped_squeeze(s, a, 0, 0, x0, 0);
            let band1 = range_fp(s, a, 0, k);
            let band2 = fold_fp(s, a, k + 1, crate::model::max_i(0, child_fp(s[k], a)));
            w.0.len() == s.len() && (forall|j: int| 0 <= j < k
                ==> #[trigger] w.0[j] == squeeze(s[j], a, x0, band1)) && (forall|j: int|
                k <= j < s.len() ==> #[trigger] w.0[j] == squeeze(s[j], a, x0 + band1, band2))
                && w.1 == x0 + band1 + band2
        }),
{
    let band1 = range_fp(s, a, 0, k);
    let band2 = fold_fp(s, a, k + 1, crate::model::max_i(0, child_fp(s[k], a)));
    let w = crate::model::wrapped_squeeze(s, a, 0, 0, x0, 0);

    // Walk the break-free prefix: the accumulator carries the running
    // maximal footprint.
    lemma_prefix_walk(s, a, x0, k, 0);

    // At `k` the first band is flushed and the scan restarts behind it.
    let s2 = crate::model::squeeze_range(s, a, 0, k, x0, band1);
    assert(w == crate::model::wrapped_squeeze(s2, a, k + 1, k, x0 + band1,
        crate::model::max_i(0, child_fp(s[k], a))));

    // The rest has no break, so it forms exactly one more band.
    assert forall|j: int| k + 1 <= j < s2.len() implies !has_break(
        #[trigger] s2[j].behave) by {
        assert(s2[j] == s[j]);
    }
    lemma_wsq_nobreak(s2, a, k + 1, k, x0 + band1, crate::model::max_i(0, child_fp(s[k], a)));
    assert forall|j: int| k + 1 <= j < s.len() implies child_fp(#[trigger] s2[j], a)
        == child_fp(s[j], a) by {
        assert(s2[j] == s[j]);
    }
    lemma_fold_fp_congr(s, s2, a, k + 1, crate::model::max_i(0, child_fp(s[k], a)));
    assert forall|j: int| 0 <= j < k implies #[trigger] w.0[j] == squeeze(s[j], a, x0,
        band1) by {
        assert(s2[j] == squeeze(s[j], a, x0, band1));
    }
    assert forall|j: int| k <= j < s.len() implies #[trigger] w.0[j] == squeeze(s[j], a,
        x0 + band1, band2) by {
        assert(s2[j] == s[j]);
    }
}

// ---------------------------------------------------------------------
// Idempotence
// ---------------------------------------------------------------------

/// The two trees agree on everything but their rectangles: same flags,
/// margins, explicit sizes and shape, throughout.
pub open spec fn same_statics(u: Node, v: Node) -> bool
    decreases u,
{
    u.contain == v.contain && u.behave == v.behave && u.margins == v.margins && u.size == v.size
        && u.children.len() == v.children.len() && (forall|i: int|
        0 <= i < u.children.len()
            ==> same_statics(#[trigger] u.children[i], v.children[i]))
}

/// The two trees agree on everything but the axis 1 slots of their
/// rectangles.
pub open spec fn same_axis0(u: Node, v: Node) -> bool
    decreases u,
{
    u.contain == v.contain && u.behave == v.behave && u.margins == v.margins && u.size == v.size
        && u.rect.q0 == v.rect.q0 && u.rect.q2 == v.rect.q2 && u.children.len()
        == v.children.len() && (forall|i: int|
        0 <= i < u.children.len() ==> same_axis0(#[trigger] u.children[i], v.children[i]))
}

pub open spec fn same_axis0_seq(s1: Seq<Node>, s2: Seq<Node>) -> bool {
    s1.len() == s2.len() && (forall|i: int|
        0 <= i < s1.len() ==> same_axis0(#[trigger] s1[i], s2[i]))
}

proof fn lemma_stacked0_congr(s1: Seq<Node>, s2: Seq<Node>)
    requires
        same_axis0_seq(s1, s2),
    ensures
        crate::model::stacked_size(s1, 0) == crate::model::stacked_size(s2, 0),
        crate::model::overlayed_size(s1, 0) == crate::model::overlayed_size(s2, 0),
    decreases s1.len(),
{
    if s1.len() > 0 {
        assert(same_axis0_seq(s1.drop_last(), s2.drop_last()));
        lemma_stacked0_congr(s1.drop_last(), s2.drop_last());
        assert(same_axis0(s1.last(), s2.last()));
    }
}

proof fn lemma_wrapped_stacked0_congr(s1: Seq<Node>, s2: Seq<Node>, i: int, need: int, acc: int)
    requires
        same_axis0_seq(s1, s2),
    ensures
        crate::model::wrapped_stacked_size(s1, i, need, acc)
            == crate::model::wrapped_stacked_size(s2, i, need, acc),
    decreases s1.len() - i,
{
    if 0 <= i < s1.len() {
        assert(same_axis0(s1[i], s2[i]));
        let c = s1[i];
        let acc2 = if has_break(c.behave) {
            crate::model::max_i(acc, need)
        } else {
            acc
        };
        let need2 = if has_break(c.behave) {
            0
        } else {
            need
        };
        lemma_wrapped_stacked0_congr(s1, s2, i + 1, need2 + child_fp(c, 0), acc2);
    }
}

/// The axis 0 size pass reads nothing of the axis 1 slots.
proof fn lemma_calc0_congr(u: Node, v: Node)
    requires
        same_statics(u, v),
    ensures
        same_axis0(crate::model::calc_size(u, 0), crate::model::calc_size(v, 0)),
    decreases u,
{
    let r1 = crate::model::calc_size(u, 0);
    let r2 = crate::model::calc_size(v, 0);
    assert forall|i: int| 0 <= i < r1.children.len() implies same_axis0(
        #[trigger] r1.children[i], r2.children[i]) by {
        assert(same_statics(u.children[i], v.children[i]));
        lemma_calc0_congr(u.children[i], v.children[i]);
    }
    assert(same_axis0_seq(r1.children, r2.children));
    lemma_stacked0_congr(r1.children, r2.children);
    lemma_wrapped_stacked0_congr(r1.children, r2.children, 0, 0, 0);
}

proof fn lemma_scan0_congr(s1: Seq<Node>, s2: Seq<Node>, wrap: bool, ext: int, idx: int,
    used: int, count: int, squeezed: int, total: int)
    requires
        same_axis0_seq(s1, s2),
    ensures
        scan_line(s1, 0, wrap, ext, idx, used, count, squeezed, total) == scan_line(s2, 0,
            wrap, ext, idx, used, count, squeezed, total),
    decreases s1.len() - idx,
{
    if 0 <= idx < s1.len() {
        assert(same_axis0(s1[idx], s2[idx]));
        let c = s1[idx];
        let fill = align_of(c.behave, 0) == Align::Fill;
        let extend = if fill {
            used + qget(c.rect, 0) + qget(c.margins, 2)
        } else {
            used + child_fp(c, 0)
        };
        if !(wrap && total > 0 && (extend > ext || has_break(c.behave))) {
            lemma_scan0_congr(s1, s2, wrap, ext, idx + 1, extend,
                if fill {
                    count + 1
                } else {
                    count
                },
                if !fill && c.size.p0 == 0 {
                    squeezed + 1
                } else {
                    squeezed
                }, total + 1);
        }
    }
}

proof fn lemma_place0_congr(s1: Seq<Node>, s2: Seq<Node>, wrap: bool, maxx2: int, ds: Dist,
    em: int, x: int, idx: int, last: int)
    requires
        same_axis0_seq(s1, s2),
    ensures
        same_axis0_seq(place_line(s1, 0, wrap, maxx2, ds, em, x, idx, last), place_line(s2, 0,
            wrap, maxx2, ds, em, x, idx, last)),
    decreases last - idx,
{
    if !(idx < 0 || idx >= last || idx >= s1.len()) {
        assert(same_axis0(s1[idx], s2[idx]));
        let c = s1[idx];
        let c_ = s2[idx];
        let x1 = x + qget(c.rect, 0) * ds.d + em;
        let fill = align_of(c.behave, 0) == Align::Fill;
        let xend = if fill {
            x1 + ds.filler
        } else if c.size.p0 != 0 {
            x1 + qget(c.rect, 2) * ds.d
        } else {
            x1 + crate::model::max_i(0, qget(c.rect, 2) * ds.d + ds.eater)
        };
        let ix0 = tdiv(x1, ds.d);
        let ix1 = if wrap {
            tdiv(crate::model::min_i((maxx2 - qget(c.margins, 2)) * ds.d, xend), ds.d)
        } else {
            tdiv(xend, ds.d)
        };
        let c2 = Node {
            rect: crate::model::qset(crate::model::qset(c.rect, 0, ix0), 2, ix1 - ix0),
            ..c
        };
        let c2_ = Node {
            rect: crate::model::qset(crate::model::qset(c_.rect, 0, ix0), 2, ix1 - ix0),
            ..c_
        };
        assert(same_axis0(c2, c2_));
        assert(same_axis0_seq(s1.update(idx, c2), s2.update(idx, c2_)));
        lemma_place0_congr(s1.update(idx, c2), s2.update(idx, c2_), wrap, maxx2, ds,
            ds.spacer, xend + qget(c.margins, 2) * ds.d, idx + 1, last);
    }
}

proof fn lemma_stack0_congr(s1: Seq<Node>, s2: Seq<Node>, wrap: bool, ext: int, x0: int,
    contain: u8, start: int)
    requires
        same_axis0_seq(s1, s2),
    ensures
        same_axis0_seq(stack_lines(s1, 0, wrap, ext, x0, contain, start), stack_lines(s2, 0,
            wrap, ext, x0, contain, start)),
    decreases s1.len() - start,
{
    if !(start < 0 || start >= s1.len()) {
        lemma_scan0_congr(s1, s2, wrap, ext, start, 0, 0, 0, 0);
        lemma_scan_bounds(s1, 0, wrap, ext, start, 0, 0, 0, 0);
        let sc = scan_line(s1, 0, wrap, ext, start, 0, 0, 0, 0);
        let a1 = if sc.broke {
            s1.update(sc.last, break_node(s1[sc.last]))
        } else {
            s1
        };
        let a2 = if sc.broke {
            s2.update(sc.last, break_node(s2[sc.last]))
        } else {
            s2
        };
        assert(same_axis0_seq(a1, a2)) by {
            if sc.broke {
                assert(same_axis0(s1[sc.last], s2[sc.last]));
                assert(same_axis0(break_node(s1[sc.last]), break_node(s2[sc.last])));
            }
        }
        let ds = line_dist(contain, wrap, s1.len() as int, sc, ext);
        lemma_place0_congr(a1, a2, wrap, x0 + ext, ds, ds.em0, x0 * ds.d, start, sc.last);
        lemma_place_line_len(a1, 0, wrap, x0 + ext, ds, ds.em0, x0 * ds.d, start, sc.last);
        lemma_place_line_len(a2, 0, wrap, x0 + ext, ds, ds.em0, x0 * ds.d, start, sc.last);
        let b1 = place_line(a1, 0, wrap, x0 + ext, ds, ds.em0, x0 * ds.d, start, sc.last);
        let b2 = place_line(a2, 0, wrap, x0 + ext, ds, ds.em0, x0 * ds.d, start, sc.last);
        let next = if sc.last > start {
            sc.last
        } else {
            start + 1
        };
        lemma_stack0_congr(b1, b2, wrap, ext, x0, contain, next);
    }
}

/// Handling one node on axis 0 reads nothing of the axis 1 slots.
proof fn lemma_arrange_node0_congr(t1: Node, t2: Node)
    requires
        same_axis0(t1, t2),
    ensures
        same_axis0(crate::model::arrange_node(t1, 0), crate::model::arrange_node(t2, 0)),
{
    let h1 = crate::model::arrange_node(t1, 0);
    let h2 = crate::model::arrange_node(t2, 0);
    assert(same_axis0_seq(t1.children, t2.children));
    match crate::model::mode_of(t1.contain) {
        crate::model::Mode::Column { wrap: true } => {
        },
        crate::model::Mode::Row { wrap: true } => {
            lemma_stack0_congr(t1.children, t2.children, true, qget(t1.rect, 2),
                qget(t1.rect, 0), t1.contain, 0);
        },
        crate::model::Mode::Row { wrap: false } => {
            lemma_stack0_congr(t1.children, t2.children, false, qget(t1.rect, 2),
                qget(t1.rect, 0), t1.contain, 0);
        },
        crate::model::Mode::Column { wrap: false } => {
            assert forall|i: int| 0 <= i < h1.children.len() implies same_axis0(
                #[trigger] h1.children[i], h2.children[i]) by {
                assert(same_axis0(t1.children[i], t2.children[i]));
            }
        },
        crate::model::Mode::Overlay => {
            assert forall|i: int| 0 <= i < h1.children.len() implies same_axis0(
                #[trigger] h1.children[i], h2.children[i]) by {
                assert(same_axis0(t1.children[i], t2.children[i]));
            }
        },
    }
    assert(same_axis0_seq(h1.children, h2.children));
}

/// The whole axis 0 arrangement reads nothing of the axis 1 slots.
proof fn lemma_arrange0_congr(s1: Node, p1: Node, s2: Node, p2: Node)
    requires
        same_axis0(s1, s2),
        same_axis0(p1, p2),
    ensures
        same_axis0(crate::model::arrange_from(s1, p1, 0), crate::model::arrange_from(s2, p2,
            0)),
    decreases s1,
{
    let t1 = Node { children: s1.children, ..p1 };
    let t2 = Node { children: s2.children, ..p2 };
    assert(same_axis0(t1, t2));
    lemma_arrange_node0_congr(t1, t2);
    let h1 = crate::model::arrange_node(t1, 0);
    let h2 = crate::model::arrange_node(t2, 0);
    crate::model::lemma_arrange_node_len(t1, 0);
    crate::model::lemma_arrange_node_len(t2, 0);
    let r1 = crate::model::arrange_from(s1, p1, 0);
    let r2 = crate::model::arrange_from(s2, p2, 0);
    assert forall|i: int| 0 <= i < r1.children.len() implies same_axis0(
        #[trigger] r1.children[i], r2.children[i]) by {
        assert(same_axis0(s1.children[i], s2.children[i]));
        assert(same_axis0(h1.children[i], h2.children[i]));
        lemma_arrange0_congr(s1.children[i], h1.children[i], s2.children[i], h2.children[i]);
    }
}

/// The axis 1 size pass only reads fields on which the trees agree, and
/// overwrites every axis 1 slot, so its results coincide.
proof fn lemma_calc1_congr(u: Node, v: Node)
    requires
        same_axis0(u, v),
    ensures
        crate::model::calc_size(u, 1) == crate::model::calc_size(v, 1),
    decreases u,
{
    let r1 = crate::model::calc_size(u, 1);
    let r2 = crate::model::calc_size(v, 1);
    assert forall|i: int| 0 <= i < r1.children.len() implies #[trigger] r1.children[i]
        == r2.children[i] by {
        assert(same_axis0(u.children[i], v.children[i]));
        lemma_calc1_congr(u.children[i], v.children[i]);
    }
    assert(r1.children =~= r2.children);
    assert(r1.rect =~= r2.rect);
    assert(r1 =~= r2);
}

/// No container of the tree wraps its children.
pub open spec fn nowrap_tree(t: Node) -> bool
    decreases t,
{
    crate::model::mode_of(t.contain) != (crate::model::Mode::Row { wrap: true })
        && crate::model::mode_of(t.contain) != (crate::model::Mode::Column { wrap: true })
        && (forall|i: int| 0 <= i < t.children.len()
            ==> nowrap_tree(#[trigger] t.children[i]))
}

proof fn lemma_statics_trans(a: Node, b: Node, c: Node)
    requires
        same_statics(a, b),
        same_statics(b, c),
    ensures
        same_statics(a, c),
    decreases a,
{
    assert forall|i: int| 0 <= i < a.children.len() implies same_statics(
        #[trigger] a.children[i], c.children[i]) by {
        lemma_statics_trans(a.children[i], b.children[i], c.children[i]);
    }
}

/// The statics relation only looks at flags, margins, sizes and shape,
/// so it carries over to any tree with the same ones.
proof fn lemma_nowrap_congr(u: Node, v: Node)
    requires
        same_statics(u, v),
    ensures
        nowrap_tree(u) == nowrap_tree(v),
    decreases u,
{
    if nowrap_tree(u) {
        assert forall|i: int| 0 <= i < v.children.len() implies nowrap_tree(
            #[trigger] v.children[i]) by {
            lemma_nowrap_congr(u.children[i], v.children[i]);
        }
        assert(nowrap_tree(v));
    }
    if nowrap_tree(v) {
        assert forall|i: int| 0 <= i < u.children.len() implies nowrap_tree(
            #[trigger] u.children[i]) by {
            lemma_nowrap_congr(u.children[i], v.children[i]);
        }
        assert(nowrap_tree(u));
    }
}

/// The size pass writes rectangles alone.
proof fn lemma_calc_statics(t: Node, a: int)
    ensures
        same_statics(crate::model::calc_size(t, a), t),
    decreases t,
{
    let r = crate::model::calc_size(t, a);
    assert forall|i: int| 0 <= i < r.children.len() implies same_statics(
        #[trigger] r.children[i], t.children[i]) by {
        lemma_calc_statics(t.children[i], a);
    }
}

pub open spec fn same_statics_seq(s1: Seq<Node>, s2: Seq<Node>) -> bool {
    s1.len() == s2.len() && (forall|i: int|
        0 <= i < s1.len() ==> same_statics(#[trigger] s1[i], s2[i]))
}

/// Placing a line writes rectangles alone.
proof fn lemma_place_statics(s: Seq<Node>, a: int, wrap: bool, maxx2: int, ds: Dist, em: int,
    x: int, idx: int, last: int)
    ensures
        same_statics_seq(place_line(s, a, wrap, maxx2, ds, em, x, idx, last), s),
    decreases last - idx,
{
    let r = place_line(s, a, wrap, maxx2, ds, em, x, idx, last);
    if !(idx < 0 || idx >= last || idx >= s.len()) {
        let c = s[idx];
        let x1 = x + qget(c.rect, a) * ds.d + em;
        let fill = align_of(c.behave, a) == Align::Fill;
        let xend = if fill {
            x1 + ds.filler
        } else if crate::model::pget(c.size, a) != 0 {
            x1 + qget(c.rect, a + 2) * ds.d
        } else {
            x1 + crate::model::max_i(0, qget(c.rect, a + 2) * ds.d + ds.eater)
        };
        let ix0 = tdiv(x1, ds.d);
        let ix1 = if wrap {
            tdiv(crate::model::min_i((maxx2 - qget(c.margins, a + 2)) * ds.d, xend), ds.d)
        } else {
            tdiv(xend, ds.d)
        };
        let c2 = Node {
            rect: crate::model::qset(crate::model::qset(c.rect, a, ix0), a + 2, ix1 - ix0),
            ..c
        };
        let s2 = s.update(idx, c2);
        lemma_place_statics(s2, a, wrap, maxx2, ds, ds.spacer,
            xend + qget(c.margins, a + 2) * ds.d, idx + 1, last);
        assert forall|i: int| 0 <= i < r.len() implies same_statics(#[trigger] r[i], s[i]) by {
            assert(same_statics(r[i], s2[i]));
            assert(same_statics(s2[i], s[i])) by {
                lemma_statics_refl(s[i]);
                lemma_statics_refl(c2);
            }
            lemma_statics_trans(r[i], s2[i], s[i]);
        }
    } else {
        assert forall|i: int| 0 <= i < r.len() implies same_statics(#[trigger] r[i], s[i]) by {
            lemma_statics_refl(s[i]);
        }
    }
}

proof fn lemma_statics_refl(t: Node)
    ensures
        same_statics(t, t),
    decreases t,
{
    assert forall|i: int| 0 <= i < t.children.len() implies same_statics(
        #[trigger] t.children[i], t.children[i]) by {
        lemma_statics_refl(t.children[i]);
    }
}

/// Without wrapping, the stacked distribution never records a break, so
/// it too writes rectangles alone.
proof fn lemma_stack_statics(s: Seq<Node>, a: int, ext: int, x0: int, contain: u8, start: int)
    ensures
        same_statics_seq(stack_lines(s, a, false, ext, x0, contain, start), s),
    decreases s.len() - start,
{
    let r = stack_lines(s, a, false, ext, x0, contain, start);
    if !(start < 0 || start >= s.len()) {
        lemma_scan_bounds(s, a, false, ext, start, 0, 0, 0, 0);
        let sc = scan_line(s, a, false, ext, start, 0, 0, 0, 0);
        let ds = line_dist(contain, false, s.len() as int, sc, ext);
        lemma_place_statics(s, a, false, x0 + ext, ds, ds.em0, x0 * ds.d, start, sc.last);
        lemma_place_line_len(s, a, false, x0 + ext, ds, ds.em0, x0 * ds.d, start, sc.last);
        let s2 = place_line(s, a, false, x0 + ext, ds, ds.em0, x0 * ds.d, start, sc.last);
        let next = if sc.last > start {
            sc.last
        } else {
            start + 1
        };
        lemma_stack_statics(s2, a, ext, x0, contain, next);
        assert forall|i: int| 0 <= i < r.len() implies same_statics(#[trigger] r[i], s[i]) by {
            lemma_statics_trans(r[i], s2[i], s[i]);
        }
    } else {
        assert forall|i: int| 0 <= i < r.len() implies same_statics(#[trigger] r[i], s[i]) by {
            lemma_statics_refl(s[i]);
        }
    }
}

/// In a tree with no wrapping container, the whole arrangement pass
/// writes rectangles alone.
proof fn lemma_arrange_statics(s: Node, p: Node, a: int)
    requires
        nowrap_tree(Node { children: s.children, ..p }),
    ensures
        same_statics(crate::model::arrange_from(s, p, a), Node { children: s.children, ..p }),
    decreases s,
{
    let t = Node { children: s.children, ..p };
    let h = crate::model::arrange_node(t, a);
    crate::model::lemma_arrange_node_len(t, a);
    assert(same_statics(h, t)) by {
        match crate::model::mode_of(t.contain) {
            crate::model::Mode::Column { wrap: true } => {
                assert(false);
            },
            crate::model::Mode::Row { wrap: true } => {
                assert(false);
            },
            crate::model::Mode::Row { wrap: false } => {
                if a == 0 {
                    lemma_stack_statics(t.children, 0, qget(t.rect, 2), qget(t.rect, 0),
                        t.contain, 0);
                } else {
                    assert forall|i: int| 0 <= i < h.children.len() implies same_statics(
                        #[trigger] h.children[i], t.children[i]) by {
                        lemma_statics_refl(t.children[i]);
                    }
                }
            },
            crate::model::Mode::Column { wrap: false } => {
                if a == 1 {
                    lemma_stack_statics(t.children, 1, qget(t.rect, 3), qget(t.rect, 1),
                        t.contain, 0);
                } else {
                    assert forall|i: int| 0 <= i < h.children.len() implies same_statics(
                        #[trigger] h.children[i], t.children[i]) by {
                        lemma_statics_refl(t.children[i]);
                    }
                }
            },
            crate::model::Mode::Overlay => {
                assert forall|i: int| 0 <= i < h.children.len() implies same_statics(
                    #[trigger] h.children[i], t.children[i]) by {
                    lemma_statics_refl(t.children[i]);
                }
            },
        }
    }
    let r = crate::model::arrange_from(s, p, a);
    assert forall|i: int| 0 <= i < r.children.len() implies same_statics(
        #[trigger] r.children[i], t.children[i]) by {
        let ci = Node { children: s.children[i].children, ..h.children[i] };
        assert(nowrap_tree(t.children[i]));
        assert(same_statics(h.children[i], t.children[i]));
        assert(ci.contain == t.children[i].contain);
        assert(ci.children == t.children[i].children);
        assert(same_statics(ci, t.children[i])) by {
            assert forall|j: int| 0 <= j < ci.children.len() implies same_statics(
                #[trigger] ci.children[j], t.children[i].children[j]) by {
                lemma_statics_refl(ci.children[j]);
            }
        }
        assert(nowrap_tree(ci)) by {
            lemma_nowrap_congr(ci, t.children[i]);
        }
        lemma_arrange_statics(s.children[i], h.children[i], a);
        assert(same_statics(r.children[i], ci));
        lemma_statics_trans(r.children[i], ci, t.children[i]);
    }
}

/// A run over a tree with no wrapping container records no break flag:
/// it changes the rectangles and nothing else.
pub proof fn lemma_nowrap_run_statics(t: Node)
    requires
        nowrap_tree(t),
    ensures
        same_statics(crate::model::run(t), t),
{
    let t1 = crate::model::calc_size(t, 0);
    lemma_calc_statics(t, 0);
    lemma_nowrap_congr(t1, t);
    assert(Node { children: t1.children, ..t1 } =~= t1);
    lemma_arrange_statics(t1, t1, 0);
    let t2 = crate::model::arrange_from(t1, t1, 0);
    lemma_statics_trans(t2, t1, t);
    let t3 = crate::model::calc_size(t2, 1);
    lemma_calc_statics(t2, 1);
    lemma_statics_trans(t3, t2, t);
    lemma_nowrap_congr(t3, t);
    assert(Node { children: t3.children, ..t3 } =~= t3);
    lemma_arrange_statics(t3, t3, 1);
    let t4 = crate::model::arrange_from(t3, t3, 1);
    lemma_statics_trans(t4, t3, t);
}

/// Idempotence for trees with no wrapping container, with no side
/// condition: the first run cannot record a break flag, so a second run
/// retraces it exactly.
pub proof fn lemma_run_idempotent_nowrap(t: Node)
    requires
        nowrap_tree(t),
    ensures
        crate::model::run(crate::model::run(t)) == crate::model::run(t),
{
    lemma_nowrap_run_statics(t);
    lemma_run_idempotent(t);
}

/// Idempotence: when a run records no new break flag (its output has the
/// same statics as its input), running again changes nothing.  A run
/// reads only the flags, margins, explicit sizes and shape of its input,
/// never its rectangles, so the second run retraces the first.
pub proof fn lemma_run_idempotent(t: Node)
    requires
        same_statics(crate::model::run(t), t),
    ensures
        crate::model::run(crate::model::run(t)) == crate::model::run(t),
{
    let u = crate::model::run(t);
    lemma_calc0_congr(u, t);
    let cu = crate::model::calc_size(u, 0);
    let ct = crate::model::calc_size(t, 0);
    lemma_arrange0_congr(cu, cu, ct, ct);
    let au = crate::model::arrange_from(cu, cu, 0);
    let at = crate::model::arrange_from(ct, ct, 0);
    lemma_calc1_congr(au, at);
    assert(crate::model::arrange(crate::model::calc_size(au, 1), 1) == crate::model::arrange(
        crate::model::calc_size(at, 1), 1));
}

} // verus!
