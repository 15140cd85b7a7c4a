//! Mathematical model of the layout engine.
//!
//! Every executable pass of the engine is specified against the spec
//! functions in this module.  The model works on [`Node`], a ghost tree
//! carrying the same flags, margins and explicit sizes as the executable
//! tree, with all geometry widened to `int` so that the model itself is
//! free of overflow.  Fractional space distribution is modelled exactly:
//! a line's running coordinate is kept as an integer numerator over the
//! line's single divisor, and every value written back to a rectangle is
//! truncated toward zero, mirroring the engine's fixed rounding policy.

use vstd::prelude::*;
use crate::item::{LAY_LAYOUT_FLAGS, LAY_JUSTIFY, LAY_START, LAY_END, LAY_LEFT, LAY_TOP,
    LAY_RIGHT, LAY_BOTTOM, LAY_BREAK, LAY_WRAP, LAY_ROW, LAY_COLUMN};

verus! {

/// Four geometry scalars, indexed 0..4: position on axis 0, position on
/// axis 1, extent on axis 0, extent on axis 1 (for rectangles), or the
/// four margins in the same order (leading 0, leading 1, trailing 0,
/// trailing 1).
#[verifier::ext_equal]
pub struct Quad {
    pub q0: int,
    pub q1: int,
    pub q2: int,
    pub q3: int,
}

/// Two per-axis scalars (an explicit size per axis).
#[verifier::ext_equal]
pub struct Pair {
    pub p0: int,
    pub p1: int,
}

/// The model tree: one node of the layout hierarchy.
#[verifier::ext_equal]
pub struct Node {
    /// Container flags: layout mode, wrapping, and the justify directive
    /// applied to this node's children.
    pub contain: u8,
    /// Behave flags: this node's own per-axis alignment and the line
    /// break bit.
    pub behave: u8,
    /// Margins around the node, `q0`/`q1` leading, `q2`/`q3` trailing.
    pub margins: Quad,
    /// Explicit extent per axis; zero means "derived".
    pub size: Pair,
    /// Computed output rectangle.
    pub rect: Quad,
    /// The node's children, in stacking order.
    pub children: Seq<Node>,
}

pub open spec fn qget(q: Quad, k: int) -> int {
    if k == 0 {
        q.q0
    } else if k == 1 {
        q.q1
    } else if k == 2 {
        q.q2
    } else {
        q.q3
    }
}

pub open spec fn qset(q: Quad, k: int, v: int) -> Quad {
    if k == 0 {
        Quad { q0: v, ..q }
    } else if k == 1 {
        Quad { q1: v, ..q }
    } else if k == 2 {
        Quad { q2: v, ..q }
    } else {
        Quad { q3: v, ..q }
    }
}

pub open spec fn pget(p: Pair, k: int) -> int {
    if k == 0 {
        p.p0
    } else {
        p.p1
    }
}

pub open spec fn max_i(a: int, b: int) -> int {
    if a >= b {
        a
    } else {
        b
    }
}

pub open spec fn min_i(a: int, b: int) -> int {
    if a <= b {
        a
    } else {
        b
    }
}

/// Division truncating toward zero, the engine's rounding policy when a
/// coordinate numerator is written back as an integer coordinate.
pub open spec fn tdiv(a: int, b: int) -> int {
    if a >= 0 {
        a / b
    } else {
        -((-a) / b)
    }
}

/// This node's own alignment directive on axis `a`, as its parent reads it.
#[derive(PartialEq, Eq, Structural)]
pub enum Align {
    /// Centered in the available space (the flag default).
    Center,
    /// Packed toward the leading edge.
    Start,
    /// Packed toward the trailing edge.
    End,
    /// Stretched to consume the available space.
    Fill,
}

/// Decodes the two alignment bits of axis `a` from the behave flags.
pub open spec fn align_of(b: u8, a: int) -> Align {
    let lead = if a == 0 {
        b & LAY_LEFT != 0
    } else {
        b & LAY_TOP != 0
    };
    let trail = if a == 0 {
        b & LAY_RIGHT != 0
    } else {
        b & LAY_BOTTOM != 0
    };
    if lead && trail {
        Align::Fill
    } else if lead {
        Align::Start
    } else if trail {
        Align::End
    } else {
        Align::Center
    }
}

pub open spec fn has_break(b: u8) -> bool {
    b & LAY_BREAK != 0
}

pub open spec fn set_break(b: u8) -> u8 {
    b | LAY_BREAK
}

/// Marks a break on a node, the side effect of an automatic line wrap.
pub open spec fn break_node(t: Node) -> Node {
    Node { behave: set_break(t.behave), ..t }
}

/// The layout mode of a container, decoded from the contain flags.
#[derive(PartialEq, Eq, Structural)]
pub enum Mode {
    /// Children overlap freely; each is placed by its own alignment.
    Overlay,
    /// Children stack along an axis; `wrap` allows multiple lines.
    Row { wrap: bool },
    /// As `Row`, stacked along axis 1.
    Column { wrap: bool },
}

pub open spec fn mode_of(c: u8) -> Mode {
    let m = c & LAY_LAYOUT_FLAGS;
    if m == (LAY_COLUMN | LAY_WRAP) {
        Mode::Column { wrap: true }
    } else if m == (LAY_ROW | LAY_WRAP) {
        Mode::Row { wrap: true }
    } else if m == LAY_ROW {
        Mode::Row { wrap: false }
    } else if m == LAY_COLUMN {
        Mode::Column { wrap: false }
    } else {
        Mode::Overlay
    }
}

/// The justify directive a stack container applies to a line with slack.
#[derive(PartialEq, Eq, Structural)]
pub enum Justify {
    /// Split the slack evenly before and after the line.
    Middle,
    /// Leave the slack after the line.
    Start,
    /// Shove the whole slack before the line.
    End,
    /// Spread the slack between the children of the line.
    SpaceBetween,
}

pub open spec fn justify_of(c: u8) -> Justify {
    let j = c & LAY_JUSTIFY;
    if j == LAY_JUSTIFY {
        Justify::SpaceBetween
    } else if j == LAY_START {
        Justify::Start
    } else if j == LAY_END {
        Justify::End
    } else {
        Justify::Middle
    }
}

/// The footprint of a child along axis `a`: its position placeholder plus
/// its extent plus its trailing margin.
pub open spec fn child_fp(c: Node, a: int) -> int {
    qget(c.rect, a) + qget(c.rect, a + 2) + qget(c.margins, a + 2)
}

/// Number of nodes of the tree; the recursion measure for the passes.
pub open spec fn size_of(t: Node) -> nat
    decreases t,
{
    1 + size_seq(t.children)
}

pub open spec fn size_seq(s: Seq<Node>) -> nat
    decreases s,
{
    if s.len() == 0 {
        0
    } else {
        size_of(s[0]) + size_seq(s.subrange(1, s.len() as int))
    }
}

/// Structural bound required by the engine: no node has 2^16 or more
/// children, so that all intermediate sums fit the machine arithmetic.
pub open spec fn bounded(t: Node) -> bool
    decreases t,
{
    t.children.len() < 65536 && (forall|i: int|
        0 <= i < t.children.len() ==> bounded(#[trigger] t.children[i]))
}

// ---------------------------------------------------------------------
// Size pass
// ---------------------------------------------------------------------

/// Extent needed to stack the children along axis `a`: the sum of their
/// footprints.
pub open spec fn stacked_size(s: Seq<Node>, a: int) -> int
    decreases s,
{
    if s.len() == 0 {
        0
    } else {
        stacked_size(s.drop_last(), a) + child_fp(s.last(), a)
    }
}

/// Extent needed to overlay the children along axis `a`: the largest
/// footprint, at least zero.
pub open spec fn overlayed_size(s: Seq<Node>, a: int) -> int
    decreases s,
{
    if s.len() == 0 {
        0
    } else {
        max_i(overlayed_size(s.drop_last(), a), child_fp(s.last(), a))
    }
}

/// Cross-axis extent of a wrapped row: children are grouped into lines at
/// each break flag, each line needs the largest footprint within it, and
/// the lines stack, so the per-line maxima are summed.
pub open spec fn wrapped_overlayed_size(s: Seq<Node>, i: int, need: int, acc: int) -> int
    decreases s.len() - i,
{
    if i < 0 || i >= s.len() {
        acc + need
    } else {
        let c = s[i];
        let acc2 = if has_break(c.behave) {
            acc + need
        } else {
            acc
        };
        let need2 = if has_break(c.behave) {
            0
        } else {
            need
        };
        wrapped_overlayed_size(s, i + 1, max_i(need2, child_fp(c, 1)), acc2)
    }
}

/// Main-axis extent of a wrapped row: each line needs the sum of its
/// children's footprints, and the lines overlay, so the largest per-line
/// sum is taken.
pub open spec fn wrapped_stacked_size(s: Seq<Node>, i: int, need: int, acc: int) -> int
    decreases s.len() - i,
{
    if i < 0 || i >= s.len() {
        max_i(acc, need)
    } else {
        let c = s[i];
        let acc2 = if has_break(c.behave) {
            max_i(acc, need)
        } else {
            acc
        };
        let need2 = if has_break(c.behave) {
            0
        } else {
            need
        };
        wrapped_stacked_size(s, i + 1, need2 + child_fp(c, 0), acc2)
    }
}

/// The size pass along axis `a`: children first, then this node's own
/// position placeholder (its leading margin) and extent (explicit, or
/// derived from the children according to the layout mode).
pub open spec fn calc_size(t: Node, a: int) -> Node
    decreases t,
{
    let ch = Seq::new(t.children.len(), |i: int|
        if 0 <= i < t.children.len() {
            calc_size(t.children[i], a)
        } else {
            t.children[i]
        });
    let r1 = qset(t.rect, a, qget(t.margins, a));
    let ext = if pget(t.size, a) != 0 {
        pget(t.size, a)
    } else {
        derived_size(mode_of(t.contain), ch, a)
    };
    Node { rect: qset(r1, a + 2, ext), children: ch, ..t }
}

/// The derived extent of a container whose size on the axis is not
/// explicit.
pub open spec fn derived_size(m: Mode, ch: Seq<Node>, a: int) -> int {
    match m {
        Mode::Column { wrap: true } => if a == 1 {
            stacked_size(ch, 1)
        } else {
            overlayed_size(ch, 0)
        },
        Mode::Row { wrap: true } => if a == 0 {
            wrapped_stacked_size(ch, 0, 0, 0)
        } else {
            wrapped_overlayed_size(ch, 0, 0, 0)
        },
        Mode::Row { wrap: false } => if a == 0 {
            stacked_size(ch, 0)
        } else {
            overlayed_size(ch, a)
        },
        Mode::Column { wrap: false } => if a == 1 {
            stacked_size(ch, 1)
        } else {
            overlayed_size(ch, a)
        },
        Mode::Overlay => overlayed_size(ch, a),
    }
}

/// Every extent the size pass stores fits a 16-bit signed integer; the
/// engine's documented precondition on well-formed trees.
pub open spec fn in16(v: int) -> bool {
    -32768 <= v <= 32767
}

pub open spec fn calc_fits(t: Node, a: int) -> bool
    decreases t,
{
    in16(qget(calc_size(t, a).rect, a + 2)) && (forall|i: int|
        0 <= i < t.children.len() ==> calc_fits(#[trigger] t.children[i], a))
}

// ---------------------------------------------------------------------
// Arrangement pass: stacked distribution
// ---------------------------------------------------------------------

/// What the first pass over a line finds: where the line ends, whether it
/// ends in a break (and an explicitly requested one), the space already
/// used, and the counts of stretchable, shrinkable and total children.
pub struct Scan {
    /// Index one past the line's final child.
    pub last: int,
    /// The line ends because a child broke out of it.
    pub broke: bool,
    /// The break was requested by the child's own flag.
    pub hard: bool,
    /// Space taken by the line's children, stretchable ones counted
    /// without their extent.
    pub used: int,
    /// Children aligned `Fill` on the axis.
    pub count: int,
    /// Children with no explicit size and no `Fill`, eligible to shrink.
    pub squeezed: int,
    /// Children in the line.
    pub total: int,
}

/// First pass over a line starting at `idx`: walks forward until the
/// children run out, or (when wrapping) until a child carries a break
/// flag or would extend the line beyond `ext`.
pub open spec fn scan_line(s: Seq<Node>, a: int, wrap: bool, ext: int, idx: int, used: int,
    count: int, squeezed: int, total: int) -> Scan
    decreases s.len() - idx,
{
    if idx < 0 || idx >= s.len() {
        Scan { last: s.len() as int, broke: false, hard: false, used, count, squeezed, total }
    } else {
        let c = s[idx];
        let fill = align_of(c.behave, a) == Align::Fill;
        let extend = if fill {
            used + qget(c.rect, a) + qget(c.margins, a + 2)
        } else {
            used + child_fp(c, a)
        };
        if wrap && total > 0 && (extend > ext || has_break(c.behave)) {
            Scan { last: idx, broke: true, hard: has_break(c.behave), used, count, squeezed, total }
        } else {
            scan_line(s, a, wrap, ext, idx + 1, extend,
                if fill {
                    count + 1
                } else {
                    count
                },
                if !fill && pget(c.size, a) == 0 {
                    squeezed + 1
                } else {
                    squeezed
                }, total + 1)
        }
    }
}

/// How a line's slack is distributed.  All fractional quantities are
/// exact rationals over the single divisor `d`: `filler`, `spacer` and
/// `eater` are numerators of value `extra / d`, and `em0` is the
/// numerator of the space inserted before the line's first child.
pub struct Dist {
    pub d: int,
    pub filler: int,
    pub spacer: int,
    pub em0: int,
    pub eater: int,
}

pub open spec fn dist_none() -> Dist {
    Dist { d: 1, filler: 0, spacer: 0, em0: 0, eater: 0 }
}

/// Slack distribution for one line: positive slack feeds `Fill` children
/// when there are any, else the container's justify directive; negative
/// slack shrinks the shrinkable children, only when not wrapping, and
/// only when there is a shrinkable child.
pub open spec fn line_dist(contain: u8, wrap: bool, nb: int, sc: Scan, ext: int) -> Dist {
    let extra = ext - sc.used;
    if extra > 0 {
        if sc.count > 0 {
            Dist { d: sc.count, filler: extra, spacer: 0, em0: 0, eater: 0 }
        } else if sc.total > 0 {
            match justify_of(contain) {
                Justify::SpaceBetween => if (!wrap || (sc.last != nb && !sc.hard)) && sc.total > 1 {
                    Dist { d: sc.total - 1, filler: 0, spacer: extra, em0: 0, eater: 0 }
                } else {
                    dist_none()
                },
                Justify::Start => dist_none(),
                Justify::End => Dist { d: 1, filler: 0, spacer: 0, em0: extra, eater: 0 },
                Justify::Middle => Dist { d: 2, filler: 0, spacer: 0, em0: extra, eater: 0 },
            }
        } else {
            dist_none()
        }
    } else if !wrap && extra < 0 && sc.squeezed > 0 {
        Dist { d: sc.squeezed, filler: 0, spacer: 0, em0: 0, eater: extra }
    } else {
        dist_none()
    }
}

/// Second pass over a line: places children `idx..last` left to right.
/// `x` is the running coordinate and `em` the space inserted before the
/// next child, both as numerators over `ds.d`; `maxx2` is the parent's
/// far edge, which clamps every child when wrapping.
pub open spec fn place_line(s: Seq<Node>, a: int, wrap: bool, maxx2: int, ds: Dist, em: int,
    x: int, idx: int, last: int) -> Seq<Node>
    decreases last - idx,
{
    if idx < 0 || idx >= last || idx >= s.len() {
        s
    } else {
        let c = s[idx];
        let x1 = x + qget(c.rect, a) * ds.d + em;
        let fill = align_of(c.behave, a) == Align::Fill;
        let xend = if fill {
            x1 + ds.filler
        } else if pget(c.size, a) != 0 {
            x1 + qget(c.rect, a + 2) * ds.d
        } else {
            x1 + max_i(0, qget(c.rect, a + 2) * ds.d + ds.eater)
        };
        let ix0 = tdiv(x1, ds.d);
        let ix1 = if wrap {
            tdiv(min_i((maxx2 - qget(c.margins, a + 2)) * ds.d, xend), ds.d)
        } else {
            tdiv(xend, ds.d)
        };
        let c2 = Node { rect: qset(qset(c.rect, a, ix0), a + 2, ix1 - ix0), ..c };
        place_line(s.update(idx, c2), a, wrap, maxx2, ds, ds.spacer,
            xend + qget(c.margins, a + 2) * ds.d, idx + 1, last)
    }
}

/// A scan that starts inside the children never reports a line end
/// outside them.
pub proof fn lemma_scan_bounds(s: Seq<Node>, a: int, wrap: bool, ext: int, idx: int, used: int,
    count: int, squeezed: int, total: int)
    requires
        0 <= idx <= s.len(),
    ensures
        idx <= scan_line(s, a, wrap, ext, idx, used, count, squeezed, total).last <= s.len(),
        scan_line(s, a, wrap, ext, idx, used, count, squeezed, total).broke
            ==> scan_line(s, a, wrap, ext, idx, used, count, squeezed, total).last < s.len(),
        !scan_line(s, a, wrap, ext, idx, used, count, squeezed, total).broke
            ==> scan_line(s, a, wrap, ext, idx, used, count, squeezed, total).last == s.len(),
        scan_line(s, a, wrap, ext, idx, used, count, squeezed, total).broke && total <= 0
            ==> scan_line(s, a, wrap, ext, idx, used, count, squeezed, total).last > idx,
        !wrap ==> !scan_line(s, a, wrap, ext, idx, used, count, squeezed, total).broke,
    decreases s.len() - idx,
{
    if idx < s.len() {
        let c = s[idx];
        let fill = align_of(c.behave, a) == Align::Fill;
        let extend = if fill {
            used + qget(c.rect, a) + qget(c.margins, a + 2)
        } else {
            used + child_fp(c, a)
        };
        if !(wrap && total > 0 && (extend > ext || has_break(c.behave))) {
            lemma_scan_bounds(s, a, wrap, ext, idx + 1, extend,
                if fill {
                    count + 1
                } else {
                    count
                },
                if !fill && pget(c.size, a) == 0 {
                    squeezed + 1
                } else {
                    squeezed
                }, total + 1);
        }
    }
}

/// Placing a line leaves the number of children unchanged.
pub proof fn lemma_place_line_len(s: Seq<Node>, a: int, wrap: bool, maxx2: int, ds: Dist,
    em: int, x: int, idx: int, last: int)
    ensures
        place_line(s, a, wrap, maxx2, ds, em, x, idx, last).len() == s.len(),
    decreases last - idx,
{
    if !(idx < 0 || idx >= last || idx >= s.len()) {
        let c = s[idx];
        let x1 = x + qget(c.rect, a) * ds.d + em;
        let fill = align_of(c.behave, a) == Align::Fill;
        let xend = if fill {
            x1 + ds.filler
        } else if pget(c.size, a) != 0 {
            x1 + qget(c.rect, a + 2) * ds.d
        } else {
            x1 + max_i(0, qget(c.rect, a + 2) * ds.d + ds.eater)
        };
        let ix0 = tdiv(x1, ds.d);
        let ix1 = if wrap {
            tdiv(min_i((maxx2 - qget(c.margins, a + 2)) * ds.d, xend), ds.d)
        } else {
            tdiv(xend, ds.d)
        };
        let c2 = Node { rect: qset(qset(c.rect, a, ix0), a + 2, ix1 - ix0), ..c };
        lemma_place_line_len(s.update(idx, c2), a, wrap, maxx2, ds, ds.spacer,
            xend + qget(c.margins, a + 2) * ds.d, idx + 1, last);
    }
}

/// Stacked distribution over all lines from `start` on: scan a line,
/// mark the breaking child when the line ends in an automatic wrap,
/// distribute the line's slack, place the line, and continue behind it.
pub open spec fn stack_lines(s: Seq<Node>, a: int, wrap: bool, ext: int, x0: int, contain: u8,
    start: int) -> Seq<Node>
    decreases s.len() - start
    via stack_lines_decreases
{
    if start < 0 || start >= s.len() {
        s
    } else {
        let sc = scan_line(s, a, wrap, ext, start, 0, 0, 0, 0);
        let s1 = if sc.broke {
            s.update(sc.last, break_node(s[sc.last]))
        } else {
            s
        };
        let ds = line_dist(contain, wrap, s.len() as int, sc, ext);
        let s2 = place_line(s1, a, wrap, x0 + ext, ds, ds.em0, x0 * ds.d, start, sc.last);
        let next = if sc.last > start {
            sc.last
        } else {
            start + 1
        };
        stack_lines(s2, a, wrap, ext, x0, contain, next)
    }
}

#[via_fn]
proof fn stack_lines_decreases(s: Seq<Node>, a: int, wrap: bool, ext: int, x0: int, contain: u8,
    start: int) {
    if 0 <= start < s.len() {
        let sc = scan_line(s, a, wrap, ext, start, 0, 0, 0, 0);
        lemma_scan_bounds(s, a, wrap, ext, start, 0, 0, 0, 0);
        let s1 = if sc.broke {
            s.update(sc.last, break_node(s[sc.last]))
        } else {
            s
        };
        let ds = line_dist(contain, wrap, s.len() as int, sc, ext);
        lemma_place_line_len(s1, a, wrap, x0 + ext, ds, ds.em0, x0 * ds.d, start, sc.last);
        let s2 = place_line(s1, a, wrap, x0 + ext, ds, ds.em0, x0 * ds.d, start, sc.last);
        let next = if sc.last > start {
            sc.last
        } else {
            start + 1
        };
        assert(s2.len() == s.len());
        assert(start < next <= s.len());
    }
}

/// Stacked arrangement of a node's children along axis `a`.
pub open spec fn arrange_stacked(t: Node, a: int, wrap: bool) -> Node {
    Node {
        children: stack_lines(t.children, a, wrap, qget(t.rect, a + 2), qget(t.rect, a),
            t.contain, 0),
        ..t
    }
}

// ---------------------------------------------------------------------
// Arrangement pass: overlay placement and squeezing
// ---------------------------------------------------------------------

/// Places one child against the band `[offset, offset + space)` of its
/// parent on axis `a`, clamping its extent to the band according to its
/// own alignment.
pub open spec fn squeeze(c: Node, a: int, offset: int, space: int) -> Node {
    let min_size = max_i(0, space - qget(c.rect, a) - qget(c.margins, a + 2));
    let r = match align_of(c.behave, a) {
        Align::Center => {
            let e = min_i(qget(c.rect, a + 2), min_size);
            let p = qget(c.rect, a) + tdiv(space - e, 2) - qget(c.margins, a + 2);
            qset(qset(c.rect, a + 2, e), a, p)
        },
        Align::End => {
            let e = min_i(qget(c.rect, a + 2), min_size);
            let p = space - e - qget(c.margins, a + 2);
            qset(qset(c.rect, a + 2, e), a, p)
        },
        Align::Fill => qset(c.rect, a + 2, min_size),
        Align::Start => qset(c.rect, a + 2, min_i(qget(c.rect, a + 2), min_size)),
    };
    Node { rect: qset(r, a, qget(r, a) + offset), ..c }
}

/// Squeezes the children `lo..hi` against one band.
pub open spec fn squeeze_range(s: Seq<Node>, a: int, lo: int, hi: int, offset: int,
    space: int) -> Seq<Node> {
    Seq::new(s.len(), |i: int|
        if lo <= i < hi {
            squeeze(s[i], a, offset, space)
        } else {
            s[i]
        })
}

/// Wrapped overlay squeeze from child `idx` on: children are banded at
/// each break flag, every band is as thick as its largest footprint, each
/// band's children are squeezed against it, and the running offset
/// advances past it.  Returns the children and the final offset.
pub open spec fn wrapped_squeeze(s: Seq<Node>, a: int, idx: int, start: int, offset: int,
    need: int) -> (Seq<Node>, int)
    decreases s.len() - idx,
{
    if idx < 0 || idx >= s.len() {
        (squeeze_range(s, a, start, s.len() as int, offset, need), offset + need)
    } else {
        let c = s[idx];
        let fp = child_fp(c, a);
        if has_break(c.behave) {
            let s2 = squeeze_range(s, a, start, idx, offset, need);
            wrapped_squeeze(s2, a, idx + 1, idx, offset + need, max_i(0, fp))
        } else {
            wrapped_squeeze(s, a, idx + 1, start, offset, max_i(need, fp))
        }
    }
}

/// Free overlay placement of every child against the parent's own
/// extent, without squeezing.
pub open spec fn overlay_child(c: Node, a: int, x0: int, space: int) -> Node {
    let r = match align_of(c.behave, a) {
        Align::Center => qset(c.rect, a, qget(c.rect, a) + tdiv(space - qget(c.rect, a + 2), 2)
            - qget(c.margins, a + 2)),
        Align::End => qset(c.rect, a, qget(c.rect, a) + space - qget(c.rect, a + 2)
            - qget(c.margins, a) - qget(c.margins, a + 2)),
        Align::Fill => qset(c.rect, a + 2, max_i(0, space - qget(c.rect, a)
            - qget(c.margins, a + 2))),
        Align::Start => c.rect,
    };
    Node { rect: qset(r, a, qget(r, a) + x0), ..c }
}

pub open spec fn arrange_overlay(t: Node, a: int) -> Node {
    Node {
        children: Seq::new(t.children.len(), |i: int|
            if 0 <= i < t.children.len() {
                overlay_child(t.children[i], a, qget(t.rect, a), qget(t.rect, a + 2))
            } else {
                t.children[i]
            }),
        ..t
    }
}

// ---------------------------------------------------------------------
// Arrangement pass: dispatch and recursion
// ---------------------------------------------------------------------

/// What the arrangement pass does at one node, before recursing: the
/// node's children get their position and extent on axis `a`, and a
/// wrapped column additionally learns its own cross extent from the
/// bands it produced.
pub open spec fn arrange_node(t: Node, a: int) -> Node {
    match mode_of(t.contain) {
        Mode::Column { wrap: true } => if a == 1 {
            let t1 = arrange_stacked(t, 1, true);
            let w = wrapped_squeeze(t1.children, 0, 0, 0, qget(t1.rect, 0), 0);
            Node { children: w.0, rect: qset(t1.rect, 2, w.1 - qget(t1.rect, 0)), ..t1 }
        } else {
            t
        },
        Mode::Row { wrap: true } => if a == 0 {
            arrange_stacked(t, 0, true)
        } else {
            Node { children: wrapped_squeeze(t.children, 1, 0, 0, qget(t.rect, 1), 0).0, ..t }
        },
        Mode::Row { wrap: false } => if a == 0 {
            arrange_stacked(t, 0, false)
        } else {
            Node { children: squeeze_range(t.children, a, 0, t.children.len() as int,
                qget(t.rect, a), qget(t.rect, a + 2)), ..t }
        },
        Mode::Column { wrap: false } => if a == 1 {
            arrange_stacked(t, 1, false)
        } else {
            Node { children: squeeze_range(t.children, a, 0, t.children.len() as int,
                qget(t.rect, a), qget(t.rect, a + 2)), ..t }
        },
        Mode::Overlay => arrange_overlay(t, a),
    }
}

/// The arrangement pass: handle this node, then recurse into each child.
/// The recursion is driven by the untouched `shape` tree so that it is
/// structural; `arrange_node` only rewrites scalars, so each handled
/// child still has the `shape` child's children.
pub open spec fn arrange_from(shape: Node, t: Node, a: int) -> Node
    decreases shape,
{
    let h = arrange_node(Node { children: shape.children, ..t }, a);
    Node {
        children: Seq::new(h.children.len(), |i: int|
            if 0 <= i < shape.children.len() {
                arrange_from(shape.children[i], h.children[i], a)
            } else {
                h.children[i]
            }),
        ..h
    }
}

pub open spec fn arrange(t: Node, a: int) -> Node {
    arrange_from(t, t, a)
}

/// One full engine run: size then arrangement on axis 0, then size and
/// arrangement on axis 1.  Wrapping decisions taken while arranging one
/// axis set break flags that the following size pass reads.
pub open spec fn run(t: Node) -> Node {
    arrange(calc_size(arrange(calc_size(t, 0), 0), 1), 1)
}

// ---------------------------------------------------------------------
// Structure preservation
// ---------------------------------------------------------------------

/// The stacked distribution keeps the number of children.
pub proof fn lemma_stack_lines_len(s: Seq<Node>, a: int, wrap: bool, ext: int, x0: int,
    contain: u8, start: int)
    ensures
        stack_lines(s, a, wrap, ext, x0, contain, start).len() == s.len(),
    decreases s.len() - start,
{
    if !(start < 0 || start >= s.len()) {
        let sc = scan_line(s, a, wrap, ext, start, 0, 0, 0, 0);
        lemma_scan_bounds(s, a, wrap, ext, start, 0, 0, 0, 0);
        let s1 = if sc.broke {
            s.update(sc.last, break_node(s[sc.last]))
        } else {
            s
        };
        let ds = line_dist(contain, wrap, s.len() as int, sc, ext);
        lemma_place_line_len(s1, a, wrap, x0 + ext, ds, ds.em0, x0 * ds.d, start, sc.last);
        let s2 = place_line(s1, a, wrap, x0 + ext, ds, ds.em0, x0 * ds.d, start, sc.last);
        let next = if sc.last > start {
            sc.last
        } else {
            start + 1
        };
        lemma_stack_lines_len(s2, a, wrap, ext, x0, contain, next);
    }
}

/// The wrapped overlay squeeze keeps the number of children.
pub proof fn lemma_wsq_len(s: Seq<Node>, a: int, idx: int, start: int, offset: int, need: int)
    ensures
        wrapped_squeeze(s, a, idx, start, offset, need).0.len() == s.len(),
    decreases s.len() - idx,
{
    if !(idx < 0 || idx >= s.len()) {
        let c = s[idx];
        let fp = child_fp(c, a);
        if has_break(c.behave) {
            let s2 = squeeze_range(s, a, start, idx, offset, need);
            lemma_wsq_len(s2, a, idx + 1, idx, offset + need, max_i(0, fp));
        } else {
            lemma_wsq_len(s, a, idx + 1, start, offset, max_i(need, fp));
        }
    }
}

/// Handling one node keeps the number of children.
pub proof fn lemma_arrange_node_len(t: Node, a: int)
    ensures
        arrange_node(t, a).children.len() == t.children.len(),
{
    match mode_of(t.contain) {
        Mode::Column { wrap: true } => {
            if a == 1 {
                lemma_stack_lines_len(t.children, 1, true, qget(t.rect, 3), qget(t.rect, 1),
                    t.contain, 0);
                let t1 = arrange_stacked(t, 1, true);
                lemma_wsq_len(t1.children, 0, 0, 0, qget(t1.rect, 0), 0);
            }
        },
        Mode::Row { wrap: true } => {
            if a == 0 {
                lemma_stack_lines_len(t.children, 0, true, qget(t.rect, 2), qget(t.rect, 0),
                    t.contain, 0);
            } else {
                lemma_wsq_len(t.children, 1, 0, 0, qget(t.rect, 1), 0);
            }
        },
        Mode::Row { wrap: false } => {
            if a == 0 {
                lemma_stack_lines_len(t.children, 0, false, qget(t.rect, 2), qget(t.rect, 0),
                    t.contain, 0);
            }
        },
        Mode::Column { wrap: false } => {
            if a == 1 {
                lemma_stack_lines_len(t.children, 1, false, qget(t.rect, 3), qget(t.rect, 1),
                    t.contain, 0);
            }
        },
        Mode::Overlay => {},
    }
}

/// `bounded` looks at the children alone.
pub proof fn lemma_bounded_same(s1: Node, s2: Node)
    requires
        s1.children == s2.children,
        bounded(s1),
    ensures
        bounded(s2),
{
}

/// The size pass keeps the tree's structure, so it keeps `bounded`.
pub proof fn lemma_calc_bounded(t: Node, a: int)
    requires
        bounded(t),
    ensures
        bounded(calc_size(t, a)),
    decreases t,
{
    let r = calc_size(t, a);
    assert forall|i: int| 0 <= i < r.children.len() implies bounded(#[trigger] r.children[i]) by {
        lemma_calc_bounded(t.children[i], a);
    }
}

/// `arrange_fits` reads the shape argument through its children alone.
pub proof fn lemma_arrange_fits_same(s1: Node, s2: Node, p: Node, a: int)
    requires
        s1.children == s2.children,
    ensures
        arrange_fits(s1, p, a) == arrange_fits(s2, p, a),
{
    assert(Node { children: s1.children, ..p } == (Node { children: s2.children, ..p }));
}

/// `arrange_from` reads the shape argument through its children alone.
pub proof fn lemma_arrange_from_same(s1: Node, s2: Node, p: Node, a: int)
    requires
        s1.children == s2.children,
    ensures
        arrange_from(s1, p, a) == arrange_from(s2, p, a),
{
    assert(Node { children: s1.children, ..p } == (Node { children: s2.children, ..p }));
    let h = arrange_node(Node { children: s1.children, ..p }, a);
    assert(arrange_from(s1, p, a).children =~= arrange_from(s2, p, a).children);
    assert(arrange_from(s1, p, a) =~= arrange_from(s2, p, a));
}

/// The arrangement pass keeps the tree's structure, so it keeps
/// `bounded`.
pub proof fn lemma_arrange_bounded(s: Node, p: Node, a: int)
    requires
        bounded(s),
    ensures
        bounded(arrange_from(s, p, a)),
    decreases s,
{
    let t = Node { children: s.children, ..p };
    let h = arrange_node(t, a);
    lemma_arrange_node_len(t, a);
    let r = arrange_from(s, p, a);
    assert forall|i: int| 0 <= i < r.children.len() implies bounded(#[trigger] r.children[i]) by {
        lemma_arrange_bounded(s.children[i], h.children[i], a);
    }
}

// ---------------------------------------------------------------------
// Range preconditions
// ---------------------------------------------------------------------

/// Every coordinate the second pass of a line stores fits 16 bits.
pub open spec fn place_fits(s: Seq<Node>, a: int, wrap: bool, maxx2: int, ds: Dist, em: int,
    x: int, idx: int, last: int) -> bool
    decreases last - idx,
{
    if idx < 0 || idx >= last || idx >= s.len() {
        true
    } else {
        let c = s[idx];
        let x1 = x + qget(c.rect, a) * ds.d + em;
        let fill = align_of(c.behave, a) == Align::Fill;
        let xend = if fill {
            x1 + ds.filler
        } else if pget(c.size, a) != 0 {
            x1 + qget(c.rect, a + 2) * ds.d
        } else {
            x1 + max_i(0, qget(c.rect, a + 2) * ds.d + ds.eater)
        };
        let ix0 = tdiv(x1, ds.d);
        let ix1 = if wrap {
            tdiv(min_i((maxx2 - qget(c.margins, a + 2)) * ds.d, xend), ds.d)
        } else {
            tdiv(xend, ds.d)
        };
        let c2 = Node { rect: qset(qset(c.rect, a, ix0), a + 2, ix1 - ix0), ..c };
        in16(ix0) && in16(ix1 - ix0) && place_fits(s.update(idx, c2), a, wrap, maxx2, ds,
            ds.spacer, xend + qget(c.margins, a + 2) * ds.d, idx + 1, last)
    }
}

/// Every coordinate the stacked distribution stores fits 16 bits.
pub open spec fn stack_fits(s: Seq<Node>, a: int, wrap: bool, ext: int, x0: int, contain: u8,
    start: int) -> bool
    decreases s.len() - start
    via stack_fits_decreases
{
    if start < 0 || start >= s.len() {
        true
    } else {
        let sc = scan_line(s, a, wrap, ext, start, 0, 0, 0, 0);
        let s1 = if sc.broke {
            s.update(sc.last, break_node(s[sc.last]))
        } else {
            s
        };
        let ds = line_dist(contain, wrap, s.len() as int, sc, ext);
        let s2 = place_line(s1, a, wrap, x0 + ext, ds, ds.em0, x0 * ds.d, start, sc.last);
        let next = if sc.last > start {
            sc.last
        } else {
            start + 1
        };
        place_fits(s1, a, wrap, x0 + ext, ds, ds.em0, x0 * ds.d, start, sc.last)
            && stack_fits(s2, a, wrap, ext, x0, contain, next)
    }
}

#[via_fn]
proof fn stack_fits_decreases(s: Seq<Node>, a: int, wrap: bool, ext: int, x0: int, contain: u8,
    start: int) {
    if 0 <= start < s.len() {
        let sc = scan_line(s, a, wrap, ext, start, 0, 0, 0, 0);
        lemma_scan_bounds(s, a, wrap, ext, start, 0, 0, 0, 0);
        let s1 = if sc.broke {
            s.update(sc.last, break_node(s[sc.last]))
        } else {
            s
        };
        let ds = line_dist(contain, wrap, s.len() as int, sc, ext);
        lemma_place_line_len(s1, a, wrap, x0 + ext, ds, ds.em0, x0 * ds.d, start, sc.last);
    }
}

/// Both fields a squeeze stores fit 16 bits.
pub open spec fn squeeze_fits(c: Node, a: int, offset: int, space: int) -> bool {
    in16(qget(squeeze(c, a, offset, space).rect, a))
        && in16(qget(squeeze(c, a, offset, space).rect, a + 2))
}

pub open spec fn range_fits(s: Seq<Node>, a: int, lo: int, hi: int, offset: int,
    space: int) -> bool {
    forall|i: int| lo <= i < hi && 0 <= i < s.len()
        ==> squeeze_fits(#[trigger] s[i], a, offset, space)
}

/// Every coordinate the wrapped overlay squeeze stores fits 16 bits.
pub open spec fn wsq_fits(s: Seq<Node>, a: int, idx: int, start: int, offset: int,
    need: int) -> bool
    decreases s.len() - idx,
{
    if idx < 0 || idx >= s.len() {
        range_fits(s, a, start, s.len() as int, offset, need)
    } else {
        let c = s[idx];
        let fp = child_fp(c, a);
        if has_break(c.behave) {
            let s2 = squeeze_range(s, a, start, idx, offset, need);
            range_fits(s, a, start, idx, offset, need)
                && wsq_fits(s2, a, idx + 1, idx, offset + need, max_i(0, fp))
        } else {
            wsq_fits(s, a, idx + 1, start, offset, max_i(need, fp))
        }
    }
}

/// Both fields an overlay placement stores fit 16 bits.
pub open spec fn overlay_fits(t: Node, a: int) -> bool {
    forall|i: int| 0 <= i < t.children.len() ==> ({
        let c2 = overlay_child(#[trigger] t.children[i], a, qget(t.rect, a), qget(t.rect, a + 2));
        in16(qget(c2.rect, a)) && in16(qget(c2.rect, a + 2))
    })
}

/// Every coordinate `arrange_node` stores at `t` fits 16 bits.
pub open spec fn node_fits(t: Node, a: int) -> bool {
    match mode_of(t.contain) {
        Mode::Column { wrap: true } => if a == 1 {
            let t1 = arrange_stacked(t, 1, true);
            let w = wrapped_squeeze(t1.children, 0, 0, 0, qget(t1.rect, 0), 0);
            stack_fits(t.children, 1, true, qget(t.rect, 3), qget(t.rect, 1), t.contain, 0)
                && wsq_fits(t1.children, 0, 0, 0, qget(t1.rect, 0), 0)
                && in16(w.1 - qget(t1.rect, 0))
        } else {
            true
        },
        Mode::Row { wrap: true } => if a == 0 {
            stack_fits(t.children, 0, true, qget(t.rect, 2), qget(t.rect, 0), t.contain, 0)
        } else {
            wsq_fits(t.children, 1, 0, 0, qget(t.rect, 1), 0)
        },
        Mode::Row { wrap: false } => if a == 0 {
            stack_fits(t.children, 0, false, qget(t.rect, 2), qget(t.rect, 0), t.contain, 0)
        } else {
            range_fits(t.children, a, 0, t.children.len() as int, qget(t.rect, a),
                qget(t.rect, a + 2))
        },
        Mode::Column { wrap: false } => if a == 1 {
            stack_fits(t.children, 1, false, qget(t.rect, 3), qget(t.rect, 1), t.contain, 0)
        } else {
            range_fits(t.children, a, 0, t.children.len() as int, qget(t.rect, a),
                qget(t.rect, a + 2))
        },
        Mode::Overlay => overlay_fits(t, a),
    }
}

/// Every coordinate the whole arrangement pass stores fits 16 bits.
pub open spec fn arrange_fits(shape: Node, t: Node, a: int) -> bool
    decreases shape,
{
    let h = arrange_node(Node { children: shape.children, ..t }, a);
    node_fits(Node { children: shape.children, ..t }, a) && (forall|i: int|
        0 <= i < shape.children.len()
            ==> arrange_fits(#[trigger] shape.children[i], h.children[i], a))
}

/// The engine's precondition: a bounded tree whose four passes only
/// store 16-bit values.  This is the formal shape of the documented
/// requirement that well-formed inputs keep every position and extent
/// within the coordinate range.
pub open spec fn run_fits(t: Node) -> bool {
    let t1 = calc_size(t, 0);
    let t2 = arrange(t1, 0);
    let t3 = calc_size(t2, 1);
    bounded(t) && calc_fits(t, 0) && arrange_fits(t1, t1, 0) && calc_fits(t2, 1)
        && arrange_fits(t3, t3, 1)
}

} // verus!
