//! The verified engine behind [`crate::item::BaseItem`]: executable
//! forms of the model passes.  Geometry is stored in 16-bit fields and
//! computed in 64-bit intermediates; every function returns exactly what
//! the corresponding model function says.

use vstd::prelude::*;
use crate::item::{BaseItem, view_item, quad_of, pair_of, LAY_LAYOUT_FLAGS, LAY_JUSTIFY,
    LAY_START, LAY_END, LAY_LEFT, LAY_TOP, LAY_RIGHT, LAY_BOTTOM, LAY_BREAK, LAY_WRAP, LAY_ROW,
    LAY_COLUMN, LayVec4};
use crate::model;
use crate::model::{Node, qget, qset, tdiv, Align, align_of, child_fp, size_of, size_seq};

verus! {

/// The model trees a sequence of items stands for.
pub(crate) open spec fn views(s: Seq<BaseItem<'_>>) -> Seq<Node> {
    Seq::new(s.len(), |i: int| view_item(s[i]))
}

pub(crate) proof fn lemma_view_children(b: BaseItem<'_>)
    ensures
        view_item(b).children == views(b.children@),
{
    assert(view_item(b).children =~= views(b.children@));
}

pub(crate) proof fn lemma_size_seq_le(s: Seq<Node>, i: int)
    requires
        0 <= i < s.len(),
    ensures
        size_of(s[i]) <= size_seq(s),
    decreases i,
{
    if i == 0 {
    } else {
        lemma_size_seq_le(s.subrange(1, s.len() as int), i - 1);
        assert(s.subrange(1, s.len() as int)[i - 1] == s[i]);
    }
}

/// A child's tree is smaller than its parent's: the recursion measure of
/// the passes.
pub(crate) proof fn lemma_size_child(t: Node, i: int)
    requires
        0 <= i < t.children.len(),
    ensures
        size_of(t.children[i]) < size_of(t),
{
    lemma_size_seq_le(t.children, i);
}

/// Writes one slot of a geometry quad.
fn set_q(arr: &mut LayVec4, k: usize, x: i16)
    requires
        k < 4,
    ensures
        quad_of(*final(arr)) == qset(quad_of(*old(arr)), k as int, x as int),
{
    arr[k] = x;
}

/// Division truncating toward zero, matching [`model::tdiv`].
fn div_trunc(a: i64, b: i64) -> (q: i64)
    requires
        1 <= b,
        -0x4000_0000_0000_0000 < a < 0x4000_0000_0000_0000,
    ensures
        q == tdiv(a as int, b as int),
{
    if a >= 0 {
        ((a as u64) / (b as u64)) as i64
    } else {
        let m = ((-a) as u64) / (b as u64);
        -(m as i64)
    }
}

/// `|a * b| <= aa * bb` when `|a| <= aa` and `0 <= b <= bb`.
pub(crate) proof fn lemma_mul_bound(a: int, b: int, aa: int, bb: int)
    by (nonlinear_arith)
    requires
        -aa <= a <= aa,
        0 <= b <= bb,
    ensures
        -(aa * bb) <= a * b <= aa * bb,
{
}

/// Sum of the children's footprints along `dim`.
fn stacked_size_x(ch: &Vec<BaseItem<'_>>, dim: usize) -> (r: i64)
    requires
        dim < 2,
        ch@.len() < 65536,
    ensures
        r == model::stacked_size(views(ch@), dim as int),
{
    let ghost v = views(ch@);
    let n = ch.len();
    let mut sum: i64 = 0;
    let mut i: usize = 0;
    while i < n
        invariant
            i <= n == ch@.len() < 65536,
            dim < 2,
            v == views(ch@),
            sum == model::stacked_size(v.subrange(0, i as int), dim as int),
            -98304 * i <= sum <= 98304 * i,
        decreases n - i,
    {
        let c = &ch[i];
        let fp: i64 = c.rect[dim] as i64 + c.rect[dim + 2] as i64 + c.margins[dim + 2] as i64;
        proof {
            assert(v.subrange(0, i + 1).drop_last() =~= v.subrange(0, i as int));
            assert(v.subrange(0, i + 1).last() == view_item(ch@[i as int]));
            assert(fp == child_fp(view_item(ch@[i as int]), dim as int));
        }
        sum = sum + fp;
        i = i + 1;
    }
    proof {
        assert(v.subrange(0, n as int) =~= v);
    }
    sum
}

/// Largest footprint along `dim`, at least zero.
fn overlayed_size_x(ch: &Vec<BaseItem<'_>>, dim: usize) -> (r: i64)
    requires
        dim < 2,
        ch@.len() < 65536,
    ensures
        r == model::overlayed_size(views(ch@), dim as int),
{
    let ghost v = views(ch@);
    let n = ch.len();
    let mut need: i64 = 0;
    let mut i: usize = 0;
    while i < n
        invariant
            i <= n == ch@.len() < 65536,
            dim < 2,
            v == views(ch@),
            need == model::overlayed_size(v.subrange(0, i as int), dim as int),
            -98304 <= need <= 98304,
        decreases n - i,
    {
        let c = &ch[i];
        let fp: i64 = c.rect[dim] as i64 + c.rect[dim + 2] as i64 + c.margins[dim + 2] as i64;
        proof {
            assert(v.subrange(0, i + 1).drop_last() =~= v.subrange(0, i as int));
            assert(v.subrange(0, i + 1).last() == view_item(ch@[i as int]));
            assert(fp == child_fp(view_item(ch@[i as int]), dim as int));
        }
        if fp > need {
            need = fp;
        }
        i = i + 1;
    }
    proof {
        assert(v.subrange(0, n as int) =~= v);
    }
    need
}

/// Cross-axis extent of a wrapped row: sum over lines of the largest
/// footprint within the line.
fn wrapped_overlayed_size_x(ch: &Vec<BaseItem<'_>>) -> (r: i64)
    requires
        ch@.len() < 65536,
    ensures
        r == model::wrapped_overlayed_size(views(ch@), 0, 0, 0),
{
    let ghost v = views(ch@);
    let n = ch.len();
    let mut need: i64 = 0;
    let mut acc: i64 = 0;
    let mut i: usize = 0;
    while i < n
        invariant
            i <= n == ch@.len() < 65536,
            v == views(ch@),
            model::wrapped_overlayed_size(v, i as int, need as int, acc as int)
                == model::wrapped_overlayed_size(v, 0, 0, 0),
            -98304 <= need <= 98304,
            -98304 * i <= acc <= 98304 * i,
        decreases n - i,
    {
        let c = &ch[i];
        if c.behave_flags & LAY_BREAK != 0 {
            acc = acc + need;
            need = 0;
        }
        let fp: i64 = c.rect[1] as i64 + c.rect[3] as i64 + c.margins[3] as i64;
        proof {
            assert(fp == child_fp(view_item(ch@[i as int]), 1));
        }
        if fp > need {
            need = fp;
        }
        i = i + 1;
    }
    acc + need
}

/// Main-axis extent of a wrapped row: largest per-line sum of
/// footprints.
fn wrapped_stacked_size_x(ch: &Vec<BaseItem<'_>>) -> (r: i64)
    requires
        ch@.len() < 65536,
    ensures
        r == model::wrapped_stacked_size(views(ch@), 0, 0, 0),
{
    let ghost v = views(ch@);
    let n = ch.len();
    let mut need: i64 = 0;
    let mut acc: i64 = 0;
    let mut i: usize = 0;
    while i < n
        invariant
            i <= n == ch@.len() < 65536,
            v == views(ch@),
            model::wrapped_stacked_size(v, i as int, need as int, acc as int)
                == model::wrapped_stacked_size(v, 0, 0, 0),
            -98304 * i <= need <= 98304 * i,
            -98304 * i <= acc <= 98304 * i,
        decreases n - i,
    {
        let c = &ch[i];
        if c.behave_flags & LAY_BREAK != 0 {
            if need > acc {
                acc = need;
            }
            need = 0;
        }
        let fp: i64 = c.rect[0] as i64 + c.rect[2] as i64 + c.margins[2] as i64;
        proof {
            assert(fp == child_fp(view_item(ch@[i as int]), 0));
        }
        need = need + fp;
        i = i + 1;
    }
    if acc > need {
        acc
    } else {
        need
    }
}

/// Places one child against the band `[offset, offset + space)`,
/// clamping its extent according to its own alignment.
fn squeeze_one<'a>(mut c: BaseItem<'a>, dim: usize, offset: i64, space: i64) -> (r: BaseItem<'a>)
    requires
        dim < 2,
        -0x1_0000_0000_0000 <= offset <= 0x1_0000_0000_0000,
        -0x1_0000_0000_0000 <= space <= 0x1_0000_0000_0000,
        model::squeeze_fits(view_item(c), dim as int, offset as int, space as int),
    ensures
        view_item(r) == model::squeeze(view_item(c), dim as int, offset as int, space as int),
        view_item(r).children == view_item(c).children,
{
    let ghost c0 = view_item(c);
    let ghost m = model::squeeze(c0, dim as int, offset as int, space as int);
    let rd = c.rect[dim] as i64;
    let re = c.rect[dim + 2] as i64;
    let mt = c.margins[dim + 2] as i64;
    let mut min_size: i64 = space - rd - mt;
    if min_size < 0 {
        min_size = 0;
    }
    let lead = if dim == 0 {
        c.behave_flags & LAY_LEFT != 0
    } else {
        c.behave_flags & LAY_TOP != 0
    };
    let trail = if dim == 0 {
        c.behave_flags & LAY_RIGHT != 0
    } else {
        c.behave_flags & LAY_BOTTOM != 0
    };
    if lead && trail {
        set_q(&mut c.rect, dim + 2, min_size as i16);
        set_q(&mut c.rect, dim, (rd + offset) as i16);
    } else if lead {
        let e = if re <= min_size {
            re
        } else {
            min_size
        };
        set_q(&mut c.rect, dim + 2, e as i16);
        set_q(&mut c.rect, dim, (rd + offset) as i16);
    } else if trail {
        let e = if re <= min_size {
            re
        } else {
            min_size
        };
        set_q(&mut c.rect, dim + 2, e as i16);
        set_q(&mut c.rect, dim, (space - e - mt + offset) as i16);
    } else {
        let e = if re <= min_size {
            re
        } else {
            min_size
        };
        set_q(&mut c.rect, dim + 2, e as i16);
        let p = rd + div_trunc(space - e, 2) - mt;
        set_q(&mut c.rect, dim, (p + offset) as i16);
    }
    proof {
        assert(view_item(c).children =~= c0.children);
        assert(view_item(c) =~= m);
    }
    c
}

/// Squeezes the children `lo..hi` against one band.
fn squeeze_range_x<'a>(ch: &mut Vec<BaseItem<'a>>, dim: usize, lo: usize, hi: usize,
    offset: i64, space: i64)
    requires
        dim < 2,
        lo <= hi <= old(ch)@.len(),
        -0x1_0000_0000_0000 <= offset <= 0x1_0000_0000_0000,
        -0x1_0000_0000_0000 <= space <= 0x1_0000_0000_0000,
        model::range_fits(views(old(ch)@), dim as int, lo as int, hi as int, offset as int,
            space as int),
    ensures
        views(final(ch)@) == model::squeeze_range(views(old(ch)@), dim as int, lo as int,
            hi as int, offset as int, space as int),
        forall|j: int| 0 <= j < final(ch)@.len()
            ==> view_item(#[trigger] final(ch)@[j]).children == view_item(old(ch)@[j]).children,
{
    let ghost v0 = views(ch@);
    let mut i: usize = lo;
    while i < hi
        invariant
            lo <= i <= hi <= ch@.len(),
            dim < 2,
            -0x1_0000_0000_0000 <= offset <= 0x1_0000_0000_0000,
            -0x1_0000_0000_0000 <= space <= 0x1_0000_0000_0000,
            ch@.len() == v0.len(),
            v0 == views(old(ch)@),
            model::range_fits(v0, dim as int, lo as int, hi as int, offset as int, space as int),
            forall|j: int| lo <= j < i
                ==> view_item(#[trigger] ch@[j]) == model::squeeze(v0[j], dim as int,
                    offset as int, space as int),
            forall|j: int| 0 <= j < ch@.len() && !(lo <= j < i)
                ==> ch@[j] == old(ch)@[j],
            forall|j: int| 0 <= j < ch@.len()
                ==> view_item(#[trigger] ch@[j]).children == v0[j].children,
        decreases hi - i,
    {
        let ghost before = ch@;
        let c = ch.remove(i);
        proof {
            assert(view_item(c) == v0[i as int]);
        }
        let c2 = squeeze_one(c, dim, offset, space);
        ch.insert(i, c2);
        proof {
            assert(ch@ =~= before.update(i as int, c2));
        }
        i = i + 1;
    }
    proof {
        assert(views(ch@) =~= model::squeeze_range(v0, dim as int, lo as int, hi as int,
            offset as int, space as int));
    }
}

/// Wrapped overlay squeeze: bands the children at break flags, squeezes
/// each band, and returns the final running offset.
fn wrapped_squeeze_x<'a>(ch: &mut Vec<BaseItem<'a>>, dim: usize, x0: i16) -> (r: i64)
    requires
        dim < 2,
        old(ch)@.len() < 65536,
        model::wsq_fits(views(old(ch)@), dim as int, 0, 0, x0 as int, 0),
    ensures
        views(final(ch)@) == model::wrapped_squeeze(views(old(ch)@), dim as int, 0, 0,
            x0 as int, 0).0,
        r == model::wrapped_squeeze(views(old(ch)@), dim as int, 0, 0, x0 as int, 0).1,
        forall|j: int| 0 <= j < final(ch)@.len()
            ==> view_item(#[trigger] final(ch)@[j]).children == view_item(old(ch)@[j]).children,
    decreases old(ch)@.len(),
{
    let ghost v0 = views(ch@);
    let ghost w = model::wrapped_squeeze(v0, dim as int, 0, 0, x0 as int, 0);
    let n = ch.len();
    let mut offset: i64 = x0 as i64;
    let mut need: i64 = 0;
    let mut start: usize = 0;
    let mut idx: usize = 0;
    while idx < n
        invariant
            start <= idx <= n == ch@.len() < 65536,
            dim < 2,
            model::wrapped_squeeze(views(ch@), dim as int, idx as int, start as int,
                offset as int, need as int) == w,
            model::wsq_fits(views(ch@), dim as int, idx as int, start as int, offset as int,
                need as int),
            0 <= need <= 98304,
            -32768 <= offset <= 32768 + 98304 * idx,
            forall|j: int| 0 <= j < ch@.len()
                ==> view_item(#[trigger] ch@[j]).children == v0[j].children,
        decreases n - idx,
    {
        let brk = ch[idx].behave_flags & LAY_BREAK != 0;
        let fp: i64 = ch[idx].rect[dim] as i64 + ch[idx].rect[dim + 2] as i64
            + ch[idx].margins[dim + 2] as i64;
        proof {
            assert(fp == child_fp(view_item(ch@[idx as int]), dim as int));
        }
        if brk {
            let ghost vb = views(ch@);
            squeeze_range_x(ch, dim, start, idx, offset, need);
            proof {
                assert(views(ch@) == model::squeeze_range(vb, dim as int, start as int,
                    idx as int, offset as int, need as int));
                assert(views(ch@)[idx as int] == vb[idx as int]);
            }
            offset = offset + need;
            start = idx;
            need = 0;
        }
        if fp > need {
            need = fp;
        }
        idx = idx + 1;
    }
    let ghost vb = views(ch@);
    squeeze_range_x(ch, dim, start, n, offset, need);
    proof {
        assert(views(ch@) == model::squeeze_range(vb, dim as int, start as int, n as int,
            offset as int, need as int));
    }
    offset + need
}

/// Free overlay placement of one child against the parent's extent.
fn overlay_one<'a>(mut c: BaseItem<'a>, dim: usize, x0: i16, space: i16) -> (r: BaseItem<'a>)
    requires
        dim < 2,
        ({
            let c2 = model::overlay_child(view_item(c), dim as int, x0 as int, space as int);
            model::in16(qget(c2.rect, dim as int)) && model::in16(qget(c2.rect, dim as int + 2))
        }),
    ensures
        view_item(r) == model::overlay_child(view_item(c), dim as int, x0 as int, space as int),
        view_item(r).children == view_item(c).children,
{
    let ghost c0 = view_item(c);
    let ghost m = model::overlay_child(c0, dim as int, x0 as int, space as int);
    let rd = c.rect[dim] as i64;
    let re = c.rect[dim + 2] as i64;
    let ml = c.margins[dim] as i64;
    let mt = c.margins[dim + 2] as i64;
    let lead = if dim == 0 {
        c.behave_flags & LAY_LEFT != 0
    } else {
        c.behave_flags & LAY_TOP != 0
    };
    let trail = if dim == 0 {
        c.behave_flags & LAY_RIGHT != 0
    } else {
        c.behave_flags & LAY_BOTTOM != 0
    };
    if lead && trail {
        let mut e: i64 = space as i64 - rd - mt;
        if e < 0 {
            e = 0;
        }
        set_q(&mut c.rect, dim + 2, e as i16);
        set_q(&mut c.rect, dim, (rd + x0 as i64) as i16);
    } else if lead {
        set_q(&mut c.rect, dim, (rd + x0 as i64) as i16);
    } else if trail {
        let p = rd + space as i64 - re - ml - mt;
        set_q(&mut c.rect, dim, (p + x0 as i64) as i16);
    } else {
        let p = rd + div_trunc(space as i64 - re, 2) - mt;
        set_q(&mut c.rect, dim, (p + x0 as i64) as i16);
    }
    proof {
        assert(view_item(c).children =~= c0.children);
        assert(view_item(c) =~= m);
    }
    c
}

/// Overlay placement of every child.
fn arrange_overlay_x<'a>(ch: &mut Vec<BaseItem<'a>>, dim: usize, x0: i16, space: i16)
    requires
        dim < 2,
        forall|i: int| 0 <= i < old(ch)@.len() ==> ({
            let c2 = model::overlay_child(view_item(#[trigger] old(ch)@[i]), dim as int,
                x0 as int, space as int);
            model::in16(qget(c2.rect, dim as int)) && model::in16(qget(c2.rect, dim as int + 2))
        }),
    ensures
        views(final(ch)@).len() == old(ch)@.len(),
        forall|i: int| 0 <= i < old(ch)@.len()
            ==> views(final(ch)@)[i] == model::overlay_child(view_item(old(ch)@[i]),
                dim as int, x0 as int, space as int),
        forall|j: int| 0 <= j < final(ch)@.len()
            ==> view_item(#[trigger] final(ch)@[j]).children == view_item(old(ch)@[j]).children,
{
    let ghost v0 = views(ch@);
    let n = ch.len();
    let mut i: usize = 0;
    while i < n
        invariant
            i <= n == ch@.len(),
            dim < 2,
            v0 == views(old(ch)@),
            v0.len() == n,
            forall|k: int| 0 <= k < n ==> ({
                let c2 = model::overlay_child(view_item(#[trigger] old(ch)@[k]), dim as int,
                    x0 as int, space as int);
                model::in16(qget(c2.rect, dim as int))
                    && model::in16(qget(c2.rect, dim as int + 2))
            }),
            forall|j: int| 0 <= j < i
                ==> view_item(#[trigger] ch@[j]) == model::overlay_child(v0[j], dim as int,
                    x0 as int, space as int),
            forall|j: int| i <= j < n ==> ch@[j] == old(ch)@[j],
            forall|j: int| 0 <= j < n
                ==> view_item(#[trigger] ch@[j]).children == v0[j].children,
        decreases n - i,
    {
        let ghost before = ch@;
        let c = ch.remove(i);
        proof {
            assert(c == old(ch)@[i as int]);
            assert(v0[i as int] == view_item(old(ch)@[i as int]));
            assert(view_item(c) == v0[i as int]);
        }
        let c2 = overlay_one(c, dim, x0, space);
        ch.insert(i, c2);
        proof {
            assert(ch@ =~= before.update(i as int, c2));
        }
        i = i + 1;
    }
}

/// Stacked distribution of a node's children along `dim`: children are
/// grouped into lines, each line's slack is distributed, and every child
/// is placed left to right.  When a child overflows a wrapping line it
/// is flagged with a break as a side effect.
fn arrange_stacked_x<'a>(ch: &mut Vec<BaseItem<'a>>, dim: usize, wrap: bool, ext: i16, x0: i16,
    contain: u8)
    requires
        dim < 2,
        old(ch)@.len() < 65536,
        model::stack_fits(views(old(ch)@), dim as int, wrap, ext as int, x0 as int, contain, 0),
    ensures
        views(final(ch)@) == model::stack_lines(views(old(ch)@), dim as int, wrap, ext as int,
            x0 as int, contain, 0),
        forall|j: int| 0 <= j < final(ch)@.len()
            ==> view_item(#[trigger] final(ch)@[j]).children == view_item(old(ch)@[j]).children,
{
    let ghost a = dim as int;
    let ghost v00 = views(ch@);
    let ghost target = model::stack_lines(v00, a, wrap, ext as int, x0 as int, contain, 0);
    let n = ch.len();
    let mut start: usize = 0;
    while start < n
        invariant
            start <= n == ch@.len() < 65536,
            dim < 2,
            a == dim as int,
            v00.len() == n,
            model::stack_lines(views(ch@), a, wrap, ext as int, x0 as int, contain,
                start as int) == target,
            model::stack_fits(views(ch@), a, wrap, ext as int, x0 as int, contain, start as int),
            forall|j: int| 0 <= j < n
                ==> view_item(#[trigger] ch@[j]).children == v00[j].children,
        decreases n - start,
    {
        let ghost v = views(ch@);
        let ghost sc0 = model::scan_line(v, a, wrap, ext as int, start as int, 0, 0, 0, 0);
        proof {
            model::lemma_scan_bounds(v, a, wrap, ext as int, start as int, 0, 0, 0, 0);
        }

        // First pass: find the line's end and count its children.
        let mut used: i64 = 0;
        let mut count: usize = 0;
        let mut squeezed: usize = 0;
        let mut total: usize = 0;
        let mut hard = false;
        let mut broke = false;
        let mut last: usize = n;
        let mut idx: usize = start;
        while idx < n && !broke
            invariant
                start <= idx <= n == ch@.len(),
                n < 65536,
                dim < 2,
                a == dim as int,
                v == views(ch@),
                sc0 == model::scan_line(v, a, wrap, ext as int, start as int, 0, 0, 0, 0),
                !broke ==> model::scan_line(v, a, wrap, ext as int, idx as int, used as int,
                    count as int, squeezed as int, total as int) == sc0,
                !broke ==> total == idx - start && last == n,
                broke ==> sc0 == (model::Scan {
                    last: last as int,
                    broke: true,
                    hard,
                    used: used as int,
                    count: count as int,
                    squeezed: squeezed as int,
                    total: total as int,
                }) && total == last - start && start < last < n,
                count + squeezed <= total <= n,
                -98304 * (total as int) <= used <= 98304 * (total as int),
            decreases n - idx + (if broke {
                0int
            } else {
                1int
            }),
        {
            let rd = ch[idx].rect[dim] as i64;
            let re = ch[idx].rect[dim + 2] as i64;
            let mt = ch[idx].margins[dim + 2] as i64;
            let explicit = ch[idx].size[dim];
            let bf = ch[idx].behave_flags;
            let lead = if dim == 0 {
                bf & LAY_LEFT != 0
            } else {
                bf & LAY_TOP != 0
            };
            let trail = if dim == 0 {
                bf & LAY_RIGHT != 0
            } else {
                bf & LAY_BOTTOM != 0
            };
            let fill = lead && trail;
            proof {
                assert(view_item(ch@[idx as int]) == v[idx as int]);
                assert(fill == (align_of(v[idx as int].behave, a) == Align::Fill));
            }
            let extend: i64 = if fill {
                used + rd + mt
            } else {
                used + rd + re + mt
            };
            if wrap && total > 0 && (extend > ext as i64 || bf & LAY_BREAK != 0) {
                last = idx;
                hard = bf & LAY_BREAK != 0;
                broke = true;
            } else {
                used = extend;
                if fill {
                    count = count + 1;
                } else if explicit == 0 {
                    squeezed = squeezed + 1;
                }
                total = total + 1;
                idx = idx + 1;
            }
        }
        proof {
            if !broke {
                assert(sc0 == (model::Scan {
                    last: n as int,
                    broke: false,
                    hard: false,
                    used: used as int,
                    count: count as int,
                    squeezed: squeezed as int,
                    total: total as int,
                }));
            }
            assert(start < last);
        }

        // Mark the wrapping child: the signal the next size pass reads.
        if broke {
            let ghost before = ch@;
            let mut cb = ch.remove(last);
            cb.behave_flags = cb.behave_flags | LAY_BREAK;
            ch.insert(last, cb);
            proof {
                assert(ch@ =~= before.update(last as int, cb));
                assert(view_item(cb) =~= model::break_node(v[last as int]));
                assert(views(ch@) =~= v.update(last as int,
                    model::break_node(v[last as int])));
            }
        }
        let ghost v1 = views(ch@);
        proof {
            if !broke {
                assert(v1 == v);
            }
        }

        // Slack distribution for this line.
        let extra: i64 = ext as i64 - used;
        let mut d: i64 = 1;
        let mut filler: i64 = 0;
        let mut spacer: i64 = 0;
        let mut em0: i64 = 0;
        let mut eater: i64 = 0;
        if extra > 0 {
            if count > 0 {
                d = count as i64;
                filler = extra;
            } else if total > 0 {
                let j = contain & LAY_JUSTIFY;
                if j == LAY_JUSTIFY {
                    if (!wrap || (last != n && !hard)) && total > 1 {
                        d = (total - 1) as i64;
                        spacer = extra;
                    }
                } else if j == LAY_START {
                } else if j == LAY_END {
                    em0 = extra;
                } else {
                    d = 2;
                    em0 = extra;
                }
            }
        } else if !wrap && extra < 0 && squeezed > 0 {
            d = squeezed as i64;
            eater = extra;
        }
        let ghost ds = model::line_dist(contain, wrap, n as int, sc0, ext as int);
        proof {
            assert(ds == (model::Dist {
                d: d as int,
                filler: filler as int,
                spacer: spacer as int,
                em0: em0 as int,
                eater: eater as int,
            }));
        }

        // Second pass: place the line's children left to right.
        let maxx2: i64 = x0 as i64 + ext as i64;
        proof {
            lemma_mul_bound(x0 as int, d as int, 32768, 65536);
        }
        let mut x: i64 = x0 as i64 * d;
        let mut em: i64 = em0;
        let mut idx2: usize = start;
        let ghost ptarget = model::place_line(v1, a, wrap, maxx2 as int, ds, ds.em0,
            (x0 as int) * ds.d, start as int, sc0.last);
        while idx2 < last
            invariant
                start <= idx2 <= last <= n == ch@.len(),
                n < 65536,
                dim < 2,
                a == dim as int,
                sc0.last == last as int,
                ds == (model::Dist {
                    d: d as int,
                    filler: filler as int,
                    spacer: spacer as int,
                    em0: em0 as int,
                    eater: eater as int,
                }),
                1 <= d <= 65536,
                -0x4_0000_0000 <= filler <= 0x4_0000_0000,
                -0x4_0000_0000 <= spacer <= 0x4_0000_0000,
                -0x4_0000_0000 <= eater <= 0x4_0000_0000,
                -0x4_0000_0000 <= em <= 0x4_0000_0000,
                -0x8000_0000 - 0x40_0000_0000 * ((idx2 - start) as int) <= x
                    <= 0x8000_0000 + 0x40_0000_0000 * ((idx2 - start) as int),
                -0x1_0000 <= maxx2 <= 0x1_0000,
                model::place_line(views(ch@), a, wrap, maxx2 as int, ds, em as int, x as int,
                    idx2 as int, last as int) == ptarget,
                model::place_fits(views(ch@), a, wrap, maxx2 as int, ds, em as int, x as int,
                    idx2 as int, last as int),
                forall|j: int| 0 <= j < n
                    ==> view_item(#[trigger] ch@[j]).children == v00[j].children,
            decreases last - idx2,
        {
            let ghost vb = views(ch@);
            let ghost c0 = vb[idx2 as int];
            let rd = ch[idx2].rect[dim] as i64;
            let re = ch[idx2].rect[dim + 2] as i64;
            let mt = ch[idx2].margins[dim + 2] as i64;
            let explicit = ch[idx2].size[dim];
            let bf = ch[idx2].behave_flags;
            let lead = if dim == 0 {
                bf & LAY_LEFT != 0
            } else {
                bf & LAY_TOP != 0
            };
            let trail = if dim == 0 {
                bf & LAY_RIGHT != 0
            } else {
                bf & LAY_BOTTOM != 0
            };
            let fill = lead && trail;
            proof {
                assert(view_item(ch@[idx2 as int]) == c0);
                assert(fill == (align_of(c0.behave, a) == Align::Fill));
                lemma_mul_bound(rd as int, d as int, 32768, 65536);
                lemma_mul_bound(re as int, d as int, 32768, 65536);
                lemma_mul_bound(mt as int, d as int, 32768, 65536);
                lemma_mul_bound(maxx2 as int - mt as int, d as int, 98304, 65536);
            }
            let x1: i64 = x + rd * d + em;
            let xend: i64 = if fill {
                x1 + filler
            } else if explicit != 0 {
                x1 + re * d
            } else {
                let shrunk = re * d + eater;
                x1 + (if shrunk > 0 {
                    shrunk
                } else {
                    0
                })
            };
            let ix0 = div_trunc(x1, d);
            let ix1 = if wrap {
                let lim = (maxx2 - mt) * d;
                div_trunc(if lim <= xend {
                    lim
                } else {
                    xend
                }, d)
            } else {
                div_trunc(xend, d)
            };
            let ghost c2 = (Node {
                rect: qset(qset(c0.rect, a, ix0 as int), a + 2, ix1 - ix0),
                ..c0
            });
            let ghost before = ch@;
            let mut cw = ch.remove(idx2);
            set_q(&mut cw.rect, dim, ix0 as i16);
            set_q(&mut cw.rect, dim + 2, (ix1 - ix0) as i16);
            ch.insert(idx2, cw);
            proof {
                assert(ch@ =~= before.update(idx2 as int, cw));
                assert(view_item(cw) =~= c2);
                assert(views(ch@) =~= vb.update(idx2 as int, c2));
            }
            x = xend + mt * d;
            em = spacer;
            idx2 = idx2 + 1;
        }

        proof {
            assert(views(ch@) == ptarget);
            assert(model::stack_lines(v, a, wrap, ext as int, x0 as int, contain, start as int)
                == model::stack_lines(views(ch@), a, wrap, ext as int, x0 as int, contain,
                    last as int));
        }
        start = last;
    }
}

/// The arrangement pass: position this node's children along `dim`
/// according to the layout mode, then recurse into each child.
pub(crate) fn arrange_x<'a>(mut node: BaseItem<'a>, dim: usize, Ghost(t0): Ghost<Node>) -> (r:
    BaseItem<'a>)
    requires
        dim < 2,
        t0 == view_item(node),
        model::bounded(t0),
        model::arrange_fits(t0, t0, dim as int),
    ensures
        view_item(r) == model::arrange_from(t0, t0, dim as int),
    decreases size_of(t0),
{
    let ghost a = dim as int;
    let ghost h = model::arrange_node(t0, a);
    proof {
        assert(Node { children: t0.children, ..t0 } =~= t0);
        assert(model::node_fits(t0, a));
        model::lemma_arrange_node_len(t0, a);
        lemma_view_children(node);
        assert(views(node.children@) == t0.children);
    }

    // Handle this node: write the children's geometry on this axis.
    let mode = node.contain_flags & LAY_LAYOUT_FLAGS;
    if mode == (LAY_COLUMN | LAY_WRAP) {
        if dim > 0 {
            let ext = node.rect[3];
            let x0 = node.rect[1];
            arrange_stacked_x(&mut node.children, 1, true, ext, x0, node.contain_flags);
            let ghost t1 = model::arrange_stacked(t0, 1, true);
            proof {
                lemma_view_children(node);
                assert(view_item(node).children == t1.children);
            }
            let x0b = node.rect[0];
            proof {
                model::lemma_stack_lines_len(t0.children, 1, true, qget(t0.rect, 3),
                    qget(t0.rect, 1), t0.contain, 0);
            }
            let off = wrapped_squeeze_x(&mut node.children, 0, x0b);
            let ghost w = model::wrapped_squeeze(t1.children, 0, 0, 0, qget(t1.rect, 0), 0);
            proof {
                lemma_view_children(node);
                assert(view_item(node).children == w.0);
                assert(off == w.1);
                assert(model::in16(off - x0b));
            }
            set_q(&mut node.rect, 2, (off - x0b as i64) as i16);
        }
    } else if mode == (LAY_ROW | LAY_WRAP) {
        if dim == 0 {
            let ext = node.rect[2];
            let x0 = node.rect[0];
            arrange_stacked_x(&mut node.children, 0, true, ext, x0, node.contain_flags);
        } else {
            let x0 = node.rect[1];
            let _off = wrapped_squeeze_x(&mut node.children, 1, x0);
        }
    } else if mode == LAY_ROW || mode == LAY_COLUMN {
        proof {
            let cc = t0.contain;
            assert((cc & 7) == 2 ==> (cc & 1) == 0) by (bit_vector);
            assert((cc & 7) == 3 ==> (cc & 1) == 1) by (bit_vector);
        }
        if (node.contain_flags & 1) as usize == dim {
            let ext = node.rect[dim + 2];
            let x0 = node.rect[dim];
            arrange_stacked_x(&mut node.children, dim, false, ext, x0, node.contain_flags);
        } else {
            let x0 = node.rect[dim];
            let space = node.rect[dim + 2];
            let nch = node.children.len();
            squeeze_range_x(&mut node.children, dim, 0, nch, x0 as i64, space as i64);
        }
    } else {
        let x0 = node.rect[dim];
        let space = node.rect[dim + 2];
        proof {
            assert forall|i: int| 0 <= i < node.children@.len() implies ({
                let c2 = model::overlay_child(view_item(#[trigger] node.children@[i]), a,
                    x0 as int, space as int);
                model::in16(qget(c2.rect, a)) && model::in16(qget(c2.rect, a + 2))
            }) by {
                assert(view_item(node.children@[i]) == t0.children[i]);
            };
        }
        arrange_overlay_x(&mut node.children, dim, x0, space);
    }
    proof {
        lemma_view_children(node);
        assert(view_item(node).children =~= h.children);
        assert(view_item(node) =~= h);
    }

    // Recurse into every child on the same axis.
    let ghost e1 = node.children@;
    let n = node.children.len();
    let mut i: usize = 0;
    while i < n
        invariant
            i <= n == node.children@.len(),
            dim < 2,
            a == dim as int,
            model::bounded(t0),
            model::arrange_fits(t0, t0, a),
            h == model::arrange_node(t0, a),
            n == t0.children.len() == h.children.len() == e1.len(),
            node.contain_flags == h.contain,
            node.behave_flags == h.behave,
            quad_of(node.margins) == h.margins,
            pair_of(node.size) == h.size,
            quad_of(node.rect) == h.rect,
            views(e1) == h.children,
            forall|j: int| 0 <= j < n
                ==> view_item(#[trigger] e1[j]).children == t0.children[j].children,
            forall|j: int| 0 <= j < i
                ==> view_item(#[trigger] node.children@[j])
                    == model::arrange_from(t0.children[j], h.children[j], a),
            forall|j: int| i <= j < n ==> node.children@[j] == e1[j],
        decreases n - i,
    {
        let ghost before = node.children@;
        let c = node.children.remove(i);
        let ghost vc = view_item(c);
        proof {
            assert(c == e1[i as int]);
            assert(vc == h.children[i as int]);
            assert(vc.children == t0.children[i as int].children);
            model::lemma_bounded_same(t0.children[i as int], vc);
            model::lemma_arrange_fits_same(t0.children[i as int], vc, h.children[i as int], a);
            assert(model::arrange_fits(vc, vc, a));
            lemma_size_child(t0, i as int);
            assert(size_of(vc) == size_of(t0.children[i as int]));
        }
        let c2 = arrange_x(c, dim, Ghost(vc));
        node.children.insert(i, c2);
        proof {
            assert(node.children@ =~= before.update(i as int, c2));
            model::lemma_arrange_from_same(t0.children[i as int], vc, h.children[i as int], a);
            assert(view_item(c2) == model::arrange_from(t0.children[i as int],
                h.children[i as int], a));
        }
        i = i + 1;
    }
    proof {
        lemma_view_children(node);
        assert(view_item(node).children =~= model::arrange_from(t0, t0, a).children);
        assert(view_item(node) =~= model::arrange_from(t0, t0, a));
    }
    node
}

/// The size pass: children first, then this node's own position
/// placeholder and extent.
pub(crate) fn calc_size_x<'a>(mut node: BaseItem<'a>, dim: usize, Ghost(t0): Ghost<Node>) -> (r:
    BaseItem<'a>)
    requires
        dim < 2,
        t0 == view_item(node),
        model::bounded(t0),
        model::calc_fits(t0, dim as int),
    ensures
        view_item(r) == model::calc_size(t0, dim as int),
    decreases size_of(t0),
{
    let n = node.children.len();
    let mut i: usize = 0;
    while i < n
        invariant
            i <= n == node.children@.len(),
            dim < 2,
            model::bounded(t0),
            model::calc_fits(t0, dim as int),
            n == t0.children.len(),
            node.contain_flags == t0.contain,
            node.behave_flags == t0.behave,
            quad_of(node.margins) == t0.margins,
            pair_of(node.size) == t0.size,
            quad_of(node.rect) == t0.rect,
            forall|j: int| 0 <= j < i
                ==> view_item(#[trigger] node.children@[j])
                    == model::calc_size(t0.children[j], dim as int),
            forall|j: int| i <= j < n
                ==> view_item(#[trigger] node.children@[j]) == t0.children[j],
        decreases n - i,
    {
        let ghost before = node.children@;
        let c = node.children.remove(i);
        proof {
            assert(view_item(c) == t0.children[i as int]);
            lemma_size_child(t0, i as int);
        }
        let c2 = calc_size_x(c, dim, Ghost(t0.children[i as int]));
        node.children.insert(i, c2);
        proof {
            assert(node.children@ =~= before.update(i as int, c2));
        }
        i = i + 1;
    }
    proof {
        lemma_view_children(node);
        assert(view_item(node).children =~= model::calc_size(t0, dim as int).children);
    }
    let ghost ch2 = model::calc_size(t0, dim as int).children;
    let m = node.margins[dim];
    set_q(&mut node.rect, dim, m);
    let explicit = node.size[dim];
    if explicit != 0 {
        set_q(&mut node.rect, dim + 2, explicit);
        proof {
            assert(view_item(node) =~= model::calc_size(t0, dim as int));
        }
        return node;
    }
    let mode = node.contain_flags & LAY_LAYOUT_FLAGS;
    let cal: i64 = if mode == (LAY_COLUMN | LAY_WRAP) {
        if dim > 0 {
            stacked_size_x(&node.children, 1)
        } else {
            overlayed_size_x(&node.children, 0)
        }
    } else if mode == (LAY_ROW | LAY_WRAP) {
        if dim == 0 {
            wrapped_stacked_size_x(&node.children)
        } else {
            wrapped_overlayed_size_x(&node.children)
        }
    } else if mode == LAY_ROW || mode == LAY_COLUMN {
        proof {
            let cc = t0.contain;
            assert((cc & 7) == 2 ==> (cc & 1) == 0) by (bit_vector);
            assert((cc & 7) == 3 ==> (cc & 1) == 1) by (bit_vector);
        }
        if (node.contain_flags & 1) as usize == dim {
            stacked_size_x(&node.children, dim)
        } else {
            overlayed_size_x(&node.children, dim)
        }
    } else {
        overlayed_size_x(&node.children, dim)
    };
    proof {
        assert(views(node.children@) =~= ch2);
        assert(cal == model::derived_size(model::mode_of(t0.contain), ch2, dim as int));
        assert(cal == qget(model::calc_size(t0, dim as int).rect, dim + 2));
        assert(model::in16(cal as int));
    }
    set_q(&mut node.rect, dim + 2, cal as i16);
    proof {
        assert(view_item(node) =~= model::calc_size(t0, dim as int));
    }
    node
}

} // verus!
