//! The executable layout tree and its engine entry points.

use vstd::prelude::*;
use crate::model::{Node, Quad, Pair, qget};
use crate::model;

verus! {

/* Contain flags */
pub const LAY_ROW: u8 = 0x02;
pub const LAY_COLUMN: u8 = 0x03;
pub const LAY_LAYOUT: u8 = 0x00;
pub const LAY_NOWRAP: u8 = 0x00;
pub const LAY_WRAP: u8 = 0x04;
pub const LAY_LAYOUT_FLAGS: u8 = 0x07;
pub const LAY_START: u8 = 0x08;
pub const LAY_MIDDLE: u8 = 0x00;
pub const LAY_END: u8 = 0x10;
pub const LAY_JUSTIFY: u8 = 0x18;

/* Behave flags */
pub const LAY_LEFT: u8 = 0x01;
pub const LAY_TOP: u8 = 0x02;
pub const LAY_RIGHT: u8 = 0x04;
pub const LAY_BOTTOM: u8 = 0x08;
pub const LAY_HFILL: u8 = 0x05;
pub const LAY_VFILL: u8 = 0x0a;
pub const LAY_FILL: u8 = 0x0f;
pub const LAY_HCENTER: u8 = 0x00;
pub const LAY_VCENTER: u8 = 0x00;
pub const LAY_CENTER: u8 = 0x00;
pub const LAY_BREAK: u8 = 0x10;

pub type LayVec2 = [i16; 2];
pub type LayVec4 = [i16; 4];

/// One node of the layout tree: flags, margins, an optional explicit
/// size, the computed rectangle, and the owned children.
pub struct BaseItem<'a> {
    pub contain_flags: u8,
    pub behave_flags: u8,

    pub margins: LayVec4,
    pub size: LayVec2,
    pub name: &'a str,

    pub(crate) rect: LayVec4,
    pub(crate) children: Vec<BaseItem<'a>>,
}

/// Capability interface for host widgets wrapping a [`BaseItem`]: the
/// engine computes geometry on the base tree alone, and hosts hang their
/// event behavior on these hooks.
pub trait LayoutItem<'a> where Self: 'a {
    fn base_mut(&mut self) -> &mut BaseItem<'a>;

    fn base(&self) -> &BaseItem<'a>;

    fn handle_click(&mut self, pos: LayVec2) -> bool;

    fn handle_key(&mut self, key: u32, event: u32) -> bool;
}

/// The out-of-range filler of the view's child sequence; never reached.
pub open spec fn empty_node() -> Node {
    Node {
        contain: 0,
        behave: 0,
        margins: (Quad { q0: 0, q1: 0, q2: 0, q3: 0 }),
        size: (Pair { p0: 0, p1: 0 }),
        rect: (Quad { q0: 0, q1: 0, q2: 0, q3: 0 }),
        children: Seq::<Node>::empty(),
    }
}

pub open spec fn quad_of(v: LayVec4) -> Quad {
    Quad { q0: v[0] as int, q1: v[1] as int, q2: v[2] as int, q3: v[3] as int }
}

pub open spec fn pair_of(v: LayVec2) -> Pair {
    Pair { p0: v[0] as int, p1: v[1] as int }
}

/// The model tree a [`BaseItem`] stands for.
pub(crate) open spec fn view_item(b: BaseItem<'_>) -> Node
    decreases b
    via view_item_decreases
{
    Node {
        contain: b.contain_flags,
        behave: b.behave_flags,
        margins: quad_of(b.margins),
        size: pair_of(b.size),
        rect: quad_of(b.rect),
        children: Seq::new(b.children@.len(), |i: int|
            if 0 <= i < b.children@.len() {
                view_item(b.children@[i])
            } else {
                empty_node()
            }),
    }
}

#[via_fn]
proof fn view_item_decreases(b: BaseItem<'_>) {
    assert forall|i: int| 0 <= i < b.children@.len() implies decreases_to!(
        b => b.children@[i]) by {
        assert(decreases_to!(b => b.children));
        assert(decreases_to!(b.children => b.children@));
        assert(decreases_to!(b.children@ => b.children@[i]));
    }
}

/// The point lies within the node's computed rectangle.
pub open spec fn contains_point(t: Node, px: int, py: int) -> bool {
    qget(t.rect, 0) <= px < qget(t.rect, 0) + qget(t.rect, 2)
        && qget(t.rect, 1) <= py < qget(t.rect, 1) + qget(t.rect, 3)
}

/// What dispatching a click over a bare tree returns: some descendant
/// consumed it.  The base item's own hook consumes nothing, so only a
/// host's wrapper can make this true.
pub open spec fn click_spec(t: Node, px: int, py: int) -> bool
    decreases t,
{
    exists|i: int| 0 <= i < t.children.len() && click_spec(#[trigger] t.children[i], px, py)
}

/// What dispatching a key event over a bare tree returns; as
/// [`click_spec`], the base item's own hook consumes nothing.
pub open spec fn key_spec(t: Node) -> bool
    decreases t,
{
    exists|i: int| 0 <= i < t.children.len() && key_spec(#[trigger] t.children[i])
}

impl<'a> View for BaseItem<'a> {
    type V = Node;

    closed spec fn view(&self) -> Node {
        view_item(*self)
    }
}

impl<'a> BaseItem<'a> {
    /// Builds a detached node with the given flags and explicit size,
    /// no margins, no children, and an empty rectangle.
    pub fn new(name: &'a str, contain_flags: u8, behave_flags: u8, size: LayVec2) -> (r:
        BaseItem<'a>)
        ensures
            r@ == (Node {
                contain: contain_flags,
                behave: behave_flags,
                margins: (Quad { q0: 0, q1: 0, q2: 0, q3: 0 }),
                size: pair_of(size),
                rect: (Quad { q0: 0, q1: 0, q2: 0, q3: 0 }),
                children: Seq::<Node>::empty(),
            }),
    {
        let r = BaseItem {
            contain_flags,
            behave_flags,
            margins: [0i16; 4],
            size,
            rect: [0i16; 4],
            children: Vec::new(),
            name,
        };
        proof {
            assert(r@.children =~= Seq::<Node>::empty());
            assert(quad_of(r.margins) =~= (Quad { q0: 0, q1: 0, q2: 0, q3: 0 }));
            assert(quad_of(r.rect) =~= (Quad { q0: 0, q1: 0, q2: 0, q3: 0 }));
        }
        r
    }

    /// Appends a child at the end of the children list and returns the
    /// new number of children.
    pub fn insert(&mut self, child: BaseItem<'a>) -> (r: usize)
        requires
            old(self)@.children.len() < usize::MAX,
        ensures
            final(self)@ == (Node {
                children: old(self)@.children.push(child@),
                ..old(self)@
            }),
            r == old(self)@.children.len() + 1,
    {
        self.children.push(child);
        proof {
            assert(self@.children =~= old(self)@.children.push(child@));
        }
        self.children.len()
    }

    /// Inserts a child at the given position, shifting later children.
    pub fn append(&mut self, child: BaseItem<'a>, index: usize)
        requires
            index <= old(self)@.children.len(),
        ensures
            final(self)@ == (Node {
                children: old(self)@.children.insert(index as int, child@),
                ..old(self)@
            }),
    {
        self.children.insert(index, child);
        proof {
            assert(self@.children =~= old(self)@.children.insert(index as int, child@));
        }
    }

    /// Lays out the whole tree: size then arrangement on axis 0, then
    /// size and arrangement on axis 1.  Wrapping decisions taken while
    /// arranging axis 0 set break flags that the axis 1 size pass reads.
    /// The precondition is the engine's documented demand that every
    /// position and extent computed for the tree stays within the 16-bit
    /// coordinate range.
    pub fn run(&mut self)
        requires
            model::run_fits(old(self)@),
        ensures
            final(self)@ == model::run(old(self)@),
    {
        let ghost t0 = self@;
        let mut tree = BaseItem::new("", 0, 0, [0i16, 0i16]);
        core::mem::swap(self, &mut tree);
        let ghost t1 = model::calc_size(t0, 0);
        let ghost t2 = model::arrange_from(t1, t1, 0);
        let ghost t3 = model::calc_size(t2, 1);
        proof {
            model::lemma_calc_bounded(t0, 0);
            model::lemma_arrange_bounded(t1, t1, 0);
            model::lemma_calc_bounded(t2, 1);
            assert(model::arrange(t1, 0) == t2);
        }
        let tree = crate::engine::calc_size_x(tree, 0, Ghost(t0));
        let tree = crate::engine::arrange_x(tree, 0, Ghost(t1));
        let tree = crate::engine::calc_size_x(tree, 1, Ghost(t2));
        let tree = crate::engine::arrange_x(tree, 1, Ghost(t3));
        proof {
            assert(view_item(tree) == model::run(t0));
        }
        *self = tree;
    }

    /// Dispatches a click: children are offered the event first, in
    /// order, and the node itself takes it only when the position falls
    /// inside its rectangle.  The base item's own hook consumes nothing,
    /// so with a bare tree the event always falls through.
    pub fn click(&mut self, pos: LayVec2) -> (r: bool)
        ensures
            *final(self) == *old(self),
            r == click_spec(old(self)@, pos[0] as int, pos[1] as int),
    {
        self.click_ref(pos)
    }

    fn click_ref(&self, pos: LayVec2) -> (r: bool)
        ensures
            r == click_spec(self@, pos[0] as int, pos[1] as int),
        decreases model::size_of(self@),
    {
        let n = self.children.len();
        let mut i: usize = 0;
        while i < n
            invariant
                i <= n == self@.children.len(),
                forall|j: int| 0 <= j < i
                    ==> !click_spec(#[trigger] self@.children[j], pos[0] as int, pos[1] as int),
            decreases n - i,
        {
            proof {
                crate::engine::lemma_size_child(self@, i as int);
            }
            if self.children[i].click_ref(pos) {
                return true;
            }
            i = i + 1;
        }
        if pos[0] >= self.rect[0] && (pos[0] as i32) < self.rect[0] as i32 + self.rect[2] as i32
            && pos[1] >= self.rect[1]
            && (pos[1] as i32) < self.rect[1] as i32 + self.rect[3] as i32 {
            // The event lands here; the base item's own hook leaves it
            // unconsumed.
            return false;
        }
        false
    }

    /// Dispatches a key event: children are offered the event first, in
    /// order, then the node itself.  The base item's own hook consumes
    /// nothing, so with a bare tree the event always falls through.
    pub fn key(&mut self, key: u32, event: u32) -> (r: bool)
        ensures
            *final(self) == *old(self),
            r == key_spec(old(self)@),
    {
        self.key_ref(key, event)
    }

    fn key_ref(&self, key: u32, event: u32) -> (r: bool)
        ensures
            r == key_spec(self@),
        decreases model::size_of(self@),
    {
        let n = self.children.len();
        let mut i: usize = 0;
        while i < n
            invariant
                i <= n == self@.children.len(),
                forall|j: int| 0 <= j < i ==> !key_spec(#[trigger] self@.children[j]),
            decreases n - i,
        {
            proof {
                crate::engine::lemma_size_child(self@, i as int);
            }
            if self.children[i].key_ref(key, event) {
                return true;
            }
            i = i + 1;
        }
        false
    }

    /// The computed rectangle: `[x, y, width, height]`.
    pub fn position(&self) -> (r: LayVec4)
        ensures
            quad_of(r) == self@.rect,
    {
        self.rect
    }

    /// Number of children of this node.
    pub fn num_children(&self) -> (r: usize)
        ensures
            r == self@.children.len(),
    {
        self.children.len()
    }

    /// Read access to the child at `index`.
    pub fn child(&self, index: usize) -> (r: &BaseItem<'a>)
        requires
            index < self@.children.len(),
        ensures
            r@ == self@.children[index as int],
    {
        &self.children[index]
    }
}

impl<'a> LayoutItem<'a> for BaseItem<'a> {
    fn base(&self) -> &BaseItem<'a> {
        self
    }

    fn base_mut(&mut self) -> &mut BaseItem<'a> {
        self
    }

    fn handle_click(&mut self, _pos: LayVec2) -> bool {
        false
    }

    fn handle_key(&mut self, _key: u32, _event: u32) -> bool {
        false
    }
}

} // verus!
