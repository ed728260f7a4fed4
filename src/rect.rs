//! Free rectangles of an atlas page and the rule that merges two of them.

use vstd::prelude::*;

verus! {

/// A region of the page as `(x, y, width, height)` over the integers.
pub type Area = (int, int, int, int);

/// An axis-aligned rectangle of free space on a page, in pixels.
#[derive(Clone, Copy, Debug, PartialEq, Eq, Structural)]
pub struct Rect {
    pub x: u32,
    pub y: u32,
    pub width: u32,
    pub height: u32,
}

impl Rect {
    pub open spec fn area(self) -> Area {
        (self.x as int, self.y as int, self.width as int, self.height as int)
    }

    /// Both far edges are representable as `u32`.
    pub open spec fn representable(self) -> bool {
        self.x + self.width <= u32::MAX && self.y + self.height <= u32::MAX
    }

    pub open spec fn nonempty(self) -> bool {
        self.width > 0 && self.height > 0
    }

    pub open spec fn size(self) -> int {
        self.width as int * self.height as int
    }

    /// Wide and tall enough for a `w` by `h` block.
    pub open spec fn fits(self, w: int, h: int) -> bool {
        self.width >= w && self.height >= h
    }
}

pub open spec fn positive(a: Area) -> bool {
    a.2 > 0 && a.3 > 0
}

/// `a` lies inside `b`.
pub open spec fn within(a: Area, b: Area) -> bool {
    b.0 <= a.0 && a.0 + a.2 <= b.0 + b.2 && b.1 <= a.1 && a.1 + a.3 <= b.1 + b.3
}

/// Pixel `(px, py)` lies in `a`.
pub open spec fn contains(a: Area, px: int, py: int) -> bool {
    a.0 <= px < a.0 + a.2 && a.1 <= py < a.1 + a.3
}

/// `a` and `b` share no pixel.
pub open spec fn disjoint(a: Area, b: Area) -> bool {
    a.0 + a.2 <= b.0 || b.0 + b.2 <= a.0 || a.1 + a.3 <= b.1 || b.1 + b.3 <= a.1
}

/// `a` sits directly above `b`, the two sharing a full horizontal edge.
pub open spec fn stacks_above(a: Rect, b: Rect) -> bool {
    a.x == b.x && a.width == b.width && a.y + a.height == b.y
}

/// `a` sits directly left of `b`, the two sharing a full vertical edge.
pub open spec fn stacks_left(a: Rect, b: Rect) -> bool {
    a.y == b.y && a.height == b.height && a.x + a.width == b.x
}

/// The rectangle that `a` and `b` form together, when they share a full edge
/// with `a` above or left of `b`.
pub open spec fn merge_of(a: Rect, b: Rect) -> Option<Rect> {
    if stacks_above(a, b) {
        Some(Rect { x: a.x, y: a.y, width: a.width, height: (a.height + b.height) as u32 })
    } else if stacks_left(a, b) {
        Some(Rect { x: a.x, y: a.y, width: (a.width + b.width) as u32, height: a.height })
    } else {
        None
    }
}

/// Merges `rect1` with `rect2` when `rect1` lies directly above or directly
/// left of `rect2` and the two share that whole edge.
pub fn try_merge_rects(rect1: Rect, rect2: Rect) -> (r: Option<Rect>)
    requires
        rect1.representable(),
        rect2.representable(),
    ensures
        r == merge_of(rect1, rect2),
{
    if rect1.x == rect2.x && rect1.width == rect2.width && rect1.y as u64 + rect1.height as u64
        == rect2.y as u64 {
        Some(Rect { x: rect1.x, y: rect1.y, width: rect1.width, height: rect1.height + rect2.height })
    } else if rect1.y == rect2.y && rect1.height == rect2.height && rect1.x as u64
        + rect1.width as u64 == rect2.x as u64 {
        Some(Rect { x: rect1.x, y: rect1.y, width: rect1.width + rect2.width, height: rect1.height })
    } else {
        None
    }
}

/// A merged rectangle covers exactly its two parts: it stays inside any region
/// holding both, is nonempty, and misses every nonempty region that both miss.
pub proof fn lemma_merge_region(a: Rect, b: Rect, bound: Area, c: Area)
    requires
        merge_of(a, b) is Some,
        a.nonempty(),
        b.nonempty(),
        a.representable(),
        b.representable(),
        within(a.area(), bound),
        within(b.area(), bound),
    ensures
        within(merge_of(a, b)->Some_0.area(), bound),
        merge_of(a, b)->Some_0.nonempty(),
        positive(c) && disjoint(c, a.area()) && disjoint(c, b.area()) ==> disjoint(
            c,
            merge_of(a, b)->Some_0.area(),
        ),
{
}

/// A region inside `a` misses whatever `a` misses.
pub proof fn lemma_within_disjoint(inner: Area, a: Area, c: Area)
    requires
        within(inner, a),
        disjoint(a, c),
    ensures
        disjoint(inner, c),
{
}

} // verus!
