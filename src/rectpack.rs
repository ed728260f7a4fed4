//! An alternative packer: a binary tree of page regions, stored as an arena
//! of nodes addressed by index.

use vstd::prelude::*;

verus! {

/// A page region bounded by its edges, in pixels.
#[derive(Clone, Copy)]
pub struct Rectangle {
    pub left: u32,
    pub top: u32,
    pub right: u32,
    pub bottom: u32,
}

impl Rectangle {
    /// The right edge is not left of the left edge, nor the bottom above the top.
    pub open spec fn wf(self) -> bool {
        self.left <= self.right && self.top <= self.bottom
    }

    pub open spec fn spec_width(self) -> int {
        self.right - self.left
    }

    pub open spec fn spec_height(self) -> int {
        self.bottom - self.top
    }

    pub fn width(&self) -> (r: u32)
        requires
            self.left <= self.right,
        ensures
            r == self.spec_width(),
    {
        self.right - self.left
    }

    pub fn height(&self) -> (r: u32)
        requires
            self.top <= self.bottom,
        ensures
            r == self.spec_height(),
    {
        self.bottom - self.top
    }

    /// The image fits inside.
    pub fn fits(&self, img: &Image) -> (r: bool)
        requires
            self.wf(),
        ensures
            r == (self.spec_width() >= img.width && self.spec_height() >= img.height),
    {
        self.width() >= img.width && self.height() >= img.height
    }

    /// The image has exactly this size.
    pub fn fits_perfectly(&self, img: &Image) -> (r: bool)
        requires
            self.wf(),
        ensures
            r == (self.spec_width() == img.width && self.spec_height() == img.height),
    {
        self.width() == img.width && self.height() == img.height
    }
}

/// An image to place, by identifier and size.
pub struct Image {
    pub id: String,
    pub width: u32,
    pub height: u32,
}

/// One region of the tree: a leaf, or split into two children.
pub struct Node {
    first: Option<usize>,
    second: Option<usize>,
    rect: Rectangle,
    image_id: Option<i32>,
}

/// `a` lies inside `b`.
pub open spec fn rect_within(a: Rectangle, b: Rectangle) -> bool {
    b.left <= a.left && a.right <= b.right && b.top <= a.top && a.bottom <= b.bottom
}

/// The region of the first child when `rect` is split for `img`: the image's
/// width (or height) less one pixel, along the larger leftover side.
pub open spec fn first_child_rect(rect: Rectangle, img: &Image) -> Rectangle {
    if rect.spec_width() - img.width > rect.spec_height() - img.height {
        Rectangle { left: rect.left, top: rect.top, right: (rect.left + img.width - 1) as u32, bottom: rect.bottom }
    } else {
        Rectangle { left: rect.left, top: rect.top, right: rect.right, bottom: (rect.top + img.height - 1) as u32 }
    }
}

/// The region of the second child: what lies past the image along the cut.
pub open spec fn second_child_rect(rect: Rectangle, img: &Image) -> Rectangle {
    if rect.spec_width() - img.width > rect.spec_height() - img.height {
        Rectangle { left: (rect.left + img.width) as u32, top: rect.top, right: rect.right, bottom: rect.bottom }
    } else {
        Rectangle { left: rect.left, top: (rect.top + img.height) as u32, right: rect.right, bottom: rect.bottom }
    }
}

/// Every node's region is well formed, and a split node has two children
/// stored after it, each inside its region.
pub open spec fn arena_ok(nodes: Seq<Node>) -> bool {
    forall|i: int|
        0 <= i < nodes.len() ==> (#[trigger] nodes[i]).spec_rect().wf() && match nodes[i].spec_children() {
            (None, None) => true,
            (Some(a), Some(b)) => i < a < nodes.len() && i < b < nodes.len() && rect_within(
                nodes[a as int].spec_rect(),
                nodes[i].spec_rect(),
            ) && rect_within(nodes[b as int].spec_rect(), nodes[i].spec_rect()),
            _ => false,
        }
}

/// The children of node `i`, if it is split.
pub open spec fn children(nodes: Seq<Node>, i: int) -> (Option<usize>, Option<usize>) {
    nodes[i].spec_children()
}

/// A single free leaf over a well-formed region is a valid tree.
pub proof fn lemma_single_leaf(node: Node)
    requires
        node.is_free_leaf(),
        node.spec_rect().wf(),
    ensures
        arena_ok(seq![node]),
{
    assert(seq![node][0] == node);
}

/// The leaf reached from node `i` by always taking the first child.
pub open spec fn leaf_of(nodes: Seq<Node>, i: int) -> int
    decreases nodes.len() - i,
{
    if 0 <= i < nodes.len() && nodes[i].spec_children().0 is Some && i
        < nodes[i].spec_children().0->Some_0 < nodes.len() {
        leaf_of(nodes, nodes[i].spec_children().0->Some_0 as int)
    } else {
        i
    }
}

pub open spec fn node_rect(nodes: Seq<Node>, i: int) -> Rectangle {
    nodes[i].spec_rect()
}

pub open spec fn is_taken(nodes: Seq<Node>, i: int) -> bool {
    nodes[i].spec_taken()
}

/// Following first children from `i` ends at a leaf stored at or after `i`,
/// whose region lies inside that of `i`; from a leaf it ends at once.
pub proof fn lemma_leaf_of(nodes: Seq<Node>, i: int)
    requires
        arena_ok(nodes),
        0 <= i < nodes.len(),
    ensures
        i <= leaf_of(nodes, i) < nodes.len(),
        children(nodes, leaf_of(nodes, i)) == (None::<usize>, None::<usize>),
        rect_within(node_rect(nodes, leaf_of(nodes, i)), node_rect(nodes, i)),
        children(nodes, i).0 is None ==> leaf_of(nodes, i) == i,
    decreases nodes.len() - i,
{
    let _ = nodes[i];
    if nodes[i].spec_children().0 is Some {
        lemma_leaf_of(nodes, nodes[i].spec_children().0->Some_0 as int);
    }
}

impl Node {
    pub closed spec fn spec_rect(&self) -> Rectangle {
        self.rect
    }

    /// The indices of the two children, when the node is split.
    pub closed spec fn spec_children(&self) -> (Option<usize>, Option<usize>) {
        (self.first, self.second)
    }

    /// The node holds an image.
    pub closed spec fn spec_taken(&self) -> bool {
        self.image_id is Some
    }

    /// A leaf that holds no image.
    pub open spec fn is_free_leaf(&self) -> bool {
        self.spec_children() == (None::<usize>, None::<usize>) && !self.spec_taken()
    }

    /// An empty leaf covering `rect`.
    pub fn new(rect: Rectangle) -> (r: Self)
        ensures
            r.spec_rect() == rect,
            r.is_free_leaf(),
    {
        Node { first: None, second: None, rect, image_id: None }
    }

    /// Follows first children from `root` down to a leaf. A free leaf that
    /// the image fits exactly is returned. A free leaf that the image fits
    /// loosely is split across its larger leftover side into two children,
    /// the first one pixel short of the image along the cut; the image fits
    /// neither, so nothing is returned. Otherwise nothing changes.
    pub fn insert(nodes: &mut Vec<Node>, root: usize, img: &Image) -> (r: Option<usize>)
        requires
            arena_ok(old(nodes)@),
            root < old(nodes)@.len(),
            old(nodes)@.len() + 2 <= usize::MAX,
            img.width >= 1,
            img.height >= 1,
        ensures
            arena_ok(final(nodes)@),
            r is Some ==> r->Some_0 < old(nodes)@.len(),
            ({
                let k = leaf_of(old(nodes)@, root as int);
                let rect = node_rect(old(nodes)@, k);
                &&& rect_within(rect, node_rect(old(nodes)@, root as int))
                &&& (if !is_taken(old(nodes)@, k) && rect.spec_width() == img.width && rect.spec_height()
                    == img.height {
                    r == Some(k as usize) && final(nodes)@ == old(nodes)@
                } else if !is_taken(old(nodes)@, k) && rect.spec_width() >= img.width
                    && rect.spec_height() >= img.height {
                    &&& r is None
                    &&& final(nodes)@.len() == old(nodes)@.len() + 2
                    &&& children(final(nodes)@, k) == (Some(old(nodes)@.len() as usize), Some((old(nodes)@.len() + 1) as usize))
                    &&& node_rect(final(nodes)@, k) == rect
                    &&& node_rect(final(nodes)@, old(nodes)@.len() as int) == first_child_rect(rect, img)
                    &&& node_rect(final(nodes)@, old(nodes)@.len() as int + 1) == second_child_rect(rect, img)
                    &&& forall|i: int| 0 <= i < old(nodes)@.len() && i != k ==> #[trigger] final(nodes)@[i] == old(nodes)@[i]
                } else {
                    r is None && final(nodes)@ == old(nodes)@
                })
            }),
    {
        proof {
            lemma_leaf_of(nodes@, root as int);
        }
        let mut cur = root;
        while nodes[cur].first.is_some()
            invariant
                arena_ok(nodes@),
                nodes@ == old(nodes)@,
                cur < nodes@.len(),
                leaf_of(nodes@, cur as int) == leaf_of(nodes@, root as int),
            decreases nodes@.len() - cur,
        {
            proof { let _ = nodes@[cur as int]; }
            cur = match nodes[cur].first {
                Some(c) => c,
                None => cur,
            };
        }
        proof { let _ = nodes@[cur as int]; }
        if nodes[cur].image_id.is_some() {
            return None;
        }
        let rect = nodes[cur].rect;
        if !rect.fits(img) {
            return None;
        }
        if rect.fits_perfectly(img) {
            return Some(cur);
        }
        let dw = rect.width() - img.width;
        let dh = rect.height() - img.height;
        let (child0_rect, child1_rect) = if dw > dh {
            (
                Rectangle {
                    left: rect.left,
                    top: rect.top,
                    right: rect.left + img.width - 1,
                    bottom: rect.bottom,
                },
                Rectangle { left: rect.left + img.width, top: rect.top, right: rect.right, bottom: rect.bottom },
            )
        } else {
            (
                Rectangle {
                    left: rect.left,
                    top: rect.top,
                    right: rect.right,
                    bottom: rect.top + img.height - 1,
                },
                Rectangle { left: rect.left, top: rect.top + img.height, right: rect.right, bottom: rect.bottom },
            )
        };
        let first = nodes.len();
        nodes.push(Node::new(child0_rect));
        nodes.push(Node::new(child1_rect));
        let image_id = nodes[cur].image_id;
        nodes.set(cur, Node { first: Some(first), second: Some(first + 1), rect, image_id });
        proof {
            assert forall|i: int| 0 <= i < nodes@.len() implies (#[trigger] nodes@[i]).rect.wf() && match (
                nodes@[i].first,
                nodes@[i].second,
            ) {
                (None, None) => true,
                (Some(a), Some(b)) => i < a < nodes@.len() && i < b < nodes@.len(),
                _ => false,
            } by {
                if i < old(nodes)@.len() && i != cur {
                    let _ = old(nodes)@[i];
                }
            }
        }
        None
    }
}

} // verus!
