//! The guillotine placer: one page's free space, best-area-fit selection,
//! guillotine splits and merging of adjacent free rectangles.

use vstd::prelude::*;
use crate::rect::{
    contains, disjoint, lemma_merge_region, lemma_within_disjoint, merge_of, positive, try_merge_rects,
    within, Area, Rect,
};

verus! {

/// `v` is a power of two.
pub open spec fn is_power_of_two(v: nat) -> bool
    decreases v,
{
    v >= 1 && (v == 1 || (v % 2 == 0 && is_power_of_two(v / 2)))
}

/// `p` is the least power of two that is at least `n`.
pub open spec fn is_next_power_of_two(n: nat, p: nat) -> bool {
    is_power_of_two(p) && n <= p && (p == 1 || p / 2 < n)
}

/// Of two powers of two, a smaller one is at most half the larger.
proof fn lemma_power_of_two_gap(p: nat, q: nat)
    requires
        is_power_of_two(p),
        is_power_of_two(q),
        p < q,
    ensures
        2 * p <= q,
    decreases q,
{
    if p > 1 {
        lemma_power_of_two_gap(p / 2, q / 2);
    }
}

/// The least power of two that is at least `n`.
fn next_power_of_two(n: u32) -> (r: u32)
    requires
        n <= 0x8000_0000,
    ensures
        is_next_power_of_two(n as nat, r as nat),
{
    let mut p: u32 = 1;
    while p < n
        invariant
            n <= 0x8000_0000,
            1 <= p <= 0x8000_0000,
            is_power_of_two(p as nat),
            p == 1 || p / 2 < n,
        decreases 0x8000_0000 - p,
    {
        proof {
            reveal_with_fuel(is_power_of_two, 33);
            assert(is_power_of_two(0x8000_0000nat));
            lemma_power_of_two_gap(p as nat, 0x8000_0000nat);
        }
        assert(is_power_of_two((2 * p) as nat)) by {
            assert((2 * p) as nat / 2 == p as nat);
        }
        p = p * 2;
    }
    p
}

/// Page size and padding for one atlas page.
#[derive(Debug, Clone)]
pub struct TexturePlacerConfig {
    pub width: u32,
    pub height: u32,
    pub padding: u32,
}

impl TexturePlacerConfig {
    /// Both page sides are powers of two.
    pub open spec fn wf(self) -> bool {
        is_power_of_two(self.width as nat) && is_power_of_two(self.height as nat)
    }

    /// The whole page as a free rectangle.
    pub open spec fn page(self) -> Rect {
        Rect { x: 0, y: 0, width: self.width, height: self.height }
    }

    /// Rounds each side up to the next power of two.
    pub fn new(width: u32, height: u32, padding: u32) -> (r: Self)
        requires
            width <= 0x8000_0000,
            height <= 0x8000_0000,
        ensures
            is_next_power_of_two(width as nat, r.width as nat),
            is_next_power_of_two(height as nat, r.height as nat),
            r.padding == padding,
            r.wf(),
    {
        let w = next_power_of_two(width);
        let h = next_power_of_two(height);
        TexturePlacerConfig { width: w, height: h, padding }
    }

    pub fn width(&self) -> (r: u32)
        ensures
            r == self.width,
    {
        self.width
    }

    pub fn height(&self) -> (r: u32)
        ensures
            r == self.height,
    {
        self.height
    }

    pub fn padding(&self) -> (r: u32)
        ensures
            r == self.padding,
    {
        self.padding
    }
}

impl Default for TexturePlacerConfig {
    /// A 1024 by 1024 page without padding.
    fn default() -> (r: Self)
        ensures
            r.width == 1024 && r.height == 1024 && r.padding == 0,
    {
        TexturePlacerConfig { width: 1024, height: 1024, padding: 0 }
    }
}

/// Where one texture landed: its page and its pixel box there.
#[derive(Debug)]
pub struct PlacedTextureGeometry {
    pub cluster_id: String,
    pub atlas_id: usize,
    /// Pixel coordinates of the top-left corner on the page.
    pub origin: (u32, u32),
    pub width: u32,
    pub height: u32,
}

impl PlacedTextureGeometry {
    /// The pixels reserved for this texture: its box widened by `padding` to
    /// the left and to the top.
    pub open spec fn footprint(self, padding: u32) -> Area {
        (
            self.origin.0 - padding,
            self.origin.1 - padding,
            self.width + padding,
            self.height + padding,
        )
    }

    /// A copy with the same fields.
    pub fn duplicate(&self) -> (r: Self)
        ensures
            r == *self,
    {
        PlacedTextureGeometry {
            cluster_id: self.cluster_id.clone(),
            atlas_id: self.atlas_id,
            origin: self.origin,
            width: self.width,
            height: self.height,
        }
    }

    /// The page pixel at local pixel `(x, y)` of this texture.
    pub open spec fn page_pixel(self, x: int, y: int) -> (int, int) {
        (self.origin.0 + x, self.origin.1 + y)
    }

    /// The local pixel of this texture at page pixel `(x, y)`.
    pub open spec fn local_pixel(self, x: int, y: int) -> (int, int) {
        (x - self.origin.0, y - self.origin.1)
    }

    /// Going from a local pixel to the page and back gives the local pixel.
    pub proof fn lemma_pixel_round_trip(self, x: int, y: int)
        ensures
            ({
                let (px, py) = self.page_pixel(x, y);
                self.local_pixel(px, py) == (x, y)
            }),
    {
    }

    /// The page pixel of the local pixel `(x, y)` of this texture.
    pub fn to_page_pixel(&self, x: u32, y: u32) -> (r: (u64, u64))
        ensures
            (r.0 as int, r.1 as int) == self.page_pixel(x as int, y as int),
    {
        (self.origin.0 as u64 + x as u64, self.origin.1 as u64 + y as u64)
    }

    /// The local pixel of this texture at page pixel `(x, y)`, when the page
    /// pixel is not above or left of the origin.
    pub fn to_local_pixel(&self, x: u64, y: u64) -> (r: Option<(u64, u64)>)
        ensures
            match r {
                Some(l) => x >= self.origin.0 && y >= self.origin.1 && (l.0 as int, l.1 as int)
                    == self.local_pixel(x as int, y as int),
                None => x < self.origin.0 || y < self.origin.1,
            },
    {
        if x >= self.origin.0 as u64 && y >= self.origin.1 as u64 {
            Some((x - self.origin.0 as u64, y - self.origin.1 as u64))
        } else {
            None
        }
    }
}

/// A texture's side after scaling: never below one pixel.
pub open spec fn scaled(d: u32) -> int {
    if d == 0 {
        1
    } else {
        d as int
    }
}

/// Some rectangle of `free` is at least `w` by `h`.
pub open spec fn any_fits(free: Seq<Rect>, w: int, h: int) -> bool {
    exists|j: int| 0 <= j < free.len() && #[trigger] free[j].fits(w, h)
}

/// `free[k]` is the smallest rectangle of `free` at least `w` by `h`, and the
/// first of that size.
pub open spec fn is_best_fit(free: Seq<Rect>, k: int, w: int, h: int) -> bool {
    &&& 0 <= k < free.len()
    &&& free[k].fits(w, h)
    &&& forall|j: int|
        0 <= j < free.len() && #[trigger] free[j].fits(w, h) ==> free[k].size() <= free[j].size()
    &&& forall|j: int| 0 <= j < k && #[trigger] free[j].fits(w, h) ==> free[k].size() < free[j].size()
}

/// The records of one page are inside it, and their footprints pairwise
/// share no pixel.
pub open spec fn page_layout_ok(config: TexturePlacerConfig, placed: Seq<PlacedTextureGeometry>) -> bool {
    &&& forall|i: int|
        0 <= i < placed.len() ==> (#[trigger] placed[i]).origin.0 >= config.padding
            && placed[i].origin.1 >= config.padding && placed[i].width >= 1
            && placed[i].height >= 1
            && within(placed[i].footprint(config.padding), config.page().area())
    &&& forall|i: int, j: int|
        0 <= i < placed.len() && 0 <= j < placed.len() && i != j ==> disjoint(
            #[trigger] placed[i].footprint(config.padding),
            #[trigger] placed[j].footprint(config.padding),
        )
}

/// Free rectangles that are nonempty, inside the page, and pairwise disjoint.
pub open spec fn free_list_ok(page: Rect, free: Seq<Rect>) -> bool {
    &&& forall|i: int|
        0 <= i < free.len() ==> (#[trigger] free[i]).nonempty() && free[i].representable()
            && within(free[i].area(), page.area())
    &&& forall|i: int, j: int|
        0 <= i < free.len() && 0 <= j < free.len() && i != j ==> disjoint(
            #[trigger] free[i].area(),
            #[trigger] free[j].area(),
        )
}

/// Region `c` shares no pixel with any rectangle of `free`.
pub open spec fn misses_all(c: Area, free: Seq<Rect>) -> bool {
    forall|i: int| 0 <= i < free.len() ==> disjoint(c, #[trigger] free[i].area())
}

/// Pixel `(px, py)` lies in some rectangle of `free`.
pub open spec fn covers(free: Seq<Rect>, px: int, py: int) -> bool {
    exists|i: int| 0 <= i < free.len() && contains((#[trigger] free[i]).area(), px, py)
}

/// No two rectangles of `free` share a full edge.
pub open spec fn fully_merged(free: Seq<Rect>) -> bool {
    forall|i: int, j: int|
        0 <= i < free.len() && 0 <= j < free.len() && i != j ==> #[trigger] merge_of(free[i], free[j])
            is None
}

/// `after` is what merging makes of `before`: a valid free list in which no
/// two rectangles share a full edge, that covers every pixel `before`
/// covered, misses every nonempty region `before` missed, and is `before`
/// itself when nothing could merge.
pub open spec fn merge_result(page: Rect, before: Seq<Rect>, after: Seq<Rect>) -> bool {
    &&& free_list_ok(page, after)
    &&& after.len() <= before.len()
    &&& fully_merged(after)
    &&& fully_merged(before) ==> after == before
    &&& forall|c: Area| positive(c) && misses_all(c, before) ==> #[trigger] misses_all(c, after)
    &&& forall|px: int, py: int| covers(before, px, py) ==> #[trigger] covers(after, px, py)
}

/// Merging twice leaves the free list as merging once did.
pub proof fn lemma_merge_idempotent(page: Rect, before: Seq<Rect>, once: Seq<Rect>, twice: Seq<Rect>)
    requires
        merge_result(page, before, once),
        merge_result(page, once, twice),
    ensures
        twice == once,
{
}

/// Where the rectangle at index `k` came from, once index `j` was removed.
pub open spec fn source_index(k: int, j: int) -> int {
    if k < j {
        k
    } else {
        k + 1
    }
}

/// Replacing `free[i]` by its merge with `free[j]` and dropping `free[j]`
/// keeps a valid free list and keeps missing what it missed.
proof fn lemma_merge_step(page: Rect, free: Seq<Rect>, i: int, j: int)
    requires
        free_list_ok(page, free),
        0 <= i < free.len(),
        0 <= j < free.len(),
        i != j,
        merge_of(free[i], free[j]) is Some,
    ensures
        ({
            let next = free.update(i, merge_of(free[i], free[j])->Some_0).remove(j);
            &&& free_list_ok(page, next)
            &&& forall|c: Area| positive(c) && misses_all(c, free) ==> #[trigger] misses_all(c, next)
            &&& forall|px: int, py: int| covers(free, px, py) ==> #[trigger] covers(next, px, py)
        }),
{
    let m = merge_of(free[i], free[j])->Some_0;
    let next = free.update(i, m).remove(j);
    assert forall|k: int| 0 <= k < next.len() implies #[trigger] next[k] == (if source_index(k, j)
        == i {
        m
    } else {
        free[source_index(k, j)]
    }) by {}
    lemma_merge_region(free[i], free[j], page.area(), free[i].area());
    assert forall|k: int| 0 <= k < next.len() implies #[trigger] next[k].nonempty()
        && next[k].representable() && within(next[k].area(), page.area()) by {
        let _ = next[k];
    }
    assert forall|p: int, q: int|
        0 <= p < next.len() && 0 <= q < next.len() && p != q implies disjoint(
        #[trigger] next[p].area(),
        #[trigger] next[q].area(),
    ) by {
        let sp = source_index(p, j);
        let sq = source_index(q, j);
        if sp == i {
            lemma_merge_region(free[i], free[j], page.area(), free[sq].area());
        } else if sq == i {
            lemma_merge_region(free[i], free[j], page.area(), free[sp].area());
        }
    }
    assert forall|c: Area| positive(c) && misses_all(c, free) implies #[trigger] misses_all(c, next) by {
        lemma_merge_region(free[i], free[j], page.area(), c);
        assert forall|k: int| 0 <= k < next.len() implies disjoint(c, #[trigger] next[k].area()) by {
            let _ = free[source_index(k, j)];
        }
    }
    assert forall|px: int, py: int| covers(free, px, py) implies #[trigger] covers(next, px, py) by {
        let k = choose|k: int| 0 <= k < free.len() && contains((#[trigger] free[k]).area(), px, py);
        let at_i = if i < j { i } else { i - 1 };
        if k == i || k == j {
            assert(source_index(at_i, j) == i);
            assert(contains(next[at_i].area(), px, py));
        } else {
            let at_k = if k < j { k } else { k - 1 };
            assert(source_index(at_k, j) == k);
            assert(contains(next[at_k].area(), px, py));
        }
    }
}

/// Why a texture could not be placed.
#[derive(Debug, Clone, Copy, PartialEq, Eq, Structural)]
pub enum PlacementError {
    /// The texture does not fit even on an empty page.
    TooLarge,
}

/// The strip right of a `w` by `h` block placed with padding `p` in the
/// corner of `r`; it spans the block's height when `r` is at most as wide as
/// it is tall, else all of `r`'s height.
pub open spec fn right_piece(r: Rect, w: int, h: int, p: int) -> Rect {
    Rect {
        x: (r.x + w + p) as u32,
        y: r.y,
        width: (r.width - w - p) as u32,
        height: if r.width <= r.height {
            h as u32
        } else {
            r.height
        },
    }
}

/// The strip below the block; it spans all of `r`'s width when `r` is at most
/// as wide as it is tall, else the block's width.
pub open spec fn bottom_piece(r: Rect, w: int, h: int, p: int) -> Rect {
    Rect {
        x: r.x,
        y: (r.y + h + p) as u32,
        width: if r.width <= r.height {
            r.width
        } else {
            w as u32
        },
        height: (r.height - h - p) as u32,
    }
}

/// The nonempty strips left of `r` by a guillotine cut: right, then bottom.
pub open spec fn split_pieces(r: Rect, w: int, h: int, p: int) -> Seq<Rect> {
    let right = right_piece(r, w, h, p);
    let bottom = bottom_piece(r, w, h, p);
    (if right.nonempty() {
        seq![right]
    } else {
        seq![]
    }) + (if bottom.nonempty() {
        seq![bottom]
    } else {
        seq![]
    })
}

/// The record of a `w` by `h` texture placed in the corner of `r`.
pub open spec fn placed_at(
    r: Rect,
    w: int,
    h: int,
    p: int,
    cluster_id: String,
    atlas_id: usize,
) -> PlacedTextureGeometry {
    PlacedTextureGeometry {
        cluster_id,
        atlas_id,
        origin: ((r.x + p) as u32, (r.y + p) as u32),
        width: w as u32,
        height: h as u32,
    }
}

/// The free list once `free[k]` is taken by a `w` by `h` texture and split.
pub open spec fn after_split(free: Seq<Rect>, k: int, w: int, h: int, p: int) -> Seq<Rect> {
    free.remove(k) + split_pieces(free[k], w, h, p)
}

/// Taking `free[k]` for a new texture and adding its strips keeps the page's
/// free list valid and every footprint, the new one included, outside it.
proof fn lemma_place_step(
    config: TexturePlacerConfig,
    free: Seq<Rect>,
    used: Seq<PlacedTextureGeometry>,
    k: int,
    w: int,
    h: int,
    cluster_id: String,
    atlas_id: usize,
)
    requires
        free_list_ok(config.page(), free),
        page_layout_ok(config, used),
        forall|i: int|
            0 <= i < used.len() ==> misses_all(#[trigger] used[i].footprint(config.padding), free),
        0 <= k < free.len(),
        1 <= w <= u32::MAX,
        1 <= h <= u32::MAX,
        free[k].fits(w + config.padding, h + config.padding),
    ensures
        ({
            let p = config.padding as int;
            let free2 = after_split(free, k, w, h, p);
            let used2 = used.push(placed_at(free[k], w, h, p, cluster_id, atlas_id));
            &&& free_list_ok(config.page(), free2)
            &&& page_layout_ok(config, used2)
            &&& forall|i: int|
                0 <= i < used2.len() ==> positive(#[trigger] used2[i].footprint(config.padding))
                    && misses_all(used2[i].footprint(config.padding), free2)
        }),
{
    let p = config.padding as int;
    let page = config.page().area();
    let r = free[k];
    let g = placed_at(r, w, h, p, cluster_id, atlas_id);
    let f = g.footprint(config.padding);
    assert(f == (r.x as int, r.y as int, w + p, h + p));
    let rest = free.remove(k);
    let pieces = split_pieces(r, w, h, p);
    let free2 = after_split(free, k, w, h, p);
    let used2 = used.push(g);
    assert forall|a: int| 0 <= a < rest.len() implies #[trigger] rest[a] == free[source_index(a, k)] by {}
    assert forall|q: int| 0 <= q < pieces.len() implies within((#[trigger] pieces[q]).area(), r.area())
        && disjoint(pieces[q].area(), f) && pieces[q].nonempty() && pieces[q].representable() by {}
    assert(pieces.len() == 2 ==> disjoint(pieces[0].area(), pieces[1].area()));
    assert forall|a: int| 0 <= a < free2.len() implies free2[a] == if a < rest.len() {
        free[source_index(a, k)]
    } else {
        pieces[a - rest.len()]
    } by {}
    assert forall|a: int| 0 <= a < free2.len() implies (#[trigger] free2[a]).nonempty()
        && free2[a].representable() && within(free2[a].area(), page) by {
        if a >= rest.len() {
            let _ = pieces[a - rest.len()];
        } else {
            let _ = free[source_index(a, k)];
        }
    }
    assert forall|a: int, b: int|
        0 <= a < free2.len() && 0 <= b < free2.len() && a != b implies disjoint(
        #[trigger] free2[a].area(),
        #[trigger] free2[b].area(),
    ) by {
        if a < rest.len() && b < rest.len() {
            let _ = free[source_index(a, k)];
            let _ = free[source_index(b, k)];
        } else if a < rest.len() {
            let _ = free[source_index(a, k)];
            let _ = pieces[b - rest.len()];
            lemma_within_disjoint(free2[b].area(), r.area(), free2[a].area());
        } else if b < rest.len() {
            let _ = free[source_index(b, k)];
            let _ = pieces[a - rest.len()];
            lemma_within_disjoint(free2[a].area(), r.area(), free2[b].area());
        } else {
            let _ = pieces[a - rest.len()];
            let _ = pieces[b - rest.len()];
        }
    }
    assert forall|i: int| 0 <= i < used.len() implies disjoint(
        f,
        #[trigger] used[i].footprint(config.padding),
    ) by {
        let _ = free[k];
        lemma_within_disjoint(f, r.area(), used[i].footprint(config.padding));
    }
    assert forall|i: int| 0 <= i < used2.len() implies (#[trigger] used2[i]).origin.0
        >= config.padding && used2[i].origin.1 >= config.padding && used2[i].width >= 1
        && used2[i].height >= 1 && within(used2[i].footprint(config.padding), page) by {
        if i < used.len() {
            let _ = used[i];
        }
    }
    assert forall|i: int, j: int|
        0 <= i < used2.len() && 0 <= j < used2.len() && i != j implies disjoint(
        #[trigger] used2[i].footprint(config.padding),
        #[trigger] used2[j].footprint(config.padding),
    ) by {
        if i < used.len() && j < used.len() {
            let _ = used[i].footprint(config.padding);
            let _ = used[j].footprint(config.padding);
        } else if i < used.len() {
            let _ = used[i].footprint(config.padding);
        } else {
            let _ = used[j].footprint(config.padding);
        }
    }
    assert forall|i: int| 0 <= i < used2.len() implies positive(
        #[trigger] used2[i].footprint(config.padding),
    ) && misses_all(used2[i].footprint(config.padding), free2) by {
        let c = used2[i].footprint(config.padding);
        if i < used.len() {
            let _ = used[i];
            assert forall|a: int| 0 <= a < free2.len() implies disjoint(c, #[trigger] free2[a].area()) by {
                if a < rest.len() {
                    let _ = free[source_index(a, k)];
                } else {
                    let _ = pieces[a - rest.len()];
                    lemma_within_disjoint(free2[a].area(), r.area(), c);
                }
            }
        } else {
            assert forall|a: int| 0 <= a < free2.len() implies disjoint(c, #[trigger] free2[a].area()) by {
                if a < rest.len() {
                    let _ = free[source_index(a, k)];
                    lemma_within_disjoint(f, r.area(), free2[a].area());
                } else {
                    let _ = pieces[a - rest.len()];
                }
            }
        }
    }
}

/// Places textures on one page by best-area fit and guillotine splits.
pub struct GuillotineTexturePlacer {
    config: TexturePlacerConfig,
    free_rects: Vec<Rect>,
    used_rects: Vec<PlacedTextureGeometry>,
}

impl GuillotineTexturePlacer {
    pub closed spec fn spec_config(&self) -> TexturePlacerConfig {
        self.config
    }

    pub closed spec fn spec_free(&self) -> Seq<Rect> {
        self.free_rects@
    }

    /// The records placed on the current page, in placement order.
    pub closed spec fn spec_placed(&self) -> Seq<PlacedTextureGeometry> {
        self.used_rects@
    }

    pub closed spec fn wf(&self) -> bool {
        &&& self.config.wf()
        &&& free_list_ok(self.config.page(), self.free_rects@)
        &&& page_layout_ok(self.config, self.used_rects@)
        &&& forall|i: int|
            0 <= i < self.used_rects@.len() ==> misses_all(
                #[trigger] self.used_rects@[i].footprint(self.config.padding),
                self.free_rects@,
            )
        &&& self.used_rects@.len() == 0 ==> self.free_rects@ == seq![self.config.page()]
    }

    /// A placer for an empty page.
    pub fn new(config: TexturePlacerConfig) -> (r: Self)
        requires
            config.wf(),
        ensures
            r.wf(),
            r.spec_config() == config,
            r.spec_free() == seq![config.page()],
            r.spec_placed().len() == 0,
    {
        let initial_rect = Rect { x: 0, y: 0, width: config.width, height: config.height };
        let mut free_rects = Vec::new();
        free_rects.push(initial_rect);
        let r = GuillotineTexturePlacer { config, free_rects, used_rects: Vec::new() };
        assert(r.free_rects@ =~= seq![config.page()]);
        r
    }

    /// The index of the smallest free rectangle at least `width` by `height`,
    /// the first of that size.
    fn find_best_rect(&self, width: u64, height: u64) -> (r: Option<usize>)
        ensures
            match r {
                Some(k) => is_best_fit(self.free_rects@, k as int, width as int, height as int),
                None => !any_fits(self.free_rects@, width as int, height as int),
            },
    {
        let mut best: Option<usize> = None;
        let mut best_size: u64 = 0;
        let mut i: usize = 0;
        while i < self.free_rects.len()
            invariant
                i <= self.free_rects@.len(),
                match best {
                    Some(k) => k < i && best_size == self.free_rects@[k as int].size()
                        && is_best_fit(self.free_rects@.take(i as int), k as int, width as int, height as int),
                    None => !any_fits(self.free_rects@.take(i as int), width as int, height as int),
                },
            decreases self.free_rects@.len() - i,
        {
            let rect = self.free_rects[i];
            let ghost prefix = self.free_rects@.take(i as int);
            let ghost next = self.free_rects@.take(i + 1);
            assert(next == prefix.push(rect));
            if rect.width as u64 >= width && rect.height as u64 >= height {
                assert((rect.width as int) * (rect.height as int) <= u32::MAX as int * u32::MAX as int)
                    by (nonlinear_arith)
                    requires rect.width <= u32::MAX, rect.height <= u32::MAX;
                let size = rect.width as u64 * rect.height as u64;
                let better = match best {
                    Some(_) => size < best_size,
                    None => true,
                };
                if better {
                    proof {
                        assert forall|j: int| 0 <= j < next.len() && #[trigger] next[j].fits(width as int, height as int)
                            implies rect.size() <= next[j].size() by {
                            if j < i {
                                assert(prefix[j] == next[j]);
                            }
                        }
                    }
                    best = Some(i);
                    best_size = size;
                }
            }
            i = i + 1;
        }
        assert(self.free_rects@.take(self.free_rects@.len() as int) == self.free_rects@);
        best
    }
    /// Two distinct indices whose rectangles merge, with the merged rectangle.
    fn find_mergeable_pair(&self) -> (r: Option<(usize, usize, Rect)>)
        requires
            free_list_ok(self.config.page(), self.free_rects@),
        ensures
            match r {
                Some((i, j, m)) => i < self.free_rects@.len() && j < self.free_rects@.len() && i != j
                    && merge_of(self.free_rects@[i as int], self.free_rects@[j as int]) == Some(m),
                None => fully_merged(self.free_rects@),
            },
    {
        let n = self.free_rects.len();
        let mut i: usize = 0;
        while i < n
            invariant
                n == self.free_rects@.len(),
                i <= n,
                free_list_ok(self.config.page(), self.free_rects@),
                forall|a: int, b: int|
                    0 <= a < i && 0 <= b < n && a != b ==> #[trigger] merge_of(
                        self.free_rects@[a],
                        self.free_rects@[b],
                    ) is None,
            decreases n - i,
        {
            let mut j: usize = 0;
            while j < n
                invariant
                    n == self.free_rects@.len(),
                    i < n,
                    j <= n,
                    free_list_ok(self.config.page(), self.free_rects@),
                    forall|a: int, b: int|
                        0 <= a < i && 0 <= b < n && a != b ==> #[trigger] merge_of(
                            self.free_rects@[a],
                            self.free_rects@[b],
                        ) is None,
                    forall|b: int|
                        0 <= b < j && b != i ==> #[trigger] merge_of(
                            self.free_rects@[i as int],
                            self.free_rects@[b],
                        ) is None,
                decreases n - j,
            {
                if j != i {
                    if let Some(m) = try_merge_rects(self.free_rects[i], self.free_rects[j]) {
                        return Some((i, j, m));
                    }
                }
                j = j + 1;
            }
            i = i + 1;
        }
        None
    }

    /// Merges free rectangles that share a full edge until no two do.
    pub fn merge_free_rects(&mut self)
        requires
            free_list_ok(old(self).spec_config().page(), old(self).spec_free()),
        ensures
            final(self).spec_config() == old(self).spec_config(),
            final(self).spec_placed() == old(self).spec_placed(),
            merge_result(old(self).spec_config().page(), old(self).spec_free(), final(self).spec_free()),
            old(self).wf() ==> final(self).wf(),
    {
        let ghost before = self.free_rects@;
        let mut done = false;
        while !done
            invariant
                self.config == old(self).config,
                self.used_rects == old(self).used_rects,
                before == old(self).free_rects@,
                free_list_ok(self.config.page(), self.free_rects@),
                fully_merged(before) ==> self.free_rects@ == before,
                self.free_rects@.len() <= before.len(),
                forall|c: Area| positive(c) && misses_all(c, before) ==> #[trigger] misses_all(c, self.free_rects@),
                forall|px: int, py: int| covers(before, px, py) ==> #[trigger] covers(self.free_rects@, px, py),
                done ==> fully_merged(self.free_rects@),
            decreases self.free_rects@.len() + if done { 0int } else { 1int },
        {
            match self.find_mergeable_pair() {
                None => {
                    done = true;
                },
                Some((i, j, m)) => {
                    let ghost prev = self.free_rects@;
                    proof {
                        lemma_merge_step(self.config.page(), prev, i as int, j as int);
                    }
                    self.free_rects.set(i, m);
                    self.free_rects.remove(j);
                    assert(self.free_rects@ == prev.update(i as int, m).remove(j as int));
                },
            }
        }
        proof {
            if old(self).wf() {
                assert forall|i: int| 0 <= i < self.used_rects@.len() implies misses_all(
                    #[trigger] self.used_rects@[i].footprint(self.config.padding),
                    self.free_rects@,
                ) by {
                    let c = self.used_rects@[i].footprint(self.config.padding);
                    assert(positive(c));
                    assert(misses_all(c, before));
                }
            }
        }
    }
    /// Cuts what is left of `rect` after `placed` took its corner into at
    /// most two strips and adds the nonempty ones to the free list.
    fn split_rect(&mut self, rect: Rect, placed: &PlacedTextureGeometry)
        requires
            rect.representable(),
            rect.width >= placed.width + old(self).config.padding,
            rect.height >= placed.height + old(self).config.padding,
        ensures
            final(self).config == old(self).config,
            final(self).used_rects == old(self).used_rects,
            final(self).free_rects@ == old(self).free_rects@ + split_pieces(
                rect,
                placed.width as int,
                placed.height as int,
                old(self).config.padding as int,
            ),
    {
        let padding = self.config.padding;
        let (right_rect, bottom_rect) = if rect.width <= rect.height {
            (
                Rect {
                    x: rect.x + placed.width + padding,
                    y: rect.y,
                    width: rect.width - placed.width - padding,
                    height: placed.height,
                },
                Rect {
                    x: rect.x,
                    y: rect.y + placed.height + padding,
                    width: rect.width,
                    height: rect.height - placed.height - padding,
                },
            )
        } else {
            (
                Rect {
                    x: rect.x + placed.width + padding,
                    y: rect.y,
                    width: rect.width - placed.width - padding,
                    height: rect.height,
                },
                Rect {
                    x: rect.x,
                    y: rect.y + placed.height + padding,
                    width: placed.width,
                    height: rect.height - placed.height - padding,
                },
            )
        };
        let ghost start = self.free_rects@;
        if right_rect.width > 0 && right_rect.height > 0 {
            self.free_rects.push(right_rect);
        }
        if bottom_rect.width > 0 && bottom_rect.height > 0 {
            self.free_rects.push(bottom_rect);
        }
        assert(self.free_rects@ =~= start + split_pieces(
            rect,
            placed.width as int,
            placed.height as int,
            padding as int,
        ));
    }

    pub fn config(&self) -> (r: &TexturePlacerConfig)
        ensures
            *r == self.spec_config(),
    {
        &self.config
    }

    /// Whether some free rectangle holds a `width` by `height` texture (each
    /// side at least one pixel) together with the padding.
    pub fn can_place(&self, width: u32, height: u32) -> (r: bool)
        ensures
            r == any_fits(
                self.spec_free(),
                scaled(width) + self.spec_config().padding,
                scaled(height) + self.spec_config().padding,
            ),
    {
        let w: u64 = if width == 0 { 1 } else { width as u64 };
        let h: u64 = if height == 0 { 1 } else { height as u64 };
        let need_w = w + self.config.padding as u64;
        let need_h = h + self.config.padding as u64;
        let mut i: usize = 0;
        while i < self.free_rects.len()
            invariant
                i <= self.free_rects@.len(),
                need_w as int == scaled(width) + self.config.padding,
                need_h as int == scaled(height) + self.config.padding,
                forall|j: int| 0 <= j < i ==> !(#[trigger] self.free_rects@[j].fits(need_w as int, need_h as int)),
            decreases self.free_rects@.len() - i,
        {
            let r = self.free_rects[i];
            if r.width as u64 >= need_w && r.height as u64 >= need_h {
                assert(self.free_rects@[i as int].fits(need_w as int, need_h as int));
                assert(any_fits(self.free_rects@, need_w as int, need_h as int));
                return true;
            }
            i = i + 1;
        }
        false
    }

    /// Places a `width` by `height` texture (each side at least one pixel) in
    /// the smallest free rectangle that holds it with its padding, the first
    /// of that size, then splits that rectangle and merges the free list.
    /// The caller first makes sure that some free rectangle holds it.
    pub fn place_texture(&mut self, width: u32, height: u32, cluster_id: String, atlas_id: usize) -> (g:
        PlacedTextureGeometry)
        requires
            old(self).wf(),
            any_fits(
                old(self).spec_free(),
                scaled(width) + old(self).spec_config().padding,
                scaled(height) + old(self).spec_config().padding,
            ),
        ensures
            final(self).wf(),
            final(self).spec_config() == old(self).spec_config(),
            ({
                let p = old(self).spec_config().padding as int;
                let w = scaled(width);
                let h = scaled(height);
                let free = old(self).spec_free();
                exists|k: int|
                    #[trigger] is_best_fit(free, k, w + p, h + p) && g == placed_at(
                        free[k],
                        w,
                        h,
                        p,
                        cluster_id,
                        atlas_id,
                    ) && final(self).spec_placed() == old(self).spec_placed().push(g) && merge_result(
                        old(self).spec_config().page(),
                        after_split(free, k, w, h, p),
                        final(self).spec_free(),
                    )
            }),
    {
        let w: u32 = if width == 0 { 1 } else { width };
        let h: u32 = if height == 0 { 1 } else { height };
        let padding = self.config.padding;
        let ghost wi = scaled(width);
        let ghost hi = scaled(height);
        let ghost pi = padding as int;
        let ghost free = self.free_rects@;
        let ghost used = self.used_rects@;
        let ghost id = cluster_id;
        assert(w as int == wi && h as int == hi);
        let k = match self.find_best_rect(w as u64 + padding as u64, h as u64 + padding as u64) {
            Some(k) => k,
            None => 0,
        };
        let rect = self.free_rects[k];
        let placed = PlacedTextureGeometry {
            cluster_id,
            atlas_id,
            origin: (rect.x + padding, rect.y + padding),
            width: w,
            height: h,
        };
        proof {
            lemma_place_step(self.config, free, used, k as int, wi, hi, id, atlas_id);
        }
        self.free_rects.remove(k);
        self.split_rect(rect, &placed);
        assert(self.free_rects@ == after_split(free, k as int, wi, hi, pi));
        self.merge_free_rects();
        self.used_rects.push(placed.duplicate());
        assert(self.used_rects@ == used.push(placed));
        assert(placed == placed_at(free[k as int], wi, hi, pi, id, atlas_id));
        assert(is_best_fit(free, k as int, wi + pi, hi + pi));
        placed
    }

    /// Empties the page: one free rectangle covering it and no records.
    pub fn reset_param(&mut self)
        requires
            old(self).wf(),
        ensures
            final(self).wf(),
            final(self).spec_config() == old(self).spec_config(),
            final(self).spec_free() == seq![old(self).spec_config().page()],
            final(self).spec_placed().len() == 0,
    {
        let initial_rect = Rect { x: 0, y: 0, width: self.config.width, height: self.config.height };
        let mut free_rects = Vec::new();
        free_rects.push(initial_rect);
        self.free_rects = free_rects;
        self.used_rects = Vec::new();
        assert(self.free_rects@ =~= seq![self.config.page()]);
    }
    /// The records of the open page satisfy the layout rules, the free
    /// rectangles are nonempty, inside the page and pairwise disjoint, and no
    /// record's footprint meets a free rectangle.
    pub proof fn lemma_layout(&self)
        requires
            self.wf(),
        ensures
            page_layout_ok(self.spec_config(), self.spec_placed()),
            free_list_ok(self.spec_config().page(), self.spec_free()),
            forall|i: int|
                0 <= i < self.spec_placed().len() ==> misses_all(
                    #[trigger] self.spec_placed()[i].footprint(self.spec_config().padding),
                    self.spec_free(),
                ),
    {
    }

    /// With nothing placed, the free list is the whole page.
    pub proof fn lemma_fresh_page(&self)
        requires
            self.wf(),
        ensures
            self.spec_placed().len() == 0 ==> self.spec_free() == seq![self.spec_config().page()],
            self.spec_config().width >= 1,
            self.spec_config().height >= 1,
    {
    }
}

/// The operations a placement strategy offers: query and place on the
/// current page, and start a fresh page.
pub trait TexturePlacer {
    spec fn placer_config(&self) -> TexturePlacerConfig;

    /// The current page's free rectangles.
    spec fn placer_free(&self) -> Seq<Rect>;

    /// The records placed on the current page, in placement order.
    spec fn placer_records(&self) -> Seq<PlacedTextureGeometry>;

    spec fn placer_ok(&self) -> bool;

    fn config(&self) -> (r: &TexturePlacerConfig)
        ensures
            *r == self.placer_config(),
    ;

    /// Whether some free rectangle holds the texture with its padding.
    fn can_place(&self, width: u32, height: u32) -> (r: bool)
        requires
            self.placer_ok(),
        ensures
            r == any_fits(
                self.placer_free(),
                scaled(width) + self.placer_config().padding,
                scaled(height) + self.placer_config().padding,
            ),
    ;

    /// Places the texture in a free rectangle that holds it and adds its
    /// record to the page.
    fn place_texture(&mut self, width: u32, height: u32, cluster_id: String, atlas_id: usize) -> (g:
        PlacedTextureGeometry)
        requires
            old(self).placer_ok(),
            any_fits(
                old(self).placer_free(),
                scaled(width) + old(self).placer_config().padding,
                scaled(height) + old(self).placer_config().padding,
            ),
        ensures
            final(self).placer_ok(),
            final(self).placer_config() == old(self).placer_config(),
            final(self).placer_records() == old(self).placer_records().push(g),
            g.cluster_id == cluster_id && g.atlas_id == atlas_id,
            g.width == scaled(width) && g.height == scaled(height),
            page_layout_ok(final(self).placer_config(), final(self).placer_records()),
    ;

    /// Starts a fresh page: the whole page free and no records.
    fn reset_param(&mut self)
        requires
            old(self).placer_ok(),
        ensures
            final(self).placer_ok(),
            final(self).placer_config() == old(self).placer_config(),
            final(self).placer_free() == seq![old(self).placer_config().page()],
            final(self).placer_records().len() == 0,
    ;
}

impl TexturePlacer for GuillotineTexturePlacer {
    open spec fn placer_config(&self) -> TexturePlacerConfig {
        self.spec_config()
    }

    open spec fn placer_free(&self) -> Seq<Rect> {
        self.spec_free()
    }

    open spec fn placer_records(&self) -> Seq<PlacedTextureGeometry> {
        self.spec_placed()
    }

    open spec fn placer_ok(&self) -> bool {
        self.wf()
    }

    fn config(&self) -> (r: &TexturePlacerConfig) {
        GuillotineTexturePlacer::config(self)
    }

    fn can_place(&self, width: u32, height: u32) -> (r: bool) {
        GuillotineTexturePlacer::can_place(self, width, height)
    }

    fn place_texture(&mut self, width: u32, height: u32, cluster_id: String, atlas_id: usize) -> (g:
        PlacedTextureGeometry) {
        let g = GuillotineTexturePlacer::place_texture(self, width, height, cluster_id, atlas_id);
        proof {
            self.lemma_layout();
        }
        g
    }

    fn reset_param(&mut self) {
        GuillotineTexturePlacer::reset_param(self)
    }
}

} // verus!
