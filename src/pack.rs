//! Packing onto a sequence of pages: place on the open page, roll over to a
//! fresh page when it is full, and look placed textures up afterwards.

use vstd::prelude::*;
use crate::place::{
    after_split, any_fits, is_best_fit, merge_result, page_layout_ok, placed_at, scaled,
    GuillotineTexturePlacer, PlacedTextureGeometry, PlacementError, TexturePlacerConfig,
};
use crate::rect::Rect;

verus! {

/// The records of one page, in placement order.
pub type Atlas = Vec<PlacedTextureGeometry>;

/// The contents of a sequence of pages.
pub open spec fn pages_view(atlases: Seq<Atlas>) -> Seq<Seq<PlacedTextureGeometry>> {
    atlases.map_values(|a: Atlas| a@)
}

/// Every page is laid out validly, holds at least one record, and each record
/// carries its page's index.
pub open spec fn pages_ok(config: TexturePlacerConfig, pages: Seq<Seq<PlacedTextureGeometry>>) -> bool {
    forall|i: int|
        0 <= i < pages.len() ==> page_layout_ok(config, #[trigger] pages[i]) && pages[i].len() > 0
            && forall|j: int| 0 <= j < pages[i].len() ==> (#[trigger] pages[i][j]).atlas_id == i
}

/// A `w` by `h` texture fits an empty page of `config`, padding included.
pub open spec fn fits_page(config: TexturePlacerConfig, w: int, h: int) -> bool {
    w + config.padding <= config.width && h + config.padding <= config.height
}

/// The first record of the page after page `k`, where `current` follows
/// the last of `pages`.
pub open spec fn next_first(
    pages: Seq<Seq<PlacedTextureGeometry>>,
    current: Seq<PlacedTextureGeometry>,
    k: int,
) -> PlacedTextureGeometry {
    if k + 1 < pages.len() {
        pages[k + 1][0]
    } else {
        current[0]
    }
}

/// Placing `g` on a page whose free list was `before` took the smallest
/// free rectangle holding it with its padding, the first of that size, split
/// it, and merged the free list into `after`.
pub open spec fn placed_step(
    config: TexturePlacerConfig,
    before: Seq<Rect>,
    g: PlacedTextureGeometry,
    after: Seq<Rect>,
) -> bool {
    let p = config.padding as int;
    let w = g.width as int;
    let h = g.height as int;
    exists|k: int|
        #[trigger] is_best_fit(before, k, w + p, h + p) && g == placed_at(
            before[k],
            w,
            h,
            p,
            g.cluster_id,
            g.atlas_id,
        ) && merge_result(config.page(), after_split(before, k, w, h, p), after)
}

/// `frees` is the history of a page's free list as `records` were placed on
/// it in order, starting from the whole page: `frees[j]` before the `j`-th
/// record, and the last entry after all of them.
pub open spec fn replays(
    config: TexturePlacerConfig,
    records: Seq<PlacedTextureGeometry>,
    frees: Seq<Seq<Rect>>,
) -> bool {
    &&& frees.len() == records.len() + 1
    &&& frees[0] == seq![config.page()]
    &&& forall|j: int|
        0 <= j < records.len() ==> #[trigger] placed_step(config, frees[j], records[j], frees[j + 1])
}

/// Each page `k` of `pages` was closed holding the free rectangles
/// `closed_free[k]`, none of which fit the first texture of the next page.
pub open spec fn closed_when_full(
    config: TexturePlacerConfig,
    pages: Seq<Seq<PlacedTextureGeometry>>,
    current: Seq<PlacedTextureGeometry>,
    closed_free: Seq<Seq<Rect>>,
) -> bool {
    &&& closed_free.len() == pages.len()
    &&& forall|k: int|
        0 <= k < pages.len() ==> !any_fits(
            #[trigger] closed_free[k],
            next_first(pages, current, k).width + config.padding,
            next_first(pages, current, k).height + config.padding,
        )
}

/// Places textures one at a time, opening a new page when the open one is full.
pub struct TexturePacker {
    placer: GuillotineTexturePlacer,
    current_atlas: Atlas,
    atlases: Vec<Atlas>,
    closed_free: Ghost<Seq<Seq<Rect>>>,
    history: Ghost<Seq<Seq<Rect>>>,
    closed_history: Ghost<Seq<Seq<Seq<Rect>>>>,
}

impl TexturePacker {
    pub closed spec fn spec_config(&self) -> TexturePlacerConfig {
        self.placer.spec_config()
    }

    /// The closed pages, in the order they were closed.
    pub closed spec fn spec_pages(&self) -> Seq<Seq<PlacedTextureGeometry>> {
        pages_view(self.atlases@)
    }

    /// The records of the open page.
    pub closed spec fn spec_current(&self) -> Seq<PlacedTextureGeometry> {
        self.current_atlas@
    }

    /// The open page's free rectangles.
    pub closed spec fn spec_free(&self) -> Seq<Rect> {
        self.placer.spec_free()
    }

    /// The free rectangles each closed page had when it was closed.
    pub closed spec fn spec_closed_free(&self) -> Seq<Seq<Rect>> {
        self.closed_free@
    }

    /// How the open page's free list evolved as its records were placed.
    pub closed spec fn spec_history(&self) -> Seq<Seq<Rect>> {
        self.history@
    }

    /// The same history for each closed page.
    pub closed spec fn spec_closed_history(&self) -> Seq<Seq<Seq<Rect>>> {
        self.closed_history@
    }

    pub closed spec fn wf(&self) -> bool {
        &&& self.placer.wf()
        &&& self.current_atlas@ == self.placer.spec_placed()
        &&& pages_ok(self.placer.spec_config(), pages_view(self.atlases@))
        &&& forall|j: int|
            0 <= j < self.current_atlas@.len() ==> (#[trigger] self.current_atlas@[j]).atlas_id
                == self.atlases@.len()
        &&& self.atlases@.len() > 0 ==> self.current_atlas@.len() > 0
        &&& closed_when_full(
            self.placer.spec_config(),
            pages_view(self.atlases@),
            self.current_atlas@,
            self.closed_free@,
        )
        &&& replays(self.placer.spec_config(), self.current_atlas@, self.history@)
        &&& self.history@.last() == self.placer.spec_free()
        &&& self.closed_history@.len() == self.atlases@.len()
        &&& forall|k: int|
            0 <= k < self.atlases@.len() ==> replays(
                self.placer.spec_config(),
                pages_view(self.atlases@)[k],
                #[trigger] self.closed_history@[k],
            ) && self.closed_history@[k].last() == self.closed_free@[k]
    }

    /// The closed pages and the open page satisfy the layout rules: each
    /// record lies inside its page, at least `padding` from the top and left
    /// edges, and no two records of a page come closer than `padding`. Each
    /// closed page was closed only when the next texture fit none of its free
    /// rectangles.
    pub proof fn lemma_layout(&self)
        requires
            self.wf(),
        ensures
            pages_ok(self.spec_config(), self.spec_pages()),
            page_layout_ok(self.spec_config(), self.spec_current()),
            closed_when_full(self.spec_config(), self.spec_pages(), self.spec_current(), self.spec_closed_free()),
            self.spec_pages().len() > 0 ==> self.spec_current().len() > 0,
            replays(self.spec_config(), self.spec_current(), self.spec_history()),
            self.spec_history().last() == self.spec_free(),
            self.spec_closed_history().len() == self.spec_pages().len(),
            forall|k: int|
                0 <= k < self.spec_pages().len() ==> replays(
                    self.spec_config(),
                    self.spec_pages()[k],
                    #[trigger] self.spec_closed_history()[k],
                ) && self.spec_closed_history()[k].last() == self.spec_closed_free()[k],
    {
        GuillotineTexturePlacer::lemma_layout(&self.placer);
    }

    /// A packer starting on an empty page of the placer's configuration.
    pub fn new(placer: GuillotineTexturePlacer) -> (r: Self)
        requires
            placer.wf(),
        ensures
            r.wf(),
            r.spec_config() == placer.spec_config(),
            r.spec_pages().len() == 0,
            r.spec_current().len() == 0,
    {
        let mut placer = placer;
        placer.reset_param();
        let ghost h0 = seq![seq![placer.spec_config().page()]];
        let r = TexturePacker {
            placer,
            current_atlas: Vec::new(),
            atlases: Vec::new(),
            closed_free: Ghost(Seq::empty()),
            history: Ghost(h0),
            closed_history: Ghost(Seq::empty()),
        };
        assert(r.current_atlas@ =~= r.placer.spec_placed());
        r
    }

    /// Places a `width` by `height` texture (each side at least one pixel)
    /// on the open page when it fits there; otherwise closes that page and
    /// places it on a fresh one. Returns the page index and the position on
    /// that page. A texture that does not fit an empty page is refused, and
    /// nothing changes.
    pub fn add_texture(&mut self, cluster_id: String, width: u32, height: u32) -> (r: Result<
        (usize, usize),
        PlacementError,
    >)
        requires
            old(self).wf(),
        ensures
            final(self).wf(),
            final(self).spec_config() == old(self).spec_config(),
            ({
                let p = old(self).spec_config().padding as int;
                let w = scaled(width);
                let h = scaled(height);
                let n = old(self).spec_pages().len();
                if any_fits(old(self).spec_free(), w + p, h + p) {
                    &&& r is Ok && r->Ok_0.0 == n && r->Ok_0.1 == old(self).spec_current().len()
                    &&& final(self).spec_pages() == old(self).spec_pages()
                    &&& final(self).spec_closed_free() == old(self).spec_closed_free()
                    &&& final(self).spec_closed_history() == old(self).spec_closed_history()
                    &&& final(self).spec_history() == old(self).spec_history().push(final(self).spec_free())
                    &&& exists|k: int|
                        #[trigger] is_best_fit(old(self).spec_free(), k, w + p, h + p)
                            && final(self).spec_current() == old(self).spec_current().push(
                            placed_at(old(self).spec_free()[k], w, h, p, cluster_id, n as usize),
                        ) && merge_result(
                            old(self).spec_config().page(),
                            after_split(old(self).spec_free(), k, w, h, p),
                            final(self).spec_free(),
                        )
                } else if fits_page(old(self).spec_config(), w, h) {
                    &&& r is Ok && r->Ok_0.0 == n + 1 && r->Ok_0.1 == 0
                    &&& final(self).spec_pages() == old(self).spec_pages().push(old(self).spec_current())
                    &&& final(self).spec_closed_free() == old(self).spec_closed_free().push(old(self).spec_free())
                    &&& final(self).spec_closed_history() == old(self).spec_closed_history().push(old(self).spec_history())
                    &&& final(self).spec_history() == seq![seq![old(self).spec_config().page()], final(self).spec_free()]
                    &&& merge_result(
                        old(self).spec_config().page(),
                        after_split(seq![old(self).spec_config().page()], 0, w, h, p),
                        final(self).spec_free(),
                    )
                    &&& final(self).spec_current() == seq![
                        placed_at(old(self).spec_config().page(), w, h, p, cluster_id, (n + 1) as usize),
                    ]
                } else {
                    &&& r == Err::<(usize, usize), PlacementError>(PlacementError::TooLarge)
                    &&& *final(self) == *old(self)
                }
            }),
    {
        proof {
            self.placer.lemma_fresh_page();
        }
        let ghost s0 = *self;
        let padding = self.placer.config().padding;
        let page_w = self.placer.config().width;
        let page_h = self.placer.config().height;
        if self.placer.can_place(width, height) {
            let page = self.atlases.len();
            let ghost id = cluster_id;
            let g = self.placer.place_texture(width, height, cluster_id, page);
            let index = self.current_atlas.len();
            self.current_atlas.push(g);
            self.history = Ghost(self.history@.push(self.placer.spec_free()));
            proof {
                let cfg = self.placer.spec_config();
                let old_free = s0.placer.spec_free();
                let k = choose|k: int|
                    #[trigger] is_best_fit(old_free, k, scaled(width) + padding, scaled(height) + padding)
                        && g == placed_at(old_free[k], scaled(width), scaled(height), padding as int, id, page)
                        && self.placer.spec_placed() == s0.placer.spec_placed().push(g)
                        && merge_result(cfg.page(), after_split(old_free, k, scaled(width), scaled(height), padding as int), self.placer.spec_free());
                assert(g.width as int == scaled(width) && g.height as int == scaled(height));
                assert(placed_step(cfg, old_free, g, self.placer.spec_free()));
                assert(is_best_fit(s0.spec_free(), k, scaled(width) + padding, scaled(height) + padding));
                assert forall|j: int| 0 <= j < self.current_atlas@.len() implies #[trigger] placed_step(
                    cfg,
                    self.history@[j],
                    self.current_atlas@[j],
                    self.history@[j + 1],
                ) by {
                    if j < s0.current_atlas@.len() {
                        assert(self.history@[j] == s0.history@[j]);
                        assert(self.history@[j + 1] == s0.history@[j + 1]);
                        assert(self.current_atlas@[j] == s0.current_atlas@[j]);
                        assert(placed_step(cfg, s0.history@[j], s0.current_atlas@[j], s0.history@[j + 1]));
                    }
                }
                if s0.atlases@.len() > 0 {
                    assert(self.current_atlas@[0] == s0.current_atlas@[0]);
                }
                assert forall|k: int| 0 <= k < pages_view(self.atlases@).len() implies !any_fits(
                    #[trigger] self.closed_free@[k],
                    next_first(pages_view(self.atlases@), self.current_atlas@, k).width + padding,
                    next_first(pages_view(self.atlases@), self.current_atlas@, k).height + padding,
                ) by {
                    assert(next_first(pages_view(self.atlases@), self.current_atlas@, k) == next_first(
                        pages_view(s0.atlases@),
                        s0.current_atlas@,
                        k,
                    ));
                }
            }
            Ok((page, index))
        } else if (if width == 0 { 1 } else { width }) as u64 + padding as u64 <= page_w as u64 && (
        if height == 0 { 1 } else { height }) as u64 + padding as u64 <= page_h as u64 {
            let mut finished: Atlas = Vec::new();
            std::mem::swap(&mut finished, &mut self.current_atlas);
            let ghost closed_page = finished@;
            proof {
                if closed_page.len() == 0 {
                    assert(s0.placer.spec_free()[0].fits(scaled(width) + padding, scaled(height) + padding));
                }
                assert(closed_page.len() > 0);
                GuillotineTexturePlacer::lemma_layout(&s0.placer);
            }
            self.atlases.push(finished);
            self.closed_free = Ghost(self.closed_free@.push(s0.placer.spec_free()));
            self.closed_history = Ghost(self.closed_history@.push(self.history@));
            self.placer.reset_param();
            let page = self.atlases.len();
            proof {
                assert(self.placer.spec_free()[0].fits(scaled(width) + padding, scaled(height) + padding));
                assert(any_fits(self.placer.spec_free(), scaled(width) + padding, scaled(height) + padding));
            }
            let ghost id = cluster_id;
            let ghost fresh = self.placer.spec_free();
            let g = self.placer.place_texture(width, height, cluster_id, page);
            self.current_atlas.push(g);
            let ghost h1 = seq![fresh, self.placer.spec_free()];
            self.history = Ghost(h1);
            proof {
                let cfg = self.placer.spec_config();
                let k = choose|k: int|
                    #[trigger] is_best_fit(fresh, k, scaled(width) + padding, scaled(height) + padding)
                        && g == placed_at(fresh[k], scaled(width), scaled(height), padding as int, id, page)
                        && merge_result(cfg.page(), after_split(fresh, k, scaled(width), scaled(height), padding as int), self.placer.spec_free());
                assert(k == 0);
                assert(g.width as int == scaled(width) && g.height as int == scaled(height));
                assert(placed_step(cfg, fresh, g, self.placer.spec_free()));
                assert(self.current_atlas@ =~= seq![g]);
                assert(placed_step(cfg, self.history@[0], self.current_atlas@[0], self.history@[1]));
                let pv = pages_view(self.atlases@);
                let old_pv = pages_view(s0.atlases@);
                assert(pv =~= old_pv.push(closed_page));
                assert(self.current_atlas@ =~= seq![g]);
                assert(self.placer.spec_placed() =~= seq![g]);
                assert forall|i: int| 0 <= i < pv.len() implies page_layout_ok(s0.placer.spec_config(), #[trigger] pv[i]) && pv[i].len() > 0
                    && forall|j: int| 0 <= j < pv[i].len() ==> (#[trigger] pv[i][j]).atlas_id == i by {
                    if i < pv.len() - 1 {
                        assert(pv[i] == old_pv[i]);
                    }
                }
                assert forall|k: int| 0 <= k < pv.len() implies !any_fits(
                    #[trigger] self.closed_free@[k],
                    next_first(pv, self.current_atlas@, k).width + padding,
                    next_first(pv, self.current_atlas@, k).height + padding,
                ) by {
                    if k < old_pv.len() {
                        assert(self.closed_free@[k] == s0.closed_free@[k]);
                        assert(next_first(pv, self.current_atlas@, k) == next_first(old_pv, s0.current_atlas@, k));
                    }
                }
                assert forall|k: int| 0 <= k < self.atlases@.len() implies replays(
                    cfg,
                    pv[k],
                    #[trigger] self.closed_history@[k],
                ) && self.closed_history@[k].last() == self.closed_free@[k] by {
                    if k < old_pv.len() {
                        assert(self.closed_history@[k] == s0.closed_history@[k]);
                        assert(pv[k] == old_pv[k]);
                    }
                }
            }
            Ok((page, 0))
        } else {
            Err(PlacementError::TooLarge)
        }
    }

    /// Closes the open page when it holds anything and returns all pages in
    /// the order they were closed.
    pub fn finalize(self) -> (r: Vec<Atlas>)
        requires
            self.wf(),
        ensures
            pages_view(r@) == if self.spec_current().len() > 0 {
                self.spec_pages().push(self.spec_current())
            } else {
                self.spec_pages()
            },
            pages_ok(self.spec_config(), pages_view(r@)),
    {
        proof {
            GuillotineTexturePlacer::lemma_layout(&self.placer);
        }
        let mut atlases = self.atlases;
        if self.current_atlas.len() > 0 {
            let ghost before = atlases@;
            atlases.push(self.current_atlas);
            assert(pages_view(atlases@) =~= pages_view(before).push(self.current_atlas@));
        }
        atlases
    }
}

/// A texture waiting to be packed: its identifier and its size in pixels.
pub type TextureEntry = (String, u32, u32);

/// The identifiers of `textures` are pairwise distinct.
pub open spec fn ids_unique(textures: Seq<TextureEntry>) -> bool {
    forall|i: int, j: int|
        0 <= i < textures.len() && 0 <= j < textures.len() && i != j ==> (#[trigger] textures[i]).0@
            != (#[trigger] textures[j]).0@
}

/// `at` names a record of `pages`: a page and a position on it.
pub open spec fn is_slot(pages: Seq<Seq<PlacedTextureGeometry>>, at: (usize, usize)) -> bool {
    at.0 < pages.len() && at.1 < pages[at.0 as int].len()
}

/// The record at `at` is the texture `entry`: its identifier, and its size
/// scaled to at least one pixel a side.
pub open spec fn records(
    pages: Seq<Seq<PlacedTextureGeometry>>,
    at: (usize, usize),
    entry: TextureEntry,
) -> bool {
    &&& is_slot(pages, at)
    &&& pages[at.0 as int][at.1 as int].cluster_id@ == entry.0@
    &&& pages[at.0 as int][at.1 as int].width == scaled(entry.1)
    &&& pages[at.0 as int][at.1 as int].height == scaled(entry.2)
}

/// `a` comes before `b`: on an earlier page, or earlier on the same page.
pub open spec fn comes_before(a: (usize, usize), b: (usize, usize)) -> bool {
    a.0 < b.0 || (a.0 == b.0 && a.1 < b.1)
}

/// `locations[t]` holds the record of `textures[t]`; every record of `pages`
/// is one of them, and they come in the order of `textures`.
pub open spec fn packs_in_order(
    pages: Seq<Seq<PlacedTextureGeometry>>,
    textures: Seq<TextureEntry>,
    locations: Seq<(usize, usize)>,
) -> bool {
    &&& locations.len() == textures.len()
    &&& forall|t: int| 0 <= t < locations.len() ==> records(pages, #[trigger] locations[t], textures[t])
    &&& forall|a: (usize, usize)|
        #[trigger] is_slot(pages, a) ==> exists|t: int| 0 <= t < locations.len() && #[trigger] locations[t] == a
    &&& forall|t: int, u: int|
        0 <= t < u < locations.len() ==> comes_before(#[trigger] locations[t], #[trigger] locations[u])
}

/// Adding one record at `at` to `pages`, giving `next`, extends an in-order
/// packing of the first textures by the next one.
proof fn lemma_pack_one(
    pages: Seq<Seq<PlacedTextureGeometry>>,
    next: Seq<Seq<PlacedTextureGeometry>>,
    textures: Seq<TextureEntry>,
    locations: Seq<(usize, usize)>,
    at: (usize, usize),
    entry: TextureEntry,
)
    requires
        packs_in_order(pages, textures, locations),
        forall|a: (usize, usize)| #[trigger] is_slot(pages, a) ==> is_slot(next, a) && next[a.0 as int][a.1 as int] == pages[a.0 as int][a.1 as int] && comes_before(a, at),
        forall|a: (usize, usize)| #[trigger] is_slot(next, a) ==> is_slot(pages, a) || a == at,
        records(next, at, entry),
    ensures
        packs_in_order(next, textures.push(entry), locations.push(at)),
{
    let t2 = textures.push(entry);
    let l2 = locations.push(at);
    assert forall|t: int| 0 <= t < l2.len() implies records(next, #[trigger] l2[t], t2[t]) by {
        if t < locations.len() {
            assert(records(pages, locations[t], textures[t]));
            assert(is_slot(pages, locations[t]));
        }
    }
    assert forall|a: (usize, usize)| #[trigger] is_slot(next, a) implies exists|t: int|
        0 <= t < l2.len() && #[trigger] l2[t] == a by {
        if a == at {
            assert(l2[locations.len() as int] == a);
        } else {
            assert(is_slot(pages, a));
            let t = choose|t: int| 0 <= t < locations.len() && #[trigger] locations[t] == a;
            assert(l2[t] == a);
        }
    }
    assert forall|t: int, u: int| 0 <= t < u < l2.len() implies comes_before(#[trigger] l2[t], #[trigger] l2[u]) by {
        if u == locations.len() {
            assert(records(pages, locations[t], textures[t]));
            assert(is_slot(pages, locations[t]));
        } else {
            assert(comes_before(locations[t], locations[u]));
        }
    }
}

/// Collects textures by identifier, then packs them in the order they were
/// first added.
pub struct TexturePackerBuilder {
    placer: GuillotineTexturePlacer,
    textures: Vec<TextureEntry>,
}

impl TexturePackerBuilder {
    pub closed spec fn spec_config(&self) -> TexturePlacerConfig {
        self.placer.spec_config()
    }

    /// The textures to pack, in packing order.
    pub closed spec fn spec_textures(&self) -> Seq<TextureEntry> {
        self.textures@
    }

    pub closed spec fn wf(&self) -> bool {
        self.placer.wf() && ids_unique(self.textures@)
    }

    pub fn new(placer: GuillotineTexturePlacer) -> (r: Self)
        requires
            placer.wf(),
        ensures
            r.wf(),
            r.spec_config() == placer.spec_config(),
            r.spec_textures().len() == 0,
    {
        TexturePackerBuilder { placer, textures: Vec::new() }
    }

    /// Records a texture; one with an identifier already recorded replaces
    /// the earlier entry in its place.
    pub fn add_texture(&mut self, texture_id: String, width: u32, height: u32)
        requires
            old(self).wf(),
        ensures
            final(self).wf(),
            final(self).spec_config() == old(self).spec_config(),
            ({
                let old_t = old(self).spec_textures();
                let entry = (texture_id, width, height);
                if exists|i: int| 0 <= i < old_t.len() && (#[trigger] old_t[i]).0@ == texture_id@ {
                    exists|i: int|
                        0 <= i < old_t.len() && (#[trigger] old_t[i]).0@ == texture_id@
                            && final(self).spec_textures() == old_t.update(i, entry)
                } else {
                    final(self).spec_textures() == old_t.push(entry)
                }
            }),
    {
        let mut i: usize = 0;
        while i < self.textures.len()
            invariant
                i <= self.textures@.len(),
                self.textures@ == old(self).textures@,
                self.placer == old(self).placer,
                self.placer.wf(),
                ids_unique(self.textures@),
                forall|j: int| 0 <= j < i ==> (#[trigger] self.textures@[j]).0@ != texture_id@,
            decreases self.textures@.len() - i,
        {
            if self.textures[i].0 == texture_id {
                let ghost before = self.textures@;
                self.textures.set(i, (texture_id, width, height));
                assert(before[i as int].0@ == self.textures@[i as int].0@);
                assert(self.textures@ == before.update(i as int, (texture_id, width, height)));
                assert(ids_unique(self.textures@)) by {
                    assert forall|a: int, b: int| 0 <= a < self.textures@.len() && 0 <= b < self.textures@.len() && a != b
                        implies (#[trigger] self.textures@[a]).0@ != (#[trigger] self.textures@[b]).0@ by {
                        let _ = before[a];
                        let _ = before[b];
                    }
                }
                return;
            }
            i = i + 1;
        }
        let ghost before = self.textures@;
        self.textures.push((texture_id, width, height));
        assert(ids_unique(self.textures@)) by {
            assert forall|a: int, b: int| 0 <= a < self.textures@.len() && 0 <= b < self.textures@.len() && a != b
                implies (#[trigger] self.textures@[a]).0@ != (#[trigger] self.textures@[b]).0@ by {
                if a < before.len() {
                    let _ = before[a];
                }
                if b < before.len() {
                    let _ = before[b];
                }
            }
        }
    }

    /// Packs the textures in order as `TexturePacker::add_texture` does,
    /// opening a page only when the next texture fits none of the open page's
    /// free rectangles. Every texture must fit an empty page.
    #[verifier::loop_isolation(false)]
    pub fn build(self) -> (r: TextureAtlasProvider)
        requires
            self.wf(),
            forall|t: int|
                0 <= t < self.spec_textures().len() ==> fits_page(
                    self.spec_config(),
                    scaled((#[trigger] self.spec_textures()[t]).1),
                    scaled(self.spec_textures()[t].2),
                ),
        ensures
            r.wf(),
            r.spec_textures() == self.spec_textures(),
            pages_ok(self.spec_config(), r.spec_pages()),
            packs_in_order(r.spec_pages(), r.spec_textures(), r.spec_locations()),
            r.spec_pages().len() == 0 <==> self.spec_textures().len() == 0,
            r.spec_pages().len() == 0 || r.spec_closed_free().len() + 1 == r.spec_pages().len(),
            forall|k: int|
                0 <= k < r.spec_closed_free().len() ==> !any_fits(
                    #[trigger] r.spec_closed_free()[k],
                    r.spec_pages()[k + 1][0].width + self.spec_config().padding,
                    r.spec_pages()[k + 1][0].height + self.spec_config().padding,
                ),
            r.spec_histories().len() == r.spec_pages().len(),
            forall|k: int|
                0 <= k < r.spec_pages().len() ==> replays(
                    self.spec_config(),
                    r.spec_pages()[k],
                    #[trigger] r.spec_histories()[k],
                ),
            forall|k: int|
                0 <= k < r.spec_closed_free().len() ==> #[trigger] r.spec_closed_free()[k]
                    == r.spec_histories()[k].last(),
    {
        let ghost config = self.placer.spec_config();
        let ghost s0 = self;
        let textures = self.textures;
        let placer = self.placer;
        assert(textures@ == s0.spec_textures());
        let mut packer = TexturePacker::new(placer);
        let mut texture_info_map: Vec<(usize, usize)> = Vec::new();
        let mut i: usize = 0;
        proof {
            let ext0 = packer.spec_pages().push(packer.spec_current());
            assert(ext0.len() == 1 && ext0[0].len() == 0);
            assert(textures@.take(0) =~= Seq::<TextureEntry>::empty());
        }
        while i < textures.len()
            invariant
                i <= textures@.len(),
                packer.wf(),
                packer.spec_config() == config,
                packs_in_order(
                    packer.spec_pages().push(packer.spec_current()),
                    textures@.take(i as int),
                    texture_info_map@,
                ),
            decreases textures@.len() - i,
        {
            let ghost prev = packer;
            let ghost ext = packer.spec_pages().push(packer.spec_current());
            let id = textures[i].0.clone();
            let ghost entry = textures@[i as int];
            proof {
                packer.lemma_layout();
                assert(s0.spec_textures()[i as int] == entry);
                assert(fits_page(config, scaled(entry.1), scaled(entry.2)));
            }
            let at = match packer.add_texture(id, textures[i].1, textures[i].2) {
                Ok(at) => at,
                Err(_) => (0, 0),
            };
            proof {
                let next = packer.spec_pages().push(packer.spec_current());
                let n = prev.spec_pages().len();
                if packer.spec_pages().len() == n {
                    assert(next == ext.update(n as int, prev.spec_current().push(packer.spec_current().last())));
                } else {
                    assert(next == ext.push(packer.spec_current()));
                }
                assert(records(next, at, entry));
                lemma_pack_one(ext, next, textures@.take(i as int), texture_info_map@, at, entry);
                assert(textures@.take(i + 1) == textures@.take(i as int).push(entry));
            }
            texture_info_map.push(at);
            i = i + 1;
        }
        proof {
            packer.lemma_layout();
            assert(textures@.take(i as int) == textures@);
        }
        let ghost ext = packer.spec_pages().push(packer.spec_current());
        let ghost closed_free = packer.spec_closed_free();
        let ghost current = packer.spec_current();
        let ghost pages = packer.spec_pages();
        let ghost histories = if current.len() > 0 {
            packer.spec_closed_history().push(packer.spec_history())
        } else {
            packer.spec_closed_history()
        };
        let atlases = packer.finalize();
        let r = TextureAtlasProvider {
            textures,
            atlases,
            texture_info_map,
            closed_free: Ghost(closed_free),
            histories: Ghost(histories),
        };
        proof {
            let pv = pages_view(r.atlases@);
            if current.len() == 0 {
                assert forall|a: (usize, usize)| #[trigger] is_slot(pv, a) implies exists|t: int|
                    0 <= t < r.texture_info_map@.len() && #[trigger] r.texture_info_map@[t] == a by {
                    assert(ext[a.0 as int] == pv[a.0 as int]);
                    assert(is_slot(ext, a));
                }
                assert forall|t: int| 0 <= t < r.texture_info_map@.len() implies records(pv, #[trigger] r.texture_info_map@[t], r.textures@[t]) by {
                    assert(records(ext, r.texture_info_map@[t], r.textures@[t]));
                }
            } else {
                assert(pv == ext);
            }
            if textures@.len() == 0 && pv.len() > 0 {
                assert(pv[0].len() > 0);
                assert(is_slot(pv, (0usize, 0usize)));
            }
            if textures@.len() > 0 {
                assert(records(pv, r.texture_info_map@[0], r.textures@[0]));
            }
            assert forall|k: int| 0 <= k < closed_free.len() implies !any_fits(
                #[trigger] closed_free[k],
                pv[k + 1][0].width + config.padding,
                pv[k + 1][0].height + config.padding,
            ) by {
                assert(next_first(pages, current, k) == pv[k + 1][0]);
            }
            assert forall|k: int| 0 <= k < pv.len() implies replays(config, pv[k], #[trigger] histories[k]) by {
                if k < pages.len() {
                    assert(pv[k] == pages[k]);
                } else {
                    assert(pv[k] == current);
                }
            }
        }
        r
    }
}

/// The packed pages, and where each texture went.
pub struct TextureAtlasProvider {
    textures: Vec<TextureEntry>,
    atlases: Vec<Atlas>,
    texture_info_map: Vec<(usize, usize)>,
    closed_free: Ghost<Seq<Seq<Rect>>>,
    histories: Ghost<Seq<Seq<Seq<Rect>>>>,
}

impl TextureAtlasProvider {
    /// The textures, in packing order.
    pub closed spec fn spec_textures(&self) -> Seq<TextureEntry> {
        self.textures@
    }

    /// The pages, by index.
    pub closed spec fn spec_pages(&self) -> Seq<Seq<PlacedTextureGeometry>> {
        pages_view(self.atlases@)
    }

    /// The page and position of each texture's record, by texture.
    pub closed spec fn spec_locations(&self) -> Seq<(usize, usize)> {
        self.texture_info_map@
    }

    /// The free rectangles each page but the last had when it was closed.
    pub closed spec fn spec_closed_free(&self) -> Seq<Seq<Rect>> {
        self.closed_free@
    }

    /// For each page, how its free list evolved as its records were placed.
    pub closed spec fn spec_histories(&self) -> Seq<Seq<Seq<Rect>>> {
        self.histories@
    }

    pub closed spec fn wf(&self) -> bool {
        &&& ids_unique(self.textures@)
        &&& self.texture_info_map@.len() == self.textures@.len()
        &&& forall|t: int|
            0 <= t < self.texture_info_map@.len() ==> records(
                pages_view(self.atlases@),
                #[trigger] self.texture_info_map@[t],
                self.textures@[t],
            )
    }

    /// Two textures packed onto the same page come no closer than the
    /// padding: their padded footprints share no pixel.
    pub proof fn lemma_records_apart(&self, config: TexturePlacerConfig, t: int, u: int)
        requires
            pages_ok(config, self.spec_pages()),
            packs_in_order(self.spec_pages(), self.spec_textures(), self.spec_locations()),
            0 <= t < self.spec_textures().len(),
            0 <= u < self.spec_textures().len(),
            t != u,
            self.spec_locations()[t].0 == self.spec_locations()[u].0,
        ensures
            crate::rect::disjoint(
                self.spec_pages()[self.spec_locations()[t].0 as int][self.spec_locations()[t].1 as int].footprint(
                    config.padding,
                ),
                self.spec_pages()[self.spec_locations()[u].0 as int][self.spec_locations()[u].1 as int].footprint(
                    config.padding,
                ),
            ),
    {
        let lt = self.spec_locations()[t];
        let lu = self.spec_locations()[u];
        assert(records(self.spec_pages(), lt, self.spec_textures()[t]));
        assert(records(self.spec_pages(), lu, self.spec_textures()[u]));
        if t < u {
            assert(comes_before(lt, lu));
        } else {
            assert(comes_before(lu, lt));
        }
        let page = self.spec_pages()[lt.0 as int];
        assert(page_layout_ok(config, page));
        assert(crate::rect::disjoint(
            page[lt.1 as int].footprint(config.padding),
            page[lu.1 as int].footprint(config.padding),
        ));
    }

    /// The pages, by index.
    pub fn atlases(&self) -> (r: &Vec<Atlas>)
        ensures
            pages_view(r@) == self.spec_pages(),
    {
        &self.atlases
    }

    /// The record of the texture named `id`, if one was packed.
    pub fn get_texture_info(&self, id: &str) -> (r: Option<&PlacedTextureGeometry>)
        requires
            self.wf(),
        ensures
            match r {
                Some(g) => exists|t: int|
                    0 <= t < self.spec_textures().len() && (#[trigger] self.spec_textures()[t]).0@ == id@
                        && records(self.spec_pages(), self.spec_locations()[t], self.spec_textures()[t])
                        && *g == self.spec_pages()[self.spec_locations()[t].0 as int][self.spec_locations()[t].1 as int],
                None => forall|t: int|
                    0 <= t < self.spec_textures().len() ==> (#[trigger] self.spec_textures()[t]).0@ != id@,
            },
    {
        let key = id.to_owned();
        let mut t: usize = 0;
        while t < self.textures.len()
            invariant
                self.wf(),
                key@ == id@,
                t <= self.textures@.len(),
                forall|u: int| 0 <= u < t ==> (#[trigger] self.textures@[u]).0@ != id@,
            decreases self.textures@.len() - t,
        {
            if self.textures[t].0 == key {
                let (page, index) = self.texture_info_map[t];
                assert(records(pages_view(self.atlases@), self.texture_info_map@[t as int], self.textures@[t as int]));
                assert(pages_view(self.atlases@)[page as int] == self.atlases@[page as int]@);
                assert(self.spec_textures()[t as int].0@ == id@);
                return Some(&self.atlases[page][index]);
            }
            t = t + 1;
        }
        None
    }
}

} // verus!
