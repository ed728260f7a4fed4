use atlas_packer::pack::{TexturePacker, TexturePackerBuilder};
use atlas_packer::place::{
    GuillotineTexturePlacer, PlacedTextureGeometry, PlacementError, TexturePlacerConfig,
};
use atlas_packer::rectpack::{Image, Node, Rectangle};

fn placer(width: u32, height: u32, padding: u32) -> GuillotineTexturePlacer {
    GuillotineTexturePlacer::new(TexturePlacerConfig::new(width, height, padding))
}

fn overlaps(a: &PlacedTextureGeometry, b: &PlacedTextureGeometry, padding: u32) -> bool {
    let (ax, ay) = (a.origin.0 - padding, a.origin.1 - padding);
    let (bx, by) = (b.origin.0 - padding, b.origin.1 - padding);
    ax < bx + b.width + padding
        && bx < ax + a.width + padding
        && ay < by + b.height + padding
        && by < ay + a.height + padding
}

#[test]
fn config_rounds_up_to_power_of_two() {
    let config = TexturePlacerConfig::new(500, 500, 1);
    assert_eq!(config.width(), 512);
    assert_eq!(config.height(), 512);
    assert_eq!(config.padding(), 1);
}

#[test]
fn config_keeps_powers_of_two_and_rounds_zero_to_one() {
    let config = TexturePlacerConfig::new(1024, 0, 0);
    assert_eq!(config.width(), 1024);
    assert_eq!(config.height(), 1);
    let config = TexturePlacerConfig::new(3, 0x8000_0000, 7);
    assert_eq!(config.width(), 4);
    assert_eq!(config.height(), 0x8000_0000);
    assert_eq!(config.padding(), 7);
}

#[test]
fn default_config_is_1024_without_padding() {
    let config = TexturePlacerConfig::default();
    assert_eq!((config.width, config.height, config.padding), (1024, 1024, 0));
}

#[test]
fn first_placement_sits_in_the_corner_after_padding() {
    let mut p = placer(512, 512, 2);
    let g = p.place_texture(10, 20, "a".to_string(), 0);
    assert_eq!(g.origin, (2, 2));
    assert_eq!((g.width, g.height), (10, 20));
    assert_eq!(g.cluster_id, "a");
    assert_eq!(g.atlas_id, 0);
}

#[test]
fn zero_sized_texture_counts_as_one_pixel() {
    let mut p = placer(4, 4, 0);
    let g = p.place_texture(0, 0, "z".to_string(), 0);
    assert_eq!((g.width, g.height), (1, 1));
}

#[test]
fn four_300_squares_need_one_page_each() {
    // Two 300 pixel squares cannot share a 512 pixel page.
    let mut packer = TexturePacker::new(placer(512, 512, 0));
    for (i, id) in ["a", "b", "c", "d"].iter().enumerate() {
        let at = packer.add_texture(id.to_string(), 300, 300).unwrap();
        assert_eq!(at, (i, 0));
    }
    let pages = packer.finalize();
    assert_eq!(pages.len(), 4);
    for (i, page) in pages.iter().enumerate() {
        assert_eq!(page.len(), 1);
        assert_eq!(page[0].atlas_id, i);
        assert_eq!(page[0].origin, (0, 0));
    }
}

#[test]
fn four_256_squares_share_one_page() {
    let mut packer = TexturePacker::new(placer(512, 512, 0));
    for id in ["a", "b", "c", "d"] {
        packer.add_texture(id.to_string(), 256, 256).unwrap();
    }
    let pages = packer.finalize();
    assert_eq!(pages.len(), 1);
    assert_eq!(pages[0].len(), 4);
    let mut origins: Vec<(u32, u32)> = pages[0].iter().map(|g| g.origin).collect();
    origins.sort();
    assert_eq!(origins, vec![(0, 0), (0, 256), (256, 0), (256, 256)]);
}

#[test]
fn too_large_texture_is_refused_on_an_empty_page() {
    let mut packer = TexturePacker::new(placer(512, 512, 0));
    assert_eq!(
        packer.add_texture("big".to_string(), 513, 10),
        Err(PlacementError::TooLarge)
    );
    // Nothing changed: the empty page still takes a full-page texture.
    assert_eq!(packer.add_texture("full".to_string(), 512, 512), Ok((0, 0)));
    let p = placer(512, 512, 0);
    assert!(!p.can_place(600, 600));
    assert!(p.can_place(512, 512));
}

#[test]
fn padding_counts_against_the_page() {
    let mut packer = TexturePacker::new(placer(512, 512, 1));
    assert_eq!(
        packer.add_texture("edge".to_string(), 512, 1),
        Err(PlacementError::TooLarge)
    );
    assert_eq!(packer.add_texture("ok".to_string(), 511, 1), Ok((0, 0)));
}

#[test]
fn l_shaped_space_still_takes_a_256_square() {
    let mut p = placer(512, 512, 0);
    let a = p.place_texture(256, 256, "a".to_string(), 0);
    let b = p.place_texture(256, 256, "b".to_string(), 0);
    assert_eq!(a.origin, (0, 0));
    assert_eq!(b.origin, (256, 0));
    assert!(p.can_place(256, 256));
    let c = p.place_texture(512, 256, "c".to_string(), 0);
    assert_eq!(c.origin, (0, 256));
    assert!(!p.can_place(1, 1));
}

#[test]
fn best_area_fit_prefers_the_smaller_rectangle() {
    let mut p = placer(512, 512, 0);
    // Leaves a 412x100 strip on the right and a 512x412 block below.
    p.place_texture(100, 100, "a".to_string(), 0);
    let b = p.place_texture(50, 50, "b".to_string(), 0);
    assert_eq!(b.origin, (100, 0));
}

#[test]
fn reset_param_empties_the_page() {
    let mut p = placer(64, 64, 0);
    p.place_texture(64, 64, "a".to_string(), 0);
    assert!(!p.can_place(1, 1));
    p.reset_param();
    assert!(p.can_place(64, 64));
    assert_eq!(p.config().width(), 64);
}

#[test]
fn placements_stay_inside_the_page() {
    let padding = 3;
    let mut packer = TexturePacker::new(placer(256, 256, padding));
    for i in 0..60u32 {
        let w = 5 + (i * 37) % 90;
        let h = 5 + (i * 53) % 70;
        packer.add_texture(format!("t{i}"), w, h).unwrap();
    }
    for page in packer.finalize() {
        for g in &page {
            assert!(g.origin.0 >= padding && g.origin.1 >= padding);
            assert!(g.origin.0 + g.width <= 256);
            assert!(g.origin.1 + g.height <= 256);
        }
    }
}

#[test]
fn placements_on_a_page_do_not_overlap() {
    let padding = 2;
    let mut packer = TexturePacker::new(placer(256, 256, padding));
    for i in 0..80u32 {
        let w = 3 + (i * 29) % 60;
        let h = 3 + (i * 41) % 80;
        packer.add_texture(format!("t{i}"), w, h).unwrap();
    }
    let pages = packer.finalize();
    assert!(pages.len() > 1);
    for page in &pages {
        for i in 0..page.len() {
            for j in 0..page.len() {
                if i != j {
                    assert!(!overlaps(&page[i], &page[j], padding));
                }
            }
        }
    }
}

#[test]
fn finalize_skips_an_empty_open_page() {
    let packer = TexturePacker::new(placer(64, 64, 0));
    assert!(packer.finalize().is_empty());
}

#[test]
fn pixel_mapping_round_trips() {
    let g = PlacedTextureGeometry {
        cluster_id: "c".to_string(),
        atlas_id: 0,
        origin: (10, 20),
        width: 5,
        height: 5,
    };
    assert_eq!(g.to_page_pixel(3, 4), (13, 24));
    assert_eq!(g.to_local_pixel(13, 24), Some((3, 4)));
    assert_eq!(g.to_local_pixel(9, 24), None);
    let d = g.duplicate();
    assert_eq!((d.cluster_id, d.origin), ("c".to_string(), (10, 20)));
}

#[test]
fn builder_packs_in_order_and_looks_textures_up() {
    let mut builder = TexturePackerBuilder::new(placer(512, 512, 0));
    builder.add_texture("a".to_string(), 300, 300);
    builder.add_texture("b".to_string(), 100, 100);
    builder.add_texture("c".to_string(), 400, 400);
    let provider = builder.build();
    assert_eq!(provider.atlases().len(), 2);
    let a = provider.get_texture_info("a").unwrap();
    assert_eq!((a.atlas_id, a.origin), (0, (0, 0)));
    let b = provider.get_texture_info("b").unwrap();
    assert_eq!(b.atlas_id, 0);
    assert_eq!(b.cluster_id, "b");
    let c = provider.get_texture_info("c").unwrap();
    assert_eq!((c.atlas_id, c.origin), (1, (0, 0)));
    assert!(provider.get_texture_info("d").is_none());
}

#[test]
fn builder_replaces_a_texture_added_twice() {
    let mut builder = TexturePackerBuilder::new(placer(512, 512, 0));
    builder.add_texture("a".to_string(), 10, 10);
    builder.add_texture("a".to_string(), 20, 30);
    let provider = builder.build();
    assert_eq!(provider.atlases().len(), 1);
    assert_eq!(provider.atlases()[0].len(), 1);
    let a = provider.get_texture_info("a").unwrap();
    assert_eq!((a.width, a.height), (20, 30));
}

#[test]
fn builder_with_nothing_added_has_no_pages() {
    let builder = TexturePackerBuilder::new(placer(128, 128, 0));
    let provider = builder.build();
    assert!(provider.atlases().is_empty());
    assert!(provider.get_texture_info("a").is_none());
}

#[test]
fn builder_records_scaled_sizes_once_each_in_order() {
    let mut builder = TexturePackerBuilder::new(placer(128, 128, 1));
    builder.add_texture("a".to_string(), 100, 0);
    builder.add_texture("b".to_string(), 60, 60);
    builder.add_texture("c".to_string(), 100, 100);
    let provider = builder.build();
    let pages = provider.atlases();
    assert_eq!(pages.len(), 2);
    let total: usize = pages.iter().map(|p| p.len()).sum();
    assert_eq!(total, 3);
    let a = provider.get_texture_info("a").unwrap();
    assert_eq!((a.width, a.height, a.atlas_id, a.origin), (100, 1, 0, (1, 1)));
    let b = provider.get_texture_info("b").unwrap();
    assert_eq!((b.width, b.height, b.atlas_id, b.origin), (60, 60, 0, (1, 3)));
    let c = provider.get_texture_info("c").unwrap();
    assert_eq!((c.atlas_id, c.origin), (1, (1, 1)));
    assert_eq!(pages[0][0].cluster_id, "a");
    assert_eq!(pages[0][1].cluster_id, "b");
}

#[test]
fn rectangle_measures() {
    let r = Rectangle { left: 2, top: 3, right: 12, bottom: 8 };
    assert_eq!((r.width(), r.height()), (10, 5));
    let exact = Image { id: "e".to_string(), width: 10, height: 5 };
    let small = Image { id: "s".to_string(), width: 4, height: 5 };
    let wide = Image { id: "w".to_string(), width: 11, height: 1 };
    assert!(r.fits(&exact) && r.fits_perfectly(&exact));
    assert!(r.fits(&small) && !r.fits_perfectly(&small));
    assert!(!r.fits(&wide));
}

#[test]
fn tree_returns_an_exact_leaf_and_splits_a_loose_one() {
    let root = Rectangle { left: 0, top: 0, right: 10, bottom: 10 };
    let mut nodes = vec![Node::new(root)];
    let exact = Image { id: "e".to_string(), width: 10, height: 10 };
    assert_eq!(Node::insert(&mut nodes, 0, &exact), Some(0));
    assert_eq!(nodes.len(), 1);
    let small = Image { id: "s".to_string(), width: 4, height: 4 };
    assert_eq!(Node::insert(&mut nodes, 0, &small), None);
    assert_eq!(nodes.len(), 3);
    let too_big = Image { id: "b".to_string(), width: 11, height: 1 };
    assert_eq!(Node::insert(&mut nodes, 0, &too_big), None);
    assert_eq!(nodes.len(), 3);
}

#[test]
fn merging_again_changes_nothing() {
    let mut p = placer(512, 512, 0);
    p.place_texture(256, 256, "a".to_string(), 0);
    p.place_texture(256, 256, "b".to_string(), 0);
    p.merge_free_rects();
    let once = (p.can_place(512, 256), p.can_place(512, 257), p.can_place(513, 1));
    p.merge_free_rects();
    let twice = (p.can_place(512, 256), p.can_place(512, 257), p.can_place(513, 1));
    assert_eq!(once, (true, false, false));
    assert_eq!(once, twice);
}
