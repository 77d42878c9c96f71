use tsplat::depth_sort::ScratchBuffers;
use tsplat::tiles::{PixelRect, TileBins, bin_splats, binned_entry_count, clip_rect, tile_pixel_rect};

fn rects() -> Vec<PixelRect> {
    vec![
        PixelRect { x0: 0, y0: 0, x1: 5, y1: 5 },
        PixelRect { x0: 10, y0: 10, x1: 20, y1: 18 },
        PixelRect { x0: -30, y0: -30, x1: -20, y1: -20 },
        PixelRect { x0: 35, y0: 0, x1: 100, y1: 100 },
    ]
}

#[test]
fn bins_hold_overlapping_splats_in_order() {
    let mut bins = TileBins::new();
    bin_splats(&rects(), 40, 20, &mut bins);
    assert_eq!(bins.num_tiles_x, 3);
    assert_eq!(bins.num_tiles_y, 2);
    assert_eq!(bins.num_tiles(), 6);
    assert_eq!(bins.offsets, vec![0, 2, 3, 4, 5, 6, 7]);
    assert_eq!(bins.splat_indices, vec![0, 1, 1, 3, 1, 1, 3]);
    assert_eq!(bins.tile_range(0), (0, 2));
    assert_eq!(bins.tile_range(5), (6, 7));
    assert_eq!(binned_entry_count(&rects(), 40, 20), 7);
}

#[test]
fn rebinning_replaces_old_lists() {
    let mut scratch = ScratchBuffers::new();
    bin_splats(&rects(), 40, 20, &mut scratch.tiles);
    bin_splats(&[PixelRect { x0: 0, y0: 0, x1: 0, y1: 0 }], 16, 16, &mut scratch.tiles);
    assert_eq!(scratch.tiles.num_tiles(), 1);
    assert_eq!(scratch.tiles.offsets, vec![0, 1]);
    assert_eq!(scratch.tiles.splat_indices, vec![0]);
}

#[test]
fn empty_framebuffer_has_no_tiles() {
    let mut bins = TileBins::new();
    bin_splats(&rects(), 0, 0, &mut bins);
    assert_eq!(bins.num_tiles(), 0);
    assert_eq!(bins.offsets, vec![0]);
    assert!(bins.splat_indices.is_empty());
}

#[test]
fn tile_rects_are_clipped_to_the_framebuffer() {
    assert_eq!(tile_pixel_rect(0, 3, 40, 20), Some(PixelRect { x0: 0, y0: 0, x1: 15, y1: 15 }));
    assert_eq!(tile_pixel_rect(2, 3, 40, 20), Some(PixelRect { x0: 32, y0: 0, x1: 39, y1: 15 }));
    assert_eq!(tile_pixel_rect(5, 3, 40, 20), Some(PixelRect { x0: 32, y0: 16, x1: 39, y1: 19 }));
}

#[test]
fn clipping_a_splat_to_a_tile() {
    let tile = PixelRect { x0: 16, y0: 0, x1: 31, y1: 15 };
    assert_eq!(
        clip_rect(PixelRect { x0: 10, y0: 10, x1: 20, y1: 18 }, tile),
        Some(PixelRect { x0: 16, y0: 10, x1: 20, y1: 15 })
    );
    assert_eq!(clip_rect(PixelRect { x0: 0, y0: 0, x1: 5, y1: 5 }, tile), None);
}

fn contains(r: &PixelRect, x: i32, y: i32) -> bool {
    r.x0 <= x && x <= r.x1 && r.y0 <= y && y <= r.y1
}

#[test]
fn tiled_visits_match_serial_visits() {
    let (w, h) = (53u32, 37u32);
    let mut rects = Vec::new();
    let mut seed = 12345u32;
    for _ in 0..60 {
        let mut next = || {
            seed = seed.wrapping_mul(1103515245).wrapping_add(12345);
            (seed >> 8) as i32
        };
        let x0 = next() % 70 - 10;
        let y0 = next() % 50 - 10;
        let x1 = x0 + next() % 30;
        let y1 = y0 + next() % 30;
        rects.push(PixelRect { x0, y0, x1, y1 });
    }
    let mut bins = TileBins::new();
    bin_splats(&rects, w, h, &mut bins);
    for y in 0..h as i32 {
        for x in 0..w as i32 {
            let serial: Vec<u32> =
                (0..rects.len() as u32).filter(|&i| contains(&rects[i as usize], x, y)).collect();
            let t = ((y / 16) * bins.num_tiles_x + x / 16) as usize;
            let tile = tile_pixel_rect(t, bins.num_tiles_x, w, h).unwrap();
            let (s, e) = bins.tile_range(t);
            let tiled: Vec<u32> = bins.splat_indices[s..e]
                .iter()
                .copied()
                .filter(|&i| matches!(clip_rect(rects[i as usize], tile), Some(r) if contains(&r, x, y)))
                .collect();
            assert_eq!(tiled, serial, "pixel ({x}, {y})");
        }
    }
}
