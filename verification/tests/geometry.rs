//! Tile geometry, the tile gate and stitching.

use reco::enhance::{assemble_page, tile_accepted};
use reco::img::Img;
use reco::stitch::stitch_tiles;
use reco::tiles::{axis_origins, split_into_tiles, session_for_tile, tile_origins, Tile};

fn solid(width: u32, height: u32, value: u8) -> Img {
    let pixels = vec![value; (width as usize) * (height as usize) * 3];
    Img::from_raw(width, height, pixels).unwrap()
}

#[test]
fn tile_origins_cover_the_image_without_overrunning_it() {
    let (w, h, t, p) = (300u32, 200u32, 128u32, 8u32);
    let origins = tile_origins(w, h, t, p);
    assert!(!origins.is_empty());

    let mut covered = vec![false; (w as usize) * (h as usize)];
    for &(x, y) in &origins {
        // no tile leaves the image
        assert!(x + t <= w);
        assert!(y + t <= h);
        for dy in 0..t {
            for dx in 0..t {
                covered[((y + dy) as usize) * (w as usize) + (x + dx) as usize] = true;
            }
        }
    }
    // the union of the tiles is the whole image
    assert!(covered.iter().all(|&c| c));
}

#[test]
fn axis_origins_walk_by_the_stride_and_snap_at_the_edge() {
    // stride is 112; the last step snaps so the tile ends flush at 300
    assert_eq!(axis_origins(300, 128, 8), vec![0, 104, 172]);
    // an axis shorter than a tile keeps every origin at zero
    assert_eq!(axis_origins(100, 128, 8), vec![0]);
}

#[test]
fn wrong_sized_tiles_yield_no_result() {
    // scenario: a malformed tile is skipped, not an error and never a
    // wrong-sized output
    assert!(!tile_accepted(&solid(100, 100, 0)));
    assert!(!tile_accepted(&solid(128, 100, 0)));
    assert!(tile_accepted(&solid(128, 128, 0)));
}

#[test]
fn handles_are_assigned_round_robin() {
    assert_eq!(session_for_tile(0, 3), 0);
    assert_eq!(session_for_tile(1, 3), 1);
    assert_eq!(session_for_tile(2, 3), 2);
    assert_eq!(session_for_tile(3, 3), 0);
    assert_eq!(session_for_tile(7, 3), 1);
}

#[test]
fn enhancing_an_uneven_page_writes_every_output_pixel() {
    // scenario: 200 by 150 is no multiple of the stride, yet the stitched
    // output has no unwritten (black) pixel when every tile comes back
    let page = solid(200, 150, 7);
    let tiles = split_into_tiles(&page);
    assert!(tiles.len() > 1);

    let results: Vec<Option<Img>> = tiles.iter().map(|_| Some(solid(512, 512, 255))).collect();
    let out = assemble_page(200, 150, &tiles, results);
    assert_eq!((out.width(), out.height()), (800, 600));
    assert!(out.raw().iter().all(|&v| v == 255));
}

#[test]
fn later_tiles_overwrite_earlier_ones_where_they_overlap() {
    let first = Tile { x: 0, y: 0, img: solid(8, 8, 10) };
    let second = Tile { x: 1, y: 0, img: solid(8, 8, 200) };
    let out = stitch_tiles(3, 2, &vec![first, second]);
    assert_eq!((out.width(), out.height()), (12, 8));

    // columns 0..4 only the first tile; from 4 on the second wins
    for py in 0..8u32 {
        for px in 0..12u32 {
            let expected = if px >= 4 { 200 } else { 10 };
            for c in 0..3usize {
                assert_eq!(out.chan(px, py, c), expected);
            }
        }
    }
}

#[test]
fn dropped_tiles_leave_their_region_black() {
    let page = solid(200, 150, 7);
    let tiles = split_into_tiles(&page);
    let results: Vec<Option<Img>> = tiles.iter().map(|_| None).collect();
    let out = assemble_page(200, 150, &tiles, results);
    assert!(out.raw().iter().all(|&v| v == 0));
}
