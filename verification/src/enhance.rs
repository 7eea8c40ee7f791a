//! The enhancement pipeline's decisions: which tiles to run, on which
//! handle, and how the results are put back together.
//!
//! Running the model itself is outside work; the surrounding loop hands
//! each padded tile to an inference handle chosen round-robin and collects
//! one optional result per tile (a rejected or failed tile yields none and
//! is simply left out of the page).  Everything decided here — the tile
//! gate, the pairing of results with their origins, and the stitched
//! output — is verified.

use vstd::prelude::*;

use crate::img::Img;
use crate::stitch::{placed_covers, stitch_tiles, stitched_chan};
use crate::tiles::{covers1, tiles_cover, Tile, SCALE, TILE_SIZE};

verus! {

/// Only a full-size tile is handed to the model; anything else yields no
/// result rather than an error or a wrong-sized output.
pub fn tile_accepted(tile: &Img) -> (r: bool)
    ensures
        r == (tile@.width == TILE_SIZE && tile@.height == TILE_SIZE),
{
    tile.width() == TILE_SIZE && tile.height() == TILE_SIZE
}

/// The surviving tiles: each result that came back, placed at the origin
/// of the tile it was computed from, in tile order.
pub open spec fn kept_tiles(ts: Seq<Tile>, rs: Seq<Option<Img>>) -> Seq<Tile>
    decreases ts.len(),
{
    if ts.len() == 0 || rs.len() == 0 {
        Seq::empty()
    } else {
        let rest = kept_tiles(ts.drop_last(), rs.drop_last());
        if rs.last() is Some {
            rest.push(Tile { x: ts.last().x, y: ts.last().y, img: rs.last().unwrap() })
        } else {
            rest
        }
    }
}

/// Stitch the per-tile results onto the output canvas: each surviving
/// result lands at its tile's origin scaled up, later tiles overwriting
/// earlier ones where they overlap; dropped tiles leave their region to
/// their neighbours or, failing that, black.
pub fn assemble_page(width: u32, height: u32, tiles: &Vec<Tile>, results: Vec<Option<Img>>) -> (r:
    Img)
    requires
        results@.len() == tiles@.len(),
        forall|k: int|
            0 <= k < results@.len() ==> ((#[trigger] results@[k]) matches Some(im)
                ==> im.wf()),
        width as int * SCALE as int <= u32::MAX,
        height as int * SCALE as int <= u32::MAX,
        3 * ((width as int * SCALE as int) * (height as int * SCALE as int)) <= usize::MAX,
    ensures
        r.wf(),
        r@.width == width as int * SCALE as int,
        r@.height == height as int * SCALE as int,
        forall|px: int, py: int, c: int|
            0 <= px < r@.width && 0 <= py < r@.height && 0 <= c < 3 ==> #[trigger] r@.chan(
                px,
                py,
                c,
            ) == stitched_chan(kept_tiles(tiles@, results@), px, py, c),
{
    let ghost all_results = results@;
    let mut placed: Vec<Tile> = Vec::new();
    let mut rest = results;
    let mut i: usize = 0;

    proof {
        assert(kept_tiles(tiles@.take(0int), all_results.take(0int)) =~= Seq::<Tile>::empty());
        assert(rest@ =~= all_results.skip(0int));
    }

    while i < tiles.len()
        invariant
            all_results.len() == tiles@.len(),
            forall|k: int|
                0 <= k < all_results.len() ==> ((#[trigger] all_results[k]) matches Some(im)
                    ==> im.wf()),
            i <= tiles@.len(),
            rest@ == all_results.skip(i as int),
            placed@ == kept_tiles(tiles@.take(i as int), all_results.take(i as int)),
            forall|k: int| 0 <= k < placed@.len() ==> (#[trigger] placed@[k]).img.wf(),
        decreases tiles@.len() - i,
    {
        let ghost old_placed = placed@;
        proof {
            assert(rest@[0] == all_results[i as int]);
            assert(tiles@.take(i + 1).drop_last() =~= tiles@.take(i as int));
            assert(all_results.take(i + 1).drop_last() =~= all_results.take(i as int));
            assert(tiles@.take(i + 1).last() == tiles@[i as int]);
            assert(all_results.take(i + 1).last() == all_results[i as int]);
        }
        let first = rest.remove(0);
        match first {
            Some(im) => {
                let x = tiles[i].x;
                let y = tiles[i].y;
                placed.push(Tile { x, y, img: im });
            },
            None => {},
        }
        proof {
            assert(rest@ =~= all_results.skip(i + 1));
            assert(placed@ =~= kept_tiles(tiles@.take(i + 1), all_results.take(i + 1)));
        }
        i = i + 1;
    }

    proof {
        assert(tiles@.take(tiles@.len() as int) =~= tiles@);
        assert(all_results.take(all_results.len() as int) =~= all_results);
    }
    stitch_tiles(width, height, &placed)
}

/// Every output pixel of a fully covered, fully enhanced page is written
/// by at least one tile: if the tiles cover the source pixel under an
/// output pixel, some placed tile covers the output pixel itself.
pub proof fn lemma_output_pixel_written(ts: Seq<Tile>, px: int, py: int)
    requires
        0 <= px,
        0 <= py,
        forall|k: int|
            0 <= k < ts.len() ==> (#[trigger] ts[k]).img@.width == TILE_SIZE as int * SCALE as int
                && ts[k].img@.height == TILE_SIZE as int * SCALE as int,
        tiles_cover(ts, TILE_SIZE as int, px / (SCALE as int), py / (SCALE as int)),
    ensures
        exists|k: int| 0 <= k < ts.len() && placed_covers(#[trigger] ts[k], px, py),
{
    let s = SCALE as int;
    let t = TILE_SIZE as int;
    let k = choose|k: int|
        0 <= k < ts.len() && covers1((#[trigger] ts[k]).x as int, t, px / s) && covers1(
            ts[k].y as int,
            t,
            py / s,
        );
    lemma_scaled_cover(ts[k].x as int, t, s, px);
    lemma_scaled_cover(ts[k].y as int, t, s, py);
    assert(placed_covers(ts[k], px, py));
}

/// If a tile's interval contains a scaled-down coordinate, the scaled-up
/// interval contains the coordinate itself.
proof fn lemma_scaled_cover(x: int, t: int, s: int, p: int)
    requires
        0 <= x,
        0 <= p,
        s >= 1,
        t >= 1,
        covers1(x, t, p / s),
    ensures
        x * s <= p < x * s + t * s,
{
    vstd::arithmetic::div_mod::lemma_fundamental_div_mod(p, s);
    assert(x * s <= (p / s) * s) by (nonlinear_arith)
        requires
            x <= p / s,
            s >= 1,
    ;
    assert((p / s) * s + s <= (x + t) * s) by (nonlinear_arith)
        requires
            p / s < x + t,
            s >= 1,
    ;
    assert((x + t) * s == x * s + t * s) by (nonlinear_arith);
}

} // verus!
