//! Stitching: compositing enhanced tiles onto the output canvas.
//!
//! Tiles are applied in their list order at their origin scaled by the
//! upscale factor, later tiles overwriting earlier ones where they overlap,
//! so the output is deterministic whatever order the tiles were enhanced
//! in.  Padding regions are not cropped before compositing; overlapping
//! seams therefore carry the later tile's pixels, as the design accepts.

use vstd::prelude::*;

use crate::img::Img;
use crate::tiles::{Tile, SCALE};

verus! {

/// Whether the placed (scaled) tile contains the output pixel `(px, py)`.
pub open spec fn placed_covers(t: Tile, px: int, py: int) -> bool {
    &&& t.x * SCALE <= px < t.x * SCALE + t.img@.width
    &&& t.y * SCALE <= py < t.y * SCALE + t.img@.height
}

/// Channel `c` of the stitched output pixel `(px, py)`: the last tile in
/// the list that covers the pixel decides it; a pixel no tile covers
/// stays black.
pub open spec fn stitched_chan(ts: Seq<Tile>, px: int, py: int, c: int) -> u8
    decreases ts.len(),
{
    if ts.len() == 0 {
        0u8
    } else if placed_covers(ts.last(), px, py) {
        ts.last().img@.chan(px - ts.last().x * SCALE, py - ts.last().y * SCALE, c)
    } else {
        stitched_chan(ts.drop_last(), px, py, c)
    }
}

/// How much of the current tile has been copied: every covered pixel in an
/// earlier row, or earlier in the current row `dy`.
pub open spec fn copied_so_far(t: Tile, px: int, py: int, dx: int, dy: int) -> bool {
    &&& placed_covers(t, px, py)
    &&& (py - t.y * SCALE < dy || (py - t.y * SCALE == dy && px - t.x * SCALE < dx))
}

/// Composite the tiles onto a black canvas of the page's dimensions scaled
/// up, in list order, each at its origin scaled up, clipped to the canvas.
pub fn stitch_tiles(width: u32, height: u32, tiles: &Vec<Tile>) -> (r: Img)
    requires
        forall|k: int| 0 <= k < tiles@.len() ==> (#[trigger] tiles@[k]).img.wf(),
        width as int * SCALE as int <= u32::MAX,
        height as int * SCALE as int <= u32::MAX,
        3 * ((width as int * SCALE as int) * (height as int * SCALE as int)) <= usize::MAX,
    ensures
        r.wf(),
        r@.width == width as int * SCALE as int,
        r@.height == height as int * SCALE as int,
        forall|px: int, py: int, c: int|
            0 <= px < r@.width && 0 <= py < r@.height && 0 <= c < 3 ==> #[trigger] r@.chan(
                px,
                py,
                c,
            ) == stitched_chan(tiles@, px, py, c),
{
    let cw: u32 = width * SCALE;
    let ch: u32 = height * SCALE;
    let mut canvas = Img::new_black(cw, ch);

    proof {
        assert forall|px: int, py: int, c: int|
            0 <= px < canvas@.width && 0 <= py < canvas@.height && 0 <= c
                < 3 implies #[trigger] canvas@.chan(px, py, c) == stitched_chan(
            tiles@.take(0int),
            px,
            py,
            c,
        ) by {
            crate::img::lemma_chan_index_bounds(
                canvas@.width as int,
                canvas@.height as int,
                px,
                py,
                c,
            );
            assert(tiles@.take(0int).len() == 0);
        }
    }

    let mut t: usize = 0;
    while t < tiles.len()
        invariant
            forall|k: int| 0 <= k < tiles@.len() ==> (#[trigger] tiles@[k]).img.wf(),
            t <= tiles@.len(),
            canvas.wf(),
            canvas@.width == cw,
            canvas@.height == ch,
            forall|px: int, py: int, c: int|
                0 <= px < canvas@.width && 0 <= py < canvas@.height && 0 <= c < 3
                    ==> #[trigger] canvas@.chan(px, py, c) == stitched_chan(
                    tiles@.take(t as int),
                    px,
                    py,
                    c,
                ),
        decreases tiles@.len() - t,
    {
        let tile = &tiles[t];
        let tw = tile.img.width();
        let th = tile.img.height();
        let sx: u64 = tile.x as u64 * SCALE as u64;
        let sy: u64 = tile.y as u64 * SCALE as u64;

        let mut dy: u32 = 0;
        while dy < th
            invariant
                forall|k: int| 0 <= k < tiles@.len() ==> (#[trigger] tiles@[k]).img.wf(),
                t < tiles@.len(),
                tile == tiles@[t as int],
                tw == tile.img@.width,
                th == tile.img@.height,
                sx == tile.x as int * SCALE as int,
                sy == tile.y as int * SCALE as int,
                dy <= th,
                canvas.wf(),
                canvas@.width == cw,
                canvas@.height == ch,
                forall|px: int, py: int, c: int|
                    0 <= px < canvas@.width && 0 <= py < canvas@.height && 0 <= c < 3
                        ==> #[trigger] canvas@.chan(px, py, c) == (if copied_so_far(
                        tiles@[t as int],
                        px,
                        py,
                        0int,
                        dy as int,
                    ) {
                        tiles@[t as int].img@.chan(px - sx, py - sy, c)
                    } else {
                        stitched_chan(tiles@.take(t as int), px, py, c)
                    }),
            decreases th - dy,
        {
            let py64: u64 = sy + dy as u64;
            if py64 < ch as u64 {
                let py: u32 = py64 as u32;
                let mut dx: u32 = 0;
                while dx < tw
                    invariant
                        forall|k: int| 0 <= k < tiles@.len() ==> (#[trigger] tiles@[k]).img.wf(),
                        t < tiles@.len(),
                        tile == tiles@[t as int],
                        tw == tile.img@.width,
                        th == tile.img@.height,
                        sx == tile.x as int * SCALE as int,
                        sy == tile.y as int * SCALE as int,
                        dy < th,
                        dx <= tw,
                        py == sy + dy,
                        py < ch,
                        canvas.wf(),
                        canvas@.width == cw,
                        canvas@.height == ch,
                        forall|px: int, py2: int, c: int|
                            0 <= px < canvas@.width && 0 <= py2 < canvas@.height && 0 <= c < 3
                                ==> #[trigger] canvas@.chan(px, py2, c) == (if copied_so_far(
                                tiles@[t as int],
                                px,
                                py2,
                                dx as int,
                                dy as int,
                            ) {
                                tiles@[t as int].img@.chan(px - sx, py2 - sy, c)
                            } else {
                                stitched_chan(tiles@.take(t as int), px, py2, c)
                            }),
                    decreases tw - dx,
                {
                    let px64: u64 = sx + dx as u64;
                    if px64 < cw as u64 {
                        let px: u32 = px64 as u32;
                        let mut c: usize = 0;
                        while c < 3
                            invariant
                                forall|k: int|
                                    0 <= k < tiles@.len() ==> (#[trigger] tiles@[k]).img.wf(),
                                t < tiles@.len(),
                                tile == tiles@[t as int],
                                tw == tile.img@.width,
                                th == tile.img@.height,
                                sx == tile.x as int * SCALE as int,
                                sy == tile.y as int * SCALE as int,
                                dy < th,
                                dx < tw,
                                c <= 3,
                                px == sx + dx,
                                py == sy + dy,
                                px < cw,
                                py < ch,
                                canvas.wf(),
                                canvas@.width == cw,
                                canvas@.height == ch,
                                forall|px2: int, py2: int, c2: int|
                                    0 <= px2 < canvas@.width && 0 <= py2 < canvas@.height && 0 <= c2
                                        < 3 ==> #[trigger] canvas@.chan(px2, py2, c2) == (
                                    if copied_so_far(
                                        tiles@[t as int],
                                        px2,
                                        py2,
                                        dx as int,
                                        dy as int,
                                    ) || (px2 == px && py2 == py && c2 < c) {
                                        tiles@[t as int].img@.chan(px2 - sx, py2 - sy, c2)
                                    } else {
                                        stitched_chan(tiles@.take(t as int), px2, py2, c2)
                                    }),
                            decreases 3 - c,
                        {
                            let v = tile.img.chan(dx, dy, c);
                            canvas.set_chan(px, py, c, v);
                            c = c + 1;
                        }
                    }
                    dx = dx + 1;
                }
            }
            dy = dy + 1;
        }

        proof {
            assert(tiles@.take(t + 1).last() == tiles@[t as int]);
            assert(tiles@.take(t + 1).drop_last() =~= tiles@.take(t as int));
            assert forall|px: int, py: int, c: int|
                0 <= px < canvas@.width && 0 <= py < canvas@.height && 0 <= c
                    < 3 implies #[trigger] canvas@.chan(px, py, c) == stitched_chan(
                tiles@.take(t + 1),
                px,
                py,
                c,
            ) by {
                if placed_covers(tiles@[t as int], px, py) {
                    assert(copied_so_far(tiles@[t as int], px, py, 0int, dy as int));
                }
            }
        }
        t = t + 1;
    }

    proof {
        assert(tiles@.take(tiles@.len() as int) =~= tiles@);
    }
    canvas
}

} // verus!
