//! Tile geometry: padded, overlapping crops that cover a page.
//!
//! Origins walk each axis in steps of `tile - 2 * padding`; a step whose
//! tile would overrun the image is snapped back so the tile ends flush with
//! the boundary, and every origin is then pulled back by the padding
//! (stopping at zero).  For images at least one tile wide and high this
//! produces tiles that never leave the image and together cover it.

use vstd::prelude::*;

use crate::img::{crop_len, Img};

verus! {

/// Edge length of one model input tile, in pixels.
pub const TILE_SIZE: u32 = 128;

/// Context pixels carried on each side of a tile.
pub const PADDING: u32 = 8;

/// The model's fixed upscale factor.
pub const SCALE: u32 = 4;

/// Whether the axis interval starting at `origin` of length `t` contains
/// coordinate `c`.
pub open spec fn covers1(origin: int, t: int, c: int) -> bool {
    origin <= c < origin + t
}

/// Whether some origin's interval of length `t` contains coordinate `c`.
pub open spec fn covered1(origins: Seq<u32>, t: int, c: int) -> bool {
    exists|k: int| 0 <= k < origins.len() && covers1(#[trigger] origins[k] as int, t, c)
}

/// `a - b`, stopping at zero.
pub open spec fn sat_sub_spec(a: int, b: int) -> int {
    if a >= b {
        a - b
    } else {
        0
    }
}

/// The origin that the grid position `pos` produces on an axis of length
/// `len`: the position pulled back by the padding, or, where the remaining
/// distance no longer holds a tile, snapped so the tile ends flush with
/// the boundary.
pub open spec fn step_origin(len: int, tile: int, padding: int, pos: int) -> int {
    let adjusted = if len - sat_sub_spec(pos, padding) < tile {
        sat_sub_spec(len, sat_sub_spec(tile, padding))
    } else {
        pos
    };
    sat_sub_spec(adjusted, padding)
}

/// The origins produced from grid position `pos` on, walking in strides of
/// `tile - 2 * padding`.
pub open spec fn origins_from(len: int, tile: int, padding: int, pos: int) -> Seq<u32>
    decreases len + tile - 2 * padding - pos
        when 2 * padding < tile && 0 <= pos
{
    if pos >= len {
        Seq::empty()
    } else {
        seq![step_origin(len, tile, padding, pos) as u32] + origins_from(
            len,
            tile,
            padding,
            pos + (tile - 2 * padding),
        )
    }
}

/// `a - b`, stopping at zero.
fn sat_sub(a: u32, b: u32) -> (r: u32)
    ensures
        r as int == if a as int >= b as int {
            a as int - b as int
        } else {
            0int
        },
{
    if a >= b {
        a - b
    } else {
        0
    }
}

/// The tile origins along one axis of length `len`.  When the axis holds at
/// least one tile, every origin keeps its tile inside the axis and the
/// tiles together cover every coordinate; a shorter axis gets origins at
/// zero only.
pub fn axis_origins(len: u32, tile: u32, padding: u32) -> (r: Vec<u32>)
    requires
        2 * padding < tile,
    ensures
        r@ == origins_from(len as int, tile as int, padding as int, 0),
        len >= tile ==> forall|k: int| 0 <= k < r@.len() ==> (#[trigger] r@[k]) + tile <= len,
        len < tile ==> forall|k: int| 0 <= k < r@.len() ==> (#[trigger] r@[k]) == 0,
        len > 0 ==> r@.len() > 0,
        len >= tile ==> forall|c: int| 0 <= c < len ==> covered1(r@, tile as int, c),
{
    let stride: u32 = tile - 2 * padding;
    let mut v: Vec<u32> = Vec::new();
    let mut pos: u64 = 0;
    let ghost mut hi: int = 0int;

    while pos < len as u64
        invariant
            2 * padding < tile,
            stride == tile - 2 * padding,
            stride >= 1,
            len >= tile ==> forall|k: int| 0 <= k < v@.len() ==> (#[trigger] v@[k]) + tile <= len,
            len < tile ==> forall|k: int| 0 <= k < v@.len() ==> (#[trigger] v@[k]) == 0,
            pos > 0 ==> v@.len() > 0,
            pos == 0 ==> v@.len() == 0 && hi == 0,
            forall|c: int| 0 <= c < hi && c < len ==> covered1(v@, tile as int, c),
            hi >= 0,
            pos > 0 ==> hi >= (if (len as int) < pos + padding {
                len as int
            } else {
                pos + padding
            }),
            origins_from(len as int, tile as int, padding as int, 0) == v@ + origins_from(
                len as int,
                tile as int,
                padding as int,
                pos as int,
            ),
        decreases len as int + stride as int - pos as int,
    {
        let posu: u32 = pos as u32;
        let near_edge = sat_sub(len, sat_sub(posu, padding));
        let adj: u32 = if near_edge < tile {
            sat_sub(len, sat_sub(tile, padding))
        } else {
            posu
        };
        let origin = sat_sub(adj, padding);

        proof {
            if len >= tile {
                if near_edge < tile {
                    // snapped: the tile ends flush with the axis boundary
                    assert(adj == len - (tile - padding));
                    assert(origin == len - tile);
                } else {
                    assert(origin + tile <= len);
                }
                // the new tile starts no later than everything covered so far
                if pos > 0 {
                    assert(origin <= pos);
                    assert(hi >= pos);
                } else {
                    assert(origin == 0);
                }
            } else {
                assert(origin == 0);
            }
        }

        proof {
            assert(origin as int == step_origin(len as int, tile as int, padding as int, pos as int));
            assert(origins_from(len as int, tile as int, padding as int, pos as int) == seq![
                origin,
            ] + origins_from(len as int, tile as int, padding as int, pos + stride));
        }

        let ghost old_v = v@;
        let ghost old_hi = hi;
        v.push(origin);

        proof {
            assert(v@ + origins_from(len as int, tile as int, padding as int, pos + stride) =~= (
            old_v + (seq![origin] + origins_from(
                len as int,
                tile as int,
                padding as int,
                pos + stride,
            ))));
        }

        proof {
            if len >= tile {
                hi = if old_hi >= origin + tile {
                    old_hi
                } else {
                    origin + tile
                };
            } else {
                hi = len as int;
            }
            assert forall|c: int| 0 <= c < hi && c < len implies covered1(
                v@,
                tile as int,
                c,
            ) by {
                if c < old_hi {
                    assert(covered1(old_v, tile as int, c));
                    let k = choose|k: int|
                        0 <= k < old_v.len() && covers1(
                            #[trigger] old_v[k] as int,
                            tile as int,
                            c,
                        );
                    assert(v@[k] == old_v[k]);
                    assert(covers1(v@[k] as int, tile as int, c));
                } else {
                    assert(origin <= c);
                    assert(c < origin + tile);
                    assert(v@[v@.len() - 1] == origin);
                    assert(covers1(v@[v@.len() - 1] as int, tile as int, c));
                }
            }
        }

        pos = pos + stride as u64;
    }

    proof {
        assert(origins_from(len as int, tile as int, padding as int, pos as int)
            =~= Seq::<u32>::empty());
        assert(v@ =~= origins_from(len as int, tile as int, padding as int, 0));
        if len >= tile {
            assert forall|c: int| 0 <= c < len implies covered1(v@, tile as int, c) by {
                assert(hi >= len);
            }
        }
    }
    v
}

/// One grid row: every axis origin paired with one vertical origin.
pub open spec fn row_of(xs: Seq<u32>, y: u32) -> Seq<(u32, u32)> {
    xs.map_values(|x: u32| (x, y))
}

/// The full grid, row by row.
pub open spec fn grid_of(xs: Seq<u32>, ys: Seq<u32>) -> Seq<(u32, u32)>
    decreases ys.len(),
{
    if ys.len() == 0 {
        Seq::empty()
    } else {
        row_of(xs, ys[0]) + grid_of(xs, ys.drop_first())
    }
}

proof fn lemma_grid_of_push(xs: Seq<u32>, ys: Seq<u32>, y: u32)
    ensures
        grid_of(xs, ys.push(y)) == grid_of(xs, ys) + row_of(xs, y),
    decreases ys.len(),
{
    if ys.len() == 0 {
        assert(ys.push(y)[0] == y);
        assert(ys.push(y).drop_first() =~= Seq::<u32>::empty());
        assert(grid_of(xs, Seq::<u32>::empty()) =~= Seq::<(u32, u32)>::empty());
        assert(grid_of(xs, ys.push(y)) =~= row_of(xs, y));
        assert(grid_of(xs, ys) + row_of(xs, y) =~= row_of(xs, y));
    } else {
        assert(ys.push(y)[0] == ys[0]);
        assert(ys.push(y).drop_first() =~= ys.drop_first().push(y));
        lemma_grid_of_push(xs, ys.drop_first(), y);
        assert(grid_of(xs, ys.push(y)) =~= grid_of(xs, ys) + row_of(xs, y));
    }
}

/// Whether some tile origin's square of side `t` contains the pixel
/// `(px, py)`.
pub open spec fn covered2(origins: Seq<(u32, u32)>, t: int, px: int, py: int) -> bool {
    exists|k: int|
        0 <= k < origins.len() && covers1((#[trigger] origins[k]).0 as int, t, px) && covers1(
            origins[k].1 as int,
            t,
            py,
        )
}

/// The tile origins of a `width` by `height` image, row by row.  For an
/// image at least one tile wide and high, no tile leaves the image and the
/// tiles together cover every pixel.
pub fn tile_origins(width: u32, height: u32, tile: u32, padding: u32) -> (r: Vec<(u32, u32)>)
    requires
        2 * padding < tile,
    ensures
        r@ == grid_of(
            origins_from(width as int, tile as int, padding as int, 0),
            origins_from(height as int, tile as int, padding as int, 0),
        ),
        forall|k: int|
            0 <= k < r@.len() ==> {
                &&& (width >= tile ==> (#[trigger] r@[k]).0 + tile <= width)
                &&& (width < tile ==> r@[k].0 == 0)
                &&& (height >= tile ==> r@[k].1 + tile <= height)
                &&& (height < tile ==> r@[k].1 == 0)
            },
        width > 0 && height > 0 ==> r@.len() > 0,
        width >= tile && height >= tile ==> forall|px: int, py: int|
            0 <= px < width && 0 <= py < height ==> covered2(r@, tile as int, px, py),
{
    let xs = axis_origins(width, tile, padding);
    let ys = axis_origins(height, tile, padding);
    let mut out: Vec<(u32, u32)> = Vec::new();

    proof {
        assert(ys@.take(0int) =~= Seq::<u32>::empty());
        assert(grid_of(xs@, Seq::<u32>::empty()) =~= Seq::<(u32, u32)>::empty());
    }

    let mut j: usize = 0;
    while j < ys.len()
        invariant
            2 * padding < tile,
            width >= tile ==> forall|k: int| 0 <= k < xs@.len() ==> (#[trigger] xs@[k]) + tile
                <= width,
            width < tile ==> forall|k: int| 0 <= k < xs@.len() ==> (#[trigger] xs@[k]) == 0,
            height >= tile ==> forall|k: int| 0 <= k < ys@.len() ==> (#[trigger] ys@[k]) + tile
                <= height,
            height < tile ==> forall|k: int| 0 <= k < ys@.len() ==> (#[trigger] ys@[k]) == 0,
            j <= ys@.len(),
            forall|k: int|
                0 <= k < out@.len() ==> {
                    &&& (width >= tile ==> (#[trigger] out@[k]).0 + tile <= width)
                    &&& (width < tile ==> out@[k].0 == 0)
                    &&& (height >= tile ==> out@[k].1 + tile <= height)
                    &&& (height < tile ==> out@[k].1 == 0)
                },
            forall|a: int, b: int|
                #![trigger xs@[a], ys@[b]]
                0 <= a < xs@.len() && 0 <= b < j ==> out@.contains((xs@[a], ys@[b])),
            j > 0 && xs@.len() > 0 ==> out@.len() > 0,
            out@ == grid_of(xs@, ys@.take(j as int)),
        decreases ys@.len() - j,
    {
        let y = ys[j];
        proof {
            assert(row_of(xs@, ys@[j as int]).take(0int) =~= Seq::<(u32, u32)>::empty());
            assert(out@ =~= grid_of(xs@, ys@.take(j as int)) + row_of(xs@, ys@[j as int]).take(
                0int,
            ));
        }
        let mut i: usize = 0;
        while i < xs.len()
            invariant
                2 * padding < tile,
                width >= tile ==> forall|k: int| 0 <= k < xs@.len() ==> (#[trigger] xs@[k]) + tile
                    <= width,
                width < tile ==> forall|k: int| 0 <= k < xs@.len() ==> (#[trigger] xs@[k]) == 0,
                height >= tile ==> forall|k: int| 0 <= k < ys@.len() ==> (#[trigger] ys@[k]) + tile
                    <= height,
                height < tile ==> forall|k: int| 0 <= k < ys@.len() ==> (#[trigger] ys@[k]) == 0,
                j < ys@.len(),
                y == ys@[j as int],
                i <= xs@.len(),
                forall|k: int|
                    0 <= k < out@.len() ==> {
                        &&& (width >= tile ==> (#[trigger] out@[k]).0 + tile <= width)
                        &&& (width < tile ==> out@[k].0 == 0)
                        &&& (height >= tile ==> out@[k].1 + tile <= height)
                        &&& (height < tile ==> out@[k].1 == 0)
                    },
                forall|a: int, b: int|
                    #![trigger xs@[a], ys@[b]]
                    0 <= a < xs@.len() && 0 <= b < j ==> out@.contains((xs@[a], ys@[b])),
                forall|a: int| 0 <= a < i ==> out@.contains((#[trigger] xs@[a], ys@[j as int])),
                (j > 0 || i > 0) && xs@.len() > 0 ==> out@.len() > 0,
                out@ == grid_of(xs@, ys@.take(j as int)) + row_of(xs@, ys@[j as int]).take(
                    i as int,
                ),
            decreases xs@.len() - i,
        {
            let ghost old_out = out@;
            out.push((xs[i], y));
            proof {
                assert(out@[out@.len() - 1] == (xs@[i as int], ys@[j as int]));
                assert(row_of(xs@, ys@[j as int]).take(i + 1) =~= row_of(
                    xs@,
                    ys@[j as int],
                ).take(i as int).push((xs@[i as int], ys@[j as int])));
                assert(out@ =~= grid_of(xs@, ys@.take(j as int)) + row_of(
                    xs@,
                    ys@[j as int],
                ).take(i + 1));
                assert forall|a: int, b: int|
                    #![trigger xs@[a], ys@[b]]
                    0 <= a < xs@.len() && 0 <= b < j implies out@.contains(
                    (xs@[a], ys@[b]),
                ) by {
                    let k = choose|k: int|
                        0 <= k < old_out.len() && old_out[k] == (xs@[a], ys@[b]);
                    assert(out@[k] == (xs@[a], ys@[b]));
                }
                assert forall|a: int| 0 <= a <= i implies out@.contains(
                    (#[trigger] xs@[a], ys@[j as int]),
                ) by {
                    if a < i {
                        let k = choose|k: int|
                            0 <= k < old_out.len() && old_out[k] == (xs@[a], ys@[j as int]);
                        assert(out@[k] == (xs@[a], ys@[j as int]));
                    } else {
                        assert(out@[out@.len() - 1] == (xs@[a], ys@[j as int]));
                    }
                }
            }
            i = i + 1;
        }
        proof {
            assert(row_of(xs@, ys@[j as int]).take(xs@.len() as int) =~= row_of(
                xs@,
                ys@[j as int],
            ));
            lemma_grid_of_push(xs@, ys@.take(j as int), ys@[j as int]);
            assert(ys@.take(j + 1) =~= ys@.take(j as int).push(ys@[j as int]));
            assert(out@ =~= grid_of(xs@, ys@.take(j + 1)));
        }
        j = j + 1;
    }

    proof {
        assert(ys@.take(ys@.len() as int) =~= ys@);
        if width >= tile && height >= tile {
            assert forall|px: int, py: int|
                0 <= px < width && 0 <= py < height implies covered2(
                out@,
                tile as int,
                px,
                py,
            ) by {
                assert(covered1(xs@, tile as int, px));
                assert(covered1(ys@, tile as int, py));
                let a = choose|a: int|
                    0 <= a < xs@.len() && covers1(#[trigger] xs@[a] as int, tile as int, px);
                let b = choose|b: int|
                    0 <= b < ys@.len() && covers1(#[trigger] ys@[b] as int, tile as int, py);
                assert(out@.contains((xs@[a], ys@[b])));
                let k = choose|k: int| 0 <= k < out@.len() && out@[k] == (xs@[a], ys@[b]);
                assert(covers1(out@[k].0 as int, tile as int, px));
                assert(covers1(out@[k].1 as int, tile as int, py));
            }
        }
    }
    out
}

/// One padded crop of a page, remembering where it was cut.
pub struct Tile {
    pub x: u32,
    pub y: u32,
    pub img: Img,
}

/// Whether some tile's square of side `t` contains the pixel `(px, py)`.
pub open spec fn tiles_cover(ts: Seq<Tile>, t: int, px: int, py: int) -> bool {
    exists|k: int|
        0 <= k < ts.len() && covers1((#[trigger] ts[k]).x as int, t, px) && covers1(
            ts[k].y as int,
            t,
            py,
        )
}

/// Cut a page into its padded tiles, row by row.  Each tile is the crop of
/// the page at its origin; on a page at least one tile wide and high every
/// tile is full-size and the tiles cover every pixel.
pub fn split_into_tiles(img: &Img) -> (r: Vec<Tile>)
    requires
        img.wf(),
    ensures
        forall|k: int|
            0 <= k < r@.len() ==> {
                let t = #[trigger] r@[k];
                &&& t.img.wf()
                &&& t.img@.width == crop_len(img@.width as int, t.x as int, TILE_SIZE as int)
                &&& t.img@.height == crop_len(img@.height as int, t.y as int, TILE_SIZE as int)
                &&& (img@.width >= TILE_SIZE ==> t.x + TILE_SIZE <= img@.width && t.img@.width
                    == TILE_SIZE)
                &&& (img@.height >= TILE_SIZE ==> t.y + TILE_SIZE <= img@.height && t.img@.height
                    == TILE_SIZE)
                &&& forall|dx: int, dy: int, c: int|
                    0 <= dx < t.img@.width && 0 <= dy < t.img@.height && 0 <= c < 3
                        ==> #[trigger] t.img@.chan(dx, dy, c) == img@.chan(
                        t.x + dx,
                        t.y + dy,
                        c,
                    )
            },
        img@.width > 0 && img@.height > 0 ==> r@.len() > 0,
        r@.len() == grid_of(
            origins_from(img@.width as int, TILE_SIZE as int, PADDING as int, 0),
            origins_from(img@.height as int, TILE_SIZE as int, PADDING as int, 0),
        ).len(),
        forall|k: int|
            0 <= k < r@.len() ==> ((#[trigger] r@[k]).x, r@[k].y) == grid_of(
                origins_from(img@.width as int, TILE_SIZE as int, PADDING as int, 0),
                origins_from(img@.height as int, TILE_SIZE as int, PADDING as int, 0),
            )[k],
        img@.width >= TILE_SIZE && img@.height >= TILE_SIZE ==> forall|px: int, py: int|
            0 <= px < img@.width && 0 <= py < img@.height ==> tiles_cover(
                r@,
                TILE_SIZE as int,
                px,
                py,
            ),
{
    let origins = tile_origins(img.width(), img.height(), TILE_SIZE, PADDING);
    let mut out: Vec<Tile> = Vec::new();
    let mut k: usize = 0;

    while k < origins.len()
        invariant
            img.wf(),
            k <= origins@.len(),
            out@.len() == k,
            forall|m: int|
                0 <= m < origins@.len() ==> {
                    &&& (img@.width >= TILE_SIZE ==> (#[trigger] origins@[m]).0 + TILE_SIZE
                        <= img@.width)
                    &&& (img@.width < TILE_SIZE ==> origins@[m].0 == 0)
                    &&& (img@.height >= TILE_SIZE ==> origins@[m].1 + TILE_SIZE <= img@.height)
                    &&& (img@.height < TILE_SIZE ==> origins@[m].1 == 0)
                },
            forall|m: int|
                0 <= m < k ==> {
                    let t = #[trigger] out@[m];
                    &&& t.x == origins@[m].0
                    &&& t.y == origins@[m].1
                    &&& t.img.wf()
                    &&& t.img@.width == crop_len(img@.width as int, t.x as int, TILE_SIZE as int)
                    &&& t.img@.height == crop_len(
                        img@.height as int,
                        t.y as int,
                        TILE_SIZE as int,
                    )
                    &&& forall|dx: int, dy: int, c: int|
                        0 <= dx < t.img@.width && 0 <= dy < t.img@.height && 0 <= c < 3
                            ==> #[trigger] t.img@.chan(dx, dy, c) == img@.chan(
                            t.x + dx,
                            t.y + dy,
                            c,
                        )
                },
        decreases origins@.len() - k,
    {
        let (x, y) = origins[k];
        let cropped = img.crop(x, y, TILE_SIZE, TILE_SIZE);
        out.push(Tile { x, y, img: cropped });
        k = k + 1;
    }

    proof {
        if img@.width >= TILE_SIZE && img@.height >= TILE_SIZE {
            assert forall|px: int, py: int|
                0 <= px < img@.width && 0 <= py < img@.height implies tiles_cover(
                out@,
                TILE_SIZE as int,
                px,
                py,
            ) by {
                assert(covered2(origins@, TILE_SIZE as int, px, py));
                let m = choose|m: int|
                    0 <= m < origins@.len() && covers1(
                        (#[trigger] origins@[m]).0 as int,
                        TILE_SIZE as int,
                        px,
                    ) && covers1(origins@[m].1 as int, TILE_SIZE as int, py);
                assert(covers1(out@[m].x as int, TILE_SIZE as int, px));
                assert(covers1(out@[m].y as int, TILE_SIZE as int, py));
            }
        }
    }
    out
}

/// The inference handle a tile is assigned to: tiles go round-robin over
/// the pool, so a handle never runs two tiles at once within one pass.
pub fn session_for_tile(index: usize, sessions: usize) -> (r: usize)
    requires
        sessions > 0,
    ensures
        r == index as int % sessions as int,
        r < sessions,
{
    index % sessions
}

} // verus!
