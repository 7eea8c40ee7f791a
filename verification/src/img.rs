//! A decoded raster page: width, height and an 8-bit RGB pixel buffer.
//!
//! This is the plain-value form in which pages cross every boundary of the
//! library: what decoding produces, what tiles are cut from, and what the
//! stitcher and encoder consume.  The buffer is row-major, three bytes per
//! pixel.

use vstd::prelude::*;

verus! {

/// The mathematical value of an image: dimensions and the flat pixel bytes.
pub ghost struct ImgV {
    pub width: nat,
    pub height: nat,
    pub pixels: Seq<u8>,
}

impl ImgV {
    /// The buffer holds exactly three bytes for each pixel.
    pub open spec fn wf(self) -> bool {
        self.pixels.len() == 3 * (self.width * self.height)
    }

    /// Channel `c` of the pixel at `(x, y)`.
    pub open spec fn chan(self, x: int, y: int, c: int) -> u8 {
        self.pixels[3 * (y * self.width + x) + c]
    }
}

/// The flat buffer offset of channel `c` of pixel `(x, y)` lies inside the
/// buffer of a `w` by `h` image.
pub proof fn lemma_chan_index_bounds(w: int, h: int, x: int, y: int, c: int)
    requires
        0 <= x < w,
        0 <= y < h,
        0 <= c < 3,
    ensures
        0 <= 3 * (y * w + x) + c,
        3 * (y * w + x) + c < 3 * (w * h),
{
    assert(0 <= y * w + x && y * w + x < w * h) by (nonlinear_arith)
        requires
            0 <= x < w,
            0 <= y < h,
    ;
}

/// An 8-bit RGB image.
pub struct Img {
    width: u32,
    height: u32,
    pixels: Vec<u8>,
}

impl Img {
    pub closed spec fn view(self) -> ImgV {
        ImgV {
            width: self.width as nat,
            height: self.height as nat,
            pixels: self.pixels@,
        }
    }

    /// The buffer matches the dimensions.
    pub open spec fn wf(self) -> bool {
        self@.wf()
    }

    #[must_use]
    pub fn width(&self) -> (w: u32)
        ensures
            w == self@.width,
    {
        self.width
    }

    #[must_use]
    pub fn height(&self) -> (h: u32)
        ensures
            h == self@.height,
    {
        self.height
    }

    /// The flat pixel buffer, row-major, three bytes per pixel.
    #[must_use]
    pub fn raw(&self) -> (r: &Vec<u8>)
        ensures
            r@ == self@.pixels,
    {
        &self.pixels
    }

    /// Build an image from its parts; rejects a buffer whose length does not
    /// match the dimensions.
    pub fn from_raw(width: u32, height: u32, pixels: Vec<u8>) -> (r: Option<Img>)
        ensures
            match r {
                Some(img) => img.wf() && img@ == (ImgV {
                    width: width as nat,
                    height: height as nat,
                    pixels: pixels@,
                }),
                None => pixels@.len() != 3 * ((width as nat) * (height as nat)),
            },
    {
        proof {
            assert((width as int) * (height as int) <= (u32::MAX as int) * (u32::MAX as int))
                by (nonlinear_arith)
                requires
                    width <= u32::MAX,
                    height <= u32::MAX,
            ;
        }
        let expected: u128 = 3u128 * ((width as u128) * (height as u128));
        if (pixels.len() as u128) == expected {
            Some(Img { width, height, pixels })
        } else {
            None
        }
    }

    /// A fully black image.
    pub fn new_black(width: u32, height: u32) -> (r: Img)
        requires
            3 * ((width as nat) * (height as nat)) <= usize::MAX,
        ensures
            r.wf(),
            r@.width == width,
            r@.height == height,
            forall|i: int| 0 <= i < r@.pixels.len() ==> r@.pixels[i] == 0u8,
    {
        let n: usize = ((width as usize) * (height as usize)) * 3;
        let mut pixels: Vec<u8> = Vec::new();
        let mut i: usize = 0;
        while i < n
            invariant
                i <= n,
                pixels@.len() == i,
                forall|k: int| 0 <= k < i ==> pixels@[k] == 0u8,
            decreases n - i,
        {
            pixels.push(0u8);
            i = i + 1;
        }
        Img { width, height, pixels }
    }

    /// Channel `c` of the pixel at `(x, y)`.
    #[must_use]
    pub fn chan(&self, x: u32, y: u32, c: usize) -> (v: u8)
        requires
            self.wf(),
            x < self@.width,
            y < self@.height,
            c < 3,
        ensures
            v == self@.chan(x as int, y as int, c as int),
    {
        proof {
            lemma_chan_index_bounds(
                self@.width as int,
                self@.height as int,
                x as int,
                y as int,
                c as int,
            );
        }
        let buffer_len = self.pixels.len();
        proof {
            assert(3 * ((y as int) * (self@.width as int) + (x as int)) + c < buffer_len);
        }
        let idx: usize = 3 * ((y as usize) * (self.width as usize) + (x as usize)) + c;
        self.pixels[idx]
    }

    /// Overwrite channel `c` of the pixel at `(x, y)`.
    pub fn set_chan(&mut self, x: u32, y: u32, c: usize, v: u8)
        requires
            old(self).wf(),
            x < old(self)@.width,
            y < old(self)@.height,
            c < 3,
        ensures
            final(self).wf(),
            final(self)@.width == old(self)@.width,
            final(self)@.height == old(self)@.height,
            final(self)@.chan(x as int, y as int, c as int) == v,
            forall|x2: int, y2: int, c2: int|
                0 <= x2 < old(self)@.width && 0 <= y2 < old(self)@.height && 0 <= c2 < 3 && !(x2
                    == x as int && y2 == y as int && c2 == c as int)
                    ==> #[trigger] final(self)@.chan(x2, y2, c2) == old(self)@.chan(x2, y2, c2),
    {
        proof {
            lemma_chan_index_bounds(
                self@.width as int,
                self@.height as int,
                x as int,
                y as int,
                c as int,
            );
        }
        let buffer_len = self.pixels.len();
        proof {
            assert(3 * ((y as int) * (self@.width as int) + (x as int)) + c < buffer_len);
        }
        let idx: usize = 3 * ((y as usize) * (self.width as usize) + (x as usize)) + c;
        self.pixels.set(idx, v);
        proof {
            assert forall|x2: int, y2: int, c2: int|
                0 <= x2 < old(self)@.width && 0 <= y2 < old(self)@.height && 0 <= c2 < 3 && !(x2
                    == x as int && y2 == y as int && c2 == c as int)
                    implies #[trigger] self@.chan(x2, y2, c2) == old(self)@.chan(x2, y2, c2) by {
                lemma_chan_index_bounds(
                    old(self)@.width as int,
                    old(self)@.height as int,
                    x2,
                    y2,
                    c2,
                );
                lemma_chan_index_distinct(
                    old(self)@.width as int,
                    x as int,
                    y as int,
                    c as int,
                    x2,
                    y2,
                    c2,
                );
            }
        }
    }

    /// The `cw` by `ch` region of this image whose top-left corner is
    /// `(x, y)`, clamped to the image bounds as an archive page crop is.
    pub fn crop(&self, x: u32, y: u32, cw: u32, ch: u32) -> (r: Img)
        requires
            self.wf(),
        ensures
            r.wf(),
            r@.width == crop_len(self@.width as int, x as int, cw as int),
            r@.height == crop_len(self@.height as int, y as int, ch as int),
            forall|dx: int, dy: int, c: int|
                0 <= dx < r@.width && 0 <= dy < r@.height && 0 <= c < 3 ==> #[trigger] r@.chan(
                    dx,
                    dy,
                    c,
                ) == self@.chan(x + dx, y + dy, c),
    {
        let ow: u32 = if x >= self.width {
            0
        } else if cw < self.width - x {
            cw
        } else {
            self.width - x
        };
        let oh: u32 = if y >= self.height {
            0
        } else if ch < self.height - y {
            ch
        } else {
            self.height - y
        };

        let mut pixels: Vec<u8> = Vec::new();
        let mut dy: u32 = 0;
        while dy < oh
            invariant
                self.wf(),
                dy <= oh,
                ow > 0 ==> x + ow <= self@.width,
                oh > 0 ==> y + oh <= self@.height,
                pixels@.len() == 3 * ((dy as int) * (ow as int)),
                forall|px: int, py: int, c: int|
                    0 <= px < ow && 0 <= py < dy && 0 <= c < 3 ==> #[trigger] pixels@[3 * (py * (
                    ow as int) + px) + c] == self@.chan(x + px, y + py, c),
            decreases oh - dy,
        {
            let mut dx: u32 = 0;
            while dx < ow
                invariant
                    self.wf(),
                    dy < oh,
                    dx <= ow,
                    ow > 0 ==> x + ow <= self@.width,
                    oh > 0 ==> y + oh <= self@.height,
                    pixels@.len() == 3 * ((dy as int) * (ow as int) + (dx as int)),
                    forall|px: int, py: int, c: int|
                        0 <= px < ow && 0 <= py < dy && 0 <= c < 3 ==> #[trigger] pixels@[3 * (py
                            * (ow as int) + px) + c] == self@.chan(x + px, y + py, c),
                    forall|px: int, c: int|
                        0 <= px < dx && 0 <= c < 3 ==> #[trigger] pixels@[3 * ((dy as int) * (
                        ow as int) + px) + c] == self@.chan(x + px, y + dy, c),
                decreases ow - dx,
            {
                let mut c: usize = 0;
                while c < 3
                    invariant
                        self.wf(),
                        dy < oh,
                        dx < ow,
                        c <= 3,
                        ow > 0 ==> x + ow <= self@.width,
                        oh > 0 ==> y + oh <= self@.height,
                        pixels@.len() == 3 * ((dy as int) * (ow as int) + (dx as int)) + c,
                        forall|px: int, py: int, cc: int|
                            0 <= px < ow && 0 <= py < dy && 0 <= cc < 3 ==> #[trigger] pixels@[3 * (
                            py * (ow as int) + px) + cc] == self@.chan(x + px, y + py, cc),
                        forall|px: int, cc: int|
                            0 <= px < dx && 0 <= cc < 3 ==> #[trigger] pixels@[3 * ((dy as int) * (
                            ow as int) + px) + cc] == self@.chan(x + px, y + dy, cc),
                        forall|cc: int|
                            0 <= cc < c ==> #[trigger] pixels@[3 * ((dy as int) * (ow as int) + (
                            dx as int)) + cc] == self@.chan(x + dx, y + dy, cc),
                    decreases 3 - c,
                {
                    let v = self.chan(x + dx, y + dy, c);
                    pixels.push(v);
                    proof {
                        assert forall|px: int, py: int, cc: int|
                            0 <= px < ow && 0 <= py < dy && 0 <= cc
                                < 3 implies #[trigger] pixels@[3 * (py * (ow as int) + px) + cc]
                            == self@.chan(x + px, y + py, cc) by {
                            lemma_prior_index_below(
                                dy as int,
                                dx as int,
                                ow as int,
                                px,
                                py,
                                cc,
                            );
                        }
                    }
                    c = c + 1;
                }
                dx = dx + 1;
            }
            proof {
                lemma_next_row(dy as int, ow as int);
            }
            dy = dy + 1;
        }

        let out = Img { width: ow, height: oh, pixels };
        proof {
            assert(3 * ((oh as int) * (ow as int)) == 3 * ((ow as int) * (oh as int)))
                by (nonlinear_arith);
            assert forall|dx: int, dy2: int, c: int|
                0 <= dx < out@.width && 0 <= dy2 < out@.height && 0 <= c
                    < 3 implies #[trigger] out@.chan(dx, dy2, c) == self@.chan(
                x + dx,
                y + dy2,
                c,
            ) by {
                assert(out@.pixels[3 * (dy2 * (ow as int) + dx) + c] == self@.chan(
                    x + dx,
                    y + dy2,
                    c,
                ));
            }
        }
        out
    }
}

/// Distinct channel coordinates occupy distinct flat buffer offsets.
proof fn lemma_chan_index_distinct(w: int, x1: int, y1: int, c1: int, x2: int, y2: int, c2: int)
    requires
        0 <= x1 < w,
        0 <= x2 < w,
        0 <= y1,
        0 <= y2,
        0 <= c1 < 3,
        0 <= c2 < 3,
        !(x1 == x2 && y1 == y2 && c1 == c2),
    ensures
        3 * (y1 * w + x1) + c1 != 3 * (y2 * w + x2) + c2,
{
    assert(y1 != y2 ==> y1 * w + x1 != y2 * w + x2) by (nonlinear_arith)
        requires
            0 <= x1 < w,
            0 <= x2 < w,
    ;
}

/// Length of the intersection of `[start, start + want)` with `[0, full)`.
pub open spec fn crop_len(full: int, start: int, want: int) -> int {
    if start >= full {
        0
    } else if want < full - start {
        want
    } else {
        full - start
    }
}

/// A flat offset inside an earlier row lies below the write position of
/// the current pixel.
proof fn lemma_prior_index_below(dy: int, dx: int, ow: int, px: int, py: int, cc: int)
    requires
        0 <= px < ow,
        0 <= py < dy,
        0 <= cc < 3,
        0 <= dx,
    ensures
        3 * (py * ow + px) + cc < 3 * (dy * ow + dx),
{
    assert(py * ow + px < dy * ow) by (nonlinear_arith)
        requires
            0 <= px < ow,
            0 <= py < dy,
    ;
}

proof fn lemma_next_row(dy: int, ow: int)
    ensures
        3 * (dy * ow + ow) == 3 * ((dy + 1) * ow),
{
    assert(dy * ow + ow == (dy + 1) * ow) by (nonlinear_arith);
}

} // verus!
