//! Packing loose images into a container, with optional splitting of
//! landscape pages into two.
//!
//! A landscape page is cut into left and right halves that overlap by two
//! percent of the width on each side of the middle, and the halves are
//! re-encoded as JPEG; every other page is stored as its original bytes.

use vstd::prelude::*;

use crate::codec::{image_decode, is_image_bytes, jpeg_encoding};
use crate::errors::InsertionError;
use crate::img::{crop_len, ImgV};
use crate::names::{entry_name_bytes, entry_name_spec};
use crate::writer::{dir_suffixed, Writer, JPEG_QUALITY};

verus! {

/// Packing options.
#[derive(Debug, Clone, Copy)]
pub struct Options {
    autosplit: bool,
}

impl Options {
    /// Whether landscape pages are split into two portrait pages.
    pub closed spec fn autosplit_on(self) -> bool {
        self.autosplit
    }

    #[must_use]
    pub fn new(autosplit: bool) -> (r: Options)
        ensures
            r.autosplit_on() == autosplit,
    {
        Options { autosplit }
    }

    /// Whether any option asks for the page to be decoded first.
    fn has_img_modifier(self) -> (r: bool)
        ensures
            r == self.autosplit_on(),
    {
        self.autosplit
    }
}

/// Packing one image failed.
#[derive(Debug, Clone, Copy, PartialEq, Eq, Structural)]
pub enum PackError {
    /// Appending to the container failed.
    CbzInsertion(InsertionError),
    /// The page had to be decoded for splitting but its bytes do not
    /// decode.
    ImageDecode,
}

/// Width of the left half of a split landscape page: half the width plus a
/// one-percent overlap margin.
pub open spec fn split_left_width(w: int) -> int {
    51 * w / 100
}

/// Where the right half of a split landscape page starts: half the width
/// minus the same margin.
pub open spec fn split_right_start(w: int) -> int {
    49 * w / 100
}

/// `part` is the crop of `whole` at `(x, y)` with the wanted size, clamped
/// to the image.
pub open spec fn is_crop_of(part: ImgV, whole: ImgV, x: int, y: int, w: int, h: int) -> bool {
    &&& part.wf()
    &&& part.width == crop_len(whole.width as int, x, w)
    &&& part.height == crop_len(whole.height as int, y, h)
    &&& forall|dx: int, dy: int, c: int|
        0 <= dx < part.width && 0 <= dy < part.height && 0 <= c < 3 ==> #[trigger] part.chan(
            dx,
            dy,
            c,
        ) == whole.chan(x + dx, y + dy, c)
}

/// Append one loose image to the container.  Without the split option (or
/// for a portrait page) the raw bytes are stored as they are, under the
/// page's own extension; with it, a landscape page is decoded, cut into
/// two overlapping halves, and both are appended re-encoded as JPEG.
pub fn pack_image_bytes(cbz: &mut Writer, ext: &str, bytes: &[u8], opts: Options) -> (r: Result<
    (),
    PackError,
>)
    requires
        old(cbz).wf(),
    ensures
        final(cbz).wf(),
        opts.autosplit_on() && image_decode(bytes@) is None ==> (r matches Err(e) && e
            == PackError::ImageDecode) && *final(cbz) == *old(cbz),
        (!opts.autosplit_on() || (image_decode(bytes@) matches Some(v) && v.height >= v.width))
            ==> {
            &&& old(cbz).full() ==> (r matches Err(e) && e == PackError::CbzInsertion(
                InsertionError::CbzFull(usize::MAX),
            )) && *final(cbz) == *old(cbz)
            &&& !old(cbz).full() && !is_image_bytes(bytes@) ==> (r matches Err(e) && e
                == PackError::CbzInsertion(InsertionError::InvalidFormat)) && *final(cbz) == *old(
                cbz,
            )
            &&& !old(cbz).full() && is_image_bytes(bytes@) && dir_suffixed(ext@) ==> (r matches Err(
                e,
            ) && e == PackError::CbzInsertion(InsertionError::FileCreation)) && *final(cbz)
                == *old(cbz)
            &&& !old(cbz).full() && is_image_bytes(bytes@) && !dir_suffixed(ext@)
                && entry_name_bytes(old(cbz).index() as nat, ext@) > 65535 ==> (r matches Err(e)
                && e == PackError::CbzInsertion(InsertionError::FileCreation)) && *final(cbz)
                == *old(cbz)
            &&& !old(cbz).full() && is_image_bytes(bytes@) && !dir_suffixed(ext@)
                && entry_name_bytes(old(cbz).index() as nat, ext@) <= 65535 && bytes@.len()
                > 0xFFFF_FFFF ==> (r matches Err(e) && e == PackError::CbzInsertion(
                InsertionError::FileWrite,
            )) && *final(cbz) == *old(cbz)
            &&& !old(cbz).full() && is_image_bytes(bytes@) && !dir_suffixed(ext@)
                && entry_name_bytes(old(cbz).index() as nat, ext@) <= 65535 && bytes@.len()
                <= 0xFFFF_FFFF ==> r is Ok && final(cbz).entries() == old(cbz).entries().push(
                (entry_name_spec(old(cbz).index() as nat, ext@), bytes@, true),
            )
        },
        opts.autosplit_on() && (image_decode(bytes@) matches Some(v) && v.height < v.width)
            && r is Ok ==> exists|l: ImgV, rg: ImgV|
            {
                &&& #[trigger] is_crop_of(
                    l,
                    image_decode(bytes@).unwrap(),
                    0,
                    0,
                    split_left_width(image_decode(bytes@).unwrap().width as int),
                    image_decode(bytes@).unwrap().height as int,
                )
                &&& #[trigger] is_crop_of(
                    rg,
                    image_decode(bytes@).unwrap(),
                    split_right_start(image_decode(bytes@).unwrap().width as int),
                    0,
                    image_decode(bytes@).unwrap().width as int,
                    image_decode(bytes@).unwrap().height as int,
                )
                &&& final(cbz).entries() == old(cbz).entries().push(
                    (
                        entry_name_spec(old(cbz).index() as nat, ".jpeg"@),
                        jpeg_encoding(l, JPEG_QUALITY),
                        true,
                    ),
                ).push(
                    (
                        entry_name_spec((old(cbz).index() + 1) as nat, ".jpeg"@),
                        jpeg_encoding(rg, JPEG_QUALITY),
                        true,
                    ),
                )
                &&& final(cbz).index() == old(cbz).index() + 2
            },
        opts.autosplit_on() && (image_decode(bytes@) matches Some(v) && v.height < v.width)
            && r is Ok ==> {
            let v = image_decode(bytes@).unwrap();
            {
                &&& 1 <= split_left_width(v.width as int) <= 65535
                &&& 1 <= v.width - split_right_start(v.width as int) <= 65535
                &&& 1 <= v.height <= 65535
                &&& old(cbz).index() + 2 <= usize::MAX
            }
        },
        opts.autosplit_on() && (image_decode(bytes@) matches Some(v) && v.height < v.width) ==> {
            let v = image_decode(bytes@).unwrap();
            ({
                &&& 1 <= split_left_width(v.width as int) <= 65535
                &&& 1 <= v.width - split_right_start(v.width as int) <= 65535
                &&& 1 <= v.height <= 65535
                &&& old(cbz).index() + 2 <= usize::MAX
                &&& forall|l: ImgV|
                    is_crop_of(l, v, 0, 0, split_left_width(v.width as int), v.height as int)
                        ==> #[trigger] jpeg_encoding(l, JPEG_QUALITY).len() <= 0xFFFF_FFFF
                &&& forall|rg: ImgV|
                    is_crop_of(
                        rg,
                        v,
                        split_right_start(v.width as int),
                        0,
                        v.width as int,
                        v.height as int,
                    ) ==> #[trigger] jpeg_encoding(rg, JPEG_QUALITY).len() <= 0xFFFF_FFFF
            }) ==> r is Ok
        },
{
    if opts.has_img_modifier() {
        let decoded = crate::codec::decode_rgb(bytes);
        match decoded {
            None => {
                return Err(PackError::ImageDecode);
            },
            Some(img) => {
                if img.height() < img.width() {
                    let w = img.width();
                    let h = img.height();
                    let lw: u32 = ((51u64 * (w as u64)) / 100) as u32;
                    let rs: u32 = ((49u64 * (w as u64)) / 100) as u32;
                    proof {
                        lemma_split_bounds(w as int);
                    }
                    let left = img.crop(0, 0, lw, h);
                    let right = img.crop(rs, 0, w, h);

                    match cbz.insert_image_as_jpeg(&left, JPEG_QUALITY) {
                        Err(e) => {
                            return Err(PackError::CbzInsertion(e));
                        },
                        Ok(()) => {},
                    }
                    match cbz.insert_image_as_jpeg(&right, JPEG_QUALITY) {
                        Err(e) => {
                            return Err(PackError::CbzInsertion(e));
                        },
                        Ok(()) => {},
                    }
                    proof {
                        assert(is_crop_of(
                            left@,
                            img@,
                            0,
                            0,
                            split_left_width(img@.width as int),
                            img@.height as int,
                        ));
                        assert(is_crop_of(
                            right@,
                            img@,
                            split_right_start(img@.width as int),
                            0,
                            img@.width as int,
                            img@.height as int,
                        ));
                    }
                    return Ok(());
                }
            },
        }
    }

    match cbz.insert_buf(ext, bytes) {
        Ok(()) => Ok(()),
        Err(e) => Err(PackError::CbzInsertion(e)),
    }
}

/// The half boundaries stay inside the page.
proof fn lemma_split_bounds(w: int)
    requires
        0 <= w <= u32::MAX,
    ensures
        0 <= 51 * w / 100 <= w,
        0 <= 49 * w / 100 <= w,
        49 * w / 100 <= 51 * w / 100,
        w >= 1 ==> 49 * w / 100 < w,
{
    vstd::arithmetic::div_mod::lemma_div_is_ordered(49 * w, 51 * w, 100);
    vstd::arithmetic::div_mod::lemma_div_is_ordered(51 * w, 100 * w, 100);
    vstd::arithmetic::div_mod::lemma_div_is_ordered(0, 49 * w, 100);
    vstd::arithmetic::div_mod::lemma_div_multiples_vanish(w, 100);
    assert(100 * w == w * 100) by (nonlinear_arith);
    if w >= 2 {
        vstd::arithmetic::div_mod::lemma_div_is_ordered(49 * w, 100 * (w - 1), 100);
        vstd::arithmetic::div_mod::lemma_div_multiples_vanish(w - 1, 100);
        assert(100 * (w - 1) == (w - 1) * 100) by (nonlinear_arith);
    }
}

} // verus!
