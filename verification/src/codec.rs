//! Content sniffing and image transcoding, through outside codecs.
//!
//! What these calls compute is a function of their byte or pixel arguments
//! alone, so each result is given a name that the callers' contracts speak
//! of; nothing else is assumed of the codecs beyond what their sources show.

use vstd::prelude::*;

use crate::img::{Img, ImgV};

verus! {

/// Whether a byte buffer carries a known raster-image signature.
pub uninterp spec fn is_image_bytes(b: Seq<u8>) -> bool;

/// Whether a byte buffer carries the portable-document signature: the
/// four magic bytes `%PDF` anywhere within the first kibibyte, as the
/// format's readers require.
pub open spec fn is_pdf_bytes(b: Seq<u8>) -> bool {
    exists|i: int|
        0 <= i && i + 4 <= (if b.len() < 1024 {
            b.len() as int
        } else {
            1024int
        }) && #[trigger] b[i] == 0x25 && b[i + 1] == 0x50 && b[i + 2] == 0x44 && b[i + 3] == 0x46
}

/// The 8-bit RGB raster that a byte buffer decodes to, if it decodes at all.
pub uninterp spec fn image_decode(b: Seq<u8>) -> Option<ImgV>;

/// The JPEG stream that encodes a raster at a given quality.
pub uninterp spec fn jpeg_encoding(img: ImgV, quality: u8) -> Seq<u8>;

/// Relies on `infer::is_image`: classification reads nothing but the buffer,
/// so the result depends on the bytes alone.
#[verifier::external_body]
pub(crate) fn sniff_image(buf: &[u8]) -> (r: bool)
    ensures
        r == is_image_bytes(buf@),
{
    infer::is_image(buf)
}

/// Relies on `infer::is` with the portable-document matcher, which scans
/// the first kibibyte for the `%PDF` magic and reads nothing but the
/// buffer.
#[verifier::external_body]
pub(crate) fn sniff_pdf(buf: &[u8]) -> (r: bool)
    ensures
        r == is_pdf_bytes(buf@),
{
    infer::is(buf, "pdf")
}

/// Relies on `image::load_from_memory` (format auto-detection on the byte
/// prefix, then decoding) and `DynamicImage::to_rgb8`: both are functions of
/// the bytes alone, and the RGB buffer they produce matches the decoded
/// dimensions.
#[verifier::external_body]
pub(crate) fn decode_rgb(bytes: &[u8]) -> (r: Option<Img>)
    ensures
        r is Some <==> image_decode(bytes@) is Some,
        r is Some ==> r.unwrap()@ == image_decode(bytes@).unwrap() && r.unwrap().wf(),
{
    let decoded = image::load_from_memory(bytes).ok()?;
    let rgb = decoded.to_rgb8();
    let width = rgb.width();
    let height = rgb.height();
    Img::from_raw(width, height, rgb.into_raw())
}

/// Relies on `image::codecs::jpeg::JpegEncoder::encode_image` writing to an
/// in-memory sink: encoding succeeds exactly for dimensions in `1..=65535`,
/// is a function of the pixels and the quality alone, and always begins with
/// the JPEG start-of-image signature, which `infer::is_image` recognizes in
/// the full stream as in any 32-byte prefix; the headers it writes before
/// the pixel data are longer than 32 bytes.  The stream is a plain baseline
/// JFIF stream, which this library's own decoder accepts, at the encoded
/// dimensions.
#[verifier::external_body]
pub(crate) fn encode_jpeg(img: &Img, quality: u8) -> (r: Option<Vec<u8>>)
    requires
        img.wf(),
    ensures
        r is Some <==> (1 <= img@.width <= 65535 && 1 <= img@.height <= 65535),
        r is Some ==> r.unwrap()@ == jpeg_encoding(img@, quality),
        r is Some ==> r.unwrap()@.len() >= 32,
        r is Some ==> is_image_bytes(r.unwrap()@),
        r is Some ==> is_image_bytes(r.unwrap()@.take(32)),
        r is Some ==> (image_decode(r.unwrap()@) matches Some(v) && v.width == img@.width
            && v.height == img@.height),
{
    let buf = image::ImageBuffer::<image::Rgb<u8>, Vec<u8>>::from_raw(
        img.width(),
        img.height(),
        img.raw().clone(),
    )?;
    let mut sink = std::io::Cursor::new(Vec::new());
    let mut encoder = image::codecs::jpeg::JpegEncoder::new_with_quality(&mut sink, quality);
    encoder.encode_image(&buf).ok()?;
    Some(sink.into_inner())
}

} // verus!
