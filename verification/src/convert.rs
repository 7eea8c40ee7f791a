//! Converting a page-supplying document into a container.
//!
//! The extraction of raster pages from a source document is an outside
//! collaborator; it hands this module the decoded pages, which are
//! re-encoded as JPEG and appended in order.  A page that fails to append
//! is skipped, not fatal to the batch.

use vstd::prelude::*;

use crate::archive::EntryV;
use crate::codec::{is_pdf_bytes, jpeg_encoding, sniff_pdf};
use crate::img::{Img, ImgV};
use crate::names::entry_name_spec;
use crate::writer::{Writer, JPEG_QUALITY};

verus! {

/// A source document format that pages can be extracted from.
#[derive(Debug, Clone, Copy, PartialEq, Eq, Structural)]
pub enum Format {
    Pdf,
}

/// Classifying a source document failed.
#[derive(Debug, Clone, Copy, PartialEq, Eq, Structural)]
pub enum ConvertError {
    /// The content prefix matches no supported document format.
    UnknownFormat,
}

impl Format {
    /// Classify a source document by its content prefix.
    pub fn from_prefix(buf: &[u8]) -> (r: Result<Format, ConvertError>)
        ensures
            r is Ok <==> is_pdf_bytes(buf@),
            r is Ok ==> r.unwrap() == Format::Pdf,
            r is Err ==> (r matches Err(e) && e == ConvertError::UnknownFormat),
    {
        if sniff_pdf(buf) {
            Ok(Format::Pdf)
        } else {
            Err(ConvertError::UnknownFormat)
        }
    }
}

/// A page's dimensions lie in the encodable JPEG range.
pub open spec fn encodable(v: ImgV) -> bool {
    1 <= v.width <= 65535 && 1 <= v.height <= 65535
}

/// What one appended page does to the entries: an encodable page whose
/// stream stays under the format's large-file threshold, into a writer
/// with room, grows the archive by one JPEG entry; any other page leaves
/// it as it is.
pub open spec fn append_one(es: Seq<EntryV>, v: ImgV, q: u8) -> Seq<EntryV> {
    if encodable(v) && es.len() < usize::MAX && jpeg_encoding(v, q).len() <= 0xFFFF_FFFF {
        es.push((entry_name_spec(es.len(), ".jpeg"@), jpeg_encoding(v, q), true))
    } else {
        es
    }
}

/// The entries after appending a whole run of pages, first page first.
pub open spec fn pages_appended(es: Seq<EntryV>, pages: Seq<ImgV>, q: u8) -> Seq<EntryV>
    decreases pages.len(),
{
    if pages.len() == 0 {
        es
    } else {
        pages_appended(append_one(es, pages[0], q), pages.drop_first(), q)
    }
}

/// The pages of a run, as mathematical values.
pub open spec fn page_views(pages: Seq<Img>) -> Seq<ImgV> {
    pages.map_values(|im: Img| im@)
}

proof fn lemma_pages_appended_push(es: Seq<EntryV>, pages: Seq<ImgV>, v: ImgV, q: u8)
    ensures
        pages_appended(es, pages.push(v), q) == append_one(pages_appended(es, pages, q), v, q),
    decreases pages.len(),
{
    if pages.len() == 0 {
        assert(pages.push(v)[0] == v);
        assert(pages.push(v).drop_first() =~= Seq::<ImgV>::empty());
        assert(pages_appended(es, pages, q) == es);
        assert(pages_appended(append_one(es, v, q), Seq::<ImgV>::empty(), q) == append_one(
            es,
            v,
            q,
        ));
    } else {
        assert(pages.push(v)[0] == pages[0]);
        assert(pages.push(v).drop_first() =~= pages.drop_first().push(v));
        lemma_pages_appended_push(append_one(es, pages[0], q), pages.drop_first(), v, q);
    }
}

/// Re-encode each extracted page as JPEG and append it, in order, skipping
/// pages that cannot be appended.  Returns how many pages went in.
pub fn append_pages(cbz: &mut Writer, pages: &Vec<Img>) -> (appended: usize)
    requires
        old(cbz).wf(),
        forall|k: int| 0 <= k < pages@.len() ==> (#[trigger] pages@[k]).wf(),
    ensures
        final(cbz).wf(),
        final(cbz).entries() == pages_appended(
            old(cbz).entries(),
            page_views(pages@),
            JPEG_QUALITY,
        ),
        appended as int == final(cbz).entries().len() - old(cbz).entries().len(),
{
    let mut appended: usize = 0;
    let mut i: usize = 0;

    proof {
        assert(page_views(pages@).take(0int) =~= Seq::<ImgV>::empty());
    }

    while i < pages.len()
        invariant
            forall|k: int| 0 <= k < pages@.len() ==> (#[trigger] pages@[k]).wf(),
            i <= pages@.len(),
            cbz.wf(),
            cbz.entries() == pages_appended(
                old(cbz).entries(),
                page_views(pages@).take(i as int),
                JPEG_QUALITY,
            ),
            appended as int == cbz.entries().len() - old(cbz).entries().len(),
        decreases pages@.len() - i,
    {
        proof {
            assert(page_views(pages@).take(i + 1).drop_last() =~= page_views(pages@).take(
                i as int,
            ));
            assert(page_views(pages@).take(i + 1) =~= page_views(pages@).take(i as int).push(
                pages@[i as int]@,
            ));
            lemma_pages_appended_push(
                old(cbz).entries(),
                page_views(pages@).take(i as int),
                pages@[i as int]@,
                JPEG_QUALITY,
            );
        }
        let res = cbz.insert_image_as_jpeg(&pages[i], JPEG_QUALITY);
        if res.is_ok() {
            appended = appended + 1;
        }
        i = i + 1;
    }

    proof {
        assert(page_views(pages@).take(pages@.len() as int) =~= page_views(pages@));
    }
    appended
}

} // verus!
