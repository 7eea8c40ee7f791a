//! The container writer: a capacity-bounded, append-only archive builder.
//!
//! Entries are stored uncompressed under the zero-padded naming scheme, so
//! the writer's invariant carries the naming law: the `k`-th entry's name is
//! the padded form of `k`, which keeps lexicographic order equal to
//! insertion order.

use vstd::prelude::*;
use vstd::string::StrSliceExecFns;

use crate::archive::{entry_names, new_zip_writer, zip_append, zip_finish, zw_entries, EntryV,
    ZipSink};
use crate::codec::{encode_jpeg, is_image_bytes, jpeg_encoding, sniff_image};
use crate::errors::{ArchiveFinishError, InsertionError};
use crate::img::Img;
use crate::names::{entry_name, entry_name_bytes, entry_name_spec, lemma_entry_name_bytes_ascii,
    lemma_entry_names_ordered, lemma_usize_fits_name_width, lex_lt};

verus! {

/// The JPEG quality used when the library re-encodes a page.
pub const JPEG_QUALITY: u8 = 75;

/// An extension ending in a path separator: a name with such a tail is
/// taken for a directory by archive readers, so it cannot name a file
/// entry.
pub open spec fn dir_suffixed(ext: Seq<char>) -> bool {
    ext.len() > 0 && (ext.last() == '/' || ext.last() == '\\')
}

/// The `k`-th entry's name is the zero-padded form of `k` followed by some
/// extension.
pub open spec fn well_named(es: Seq<EntryV>, k: int) -> bool {
    exists|e: Seq<char>| es[k].0 == #[trigger] entry_name_spec(k as nat, e)
}

/// A new container being built, and the index of the next entry.
pub struct Writer {
    archive: ZipSink,
    current_index: usize,
}

impl Writer {
    /// The entries appended so far, in order.
    pub closed spec fn entries(self) -> Seq<EntryV> {
        zw_entries(self.archive)
    }

    /// The index the next appended entry will get.
    pub closed spec fn index(self) -> int {
        self.current_index as int
    }

    /// The writer holds one file entry per append, and the `k`-th entry is
    /// named by the zero-padded form of `k`.
    pub open spec fn wf(self) -> bool {
        &&& 0 <= self.index() <= usize::MAX
        &&& self.index() == self.entries().len()
        &&& forall|k: int| 0 <= k < self.entries().len() ==> (#[trigger] self.entries()[k]).2
        &&& forall|k: int|
            0 <= k < self.entries().len() ==> #[trigger] well_named(self.entries(), k)
    }

    /// The writer can take no further entry.
    pub open spec fn full(self) -> bool {
        self.index() == usize::MAX as int
    }

    /// A fresh writer over an empty in-memory archive.
    pub fn new() -> (w: Writer)
        ensures
            w.wf(),
            w.entries().len() == 0,
            w.index() == 0,
    {
        Writer { archive: new_zip_writer(), current_index: 0 }
    }

    #[must_use]
    pub fn is_empty(&self) -> (r: bool)
        ensures
            r == (self.index() == 0),
    {
        self.current_index == 0
    }

    #[must_use]
    pub fn is_full(&self) -> (r: bool)
        ensures
            r == self.full(),
    {
        self.current_index == usize::MAX
    }

    /// No already-appended entry bears the name of the next one.
    proof fn lemma_next_name_fresh(self, ext: Seq<char>)
        requires
            self.wf(),
            !self.full(),
        ensures
            !entry_names(self.entries()).contains(
                entry_name_spec(self.index() as nat, ext),
            ),
    {
        let names = entry_names(self.entries());
        let next = entry_name_spec(self.index() as nat, ext);
        assert forall|i: int| 0 <= i < names.len() implies names[i] != next by {
            assert(well_named(self.entries(), i));
            let e = choose|e: Seq<char>|
                self.entries()[i].0 == #[trigger] entry_name_spec(i as nat, e);
            lemma_usize_fits_name_width(self.current_index);
            lemma_entry_names_ordered(i as nat, self.index() as nat, e, ext);
            assert(lex_lt(entry_name_spec(i as nat, e), next));
            assert(names[i] == self.entries()[i].0);
        }
    }

    /// Append raw bytes as the next entry.  Rejects a full writer, any
    /// buffer that does not classify as image content, and an entry the
    /// archive format cannot hold as a file (an extension ending in a path
    /// separator, a name beyond the sixteen-bit length field, or data past
    /// the large-file threshold); in every rejection the writer is left
    /// unchanged.  Otherwise the entry is stored under the next index's
    /// padded name and the index moves up by one.
    pub fn insert_buf(&mut self, ext: &str, buf: &[u8]) -> (r: Result<(), InsertionError>)
        requires
            old(self).wf(),
        ensures
            final(self).wf(),
            old(self).full() ==> (r matches Err(e) && e == InsertionError::CbzFull(usize::MAX))
                && *final(self) == *old(self),
            !old(self).full() && !is_image_bytes(buf@) ==> (r matches Err(e) && e
                == InsertionError::InvalidFormat) && *final(self) == *old(self),
            !old(self).full() && is_image_bytes(buf@) && dir_suffixed(ext@) ==> (r matches Err(e)
                && e == InsertionError::FileCreation) && *final(self) == *old(self),
            !old(self).full() && is_image_bytes(buf@) && !dir_suffixed(ext@) && entry_name_bytes(
                old(self).index() as nat,
                ext@,
            ) > 65535 ==> (r matches Err(e) && e == InsertionError::FileCreation) && *final(self)
                == *old(self),
            !old(self).full() && is_image_bytes(buf@) && !dir_suffixed(ext@) && entry_name_bytes(
                old(self).index() as nat,
                ext@,
            ) <= 65535 && buf@.len() > 0xFFFF_FFFF ==> (r matches Err(e) && e
                == InsertionError::FileWrite) && *final(self) == *old(self),
            !old(self).full() && is_image_bytes(buf@) && !dir_suffixed(ext@) && entry_name_bytes(
                old(self).index() as nat,
                ext@,
            ) <= 65535 && buf@.len() <= 0xFFFF_FFFF ==> r is Ok,
            r is Ok ==> {
                &&& !old(self).full()
                &&& is_image_bytes(buf@)
                &&& final(self).index() == old(self).index() + 1
                &&& final(self).entries() == old(self).entries().push(
                    (entry_name_spec(old(self).index() as nat, ext@), buf@, true),
                )
            },
    {
        if self.is_full() {
            return Err(InsertionError::CbzFull(usize::MAX));
        }

        if !sniff_image(buf) {
            return Err(InsertionError::InvalidFormat);
        }

        if ext.unicode_len() > 0 {
            let tail = ext.get_char(ext.unicode_len() - 1);
            if tail == '/' || tail == '\\' {
                return Err(InsertionError::FileCreation);
            }
        }

        let name = entry_name(self.current_index, ext);
        proof {
            crate::names::lemma_encode_utf8_len(name@);
            crate::names::lemma_pad_digits_len(
                old(self).index() as nat,
                crate::names::NAME_WIDTH as nat,
            );
            if ext@.len() > 0 {
                assert(name@.last() == ext@[ext@.len() - 1]);
            } else {
                assert(name@ =~= crate::names::pad_digits(
                    old(self).index() as nat,
                    crate::names::NAME_WIDTH as nat,
                ));
                assert(name@.last() == crate::names::digit_char(
                    (old(self).index() as nat % 10) as int,
                ));
            }
            assert(name@.last() != '/' && name@.last() != '\\');
        }
        if name.as_str().unicode_len() > 65535 {
            // more characters than the name field holds bytes
            return Err(InsertionError::FileCreation);
        }
        if name.as_str().len() > 65535 {
            return Err(InsertionError::FileCreation);
        }
        if (buf.len() as u64) > 0xFFFF_FFFFu64 {
            return Err(InsertionError::FileWrite);
        }
        proof {
            self.lemma_next_name_fresh(ext@);
        }
        let res = zip_append(&mut self.archive, name.as_str(), buf);
        match res {
            Ok(()) => {
                self.current_index = self.current_index + 1;
                proof {
                    assert forall|k: int|
                        0 <= k < self.entries().len() implies (#[trigger] self.entries()[k]).2 by {
                        if k < old(self).entries().len() {
                            assert(self.entries()[k] == old(self).entries()[k]);
                        }
                    }
                    assert forall|k: int|
                        0 <= k < self.entries().len() implies #[trigger] well_named(
                        self.entries(),
                        k,
                    ) by {
                        if k < old(self).entries().len() {
                            assert(well_named(old(self).entries(), k));
                            let e = choose|e: Seq<char>|
                                old(self).entries()[k].0 == #[trigger] entry_name_spec(k as nat, e);
                            assert(self.entries()[k].0 == entry_name_spec(k as nat, e));
                        } else {
                            assert(self.entries()[k].0 == entry_name_spec(k as nat, ext@));
                        }
                    }
                    assert(self.wf());
                }
                Ok(())
            },
            Err(e) => {
                // unreachable: the padded name is fresh, so the archive
                // cannot refuse it
                proof {
                    assert(false);
                }
                Err(e)
            },
        }
    }

    /// Encode a page as JPEG at the given quality and append it.  Encoding
    /// fails exactly when a dimension lies outside `1..=65535`; a full
    /// writer rejects the encoded page as `insert_buf` does, and so does an
    /// encoded stream past the format's large-file threshold.
    pub fn insert_image_as_jpeg(&mut self, img: &Img, quality: u8) -> (r: Result<
        (),
        InsertionError,
    >)
        requires
            old(self).wf(),
            img.wf(),
        ensures
            final(self).wf(),
            !(1 <= img@.width <= 65535 && 1 <= img@.height <= 65535) ==> (r matches Err(e) && e
                == InsertionError::ImageEncode) && *final(self) == *old(self),
            (1 <= img@.width <= 65535 && 1 <= img@.height <= 65535) && old(self).full() ==> (
            r matches Err(e) && e == InsertionError::CbzFull(usize::MAX)) && *final(self) == *old(
                self,
            ),
            (1 <= img@.width <= 65535 && 1 <= img@.height <= 65535) && !old(self).full()
                && jpeg_encoding(img@, quality).len() > 0xFFFF_FFFF ==> (r matches Err(e) && e
                == InsertionError::FileWrite) && *final(self) == *old(self),
            (1 <= img@.width <= 65535 && 1 <= img@.height <= 65535) && !old(self).full()
                && jpeg_encoding(img@, quality).len() <= 0xFFFF_FFFF ==> r is Ok,
            r is Ok ==> {
                &&& !old(self).full()
                &&& final(self).index() == old(self).index() + 1
                &&& final(self).entries() == old(self).entries().push(
                    (
                        entry_name_spec(old(self).index() as nat, ".jpeg"@),
                        jpeg_encoding(img@, quality),
                        true,
                    ),
                )
                &&& jpeg_encoding(img@, quality).len() >= 32
                &&& is_image_bytes(jpeg_encoding(img@, quality).take(32))
                &&& (crate::codec::image_decode(jpeg_encoding(img@, quality)) matches Some(v)
                    && v.width == img@.width && v.height == img@.height)
            },
    {
        proof {
            reveal_strlit(".jpeg");
            assert(vstd::utf8::is_ascii_chars(".jpeg"@)) by {
                assert forall|i: int| 0 <= i < ".jpeg"@.len() implies '\0'
                    <= #[trigger] ".jpeg"@[i] <= '\u{7f}' by {
                }
            }
            lemma_entry_name_bytes_ascii(old(self).index() as nat, ".jpeg"@);
        }
        let encoded = encode_jpeg(img, quality);
        match encoded {
            Some(bytes) => self.insert_buf(".jpeg", bytes.as_slice()),
            None => Err(InsertionError::ImageEncode),
        }
    }

    /// Seal the archive and hand back its bytes.  Consuming the writer is
    /// what makes finishing one-shot: no append can follow.  Finalizing an
    /// in-memory archive always succeeds.
    pub fn finish(self) -> (r: Result<Vec<u8>, ArchiveFinishError>)
        ensures
            r is Ok,
            r is Ok ==> r.unwrap()@ == crate::archive::zip_encoding(self.entries()),
    {
        zip_finish(self.archive)
    }
}

} // verus!
