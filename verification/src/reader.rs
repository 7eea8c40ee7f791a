//! The container reader: an opened archive and its spine.
//!
//! Opening builds the spine once; afterwards the reader only moves the
//! cursor and decodes the entry under it.  The law at the end of this
//! module is what round-trips rest on: reopening what a writer finished
//! lists the pages in exactly the order they were appended.

use vstd::prelude::*;
use vstd::relations::sorted_by;

use crate::archive::{distinct_names, entry_data, entry_names, lookup, za_entries, za_readable,
    zip_encoding, zip_open, EntryV};
use crate::codec::{decode_rgb, image_decode};
use crate::errors::{LoadImageError, ReaderCreationError};
use crate::img::Img;
use crate::names::{entry_name_spec, lemma_entry_names_ordered, lemma_usize_fits_name_width,
    lex_lt};
use crate::order::{lemma_lex_total_ordering, lex_leq};
use crate::spine::{image_names, is_image_entry, keeps, nav_step, prefixes_readable, NavOp, Spine};
use crate::writer::well_named;

verus! {

/// An opened container: the archive handle and the spine built from it.
pub struct Reader {
    archive: zip::ZipArchive<std::io::Cursor<Vec<u8>>>,
    spine: Spine,
}

impl Reader {
    /// The entries of the opened archive.
    pub closed spec fn entries(self) -> Seq<EntryV> {
        za_entries(self.archive)
    }

    /// Whether every entry's bytes read back as recorded.
    pub closed spec fn readable(self) -> bool {
        za_readable(self.archive)
    }

    /// The spine's entry names, first page first.
    pub closed spec fn names(self) -> Seq<Seq<char>> {
        self.spine.names()
    }

    /// The spine's cursor.
    pub closed spec fn cursor(self) -> int {
        self.spine.cursor()
    }

    /// The spine lists, in sorted order, exactly the archive's image
    /// entries, and every listed name resolves to one.
    pub open spec fn wf(self) -> bool {
        &&& (self.names().len() == 0 ==> self.cursor() == 0)
        &&& (self.names().len() > 0 ==> 0 <= self.cursor() < self.names().len())
        &&& distinct_names(self.entries())
        &&& sorted_by(self.names(), lex_leq())
        &&& self.names().to_multiset() == image_names(self.entries()).to_multiset()
        &&& forall|k: int|
            0 <= k < self.names().len() ==> keeps(self.entries(), #[trigger] self.names()[k])
    }

    /// Open a byte source as a container and build its spine.  Bytes that a
    /// writer finished always open, and they fail spine construction only
    /// if some file entry is shorter than the content probe.
    pub fn try_new(bytes: Vec<u8>) -> (r: Result<Reader, ReaderCreationError>)
        ensures
            r matches Ok(rd) ==> rd.wf() && rd.cursor() == 0,
            forall|es: Seq<EntryV>|
                bytes@ == #[trigger] zip_encoding(es) ==> !(r matches Err(e) && e
                    == ReaderCreationError::ArchiveCreation),
            r matches Ok(rd) ==> forall|es: Seq<EntryV>|
                bytes@ == #[trigger] zip_encoding(es) ==> rd.entries() == es && rd.readable(),
            forall|es: Seq<EntryV>|
                bytes@ == #[trigger] zip_encoding(es) && prefixes_readable(es) ==> r is Ok,
    {
        let mut archive = match zip_open(bytes) {
            Ok(a) => a,
            Err(e) => {
                return Err(e);
            },
        };
        let spine = match Spine::try_new(&mut archive) {
            Ok(s) => s,
            Err(e) => {
                return Err(ReaderCreationError::SpineCreation(e));
            },
        };
        Ok(Reader { archive, spine })
    }

    /// The spine, for cursor inspection.
    #[must_use]
    pub fn spine(&self) -> (s: &Spine)
        ensures
            s.names() == self.names(),
            s.cursor() == self.cursor(),
    {
        &self.spine
    }

    /// Move the cursor one page back; a no-op at the first page.
    pub fn go_to_prev_index(&mut self)
        requires
            old(self).wf(),
        ensures
            final(self).wf(),
            final(self).entries() == old(self).entries(),
            final(self).readable() == old(self).readable(),
            final(self).names() == old(self).names(),
            final(self).cursor() == nav_step(
                old(self).names().len() as int,
                old(self).cursor(),
                NavOp::Prev,
            ),
    {
        self.spine.go_to_prev_index();
    }

    /// Move the cursor one page forward; a no-op at the last page.
    pub fn go_to_next_index(&mut self)
        requires
            old(self).wf(),
        ensures
            final(self).wf(),
            final(self).entries() == old(self).entries(),
            final(self).readable() == old(self).readable(),
            final(self).names() == old(self).names(),
            final(self).cursor() == nav_step(
                old(self).names().len() as int,
                old(self).cursor(),
                NavOp::Next,
            ),
    {
        self.spine.go_to_next_index();
    }

    /// Move the cursor to `index`, clamped into the spine's bounds.
    pub fn go_to_index(&mut self, index: usize)
        requires
            old(self).wf(),
        ensures
            final(self).wf(),
            final(self).entries() == old(self).entries(),
            final(self).readable() == old(self).readable(),
            final(self).names() == old(self).names(),
            final(self).cursor() == nav_step(
                old(self).names().len() as int,
                old(self).cursor(),
                NavOp::Seek(index),
            ),
    {
        self.spine.set_current_index(index);
    }

    /// Decode the page under the cursor.  On an empty spine the cursor
    /// names no entry; otherwise the entry's bytes are read back and
    /// decoded with format auto-detection.
    pub fn load_current_img(&mut self) -> (r: Result<Img, LoadImageError>)
        requires
            old(self).wf(),
        ensures
            final(self).wf(),
            final(self).entries() == old(self).entries(),
            final(self).readable() == old(self).readable(),
            final(self).names() == old(self).names(),
            final(self).cursor() == old(self).cursor(),
            old(self).names().len() == 0 ==> (r matches Err(e) && e == LoadImageError::ZipByIndex(
                old(self).cursor() as usize,
            )),
            r matches Ok(img) ==> {
                &&& old(self).names().len() > 0
                &&& img.wf()
                &&& image_decode(
                    lookup(old(self).entries(), old(self).names()[old(self).cursor()]).unwrap().0,
                ) == Some(img@)
            },
            old(self).names().len() > 0 && old(self).readable() && image_decode(
                lookup(old(self).entries(), old(self).names()[old(self).cursor()]).unwrap().0,
            ) is Some ==> r is Ok,
            old(self).names().len() > 0 && old(self).readable() && image_decode(
                lookup(old(self).entries(), old(self).names()[old(self).cursor()]).unwrap().0,
            ) is None ==> (r matches Err(e) && e == LoadImageError::ImageDecode),
    {
        let cursor = self.spine.current_index();
        let name = match self.spine.get_current_file_name() {
            Some(n) => n,
            None => {
                return Err(LoadImageError::ZipByIndex(cursor));
            },
        };
        let data = match entry_data(&mut self.archive, name) {
            Ok(d) => d,
            Err(e) => {
                return Err(e);
            },
        };
        match decode_rgb(data.as_slice()) {
            Some(img) => Ok(img),
            None => Err(LoadImageError::ImageDecode),
        }
    }

    /// The stored bytes of the named entry, without decoding, for callers
    /// that re-stream pages into another container.
    pub fn by_name(&mut self, file_name: &str) -> (r: Result<Vec<u8>, LoadImageError>)
        ensures
            final(self).entries() == old(self).entries(),
            final(self).readable() == old(self).readable(),
            final(self).names() == old(self).names(),
            final(self).cursor() == old(self).cursor(),
            final(self).wf() == old(self).wf(),
            lookup(old(self).entries(), file_name@) is None ==> (r matches Err(e) && e
                == LoadImageError::ZipByName),
            r is Ok ==> (lookup(old(self).entries(), file_name@) matches Some((d, f))
                && r.unwrap()@ == d),
            old(self).readable() && (lookup(old(self).entries(), file_name@) matches Some((d, f))
                && f) ==> r is Ok,
    {
        entry_data(&mut self.archive, file_name)
    }

    /// A fresh pass over the spine's entry names.
    #[must_use]
    pub fn iter(&self) -> (it: IndicesIter)
        ensures
            it.remaining() == self.names(),
    {
        IndicesIter::new(self.spine.name_list())
    }
}

/// Walks a list of entry names front to back.
pub struct IndicesIter {
    names: Vec<String>,
    current_index: usize,
}

impl IndicesIter {
    /// The names not yet handed out.
    pub closed spec fn remaining(self) -> Seq<Seq<char>> {
        if self.current_index <= self.names.deep_view().len() {
            self.names.deep_view().skip(self.current_index as int)
        } else {
            Seq::empty()
        }
    }

    #[must_use]
    pub fn new(names: Vec<String>) -> (it: IndicesIter)
        ensures
            it.remaining() == names.deep_view(),
    {
        let it = IndicesIter { names, current_index: 0 };
        proof {
            assert(it.remaining() =~= it.names.deep_view());
        }
        it
    }

    /// The next name, or nothing once all have been handed out.
    pub fn next(&mut self) -> (r: Option<String>)
        ensures
            old(self).remaining().len() == 0 ==> r is None && final(self).remaining()
                == old(self).remaining(),
            old(self).remaining().len() > 0 ==> (r matches Some(s) && s@ == old(
                self,
            ).remaining()[0] && final(self).remaining() == old(self).remaining().drop_first()),
    {
        if self.current_index < self.names.len() {
            let item = self.names[self.current_index].clone();
            self.current_index = self.current_index + 1;
            proof {
                assert(final(self).remaining() =~= old(self).remaining().drop_first());
            }
            Some(item)
        } else {
            proof {
                if self.current_index <= self.names.deep_view().len() {
                    assert(old(self).remaining() =~= Seq::<Seq<char>>::empty());
                }
            }
            None
        }
    }
}

/// The round-trip law of the naming scheme: a container whose entries were
/// all appended by a writer (so the `k`-th entry is an image entry named by
/// the zero-padded form of `k`) reopens to a spine that lists those entries
/// in exactly the order they were appended.
pub proof fn lemma_reopened_spine_is_insertion_order(es: Seq<EntryV>, names: Seq<Seq<char>>)
    requires
        es.len() <= usize::MAX,
        forall|k: int| 0 <= k < es.len() ==> is_image_entry(#[trigger] es[k]),
        forall|k: int| 0 <= k < es.len() ==> #[trigger] well_named(es, k),
        sorted_by(names, lex_leq()),
        names.to_multiset() == image_names(es).to_multiset(),
    ensures
        names == entry_names(es),
{
    lemma_image_names_all(es);
    lemma_lex_total_ordering();
    assert forall|i: int, j: int|
        0 <= i < j < entry_names(es).len() implies #[trigger] lex_leq()(
        entry_names(es)[i],
        entry_names(es)[j],
    ) by {
        assert(well_named(es, i));
        assert(well_named(es, j));
        let ei = choose|e: Seq<char>| es[i].0 == #[trigger] entry_name_spec(i as nat, e);
        let ej = choose|e: Seq<char>| es[j].0 == #[trigger] entry_name_spec(j as nat, e);
        lemma_usize_fits_name_width(usize::MAX);
        lemma_entry_names_ordered(i as nat, j as nat, ei, ej);
        assert(lex_lt(es[i].0, es[j].0));
    }
    vstd::seq_lib::lemma_sorted_unique(names, entry_names(es), lex_leq());
}

/// When every entry is an image entry, filtering drops nothing.
proof fn lemma_image_names_all(es: Seq<EntryV>)
    requires
        forall|k: int| 0 <= k < es.len() ==> is_image_entry(#[trigger] es[k]),
    ensures
        image_names(es) == entry_names(es),
    decreases es.len(),
{
    reveal(Seq::<EntryV>::filter);
    if es.len() == 0 {
        assert(image_names(es) =~= entry_names(es));
    } else {
        lemma_image_names_all(es.drop_last());
        assert(image_names(es) =~= image_names(es.drop_last()).push(es.last().0));
        assert(entry_names(es) =~= entry_names(es.drop_last()).push(es.last().0));
    }
}

} // verus!
