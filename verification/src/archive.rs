//! The archive boundary: in-memory zip containers, behind trusted items.
//!
//! An archive is modelled as the sequence of its entries, each a name, its
//! stored bytes and whether it is a file (directories and links carry
//! `false`).  The
//! writer side tracks what has been appended; the reader side exposes the
//! entries of an opened archive.  The bytes of a finished archive are a
//! function of its entries alone (all entries are stored uncompressed under
//! fixed options and a fixed timestamp), named `zip_encoding`; opening such
//! bytes yields back exactly the entries that were appended.

use vstd::prelude::*;

use crate::errors::{ArchiveFinishError, InsertionError, LoadImageError, ReaderCreationError,
    SpineCreationError};

verus! {

/// One modelled archive entry: name, stored bytes, and whether it is a file.
pub type EntryV = (Seq<char>, Seq<u8>, bool);

#[verifier::external_type_specification]
#[verifier::external_body]
#[verifier::reject_recursive_types(T)]
pub struct ExCursor<T>(std::io::Cursor<T>);

#[verifier::external_type_specification]
#[verifier::external_body]
#[verifier::reject_recursive_types(R)]
pub struct ExZipArchive<R>(zip::ZipArchive<R>);

/// The handle to an archive being written in memory.  Verus cannot take the
/// writer type itself (its struct carries sink trait bounds), so it sits in
/// an opaque wrapper and all contracts speak of `zw_entries`.
#[verifier::external_body]
pub struct ZipSink {
    inner: zip::ZipWriter<std::io::Cursor<Vec<u8>>>,
}

/// The entries appended to a writer so far, in order.
pub uninterp spec fn zw_entries(w: ZipSink) -> Seq<EntryV>;

/// The entries of an opened archive, in directory order.
pub uninterp spec fn za_entries(a: zip::ZipArchive<std::io::Cursor<Vec<u8>>>) -> Seq<EntryV>;

/// Whether every entry's stored bytes can be read back as the directory
/// records them.  Holds of every archive produced by finishing a writer.
pub uninterp spec fn za_readable(a: zip::ZipArchive<std::io::Cursor<Vec<u8>>>) -> bool;

/// The byte stream of a finished archive holding exactly these entries.
pub uninterp spec fn zip_encoding(es: Seq<EntryV>) -> Seq<u8>;

/// The names of a sequence of entries, in the same order.
pub open spec fn entry_names(es: Seq<EntryV>) -> Seq<Seq<char>> {
    es.map_values(|e: EntryV| e.0)
}

/// No two entries share a name.
pub open spec fn distinct_names(es: Seq<EntryV>) -> bool {
    forall|i: int, j: int| 0 <= i < j < es.len() ==> es[i].0 != es[j].0
}

/// The entry a name resolves to: the last one bearing that name.
pub open spec fn lookup(es: Seq<EntryV>, name: Seq<char>) -> Option<(Seq<u8>, bool)>
    decreases es.len(),
{
    if es.len() == 0 {
        None
    } else if es.last().0 == name {
        Some((es.last().1, es.last().2))
    } else {
        lookup(es.drop_last(), name)
    }
}

/// Relies on `zip::ZipWriter::new`: a fresh writer over an empty in-memory
/// sink holds no entries.
#[verifier::external_body]
pub(crate) fn new_zip_writer() -> (w: ZipSink)
    ensures
        zw_entries(w) == Seq::<EntryV>::empty(),
{
    ZipSink { inner: zip::ZipWriter::new(std::io::Cursor::new(Vec::new())) }
}

/// Relies on `zip::ZipWriter::start_file` with stored (uncompressed) options
/// and `std::io::Write::write_all`: on success the archive has grown by
/// exactly this one file entry; a duplicate name is always refused; and on
/// an in-memory sink a fresh name succeeds whenever the format can hold
/// the entry — the name's UTF-8 bytes must fit the sixteen-bit name-length
/// field, and the data must stay at or below the four-gigabyte threshold
/// past which the format wants the large-file option.  A name whose last
/// character is a path separator is excluded up front: readers take the
/// trailing byte (`/` or `\`) as marking a directory, so such an entry
/// would not be stored as a file (a multi-byte character never ends in a
/// separator byte).  After a failure the writer is not used again.
#[verifier::external_body]
pub(crate) fn zip_append(w: &mut ZipSink, name: &str, data: &[u8]) -> (r: Result<(), InsertionError>)
    requires
        name@.len() > 0,
        name@.last() != '/',
        name@.last() != '\\',
    ensures
        r is Ok ==> !entry_names(zw_entries(*old(w))).contains(name@),
        r is Ok ==> zw_entries(*final(w)) == zw_entries(*old(w)).push((name@, data@, true)),
        r matches Err(e) ==> e == InsertionError::FileCreation || e == InsertionError::FileWrite,
        !entry_names(zw_entries(*old(w))).contains(name@) && vstd::utf8::encode_utf8(
            name@,
        ).len() <= 65535 && data@.len() <= 0xFFFF_FFFF ==> r is Ok,
{
    let options = zip::write::SimpleFileOptions::default().compression_method(
        zip::CompressionMethod::Stored,
    );
    w.inner.start_file(name, options).map_err(|_| InsertionError::FileCreation)?;
    std::io::Write::write_all(&mut w.inner, data).map_err(|_| InsertionError::FileWrite)?;
    Ok(())
}

/// Relies on `zip::ZipWriter::finish` and `std::io::Cursor::into_inner`:
/// finalizing an in-memory archive only writes the directory into the
/// vector (oversized records get their wide form automatically), so it
/// always succeeds, and the finished bytes are determined by the appended
/// entries alone, since every entry is stored uncompressed under the same
/// fixed options and timestamp.
#[verifier::external_body]
pub(crate) fn zip_finish(w: ZipSink) -> (r: Result<Vec<u8>, ArchiveFinishError>)
    ensures
        r is Ok,
        r is Ok ==> r.unwrap()@ == zip_encoding(zw_entries(w)),
{
    match w.inner.finish() {
        Ok(cursor) => Ok(cursor.into_inner()),
        Err(_) => Err(ArchiveFinishError),
    }
}

/// Relies on `zip::ZipArchive::new`: bytes that a writer finished always
/// open, and they open to exactly the entries that writer appended, since
/// the finished stream records each entry's name and bytes in full and
/// distinct entry sequences produce distinct streams.  An opened archive
/// resolves names through a map keyed by entry name, so its modelled
/// entries carry one entry per distinct name.
#[verifier::external_body]
pub(crate) fn zip_open(bytes: Vec<u8>) -> (r: Result<
    zip::ZipArchive<std::io::Cursor<Vec<u8>>>,
    ReaderCreationError,
>)
    ensures
        forall|es: Seq<EntryV>| bytes@ == #[trigger] zip_encoding(es) ==> r is Ok,
        r is Ok ==> forall|es: Seq<EntryV>|
            bytes@ == #[trigger] zip_encoding(es) ==> za_entries(r.unwrap()) == es && za_readable(
                r.unwrap(),
            ),
        r is Ok ==> distinct_names(za_entries(r.unwrap())),
{
    zip::ZipArchive::new(std::io::Cursor::new(bytes)).map_err(
        |_| ReaderCreationError::ArchiveCreation,
    )
}

/// Relies on `zip::ZipArchive::file_names`: it walks the archive's
/// order-preserving name map, yielding each entry's name once, in entry
/// order.
#[verifier::external_body]
pub(crate) fn archive_names(a: &zip::ZipArchive<std::io::Cursor<Vec<u8>>>) -> (r: Vec<String>)
    ensures
        r.deep_view() == entry_names(za_entries(*a)),
{
    a.file_names().map(|n| n.to_string()).collect()
}

/// Relies on `zip::ZipArchive::by_name`, `ZipFile::is_file` and
/// `std::io::Read::read_exact`: resolving a name finds the entry the
/// directory records for it, a directory or link entry reads as no file,
/// and the first `n` stored bytes of a readable file entry of at least `n`
/// bytes read back exactly.  On a readable archive a present name always
/// resolves, so the only failure left there is the exact read coming up
/// short.  Reading moves the underlying cursor but changes no entry.
#[verifier::external_body]
pub(crate) fn entry_prefix(
    a: &mut zip::ZipArchive<std::io::Cursor<Vec<u8>>>,
    name: &str,
    n: usize,
) -> (r: Result<Option<Vec<u8>>, SpineCreationError>)
    ensures
        za_entries(*final(a)) == za_entries(*old(a)),
        za_readable(*final(a)) == za_readable(*old(a)),
        lookup(za_entries(*old(a)), name@) is None ==> (r matches Err(e) && e
            == SpineCreationError::ZipByName),
        r matches Ok(Some(p)) ==> {
            &&& lookup(za_entries(*old(a)), name@) matches Some((d, true))
            &&& p@ == lookup(za_entries(*old(a)), name@).unwrap().0.take(n as int)
            &&& lookup(za_entries(*old(a)), name@).unwrap().0.len() >= n
        },
        r matches Ok(None) ==> lookup(za_entries(*old(a)), name@) matches Some((d, false)),
        za_readable(*old(a)) && (lookup(za_entries(*old(a)), name@) matches Some((d, f)) && f
            && d.len() >= n) ==> r matches Ok(Some(p)),
        za_readable(*old(a)) && (lookup(za_entries(*old(a)), name@) matches Some((d, f)) && !f)
            ==> r matches Ok(None),
        za_readable(*old(a)) && lookup(za_entries(*old(a)), name@) is Some ==> (r matches Err(e)
            ==> e == SpineCreationError::ZipFileRead),
{
    let mut file = a.by_name(name).map_err(|_| SpineCreationError::ZipByName)?;
    if !file.is_file() {
        return Ok(None);
    }
    let mut buf = vec![0u8; n];
    std::io::Read::read_exact(&mut file, &mut buf).map_err(|_| SpineCreationError::ZipFileRead)?;
    Ok(Some(buf))
}

/// Relies on `zip::ZipArchive::by_name` and `std::io::Read::read_to_end`:
/// the stored bytes of a readable file entry read back exactly.  Reading
/// moves the underlying cursor but changes no entry.
#[verifier::external_body]
pub(crate) fn entry_data(
    a: &mut zip::ZipArchive<std::io::Cursor<Vec<u8>>>,
    name: &str,
) -> (r: Result<Vec<u8>, LoadImageError>)
    ensures
        za_entries(*final(a)) == za_entries(*old(a)),
        za_readable(*final(a)) == za_readable(*old(a)),
        lookup(za_entries(*old(a)), name@) is None ==> (r matches Err(e) && e
            == LoadImageError::ZipByName),
        r is Ok ==> (lookup(za_entries(*old(a)), name@) matches Some((d, f)) && r.unwrap()@
            == d),
        za_readable(*old(a)) && (lookup(za_entries(*old(a)), name@) matches Some((d, f)) && f)
            ==> r is Ok,
{
    let mut file = a.by_name(name).map_err(|_| LoadImageError::ZipByName)?;
    let mut buf = Vec::new();
    std::io::Read::read_to_end(&mut file, &mut buf).map_err(|_| LoadImageError::ZipFileRead)?;
    Ok(buf)
}

} // verus!
