//! Reading ZIP archives that are held in memory.
//!
//! Decoding is done by the `zip` crate.  What it returns for given bytes is
//! named here and trusted; the logic that walks an archive is verified
//! against these names.

use vstd::prelude::*;

verus! {

/// Declares `zip::ZipArchive`, an open archive over a reader.  Nothing is
/// known of what is inside a value of it but through the names below.
#[verifier::external_type_specification]
#[verifier::external_body]
#[verifier::reject_recursive_types(R)]
pub struct ExZipArchive<R>(zip::ZipArchive<R>);

/// Declares `std::io::Cursor`, the reader over bytes in memory that an
/// archive is opened on.
#[verifier::external_type_specification]
#[verifier::external_body]
#[verifier::reject_recursive_types(T)]
pub struct ExCursor<T>(std::io::Cursor<T>);

/// The bytes that an open archive reads from.
pub uninterp spec fn archive_source(archive: zip::ZipArchive<std::io::Cursor<&[u8]>>) -> Seq<u8>;

/// The archive holds the directory that opening its source gives: it was made
/// by opening these bytes, and by nothing else.
pub uninterp spec fn archive_intact(archive: zip::ZipArchive<std::io::Cursor<&[u8]>>) -> bool;

/// Why the bytes cannot be opened as an archive, or `None` where they can.
pub uninterp spec fn archive_error(bytes: Seq<u8>) -> Option<Seq<char>>;

/// The number of members that the central directory of an archive lists.
pub uninterp spec fn archive_count(bytes: Seq<u8>) -> nat;

/// The member at `index`: its name, its declared size and its decoded bytes,
/// or `None` where the member or its name cannot be had.  The bytes are
/// `None` where the member cannot be read to its end.
pub uninterp spec fn member_at(bytes: Seq<u8>, index: nat) -> Option<
    (Seq<char>, u64, Option<Seq<u8>>),
>;

/// Opens the archive that `bytes` holds.
///
/// Trusted: wraps `zip::ZipArchive::new` on a cursor over `bytes`.  It reads
/// the central directory and nothing else; whether it succeeds, and the text
/// of the error otherwise, depend on the bytes alone.  The archive that it
/// gives reads from `bytes` and holds the directory that was read from them.
#[verifier::external_body]
pub(crate) fn open_archive<'a>(bytes: &'a [u8]) -> (opened: Result<
    zip::ZipArchive<std::io::Cursor<&'a [u8]>>,
    String,
>)
    ensures
        match opened {
            Ok(archive) => {
                &&& archive_error(bytes@).is_none()
                &&& archive_source(archive) == bytes@
                &&& archive_intact(archive)
            },
            Err(message) => archive_error(bytes@) == Some(message@),
        },
{
    zip::ZipArchive::new(std::io::Cursor::new(bytes)).map_err(|e| e.to_string())
}

/// The number of members of an open archive.
///
/// Trusted: wraps `zip::ZipArchive::len`, the number of entries that were
/// read from the central directory when the archive was opened.  This is
/// claimed of an archive as `open_archive` gives it.
#[verifier::external_body]
pub(crate) fn member_count(archive: &zip::ZipArchive<std::io::Cursor<&[u8]>>) -> (count: usize)
    requires
        archive_intact(*archive),
    ensures
        count == archive_count(archive_source(*archive)),
{
    archive.len()
}

/// The bytes of an optional buffer.
pub open spec fn bytes_view(contents: Option<Vec<u8>>) -> Option<Seq<u8>> {
    match contents {
        Some(bytes) => Some(bytes@),
        None => None,
    }
}

/// Reads the member at `index`: its name, its declared size and its bytes.
///
/// Trusted: wraps `zip::ZipArchive::by_index` and, on the member that it
/// gives, `name`, `size` and `read_to_end`.  `None` stands for an error of
/// one of the first two, bytes of `None` for an error of the last.  Of an
/// archive as `open_archive` gives it, what is returned depends on the bytes
/// of the archive and the index alone, and the archive goes on reading from
/// the same bytes with the same directory.
#[verifier::external_body]
pub(crate) fn read_member(
    archive: &mut zip::ZipArchive<std::io::Cursor<&[u8]>>,
    index: usize,
) -> (member: Option<(String, u64, Option<Vec<u8>>)>)
    requires
        archive_intact(*old(archive)),
    ensures
        archive_source(*final(archive)) == archive_source(*old(archive)),
        archive_intact(*final(archive)),
        match member {
            Some((name, size, contents)) => member_at(
                archive_source(*old(archive)),
                index as nat,
            ) == Some((name@, size, bytes_view(contents))),
            None => member_at(archive_source(*old(archive)), index as nat).is_none(),
        },
{
    let mut file = archive.by_index(index).ok()?;
    let name = file.name().ok()?.into_owned();
    let size = file.size();
    let mut contents = Vec::new();
    let read = std::io::Read::read_to_end(&mut file, &mut contents).ok();
    Some((name, size, read.map(|_| contents)))
}

} // verus!
