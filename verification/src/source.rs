//! The archive that is read: what it records of its entries, and the calls
//! that read it.

use vstd::prelude::*;
use std::io::Read;
use crate::error::{ErrorKind, ProcessError};
use crate::order::Entry;
use crate::compare::name_text;

verus! {

/// `zip::ZipArchive`, an archive open for reading. Nothing inside it is
/// seen here.
#[verifier::external_type_specification]
#[verifier::external_body]
#[verifier::reject_recursive_types(R)]
pub struct ExZipArchive<R>(zip::ZipArchive<R>);

/// `std::io::Cursor`, a buffer with a position. Nothing inside it is seen
/// here.
#[verifier::external_type_specification]
#[verifier::external_body]
#[verifier::reject_recursive_types(T)]
pub struct ExCursor<T>(std::io::Cursor<T>);

/// An archive that was opened on bytes held in memory.
pub type Archive = zip::ZipArchive<std::io::Cursor<Vec<u8>>>;

/// What an entry is.
#[derive(Copy, Clone, Debug, PartialEq, Eq, Structural)]
pub enum EntryKind {
    /// A directory: a name and no content.
    Directory,
    /// A symbolic link: its content is the path it points to.
    Symlink,
    /// A regular file.
    File,
}

/// Whether a name ends in a path separator, which marks a directory.
pub open spec fn ends_with_separator(name: Seq<char>) -> bool {
    name.len() > 0 && (name.last() == '/' || name.last() == '\\')
}

/// The kind of an entry, from the two marks that an archive keeps. The mark
/// of a directory counts first.
pub open spec fn kind_of(is_dir: bool, is_symlink: bool) -> EntryKind {
    if is_dir {
        EntryKind::Directory
    } else if is_symlink {
        EntryKind::Symlink
    } else {
        EntryKind::File
    }
}

/// What an archive holds of one entry.
pub struct EntryInfo {
    /// The name.
    pub name: Seq<char>,
    /// The size of the content as the archive declares it, in bytes.
    pub size: u64,
    /// Whether the archive marks the entry as a symbolic link.
    pub is_symlink: bool,
    /// Whether the entry can be opened for reading when its turn comes.
    pub opens: bool,
    /// Whether the content can be read to its end.
    pub reads: bool,
    /// The content as text; `None` where the content cannot be read or is no
    /// text.
    pub text: Option<Seq<char>>,
    /// The content: the bytes that reading the entry to its end gives.
    pub data: Seq<u8>,
}

impl EntryInfo {
    /// Whether the entry is a directory: its name ends in a separator.
    pub open spec fn is_dir(self) -> bool {
        ends_with_separator(self.name)
    }

    /// What the entry is.
    pub open spec fn kind(self) -> EntryKind {
        kind_of(self.is_dir(), self.is_symlink)
    }
}

/// What was read of one entry when its turn came.
#[derive(Debug)]
pub struct EntryMeta {
    /// The name.
    pub name: String,
    /// The declared size of the content, in bytes.
    pub size: u64,
    /// Whether the entry is a directory.
    pub is_dir: bool,
    /// Whether the entry is marked as a symbolic link.
    pub is_symlink: bool,
}

impl EntryMeta {
    /// Whether this is what the archive holds of the entry `info`.
    pub open spec fn describes(self, info: EntryInfo) -> bool {
        &&& self.name@ == info.name
        &&& self.size == info.size
        &&& self.is_dir == info.is_dir()
        &&& self.is_symlink == info.is_symlink
    }

    /// What the entry is.
    pub fn kind(&self) -> (kind: EntryKind)
        ensures
            kind == kind_of(self.is_dir, self.is_symlink),
    {
        if self.is_dir {
            EntryKind::Directory
        } else if self.is_symlink {
            EntryKind::Symlink
        } else {
            EntryKind::File
        }
    }
}

/// The entries of the archive that the bytes `contents` hold, in the order
/// of its directory; `None` where the bytes are no archive that `zip` reads.
pub uninterp spec fn parsed_archive(contents: Seq<u8>) -> Option<Seq<EntryInfo>>;

/// The entries that an open archive holds, in the order of its directory.
pub uninterp spec fn archive_entries(archive: Archive) -> Seq<EntryInfo>;

/// The entry that an archive holds at a position, if it has that position.
pub open spec fn entry_at(archive: Archive, idx: usize) -> Option<EntryInfo> {
    if idx < archive_entries(archive).len() {
        Some(archive_entries(archive)[idx as int])
    } else {
        None
    }
}

/// The names of the entries, none of them absent.
pub open spec fn present_names(entries: Seq<EntryInfo>) -> Seq<Option<Seq<char>>> {
    entries.map_values(|e: EntryInfo| Some(e.name))
}

/// Calls `zip`: `ZipArchive::new` on a cursor over the bytes.
///
/// Believed, not proved: what comes back depends on the bytes alone. The
/// call fails exactly where `parsed_archive` is `None`, and the archive that
/// it gives holds the entries that `parsed_archive` names.
#[verifier::external_body]
fn zip_open(contents: Vec<u8>) -> (opened: Result<Archive, zip::result::ZipError>)
    ensures
        match opened {
            Ok(archive) => parsed_archive(contents@) == Some(archive_entries(archive)),
            Err(_) => parsed_archive(contents@) is None,
        },
{
    zip::ZipArchive::new(std::io::Cursor::new(contents))
}

/// Calls `zip`: `ZipArchive::len`, the number of entries.
#[verifier::external_body]
fn zip_len(archive: &Archive) -> (count: usize)
    ensures
        count == archive_entries(*archive).len(),
{
    archive.len()
}

/// Calls `zip`: `ZipArchive::name_for_index`.
///
/// Believed, not proved: for a position that the archive has, the name is
/// the one that the archive holds there; for any other, there is none.
#[verifier::external_body]
fn zip_name(archive: &Archive, idx: usize) -> (found: Option<String>)
    ensures
        match found {
            Some(text) => entry_at(*archive, idx) matches Some(entry) && text@ == entry.name,
            None => entry_at(*archive, idx) is None,
        },
{
    archive.name_for_index(idx).map(String::from)
}

/// Calls `zip`: `ZipArchive::by_index`, then reads the name, the size and
/// the two marks off the entry that came back. That entry borrows the
/// archive, so it cannot leave this call.
///
/// Believed, not proved: the call leaves the entries of the archive as they
/// were. It succeeds exactly for a position that the archive has and whose
/// entry opens, and what is read off is then what the archive holds there;
/// the mark of a directory says that the name ends in a separator.
#[verifier::external_body]
fn zip_entry_meta(archive: &mut Archive, idx: usize) -> (found: Result<
    EntryMeta,
    zip::result::ZipError,
>)
    ensures
        archive_entries(*final(archive)) == archive_entries(*old(archive)),
        match found {
            Ok(meta) => {
                &&& entry_at(*old(archive), idx) matches Some(entry)
                &&& entry.opens
                &&& meta.describes(entry)
            },
            Err(_) => entry_at(*old(archive), idx) matches Some(entry) ==> !entry.opens,
        },
{
    let entry = archive.by_index(idx)?;
    Ok(
        EntryMeta {
            name: entry.name().to_string(),
            size: entry.size(),
            is_dir: entry.is_dir(),
            is_symlink: entry.is_symlink(),
        },
    )
}

/// Calls `zip` and `std`: `ZipArchive::by_index`, then `read_to_string` on
/// the entry that came back. That entry borrows the archive, so it cannot
/// leave this call. An error of `zip` comes back as the `std::io::Error`
/// that `zip` makes of it, which shows the same text.
///
/// Believed, not proved: the call leaves the entries of the archive as they
/// were, and what comes back depends on the archive and the position alone.
/// It succeeds exactly for a position that the archive has and whose entry
/// has its content as text, and that text comes back.
#[verifier::external_body]
fn zip_read_text(archive: &mut Archive, idx: usize) -> (read: Result<String, std::io::Error>)
    ensures
        archive_entries(*final(archive)) == archive_entries(*old(archive)),
        match read {
            Ok(text) => {
                &&& entry_at(*old(archive), idx) matches Some(entry)
                &&& entry.text == Some(text@)
            },
            Err(_) => entry_at(*old(archive), idx) matches Some(entry) ==> entry.text is None,
        },
{
    let mut text = String::new();
    archive.by_index(idx)?.read_to_string(&mut text)?;
    Ok(text)
}

/// Calls `zip` and `std`: `ZipArchive::by_index`, then `std::io::copy` from
/// the entry that came back into `std::io::sink()`, which drops what it is
/// given. An error of `zip` comes back as the `std::io::Error` that `zip`
/// makes of it.
///
/// Believed, not proved: the call leaves the entries of the archive as they
/// were, and what comes back depends on the archive and the position alone.
/// It succeeds exactly for a position that the archive has and whose entry
/// has content that reads to its end.
#[verifier::external_body]
fn zip_read_through(archive: &mut Archive, idx: usize) -> (read: Result<(), std::io::Error>)
    ensures
        archive_entries(*final(archive)) == archive_entries(*old(archive)),
        match read {
            Ok(()) => entry_at(*old(archive), idx) matches Some(entry) && entry.reads,
            Err(_) => entry_at(*old(archive), idx) matches Some(entry) ==> !entry.reads,
        },
{
    let mut entry = archive.by_index(idx)?;
    std::io::copy(&mut entry, &mut std::io::sink())?;
    Ok(())
}

/// Opens the archive that the bytes hold.
pub fn open_archive(contents: Vec<u8>) -> (opened: Result<Archive, ProcessError>)
    ensures
        match opened {
            Ok(archive) => parsed_archive(contents@) == Some(archive_entries(archive)),
            Err(error) => parsed_archive(contents@) is None && error.kind
                == ErrorKind::OpenFailure,
        },
{
    match zip_open(contents) {
        Ok(archive) => Ok(archive),
        Err(cause) => Err(ProcessError::from_zip(ErrorKind::OpenFailure, &cause)),
    }
}

/// Reads what the archive holds of the entry at `idx`, as the entry's turn
/// has come. This fails exactly where the archive has no such position or
/// the entry does not open.
pub fn entry_meta(archive: &mut Archive, idx: usize) -> (found: Result<EntryMeta, ProcessError>)
    ensures
        archive_entries(*final(archive)) == archive_entries(*old(archive)),
        match found {
            Ok(meta) => {
                &&& entry_at(*old(archive), idx) matches Some(entry)
                &&& entry.opens
                &&& meta.describes(entry)
            },
            Err(error) => {
                &&& error.kind == ErrorKind::CorruptEntry
                &&& entry_at(*old(archive), idx) matches Some(entry) ==> !entry.opens
            },
        },
{
    match zip_entry_meta(archive, idx) {
        Ok(meta) => Ok(meta),
        Err(cause) => Err(ProcessError::from_zip(ErrorKind::CorruptEntry, &cause)),
    }
}

/// Reads the path that the symbolic link at `idx` points to: the whole
/// content of the entry, as text. This fails exactly where the archive has
/// no such position or the content of the entry is not to be had as text.
pub fn link_target(archive: &mut Archive, idx: usize) -> (read: Result<String, ProcessError>)
    ensures
        archive_entries(*final(archive)) == archive_entries(*old(archive)),
        match read {
            Ok(text) => {
                &&& entry_at(*old(archive), idx) matches Some(entry)
                &&& entry.text == Some(text@)
            },
            Err(error) => {
                &&& error.kind == ErrorKind::InvalidSymlink
                &&& entry_at(*old(archive), idx) matches Some(entry) ==> entry.text is None
            },
        },
{
    match zip_read_text(archive, idx) {
        Ok(text) => Ok(text),
        Err(cause) => Err(ProcessError::from_io(ErrorKind::InvalidSymlink, &cause)),
    }
}

/// Reads the content of the entry at `idx` to its end and drops it. This
/// fails exactly where the archive has no such position or the content of
/// the entry does not read to its end.
pub fn check_content(archive: &mut Archive, idx: usize) -> (read: Result<(), ProcessError>)
    ensures
        archive_entries(*final(archive)) == archive_entries(*old(archive)),
        match read {
            Ok(()) => entry_at(*old(archive), idx) matches Some(entry) && entry.reads,
            Err(error) => {
                &&& error.kind == ErrorKind::CorruptEntry
                &&& entry_at(*old(archive), idx) matches Some(entry) ==> !entry.reads
            },
        },
{
    match zip_read_through(archive, idx) {
        Ok(()) => Ok(()),
        Err(cause) => Err(ProcessError::from_io(ErrorKind::CorruptEntry, &cause)),
    }
}

/// Lists the entries of an archive, each once, in the order of its
/// directory, with the name that the archive holds for it. Nothing of the
/// content is read.
pub fn list_entries(archive: &Archive) -> (items: Vec<Entry>)
    ensures
        items@.len() == archive_entries(*archive).len(),
        forall|i: int|
            0 <= i < items@.len() ==> (#[trigger] items@[i]).idx == i && name_text(items@[i].name)
                == Some(archive_entries(*archive)[i].name),
{
    let count: usize = zip_len(archive);
    let mut items: Vec<Entry> = Vec::new();
    let mut idx: usize = 0;
    while idx < count
        invariant
            count == archive_entries(*archive).len(),
            idx <= count,
            items@.len() == idx,
            forall|i: int|
                0 <= i < items@.len() ==> (#[trigger] items@[i]).idx == i && name_text(
                    items@[i].name,
                ) == Some(archive_entries(*archive)[i].name),
        decreases count - idx,
    {
        let name = zip_name(archive, idx);
        items.push(Entry { idx, name });
        idx += 1;
    }
    items
}

} // verus!
