//! The archive that is built: what has been added to it, and the calls that
//! add to it.

use vstd::prelude::*;
use vstd::utf8::encode_utf8;
use crate::error::{ErrorKind, ProcessError};
use crate::policy::{Method, COMPRESSION_LEVEL};
use crate::source::{archive_entries, ends_with_separator, entry_at, Archive, EntryKind};

verus! {

/// The longest name that an entry can carry, in bytes.
pub const MAX_NAME_BYTES: usize = 65535;

/// Whether a name is short enough for an entry.
pub open spec fn name_fits(name: Seq<char>) -> bool {
    encode_utf8(name).len() <= MAX_NAME_BYTES
}

const EARLIER_FAILURE: &'static str = "an earlier write to the archive failed";

const NAME_TOO_LONG: &'static str = "the name of an entry is longer than 65535 bytes";

/// One entry as it was added to the archive that is built.
pub struct Record {
    /// The name.
    pub name: Seq<char>,
    /// What the entry is.
    pub kind: EntryKind,
    /// The level at which the content is deflated; `None` where it is stored
    /// byte for byte.
    pub level: Option<i64>,
    /// The content that was handed over: for a symbolic link the path it
    /// points to, for a directory nothing.
    pub data: Seq<u8>,
}

impl Record {
    /// A directory of the given name.
    pub open spec fn directory(name: Seq<char>) -> Record {
        Record { name, kind: EntryKind::Directory, level: None, data: Seq::empty() }
    }

    /// A symbolic link of the given name that points to `target`. Its content
    /// is the target, stored.
    pub open spec fn symlink(name: Seq<char>, target: Seq<char>) -> Record {
        Record { name, kind: EntryKind::Symlink, level: None, data: encode_utf8(target) }
    }

    /// A regular file of the given name and content.
    pub open spec fn file(name: Seq<char>, level: Option<i64>, data: Seq<u8>) -> Record {
        Record { name, kind: EntryKind::File, level, data }
    }
}

/// The level at which content is written under a method.
pub open spec fn level_of(method: Method) -> Option<i64> {
    match method {
        Method::Store => None,
        Method::Compress => Some(COMPRESSION_LEVEL),
    }
}

/// The records with more content at the end of the last one.
pub open spec fn with_more(records: Seq<Record>, more: Seq<u8>) -> Seq<Record> {
    records.drop_last().push(Record { data: records.last().data + more, ..records.last() })
}

/// A `zip::ZipWriter` over a buffer in memory. The type `ZipWriter` bounds
/// its parameter by traits of `std::io`, so it is held in this struct and
/// nothing inside it is seen here; all that is known of a writer is what the
/// calls below say of the names that follow.
#[verifier::external_body]
pub struct ZipSink {
    writer: zip::ZipWriter<std::io::Cursor<Vec<u8>>>,
}

/// The entries that were added to a writer, in the order in which they were
/// added.
pub uninterp spec fn sink_records(sink: ZipSink) -> Seq<Record>;

/// Whether a writer takes further calls: it does from its creation until a
/// call on it fails.
pub uninterp spec fn sink_ready(sink: ZipSink) -> bool;

/// Whether a writer, as it stands, takes an entry at its end: the call that
/// adds the entry succeeds. For a file the record is the one without
/// content, as the file is when it is started.
pub uninterp spec fn sink_takes(sink: ZipSink, record: Record) -> bool;

/// Whether a writer, as it stands, takes these bytes as further content of
/// the file that was added last.
pub uninterp spec fn sink_takes_content(sink: ZipSink, data: Seq<u8>) -> bool;

/// The bytes of the archive that completing a writer gives; `None` where
/// completing it fails.
pub uninterp spec fn sink_image(sink: ZipSink) -> Option<Seq<u8>>;

/// Calls `zip`: `ZipWriter::new` on a cursor over an empty buffer.
#[verifier::external_body]
fn sink_new() -> (sink: ZipSink)
    ensures
        sink_ready(sink),
        sink_records(sink) == Seq::<Record>::empty(),
{
    ZipSink { writer: zip::ZipWriter::new(std::io::Cursor::new(Vec::new())) }
}

/// Calls `zip`: `ZipWriter::add_directory` with the default options.
///
/// Believed, not proved: the writer works on a buffer in memory, so whether
/// the call succeeds depends on the writer and the name alone; `sink_takes`
/// is the name of that. Where it succeeds, a directory of that name was
/// added and the writer takes further calls. Left out: a writer on which a
/// call failed, a name of more than 65535 bytes (`zip` panics on both), and
/// a name without a separator at its end (`zip` would add one).
#[verifier::external_body]
fn sink_add_directory(sink: &mut ZipSink, name: &str) -> (added: Result<(), zip::result::ZipError>)
    requires
        sink_ready(*old(sink)),
        ends_with_separator(name@),
        name_fits(name@),
    ensures
        (added is Ok) == sink_takes(*old(sink), Record::directory(name@)),
        added is Ok ==> {
            &&& sink_ready(*final(sink))
            &&& sink_records(*final(sink)) == sink_records(*old(sink)).push(
                Record::directory(name@),
            )
        },
{
    sink.writer.add_directory(name, zip::write::SimpleFileOptions::default())
}

/// Calls `zip`: `ZipWriter::add_symlink` with the default options.
///
/// Believed, not proved: whether the call succeeds depends on the writer,
/// the name and the target alone; `sink_takes` is the name of that. Where it
/// succeeds, a symbolic link of that name was added, its content the bytes
/// of the target, stored, and the writer takes further calls. Left out: a
/// writer on which a call failed and a name of more than 65535 bytes (`zip`
/// panics on both).
#[verifier::external_body]
fn sink_add_symlink(sink: &mut ZipSink, name: &str, target: &str) -> (added: Result<
    (),
    zip::result::ZipError,
>)
    requires
        sink_ready(*old(sink)),
        name_fits(name@),
    ensures
        (added is Ok) == sink_takes(*old(sink), Record::symlink(name@, target@)),
        added is Ok ==> {
            &&& sink_ready(*final(sink))
            &&& sink_records(*final(sink)) == sink_records(*old(sink)).push(
                Record::symlink(name@, target@),
            )
        },
{
    sink.writer.add_symlink(name, target, zip::write::SimpleFileOptions::default())
}

/// Calls `zip`: `ZipWriter::start_file` with the default options and the
/// method `Stored`.
///
/// Believed, not proved: whether the call succeeds depends on the writer and
/// the name alone; `sink_takes` is the name of that. Where it succeeds, a
/// file of that name was added, stored and still without content, and the
/// writer takes further calls. Left out: a writer on which a call failed and
/// a name of more than 65535 bytes (`zip` panics on both).
#[verifier::external_body]
fn sink_start_stored(sink: &mut ZipSink, name: &str) -> (started: Result<
    (),
    zip::result::ZipError,
>)
    requires
        sink_ready(*old(sink)),
        name_fits(name@),
    ensures
        (started is Ok) == sink_takes(*old(sink), Record::file(name@, None, Seq::empty())),
        started is Ok ==> {
            &&& sink_ready(*final(sink))
            &&& sink_records(*final(sink)) == sink_records(*old(sink)).push(
                Record::file(name@, None, Seq::empty()),
            )
        },
{
    let options = zip::write::SimpleFileOptions::default();
    sink.writer.start_file(name, options.compression_method(zip::CompressionMethod::Stored))
}

/// Calls `zip`: `ZipWriter::start_file` with the default options, the method
/// `Deflated` and the given level.
///
/// Believed, not proved: whether the call succeeds depends on the writer,
/// the name and the level alone; `sink_takes` is the name of that. Where it
/// succeeds, a file of that name was added, deflated at that level and still
/// without content, and the writer takes further calls. Left out: a writer
/// on which a call failed and a name of more than 65535 bytes (`zip` panics
/// on both).
#[verifier::external_body]
fn sink_start_deflated(sink: &mut ZipSink, name: &str, level: i64) -> (started: Result<
    (),
    zip::result::ZipError,
>)
    requires
        sink_ready(*old(sink)),
        name_fits(name@),
    ensures
        (started is Ok) == sink_takes(
            *old(sink),
            Record::file(name@, Some(level), Seq::empty()),
        ),
        started is Ok ==> {
            &&& sink_ready(*final(sink))
            &&& sink_records(*final(sink)) == sink_records(*old(sink)).push(
                Record::file(name@, Some(level), Seq::empty()),
            )
        },
{
    let options = zip::write::SimpleFileOptions::default();
    let method = zip::CompressionMethod::Deflated;
    sink.writer.start_file(name, options.compression_method(method).compression_level(Some(level)))
}

/// Calls `zip` and `std`: `ZipArchive::by_index`, then `std::io::copy` from
/// the entry that came back into the writer. That entry borrows the archive,
/// so it cannot leave this call. An error of `zip` comes back as the
/// `std::io::Error` that `zip` makes of it.
///
/// Believed, not proved: the call leaves the entries of the archive as they
/// were. Both ends are in memory, so it succeeds exactly where the archive
/// has the position, the content of that entry reads to its end, and the
/// writer takes those bytes; `sink_takes_content` is the name of the last.
/// Where it succeeds, the content went to the end of the file that was added
/// last and the writer takes further calls. Left out: a writer on which a
/// call failed, and one whose last entry is no file.
#[verifier::external_body]
fn zip_copy_entry(archive: &mut Archive, idx: usize, sink: &mut ZipSink) -> (copied: Result<
    (),
    std::io::Error,
>)
    requires
        sink_ready(*old(sink)),
        sink_records(*old(sink)).len() > 0,
        sink_records(*old(sink)).last().kind == EntryKind::File,
    ensures
        archive_entries(*final(archive)) == archive_entries(*old(archive)),
        (copied is Ok) == {
            &&& entry_at(*old(archive), idx) matches Some(entry)
            &&& entry.reads
            &&& sink_takes_content(*old(sink), entry.data)
        },
        copied is Ok ==> {
            &&& entry_at(*old(archive), idx) matches Some(entry)
            &&& sink_ready(*final(sink))
            &&& sink_records(*final(sink)) == with_more(sink_records(*old(sink)), entry.data)
        },
{
    let mut entry = archive.by_index(idx)?;
    std::io::copy(&mut entry, &mut sink.writer)?;
    Ok(())
}

/// Calls `zip`: `ZipWriter::finish`, then takes the buffer out of the cursor
/// that comes back.
///
/// Believed, not proved: what comes back depends on the writer alone, and
/// `sink_image` is the name of it. Left out: a writer on which a call failed
/// (`zip` may panic).
#[verifier::external_body]
fn sink_finish(sink: ZipSink) -> (finished: Result<Vec<u8>, zip::result::ZipError>)
    requires
        sink_ready(sink),
    ensures
        match finished {
            Ok(bytes) => sink_image(sink) == Some(bytes@),
            Err(_) => sink_image(sink) is None,
        },
{
    Ok(sink.writer.finish()?.into_inner())
}

/// The failure that a refused write is reported as.
fn write_failure(outcome: Result<(), zip::result::ZipError>) -> (reported: Result<
    (),
    ProcessError,
>)
    ensures
        (reported is Ok) == (outcome is Ok),
        reported matches Err(error) ==> error.kind == ErrorKind::WriteFailure,
{
    match outcome {
        Ok(()) => Ok(()),
        Err(cause) => Err(ProcessError::from_zip(ErrorKind::WriteFailure, &cause)),
    }
}

/// The archive that is built, in memory. Entries are added at its end, one
/// after the other. Once adding one has failed, nothing more is added.
pub struct Destination {
    sink: Option<ZipSink>,
}

impl Destination {
    #[verifier::type_invariant]
    spec fn takes_calls(self) -> bool {
        self.sink matches Some(sink) ==> sink_ready(sink)
    }

    /// Whether a write has failed.
    pub closed spec fn failed(self) -> bool {
        self.sink is None
    }

    /// The entries that were added, in the order in which they were added.
    pub closed spec fn records(self) -> Seq<Record> {
        match self.sink {
            Some(sink) => sink_records(sink),
            None => Seq::empty(),
        }
    }

    /// Whether the archive, as it stands, takes an entry at its end. For a
    /// file the record is the one without content, as the file is when it is
    /// started.
    pub closed spec fn takes(self, record: Record) -> bool {
        self.sink matches Some(sink) && sink_takes(sink, record)
    }

    /// Whether the archive, as it stands, takes these bytes as further
    /// content of the file that was added last.
    pub closed spec fn takes_content(self, data: Seq<u8>) -> bool {
        self.sink matches Some(sink) && sink_takes_content(sink, data)
    }

    /// Whether adding the entry succeeds: no write has failed before, the
    /// name is short enough, and the archive takes the entry.
    pub open spec fn accepts(self, record: Record) -> bool {
        &&& !self.failed()
        &&& name_fits(record.name)
        &&& self.takes(record)
    }

    /// The bytes of the archive as it would be completed now; `None` where
    /// that fails, as it does after a failed write.
    pub closed spec fn image(self) -> Option<Seq<u8>> {
        match self.sink {
            Some(sink) => sink_image(sink),
            None => None,
        }
    }

    /// An archive without entries.
    pub fn new() -> (dest: Destination)
        ensures
            !dest.failed(),
            dest.records() == Seq::<Record>::empty(),
    {
        Destination { sink: Some(sink_new()) }
    }

    /// Whether a write has failed.
    pub fn has_failed(&self) -> (failed: bool)
        ensures
            failed == self.failed(),
    {
        self.sink.is_none()
    }

    /// Takes the writer out for one call. That fails exactly where a write
    /// has failed before.
    fn take_writer(&mut self) -> (taken: Result<ZipSink, ProcessError>)
        ensures
            final(self).failed(),
            match taken {
                Ok(sink) => old(self).sink == Some(sink) && sink_ready(sink),
                Err(error) => old(self).failed() && error.kind == ErrorKind::WriteFailure,
            },
    {
        proof {
            use_type_invariant(&*self);
        }
        let mut taken: Option<ZipSink> = None;
        std::mem::swap(&mut self.sink, &mut taken);
        match taken {
            Some(sink) => Ok(sink),
            None => Err(ProcessError::new(ErrorKind::WriteFailure, EARLIER_FAILURE)),
        }
    }

    /// Takes the writer out for adding an entry of the given name. That
    /// fails exactly where a write has failed before or the name is too long.
    fn writer_for(&mut self, name: &str) -> (taken: Result<ZipSink, ProcessError>)
        ensures
            final(self).failed(),
            match taken {
                Ok(sink) => {
                    &&& old(self).sink == Some(sink)
                    &&& sink_ready(sink)
                    &&& name_fits(name@)
                },
                Err(error) => {
                    &&& old(self).failed() || !name_fits(name@)
                    &&& error.kind == ErrorKind::WriteFailure
                },
            },
    {
        let sink = self.take_writer()?;
        if name.as_bytes().len() > MAX_NAME_BYTES {
            Err(ProcessError::new(ErrorKind::WriteFailure, NAME_TOO_LONG))
        } else {
            Ok(sink)
        }
    }

    /// Puts the writer back after a call, if the call succeeded.
    fn settle(&mut self, sink: ZipSink, outcome: Result<(), ProcessError>) -> (settled: Result<
        (),
        ProcessError,
    >)
        requires
            old(self).failed(),
            outcome is Ok ==> sink_ready(sink),
        ensures
            settled == outcome,
            match settled {
                Ok(()) => !final(self).failed() && final(self).records() == sink_records(sink),
                Err(_) => final(self).failed(),
            },
    {
        if outcome.is_ok() {
            self.sink = Some(sink);
        }
        outcome
    }

    /// Adds a directory.
    pub(crate) fn add_directory(&mut self, name: &str) -> (added: Result<(), ProcessError>)
        requires
            ends_with_separator(name@),
        ensures
            (added is Ok) == old(self).accepts(Record::directory(name@)),
            match added {
                Ok(()) => {
                    &&& !final(self).failed()
                    &&& final(self).records() == old(self).records().push(
                        Record::directory(name@),
                    )
                },
                Err(error) => error.kind == ErrorKind::WriteFailure && final(self).failed(),
            },
    {
        let mut sink = self.writer_for(name)?;
        let outcome = write_failure(sink_add_directory(&mut sink, name));
        self.settle(sink, outcome)
    }

    /// Adds a symbolic link that points to `target`.
    pub(crate) fn add_symlink(&mut self, name: &str, target: &str) -> (added: Result<
        (),
        ProcessError,
    >)
        ensures
            (added is Ok) == old(self).accepts(Record::symlink(name@, target@)),
            match added {
                Ok(()) => {
                    &&& !final(self).failed()
                    &&& final(self).records() == old(self).records().push(
                        Record::symlink(name@, target@),
                    )
                },
                Err(error) => error.kind == ErrorKind::WriteFailure && final(self).failed(),
            },
    {
        let mut sink = self.writer_for(name)?;
        let outcome = write_failure(sink_add_symlink(&mut sink, name, target));
        self.settle(sink, outcome)
    }

    /// Adds a file that has no content yet. Its content is written under
    /// `method`, deflated content at [`COMPRESSION_LEVEL`].
    pub(crate) fn start_file(&mut self, name: &str, method: Method) -> (started: Result<
        (),
        ProcessError,
    >)
        ensures
            (started is Ok) == old(self).accepts(
                Record::file(name@, level_of(method), Seq::empty()),
            ),
            match started {
                Ok(()) => {
                    &&& !final(self).failed()
                    &&& final(self).records() == old(self).records().push(
                        Record::file(name@, level_of(method), Seq::empty()),
                    )
                },
                Err(error) => error.kind == ErrorKind::WriteFailure && final(self).failed(),
            },
    {
        let mut sink = self.writer_for(name)?;
        let started = match method {
            Method::Store => sink_start_stored(&mut sink, name),
            Method::Compress => sink_start_deflated(&mut sink, name, COMPRESSION_LEVEL),
        };
        let outcome = write_failure(started);
        self.settle(sink, outcome)
    }

    /// Copies the content of entry `idx` of `source` to the end of the file
    /// that was added last. That succeeds exactly where no write has failed
    /// before, the content reads to its end and the archive takes it. The
    /// failure is reported as one of writing; whether the content reads is
    /// for the caller to find out.
    pub(crate) fn copy_from(&mut self, source: &mut Archive, idx: usize) -> (copied: Result<
        (),
        ProcessError,
    >)
        requires
            old(self).records().len() > 0,
            old(self).records().last().kind == EntryKind::File,
        ensures
            archive_entries(*final(source)) == archive_entries(*old(source)),
            (copied is Ok) == {
                &&& !old(self).failed()
                &&& entry_at(*old(source), idx) matches Some(entry)
                &&& entry.reads
                &&& old(self).takes_content(entry.data)
            },
            match copied {
                Ok(()) => {
                    &&& entry_at(*old(source), idx) matches Some(entry)
                    &&& !final(self).failed()
                    &&& final(self).records() == with_more(old(self).records(), entry.data)
                },
                Err(error) => error.kind == ErrorKind::WriteFailure && final(self).failed(),
            },
    {
        let mut sink = self.take_writer()?;
        let outcome = match zip_copy_entry(source, idx, &mut sink) {
            Ok(()) => Ok(()),
            Err(cause) => Err(ProcessError::from_io(ErrorKind::WriteFailure, &cause)),
        };
        self.settle(sink, outcome)
    }

    /// Completes the archive and hands out its bytes.
    pub fn finish(self) -> (finished: Result<Vec<u8>, ProcessError>)
        ensures
            self.failed() ==> self.image() is None,
            match finished {
                Ok(bytes) => self.image() == Some(bytes@),
                Err(error) => self.image() is None && error.kind == ErrorKind::WriteFailure,
            },
    {
        proof {
            use_type_invariant(&self);
        }
        match self.sink {
            None => Err(ProcessError::new(ErrorKind::WriteFailure, EARLIER_FAILURE)),
            Some(sink) => match sink_finish(sink) {
                Ok(bytes) => Ok(bytes),
                Err(cause) => Err(ProcessError::from_zip(ErrorKind::WriteFailure, &cause)),
            },
        }
    }
}

} // verus!
