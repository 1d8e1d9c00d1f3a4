//! Rebuilds a zip archive entry by entry: small files are stored, larger ones
//! deflated, entries are optionally reordered by name, and the rebuilt
//! archive is handed back only when every entry was written.
//!
//! The library works on bytes in memory. [`process_file`] takes the bytes of
//! an archive and gives the bytes of the rebuilt one; [`open_archive`] and
//! [`rebuild`] are its two halves. Reading the file, writing the result
//! beside it and renaming it into place are left to the caller. The names
//! of the entries visited are collected in a list that the caller hands in.
//!
//! - [`params`]: the settings of a run.
//! - [`policy`]: store or deflate, by size and threshold.
//! - [`keys`], [`compare`], [`order`]: the order of names and of the visit,
//!   and the sort that establishes it.
//! - [`source`]: the archive that is read.
//! - [`sink`]: the archive that is built.
//! - [`recompact`]: the visit itself.
//! - [`error`]: the failures.
//!
//! Reading and writing the container format is the work of the crate `zip`,
//! and case folding that of `unicase`. The calls into them are the functions
//! marked `external_body`; what is said of them there is believed, and
//! everything else is proved from it.

pub mod compare;
pub mod error;
pub mod keys;
pub mod order;
pub mod params;
pub mod policy;
pub mod recompact;
pub mod sink;
pub mod source;

pub use compare::{name_less, unicase_cmp};
pub use error::{ErrorKind, ProcessError};
pub use order::{sort_entries, Entry};
pub use params::{ProcessParams, Sort, DEFAULT_COMPRESS_THRESHOLD};
pub use policy::{decide, Method, COMPRESSION_LEVEL};
pub use recompact::{copy_zip, create_zip, process_file, rebuild};
pub use sink::Destination;
pub use source::{
    check_content, entry_meta, link_target, list_entries, open_archive, Archive, EntryKind,
    EntryMeta,
};
