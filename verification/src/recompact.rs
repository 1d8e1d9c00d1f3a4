//! Rebuilding an archive: every entry is visited in turn and, unless the run
//! is a dry one, written to the archive that is built.

use vstd::prelude::*;
use vstd::utf8::encode_utf8;
use crate::error::{ErrorKind, ProcessError};
use crate::order::{
    in_turn, is_visit_order, names_of, ordering_again_changes_nothing, rearranged, sort_entries,
    unsorted_visit_order, visit_order, visit_order_exists, visit_order_is_permutation,
};
use crate::params::{ProcessParams, Sort};
use crate::policy::{chosen_method, decide, COMPRESSION_LEVEL};
use crate::sink::{level_of, Destination, Record};
use crate::source::{
    archive_entries, check_content, entry_at, entry_meta, link_target, list_entries,
    open_archive, parsed_archive, present_names, Archive, EntryInfo, EntryKind, EntryMeta,
};

verus! {

/// The texts of a list of names.
pub open spec fn texts(names: Seq<String>) -> Seq<Seq<char>> {
    names.map_values(|name: String| name@)
}

/// The order in which the entries of an archive are visited.
pub open spec fn entry_order(entries: Seq<EntryInfo>, sort: Option<Sort>) -> Seq<int> {
    visit_order(present_names(entries), sort)
}

/// The names of the entries in the order of the visit.
pub open spec fn visited_names(entries: Seq<EntryInfo>, order: Seq<int>) -> Seq<Seq<char>> {
    Seq::new(order.len(), |k: int| entries[order[k]].name)
}

/// What is written for an entry: a directory keeps its name, a symbolic
/// link its name and its target, a regular file its name and its content.
/// Only a regular file may be deflated: it is where its declared size
/// reaches the threshold.
pub open spec fn record_of(entry: EntryInfo, threshold: u64) -> Record {
    match entry.kind() {
        EntryKind::Directory => Record::directory(entry.name),
        EntryKind::Symlink => Record::symlink(
            entry.name,
            match entry.text {
                Some(target) => target,
                None => Seq::empty(),
            },
        ),
        EntryKind::File => Record::file(
            entry.name,
            level_of(chosen_method(entry.size, threshold)),
            entry.data,
        ),
    }
}

/// The record of an entry as it is first added: a file has no content yet.
pub open spec fn first_record(entry: EntryInfo, threshold: u64) -> Record {
    match entry.kind() {
        EntryKind::File => Record::file(
            entry.name,
            level_of(chosen_method(entry.size, threshold)),
            Seq::empty(),
        ),
        _ => record_of(entry, threshold),
    }
}

/// What is written for the entries in the order of the visit.
pub open spec fn planned_records(entries: Seq<EntryInfo>, order: Seq<int>, threshold: u64) -> Seq<
    Record,
> {
    Seq::new(order.len(), |k: int| record_of(entries[order[k]], threshold))
}

/// Whether an entry is a symbolic link whose target cannot be read.
pub open spec fn is_broken_link(entry: EntryInfo) -> bool {
    entry.kind() == EntryKind::Symlink && entry.text is None
}

/// Whether an entry is a regular file whose content does not read to its
/// end.
pub open spec fn is_unreadable_file(entry: EntryInfo) -> bool {
    entry.kind() == EntryKind::File && !entry.reads
}

/// Whether a visit gets past an entry as far as the archive that is read
/// decides: the entry opens and, where entries are written, is neither a
/// symbolic link whose target cannot be read nor a file whose content does
/// not read.
pub open spec fn passable(entry: EntryInfo, dry: bool) -> bool {
    entry.opens && (dry || (!is_broken_link(entry) && !is_unreadable_file(entry)))
}

/// Whether a visit gets past every entry before step `step`.
pub open spec fn passable_before(
    entries: Seq<EntryInfo>,
    order: Seq<int>,
    dry: bool,
    step: int,
) -> bool {
    forall|k: int| 0 <= k < step ==> passable(#[trigger] entries[order[k]], dry)
}

/// Whether the archive that is built, as it stands, turns an entry down: a
/// write has failed before, the name is too long, the archive does not take
/// the entry, or the entry is a file that was started and the archive then
/// did not take its content.
pub open spec fn turned_down(dest: Destination, entry: EntryInfo, threshold: u64) -> bool {
    let first = first_record(entry, threshold);
    ||| !dest.accepts(first)
    ||| {
        &&& entry.kind() == EntryKind::File
        &&& entry.reads
        &&& exists|started: Destination|
            #![trigger started.records()]
            {
                &&& !started.failed()
                &&& started.records() == dest.records().push(first)
                &&& !started.takes_content(entry.data)
            }
    }
}

/// Whether the archive that is built turned down the entry visited at
/// `step`, as it stood then: with the records of the entries visited before
/// at its end. At the first step it stood as it was handed in.
pub open spec fn refused_at(
    dest: Destination,
    entries: Seq<EntryInfo>,
    order: Seq<int>,
    threshold: u64,
    step: int,
) -> bool {
    exists|at: Destination|
        #![trigger at.records()]
        {
            &&& at.records() == dest.records() + planned_records(entries, order, threshold).take(
                step,
            )
            &&& step == 0 ==> at == dest
            &&& turned_down(at, entries[order[step]], threshold)
        }
}

/// Whether a visit that failed with `kind` stopped at step `step`. `writes`
/// is the archive that is built as it was handed in, `None` in a dry run.
/// The visit got past the entries before `step`, and their names were
/// emitted; so was the name of the entry at `step` if it opened. The
/// failure is
/// - a corrupt entry where the entry does not open, or is a file whose
///   content does not read while entries are written;
/// - an invalid symbolic link where entries are written and the entry is a
///   symbolic link whose target cannot be read;
/// - a failure to write where the archive that is built turned the entry
///   down.
pub open spec fn stopped_at(
    entries: Seq<EntryInfo>,
    order: Seq<int>,
    threshold: u64,
    writes: Option<Destination>,
    step: int,
    kind: ErrorKind,
    names_before: Seq<Seq<char>>,
    names_after: Seq<Seq<char>>,
) -> bool {
    let entry = entries[order[step]];
    let dry = writes is None;
    &&& 0 <= step < order.len()
    &&& passable_before(entries, order, dry, step)
    &&& match kind {
        ErrorKind::OpenFailure => false,
        ErrorKind::PersistFailure => false,
        ErrorKind::CorruptEntry => !entry.opens || (!dry && is_unreadable_file(entry)),
        ErrorKind::InvalidSymlink => !dry && entry.opens && is_broken_link(entry),
        ErrorKind::WriteFailure => {
            &&& entry.opens
            &&& !is_broken_link(entry)
            &&& writes matches Some(dest)
            &&& refused_at(dest, entries, order, threshold, step)
        },
    }
    &&& names_after == names_before + visited_names(entries, order).take(
        if entry.opens {
            step + 1
        } else {
            step
        },
    )
}

/// Whether an archive is one without entries on which no write has failed.
pub open spec fn is_new(dest: Destination) -> bool {
    !dest.failed() && dest.records() == Seq::<Record>::empty()
}

/// Whether `bytes` are what completing an archive gave to which exactly
/// `records` had been added.
pub open spec fn completes(records: Seq<Record>, bytes: Seq<u8>) -> bool {
    exists|dest: Destination|
        #![trigger dest.records()]
        !dest.failed() && dest.records() == records && dest.image() == Some(bytes)
}

/// Whether an archive to which exactly `records` had been added could not
/// be completed.
pub open spec fn cannot_complete(records: Seq<Record>) -> bool {
    exists|dest: Destination|
        #![trigger dest.records()]
        !dest.failed() && dest.records() == records && dest.image() is None
}

/// Whether a run that failed with `kind` either stopped at a step of the
/// visit or got past every entry, wrote every one, and then could not
/// complete the archive. Where entries are written, the archive that is
/// built starts as a new one.
pub open spec fn failed_run(
    entries: Seq<EntryInfo>,
    order: Seq<int>,
    threshold: u64,
    dry: bool,
    kind: ErrorKind,
    names_before: Seq<Seq<char>>,
    names_after: Seq<Seq<char>>,
) -> bool {
    if dry {
        exists|step: int|
            stopped_at(
                entries,
                order,
                threshold,
                None::<Destination>,
                step,
                kind,
                names_before,
                names_after,
            )
    } else {
        ||| exists|step: int, made: Destination|
            is_new(made) && #[trigger] stopped_at(
                entries,
                order,
                threshold,
                Some(made),
                step,
                kind,
                names_before,
                names_after,
            )
        ||| {
            &&& kind == ErrorKind::WriteFailure
            &&& passable_before(entries, order, false, entries.len() as int)
            &&& names_after == names_before + visited_names(entries, order)
            &&& cannot_complete(planned_records(entries, order, threshold))
        }
    }
}

/// The archive to build: none in a dry run, else one without entries.
pub fn create_zip(params: &ProcessParams) -> (dest: Option<Destination>)
    ensures
        (dest is None) == params.dry_run,
        dest matches Some(d) ==> is_new(d),
{
    if params.dry_run {
        None
    } else {
        Some(Destination::new())
    }
}

/// Reads the entry at `idx` and emits its name.
fn visit_entry(src: &mut Archive, idx: usize, names: &mut Vec<String>) -> (visited: Result<
    EntryMeta,
    ProcessError,
>)
    ensures
        archive_entries(*final(src)) == archive_entries(*old(src)),
        match visited {
            Ok(meta) => {
                &&& entry_at(*old(src), idx) matches Some(entry)
                &&& entry.opens
                &&& meta.describes(entry)
                &&& texts(final(names)@) == texts(old(names)@).push(entry.name)
            },
            Err(error) => {
                &&& error.kind == ErrorKind::CorruptEntry
                &&& entry_at(*old(src), idx) matches Some(entry) ==> !entry.opens
                &&& final(names)@ == old(names)@
            },
        },
{
    let meta = entry_meta(src, idx)?;
    names.push(meta.name.clone());
    proof {
        assert(texts(names@) =~= texts(old(names)@).push(meta.name@));
    }
    Ok(meta)
}

/// Writes the entry at `idx`, of which `meta` was read, to the archive that
/// is built. A file whose copy fails is read once more, to tell content
/// that does not read from content that the archive does not take.
fn write_entry(
    src: &mut Archive,
    idx: usize,
    meta: &EntryMeta,
    dest: &mut Destination,
    threshold: u64,
) -> (written: Result<(), ProcessError>)
    requires
        entry_at(*old(src), idx) matches Some(entry) && meta.describes(entry),
    ensures
        archive_entries(*final(src)) == archive_entries(*old(src)),
        ({
            let entry = entry_at(*old(src), idx)->0;
            match written {
                Ok(()) => {
                    &&& !is_broken_link(entry)
                    &&& !is_unreadable_file(entry)
                    &&& old(dest).accepts(first_record(entry, threshold))
                    &&& !final(dest).failed()
                    &&& final(dest).records() == old(dest).records().push(
                        record_of(entry, threshold),
                    )
                },
                Err(error) => match error.kind {
                    ErrorKind::InvalidSymlink => {
                        &&& is_broken_link(entry)
                        &&& *final(dest) == *old(dest)
                    },
                    ErrorKind::CorruptEntry => {
                        &&& is_unreadable_file(entry)
                        &&& old(dest).accepts(first_record(entry, threshold))
                        &&& final(dest).failed()
                    },
                    ErrorKind::WriteFailure => {
                        &&& !is_broken_link(entry)
                        &&& turned_down(*old(dest), entry, threshold)
                        &&& final(dest).failed()
                    },
                    _ => false,
                },
            }
        }),
{
    let ghost entry = archive_entries(*src)[idx as int];
    match meta.kind() {
        EntryKind::Directory => dest.add_directory(meta.name.as_str()),
        EntryKind::Symlink => {
            let target = link_target(src, idx)?;
            dest.add_symlink(meta.name.as_str(), target.as_str())
        },
        EntryKind::File => {
            let method = decide(meta.size, threshold);
            dest.start_file(meta.name.as_str(), method)?;
            let ghost started = *dest;
            match dest.copy_from(src, idx) {
                Ok(()) => {
                    proof {
                        assert(Seq::<u8>::empty() + entry.data =~= entry.data);
                        assert(dest.records() =~= old(dest).records().push(
                            record_of(entry, threshold),
                        ));
                    }
                    Ok(())
                },
                Err(refused) => match check_content(src, idx) {
                    Err(corrupt) => Err(corrupt),
                    Ok(()) => {
                        proof {
                            assert(started.records() == old(dest).records().push(
                                first_record(entry, threshold),
                            ));
                            assert(!started.takes_content(entry.data));
                        }
                        Err(refused)
                    },
                },
            }
        },
    }
}

/// The archive that is built as a visit finds it.
pub open spec fn found(dest: Option<&mut Destination>) -> Option<Destination> {
    match dest {
        Some(d) => Some(*d),
        None => None,
    }
}

/// Visits every entry of `src` in the order that `params` asks for: reads
/// it, emits its name to `names` and, where there is an archive to build,
/// writes it there. The first entry that fails ends the visit.
pub fn copy_zip(
    src: &mut Archive,
    dest: Option<&mut Destination>,
    params: &ProcessParams,
    names: &mut Vec<String>,
) -> (copied: Result<(), ProcessError>)
    ensures
        archive_entries(*final(src)) == archive_entries(*old(src)),
        ({
            let entries = archive_entries(*old(src));
            let order = entry_order(entries, params.sort);
            let planned = planned_records(entries, order, params.compress_threshold);
            match copied {
                Ok(()) => {
                    &&& passable_before(entries, order, dest is None, entries.len() as int)
                    &&& texts(final(names)@) == texts(old(names)@) + visited_names(entries, order)
                    &&& dest matches Some(d) ==> {
                        &&& final(d).failed() == d.failed()
                        &&& final(d).records() == d.records() + planned
                    }
                },
                Err(error) => exists|step: int|
                    {
                        &&& #[trigger] stopped_at(
                            entries,
                            order,
                            params.compress_threshold,
                            found(dest),
                            step,
                            error.kind,
                            texts(old(names)@),
                            texts(final(names)@),
                        )
                        &&& dest matches Some(d) ==> if entries[order[step]].opens
                            && !is_broken_link(entries[order[step]]) {
                            final(d).failed()
                        } else {
                            final(d).failed() == d.failed() && final(d).records() == d.records()
                                + planned.take(step)
                        }
                    },
            }
        }),
{
    let ghost entries = archive_entries(*src);
    let ghost order = entry_order(entries, params.sort);
    let ghost planned = planned_records(entries, order, params.compress_threshold);
    let ghost visited = visited_names(entries, order);
    let ghost names_before = texts(names@);
    let ghost writes = found(dest);
    let mut items = list_entries(src);
    let ghost listed = items@;
    sort_entries(&mut items, params.sort);
    proof {
        assert(names_of(listed) =~= present_names(entries));
        visit_order_exists(present_names(entries), params.sort);
        assert(is_visit_order(order, present_names(entries), params.sort));
        assert(items@.len() == order.len());
        assert forall|k: int| 0 <= k < order.len() implies (#[trigger] items@[k]).idx
            == order[k] by {
            assert(0 <= order[k] < listed.len());
            assert(items@[k] == listed[order[k]]);
        }
        assert(visited.take(0) =~= Seq::<Seq<char>>::empty());
        assert(names_before + visited.take(0) =~= names_before);
    }
    let count: usize = items.len();
    let mut step: usize = 0;
    match dest {
        None => {
            while step < count
                invariant
                    step <= count == items@.len() == order.len(),
                    archive_entries(*src) == entries,
                    entries == archive_entries(*old(src)),
                    order == entry_order(entries, params.sort),
                    names_before == texts(old(names)@),
                    visited == visited_names(entries, order),
                    dest is None,
                    writes == found(dest),
                    forall|k: int|
                        0 <= k < order.len() ==> (#[trigger] items@[k]).idx == order[k] && 0
                            <= order[k] < entries.len(),
                    texts(names@) == names_before + visited.take(step as int),
                    passable_before(entries, order, true, step as int),
                decreases count - step,
            {
                let idx: usize = items[step].idx;
                match visit_entry(src, idx, names) {
                    Ok(_) => {},
                    Err(error) => {
                        proof {
                            assert(stopped_at(
                                entries,
                                order,
                                params.compress_threshold,
                                writes,
                                step as int,
                                error.kind,
                                names_before,
                                texts(names@),
                            ));
                        }
                        return Err(error);
                    },
                }
                proof {
                    assert(visited.take(step + 1) =~= visited.take(step as int).push(
                        entries[order[step as int]].name,
                    ));
                }
                step += 1;
            }
            proof {
                assert(visited.take(count as int) =~= visited);
            }
            Ok(())
        },
        Some(d) => {
            let ghost handed = *d;
            proof {
                assert(planned.take(0) =~= Seq::<Record>::empty());
                assert(handed.records() + planned.take(0) =~= handed.records());
            }
            while step < count
                invariant
                    step <= count == items@.len() == order.len(),
                    archive_entries(*src) == entries,
                    entries == archive_entries(*old(src)),
                    order == entry_order(entries, params.sort),
                    names_before == texts(old(names)@),
                    visited == visited_names(entries, order),
                    dest matches Some(d0) && *d0 == handed && *final(d0) == *final(d),
                    writes == Some(handed),
                    writes == found(dest),
                    planned == planned_records(entries, order, params.compress_threshold),
                    forall|k: int|
                        0 <= k < order.len() ==> (#[trigger] items@[k]).idx == order[k] && 0
                            <= order[k] < entries.len(),
                    texts(names@) == names_before + visited.take(step as int),
                    passable_before(entries, order, false, step as int),
                    step == 0 ==> *d == handed,
                    d.failed() == handed.failed(),
                    d.records() == handed.records() + planned.take(step as int),
                decreases count - step,
            {
                let idx: usize = items[step].idx;
                let ghost entry = entries[order[step as int]];
                let meta = match visit_entry(src, idx, names) {
                    Ok(meta) => meta,
                    Err(error) => {
                        proof {
                            assert(stopped_at(
                                entries,
                                order,
                                params.compress_threshold,
                                writes,
                                step as int,
                                error.kind,
                                names_before,
                                texts(names@),
                            ));
                        }
                        return Err(error);
                    },
                };
                proof {
                    assert(visited.take(step + 1) =~= visited.take(step as int).push(entry.name));
                }
                let ghost stood = *d;
                match write_entry(src, idx, &meta, d, params.compress_threshold) {
                    Ok(()) => {},
                    Err(error) => {
                        proof {
                            if error.kind == ErrorKind::WriteFailure {
                                assert(stood.records() == handed.records() + planned.take(
                                    step as int,
                                ));
                                assert(turned_down(stood, entry, params.compress_threshold));
                                assert(refused_at(
                                    handed,
                                    entries,
                                    order,
                                    params.compress_threshold,
                                    step as int,
                                ));
                            }
                            assert(stopped_at(
                                entries,
                                order,
                                params.compress_threshold,
                                writes,
                                step as int,
                                error.kind,
                                names_before,
                                texts(names@),
                            ));
                        }
                        return Err(error);
                    },
                }
                proof {
                    assert(planned.take(step + 1) =~= planned.take(step as int).push(
                        record_of(entry, params.compress_threshold),
                    ));
                }
                step += 1;
            }
            proof {
                assert(visited.take(count as int) =~= visited);
                assert(planned.take(count as int) =~= planned);
            }
            Ok(())
        },
    }
}

/// Rebuilds an open archive. Every entry is visited in the order that
/// `params` asks for and its name is emitted to `names`. Unless the run is a
/// dry one, every entry is written to a new archive, which is completed
/// once all are written: its bytes come back. A dry run gives `None`.
pub fn rebuild(
    src: &mut Archive,
    params: &ProcessParams,
    names: &mut Vec<String>,
) -> (rebuilt: Result<Option<Vec<u8>>, ProcessError>)
    ensures
        archive_entries(*final(src)) == archive_entries(*old(src)),
        ({
            let entries = archive_entries(*old(src));
            let order = entry_order(entries, params.sort);
            let planned = planned_records(entries, order, params.compress_threshold);
            match rebuilt {
                Ok(built) => {
                    &&& (built is None) == params.dry_run
                    &&& built matches Some(bytes) ==> completes(planned, bytes@)
                    &&& passable_before(entries, order, params.dry_run, entries.len() as int)
                    &&& texts(final(names)@) == texts(old(names)@) + visited_names(entries, order)
                },
                Err(error) => failed_run(
                    entries,
                    order,
                    params.compress_threshold,
                    params.dry_run,
                    error.kind,
                    texts(old(names)@),
                    texts(final(names)@),
                ),
            }
        }),
{
    let ghost entries = archive_entries(*src);
    let ghost order = entry_order(entries, params.sort);
    let ghost planned = planned_records(entries, order, params.compress_threshold);
    let mut dest = create_zip(params);
    let ghost made = dest;
    match copy_zip(src, dest.as_mut(), params, names) {
        Ok(()) => {},
        Err(error) => {
            proof {
                let step = choose|step: int|
                    stopped_at(
                        entries,
                        order,
                        params.compress_threshold,
                        made,
                        step,
                        error.kind,
                        texts(old(names)@),
                        texts(names@),
                    );
                assert(stopped_at(
                    entries,
                    order,
                    params.compress_threshold,
                    made,
                    step,
                    error.kind,
                    texts(old(names)@),
                    texts(names@),
                ));
            }
            return Err(error);
        },
    }
    match dest {
        Some(d) => {
            let ghost done = d;
            proof {
                assert(done.records() =~= planned);
            }
            match d.finish() {
                Ok(bytes) => Ok(Some(bytes)),
                Err(error) => {
                    proof {
                        assert(cannot_complete(planned));
                    }
                    Err(error)
                },
            }
        },
        None => Ok(None),
    }
}

/// Rebuilds the archive that `contents` holds: opens it and rebuilds it as
/// [`rebuild`] does. Bytes that are no archive are an open failure. No
/// bytes are ever handed out after a failure or in a dry run.
pub fn process_file(
    contents: Vec<u8>,
    params: &ProcessParams,
    names: &mut Vec<String>,
) -> (processed: Result<Option<Vec<u8>>, ProcessError>)
    ensures
        match parsed_archive(contents@) {
            None => {
                &&& processed matches Err(error) && error.kind == ErrorKind::OpenFailure
                &&& final(names)@ == old(names)@
            },
            Some(entries) => {
                let order = entry_order(entries, params.sort);
                let planned = planned_records(entries, order, params.compress_threshold);
                match processed {
                    Ok(built) => {
                        &&& (built is None) == params.dry_run
                        &&& built matches Some(bytes) ==> completes(planned, bytes@)
                        &&& passable_before(
                            entries,
                            order,
                            params.dry_run,
                            entries.len() as int,
                        )
                        &&& texts(final(names)@) == texts(old(names)@) + visited_names(
                            entries,
                            order,
                        )
                    },
                    Err(error) => failed_run(
                        entries,
                        order,
                        params.compress_threshold,
                        params.dry_run,
                        error.kind,
                        texts(old(names)@),
                        texts(final(names)@),
                    ),
                }
            },
        },
{
    let mut src = match open_archive(contents) {
        Ok(src) => src,
        Err(error) => {
            return Err(error);
        },
    };
    rebuild(&mut src, params, names)
}

/// Where a visit stops for a corrupt entry or an invalid symbolic link is
/// settled by the archive that is read: it is the first entry that the
/// visit does not get past, and no visit stops later. So in a dry run,
/// where nothing else can fail, the archive and the ordering settle the
/// whole outcome.
pub proof fn stop_is_settled(
    entries: Seq<EntryInfo>,
    order: Seq<int>,
    threshold: u64,
    writes: Option<Destination>,
    step: int,
    kind: ErrorKind,
    names_before: Seq<Seq<char>>,
    names_after: Seq<Seq<char>>,
)
    requires
        stopped_at(entries, order, threshold, writes, step, kind, names_before, names_after),
        kind != ErrorKind::WriteFailure,
    ensures
        !passable_before(entries, order, writes is None, order.len() as int),
        forall|other: int, other_kind: ErrorKind, names: Seq<Seq<char>>|
            #[trigger] stopped_at(
                entries,
                order,
                threshold,
                writes,
                other,
                other_kind,
                names_before,
                names,
            ) ==> other <= step && (other == step ==> names == names_after),
        writes is None ==> kind == ErrorKind::CorruptEntry,
        writes is None ==> forall|other: int, other_kind: ErrorKind, names: Seq<Seq<char>>|
            #[trigger] stopped_at(
                entries,
                order,
                threshold,
                writes,
                other,
                other_kind,
                names_before,
                names,
            ) ==> other == step && other_kind == kind,
{
    let dry = writes is None;
    assert(!passable(entries[order[step]], dry));
    assert forall|other: int, other_kind: ErrorKind, names: Seq<Seq<char>>|
        #[trigger] stopped_at(
            entries,
            order,
            threshold,
            writes,
            other,
            other_kind,
            names_before,
            names,
        ) implies other <= step && (other == step ==> names == names_after) && (dry ==> other
        == step && other_kind == kind) by {
        if step < other {
            assert(passable(entries[order[step]], dry));
        }
        if dry && other < step {
            assert(passable(entries[order[other]], dry));
        }
    }
}

/// The visit emits the name of every entry exactly once: at each step the
/// name of the entry visited there, and every entry is visited at exactly
/// one step.
pub proof fn every_entry_is_named_once(entries: Seq<EntryInfo>, sort: Option<Sort>)
    ensures
        ({
            let order = entry_order(entries, sort);
            let names = visited_names(entries, order);
            &&& names.len() == entries.len()
            &&& order.no_duplicates()
            &&& forall|i: int| 0 <= i < entries.len() ==> order.contains(i)
            &&& forall|k: int|
                0 <= k < names.len() ==> 0 <= order[k] < entries.len() && #[trigger] names[k]
                    == entries[order[k]].name
        }),
{
    visit_order_is_permutation(present_names(entries), sort);
}

/// What is written keeps the entries: at every step of the visit the record
/// has the name and the kind of the entry visited there, a regular file its
/// content and a symbolic link its target, whatever the threshold; and every
/// entry is visited at exactly one step.
pub proof fn records_keep_entries(entries: Seq<EntryInfo>, sort: Option<Sort>, threshold: u64)
    ensures
        ({
            let order = entry_order(entries, sort);
            let planned = planned_records(entries, order, threshold);
            &&& planned.len() == entries.len()
            &&& order.no_duplicates()
            &&& forall|i: int| 0 <= i < entries.len() ==> order.contains(i)
            &&& forall|k: int|
                0 <= k < planned.len() ==> {
                    let entry = entries[order[k]];
                    &&& 0 <= order[k] < entries.len()
                    &&& (#[trigger] planned[k]).name == entry.name
                    &&& planned[k].kind == entry.kind()
                    &&& entry.kind() == EntryKind::File ==> planned[k].data == entry.data
                    &&& entry.kind() == EntryKind::Symlink ==> (entry.text matches Some(target)
                        ==> planned[k].data == encode_utf8(target))
                    &&& entry.kind() == EntryKind::Directory ==> planned[k].data.len() == 0
                }
        }),
{
    visit_order_is_permutation(present_names(entries), sort);
}

/// Without an ordering the records stand in the order of the entries.
pub proof fn unsorted_records_in_order(entries: Seq<EntryInfo>, threshold: u64)
    ensures
        planned_records(entries, entry_order(entries, None), threshold) == entries.map_values(
            |entry: EntryInfo| record_of(entry, threshold),
        ),
{
    unsorted_visit_order(present_names(entries));
    assert(planned_records(entries, entry_order(entries, None), threshold)
        =~= entries.map_values(|entry: EntryInfo| record_of(entry, threshold)));
}

/// Whether an entry of a reopened archive gives back a record as it was
/// written: the name and the kind, a file its content with the size that
/// was written, a symbolic link its target; and the entry opens and reads.
pub open spec fn reads_back(entry: EntryInfo, record: Record) -> bool {
    &&& entry.name == record.name
    &&& entry.kind() == record.kind
    &&& entry.opens
    &&& match record.kind {
        EntryKind::File => {
            &&& entry.reads
            &&& entry.data == record.data
            &&& entry.size == record.data.len()
        },
        EntryKind::Symlink => entry.text matches Some(target) && encode_utf8(target)
            == record.data,
        EntryKind::Directory => true,
    }
}

/// A second run repeats the first. Let an archive whose files declare their
/// true sizes be rebuilt, and let the rebuilt archive, opened again, give
/// back the records as they were written: that much is for `zip` to keep.
/// Then a run on the rebuilt archive with the same settings gets past every
/// entry, visits the entries as they stand, and writes the same records
/// again: the same names in the same order, the same kinds, the same
/// contents and the same method for each.
pub proof fn second_run_repeats_first(
    entries: Seq<EntryInfo>,
    reopened: Seq<EntryInfo>,
    sort: Option<Sort>,
    threshold: u64,
)
    requires
        forall|i: int|
            0 <= i < entries.len() && (#[trigger] entries[i]).kind() == EntryKind::File
                ==> entries[i].size == entries[i].data.len(),
        reopened.len() == entries.len(),
        forall|k: int|
            0 <= k < reopened.len() ==> reads_back(
                #[trigger] reopened[k],
                planned_records(entries, entry_order(entries, sort), threshold)[k],
            ),
    ensures
        entry_order(reopened, sort) == in_turn(reopened.len()),
        planned_records(reopened, entry_order(reopened, sort), threshold) == planned_records(
            entries,
            entry_order(entries, sort),
            threshold,
        ),
        passable_before(reopened, entry_order(reopened, sort), false, reopened.len() as int),
{
    let order = entry_order(entries, sort);
    let first = planned_records(entries, order, threshold);
    visit_order_is_permutation(present_names(entries), sort);
    assert(present_names(reopened) =~= rearranged(present_names(entries), order)) by {
        assert forall|k: int| 0 <= k < reopened.len() implies present_names(reopened)[k]
            == rearranged(present_names(entries), order)[k] by {
            assert(reads_back(reopened[k], first[k]));
        }
    }
    match sort {
        None => {
            unsorted_visit_order(present_names(reopened));
        },
        Some(by) => {
            ordering_again_changes_nothing(present_names(entries), by);
        },
    }
    let again = planned_records(reopened, entry_order(reopened, sort), threshold);
    assert forall|k: int| 0 <= k < again.len() implies again[k] == first[k] by {
        assert(reads_back(reopened[k], first[k]));
        assert(0 <= order[k] < entries.len());
        let entry = entries[order[k]];
        if entry.kind() == EntryKind::File {
            assert(entry.size == entry.data.len());
        }
    }
    assert(again =~= first);
    assert forall|k: int| 0 <= k < reopened.len() implies passable(
        #[trigger] reopened[entry_order(reopened, sort)[k]],
        false,
    ) by {
        assert(reads_back(reopened[k], first[k]));
    }
}

/// A regular file whose declared size is the threshold is deflated; one byte
/// smaller and it is stored. Directories and symbolic links are never
/// deflated.
pub proof fn records_follow_threshold(entry: EntryInfo, threshold: u64)
    ensures
        entry.kind() != EntryKind::File ==> record_of(entry, threshold).level is None,
        entry.kind() == EntryKind::File && entry.size >= threshold ==> record_of(
            entry,
            threshold,
        ).level == Some(COMPRESSION_LEVEL),
        entry.kind() == EntryKind::File && entry.size < threshold ==> record_of(
            entry,
            threshold,
        ).level is None,
{
}

} // verus!
