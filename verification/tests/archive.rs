use rezip::{
    check_content, copy_zip, create_zip, entry_meta, link_target, list_entries, open_archive,
    process_file, rebuild, Destination, EntryKind, ErrorKind, ProcessParams, Sort,
};
use std::io::{Cursor, Read, Write};
use zip::write::SimpleFileOptions;
use zip::CompressionMethod;

enum Item<'a> {
    Dir(&'a str),
    Link(&'a str, &'a str),
    Stored(&'a str, &'a [u8]),
    Deflated(&'a str, &'a [u8]),
}

fn archive_of(items: &[Item]) -> Vec<u8> {
    let mut writer = zip::ZipWriter::new(Cursor::new(Vec::new()));
    for item in items {
        match item {
            Item::Dir(name) => {
                writer.add_directory(*name, SimpleFileOptions::default()).unwrap();
            }
            Item::Link(name, target) => {
                writer.add_symlink(*name, *target, SimpleFileOptions::default()).unwrap();
            }
            Item::Stored(name, content) => {
                let options =
                    SimpleFileOptions::default().compression_method(CompressionMethod::Stored);
                writer.start_file(*name, options).unwrap();
                writer.write_all(content).unwrap();
            }
            Item::Deflated(name, content) => {
                let options = SimpleFileOptions::default()
                    .compression_method(CompressionMethod::Deflated)
                    .compression_level(Some(6));
                writer.start_file(*name, options).unwrap();
                writer.write_all(content).unwrap();
            }
        }
    }
    writer.finish().unwrap().into_inner()
}

#[derive(Debug, PartialEq)]
struct Seen {
    name: String,
    kind: EntryKind,
    method: CompressionMethod,
    content: Vec<u8>,
}

fn entries_of(bytes: &[u8]) -> Vec<Seen> {
    let mut archive = zip::ZipArchive::new(Cursor::new(bytes.to_vec())).unwrap();
    let mut seen = Vec::new();
    for idx in 0..archive.len() {
        let mut entry = archive.by_index(idx).unwrap();
        let kind = if entry.is_dir() {
            EntryKind::Directory
        } else if entry.is_symlink() {
            EntryKind::Symlink
        } else {
            EntryKind::File
        };
        let mut content = Vec::new();
        entry.read_to_end(&mut content).unwrap();
        seen.push(Seen {
            name: entry.name().to_string(),
            kind,
            method: entry.compression(),
            content,
        });
    }
    seen
}

fn params(dry_run: bool, compress_threshold: u64, sort: Option<Sort>) -> ProcessParams {
    ProcessParams { dry_run, compress_threshold, sort }
}

fn texts(names: &[&str]) -> Vec<String> {
    names.iter().map(|n| n.to_string()).collect()
}

fn crc32(bytes: &[u8]) -> u32 {
    let mut crc: u32 = 0xFFFF_FFFF;
    for byte in bytes {
        crc ^= *byte as u32;
        for _ in 0..8 {
            crc = if crc & 1 == 1 { (crc >> 1) ^ 0xEDB8_8320 } else { crc >> 1 };
        }
    }
    !crc
}

fn find(bytes: &[u8], pattern: &[u8], from: usize) -> usize {
    (from..bytes.len() - pattern.len() + 1)
        .find(|at| &bytes[*at..*at + pattern.len()] == pattern)
        .unwrap()
}

const LOCAL: &[u8] = b"PK\x03\x04";
const CENTRAL: &[u8] = b"PK\x01\x02";

fn u16_at(bytes: &[u8], at: usize) -> usize {
    bytes[at] as usize | (bytes[at + 1] as usize) << 8
}

/// The first entry's content replaced by bytes of the same length, with the
/// checksum set to match.
fn with_first_content(mut bytes: Vec<u8>, content: &[u8]) -> Vec<u8> {
    let data = 30 + u16_at(&bytes, 26) + u16_at(&bytes, 28);
    bytes[data..data + content.len()].copy_from_slice(content);
    let sum = crc32(content).to_le_bytes();
    bytes[14..18].copy_from_slice(&sum);
    let central = find(&bytes, CENTRAL, data);
    bytes[central + 16..central + 20].copy_from_slice(&sum);
    bytes
}

fn sample() -> Vec<u8> {
    archive_of(&[
        Item::Dir("dir/"),
        Item::Link("link", "target.txt"),
        Item::Stored("data.bin", b"0123456789"),
    ])
}

#[test]
fn content_is_kept() {
    let input = sample();
    let mut names = Vec::new();
    let output = process_file(input.clone(), &params(false, 256, None), &mut names)
        .unwrap()
        .unwrap();
    assert_eq!(names, texts(&["dir/", "link", "data.bin"]));
    let seen = entries_of(&output);
    assert_eq!(
        seen,
        vec![
            Seen {
                name: "dir/".to_string(),
                kind: EntryKind::Directory,
                method: CompressionMethod::Stored,
                content: vec![],
            },
            Seen {
                name: "link".to_string(),
                kind: EntryKind::Symlink,
                method: CompressionMethod::Stored,
                content: b"target.txt".to_vec(),
            },
            Seen {
                name: "data.bin".to_string(),
                kind: EntryKind::File,
                method: CompressionMethod::Stored,
                content: b"0123456789".to_vec(),
            },
        ]
    );
    assert_eq!(seen, entries_of(&input));
}

#[test]
fn rebuilding_twice_gives_the_same_entries() {
    let input = archive_of(&[
        Item::Stored("a.txt", b"alpha"),
        Item::Dir("d/"),
        Item::Stored("d/b.txt", b"beta"),
        Item::Link("l", "a.txt"),
        Item::Stored("empty", b""),
    ]);
    let mut names = Vec::new();
    let once = process_file(input.clone(), &params(false, 256, None), &mut names)
        .unwrap()
        .unwrap();
    let twice =
        process_file(once.clone(), &params(false, 256, None), &mut names).unwrap().unwrap();
    assert_eq!(entries_of(&once), entries_of(&input));
    assert_eq!(entries_of(&twice), entries_of(&input));
    let listed = ["a.txt", "d/", "d/b.txt", "l", "empty"];
    assert_eq!(names, [texts(&listed), texts(&listed)].concat());
}

#[test]
fn threshold_decides_the_method() {
    let at = [7u8; 16];
    let below = [7u8; 15];
    let above = [7u8; 17];
    let input = archive_of(&[
        Item::Stored("at", &at),
        Item::Deflated("below", &below),
        Item::Stored("above", &above),
        Item::Deflated("none", b""),
    ]);
    let mut names = Vec::new();
    let output =
        process_file(input, &params(false, 16, None), &mut names).unwrap().unwrap();
    let seen = entries_of(&output);
    assert_eq!(seen.len(), 4);
    assert_eq!((seen[0].name.as_str(), seen[0].method), ("at", CompressionMethod::Deflated));
    assert_eq!((seen[1].name.as_str(), seen[1].method), ("below", CompressionMethod::Stored));
    assert_eq!((seen[2].name.as_str(), seen[2].method), ("above", CompressionMethod::Deflated));
    assert_eq!((seen[3].name.as_str(), seen[3].method), ("none", CompressionMethod::Stored));
    assert_eq!(seen[0].content, at.to_vec());
    assert_eq!(seen[1].content, below.to_vec());
    assert_eq!(seen[2].content, above.to_vec());
    assert_eq!(seen[3].content, Vec::<u8>::new());
}

#[test]
fn threshold_zero_deflates_every_file_but_no_link_or_directory() {
    let mut names = Vec::new();
    let output = process_file(sample(), &params(false, 0, None), &mut names).unwrap().unwrap();
    let seen = entries_of(&output);
    assert_eq!(seen[0].method, CompressionMethod::Stored);
    assert_eq!(seen[1].method, CompressionMethod::Stored);
    assert_eq!(seen[2].method, CompressionMethod::Deflated);
    assert_eq!(seen[2].content, b"0123456789".to_vec());
    assert_eq!(seen[1].content, b"target.txt".to_vec());
}

#[test]
fn an_empty_file_can_be_deflated() {
    let input = archive_of(&[Item::Stored("empty", b""), Item::Dir("d/")]);
    let mut names = Vec::new();
    let output = process_file(input, &params(false, 0, None), &mut names).unwrap().unwrap();
    let seen = entries_of(&output);
    assert_eq!(seen.len(), 2);
    assert_eq!(seen[0].name, "empty");
    assert_eq!(seen[0].method, CompressionMethod::Deflated);
    assert_eq!(seen[0].content, Vec::<u8>::new());
    assert_eq!(seen[1].kind, EntryKind::Directory);
}

#[test]
fn longer_content_survives_deflating() {
    let mut content = Vec::new();
    for k in 0..1_000u32 {
        content.push((k * k % 251) as u8);
    }
    let input = archive_of(&[Item::Deflated("big", &content), Item::Stored("small", b"s")]);
    let mut names = Vec::new();
    let output =
        process_file(input, &params(false, 256, None), &mut names).unwrap().unwrap();
    let seen = entries_of(&output);
    assert_eq!(seen[0].method, CompressionMethod::Deflated);
    assert_eq!(seen[0].content, content);
    assert_eq!(seen[1].method, CompressionMethod::Stored);
    assert_eq!(seen[1].content, b"s".to_vec());
}

#[test]
fn entries_are_written_in_sorted_order() {
    let input = archive_of(&[
        Item::Stored("b", b"1"),
        Item::Stored("A", b"2"),
        Item::Stored("a", b"3"),
    ]);
    let mut names = Vec::new();
    let output = process_file(input.clone(), &params(false, 256, Some(Sort::Normal)), &mut names)
        .unwrap()
        .unwrap();
    assert_eq!(names, texts(&["A", "a", "b"]));
    let seen = entries_of(&output);
    let order: Vec<(&str, &[u8])> =
        seen.iter().map(|s| (s.name.as_str(), s.content.as_slice())).collect();
    assert_eq!(order, vec![("A", &b"2"[..]), ("a", &b"3"[..]), ("b", &b"1"[..])]);

    let mut names = Vec::new();
    let output =
        process_file(input.clone(), &params(false, 256, Some(Sort::IgnoreCase)), &mut names)
            .unwrap()
            .unwrap();
    assert_eq!(names, texts(&["A", "a", "b"]));
    let seen = entries_of(&output);
    let order: Vec<&str> = seen.iter().map(|s| s.name.as_str()).collect();
    assert_eq!(order, vec!["A", "a", "b"]);

    let mut names = Vec::new();
    let output = process_file(input, &params(false, 256, None), &mut names).unwrap().unwrap();
    assert_eq!(names, texts(&["b", "A", "a"]));
    let seen = entries_of(&output);
    let order: Vec<&str> = seen.iter().map(|s| s.name.as_str()).collect();
    assert_eq!(order, vec!["b", "A", "a"]);
}

#[test]
fn dry_run_builds_nothing_and_lists_every_entry() {
    for sort in [None, Some(Sort::Normal), Some(Sort::IgnoreCase)] {
        for threshold in [0, 5, 256] {
            let mut names = Vec::new();
            let outcome = process_file(sample(), &params(true, threshold, sort), &mut names);
            assert!(matches!(outcome, Ok(None)));
            let mut listed = names.clone();
            listed.sort();
            assert_eq!(listed, texts(&["data.bin", "dir/", "link"]));
        }
    }
    let mut names = Vec::new();
    let outcome = process_file(sample(), &params(true, 256, Some(Sort::Normal)), &mut names);
    assert!(matches!(outcome, Ok(None)));
    assert_eq!(names, texts(&["data.bin", "dir/", "link"]));
}

#[test]
fn names_are_added_to_those_already_emitted() {
    let mut names = texts(&["earlier"]);
    process_file(sample(), &params(true, 256, None), &mut names).unwrap();
    assert_eq!(names, texts(&["earlier", "dir/", "link", "data.bin"]));
}

#[test]
fn an_empty_archive_is_rebuilt_empty() {
    let input = archive_of(&[]);
    let mut names = Vec::new();
    let output =
        process_file(input.clone(), &params(false, 256, None), &mut names).unwrap().unwrap();
    assert!(names.is_empty());
    assert!(entries_of(&output).is_empty());
    assert!(matches!(process_file(input, &params(true, 256, None), &mut names), Ok(None)));
}

#[test]
fn bytes_that_are_no_archive_fail_to_open() {
    for dry_run in [false, true] {
        let mut names = texts(&["kept"]);
        let garbage = b"this is not a zip file".to_vec();
        let error = process_file(garbage, &params(dry_run, 256, None), &mut names).unwrap_err();
        assert_eq!(error.kind, ErrorKind::OpenFailure);
        assert!(!error.message().is_empty());
        assert_eq!(error.message(), error.detail);
        assert_eq!(names, texts(&["kept"]));
    }
    let mut names = Vec::new();
    let error = process_file(Vec::new(), &params(false, 256, None), &mut names).unwrap_err();
    assert_eq!(error.kind, ErrorKind::OpenFailure);
    let error = open_archive(vec![0u8; 100]).unwrap_err();
    assert_eq!(error.kind, ErrorKind::OpenFailure);
}

/// An archive whose second entry has a broken header in front of its content.
fn with_broken_second_entry() -> Vec<u8> {
    let mut bytes = archive_of(&[
        Item::Stored("first", b"one"),
        Item::Stored("second", b"two"),
        Item::Stored("third", b"three"),
    ]);
    let second = find(&bytes, LOCAL, 1);
    bytes[second] = b'X';
    bytes
}

#[test]
fn an_unreadable_entry_stops_the_run() {
    for dry_run in [false, true] {
        let mut names = Vec::new();
        let broken = with_broken_second_entry();
        let error = process_file(broken, &params(dry_run, 256, None), &mut names).unwrap_err();
        assert_eq!(error.kind, ErrorKind::CorruptEntry);
        assert_eq!(names, texts(&["first"]));
    }
    let mut names = Vec::new();
    let error = process_file(
        with_broken_second_entry(),
        &params(true, 256, Some(Sort::Normal)),
        &mut names,
    )
    .unwrap_err();
    assert_eq!(error.kind, ErrorKind::CorruptEntry);
    assert_eq!(names, texts(&["first"]));
}

#[test]
fn a_link_that_is_no_text_stops_the_run() {
    let bytes = with_first_content(
        archive_of(&[Item::Link("link", "ab"), Item::Stored("file", b"x")]),
        &[0xFF, 0xFE],
    );
    let mut names = Vec::new();
    let error = process_file(bytes.clone(), &params(false, 256, None), &mut names).unwrap_err();
    assert_eq!(error.kind, ErrorKind::InvalidSymlink);
    assert_eq!(names, texts(&["link"]));
    // A dry run does not read the content.
    let mut names = Vec::new();
    assert!(matches!(process_file(bytes, &params(true, 256, None), &mut names), Ok(None)));
    assert_eq!(names, texts(&["link", "file"]));
}

fn with_bad_checksum() -> Vec<u8> {
    let mut bytes = archive_of(&[Item::Stored("good", b"fine"), Item::Stored("bad", b"content")]);
    let second = find(&bytes, LOCAL, 1);
    let data = second + 30 + u16_at(&bytes, second + 26) + u16_at(&bytes, second + 28);
    bytes[data] ^= 0x55;
    bytes
}

#[test]
fn content_that_fails_its_checksum_is_a_corrupt_entry() {
    let bytes = with_bad_checksum();
    let mut names = Vec::new();
    let error = process_file(bytes.clone(), &params(false, 256, None), &mut names).unwrap_err();
    assert_eq!(error.kind, ErrorKind::CorruptEntry);
    assert_eq!(error.message(), "Invalid checksum");
    assert_eq!(names, texts(&["good", "bad"]));
    // A dry run does not read the content.
    let mut names = Vec::new();
    assert!(matches!(process_file(bytes, &params(true, 256, None), &mut names), Ok(None)));
}

#[test]
fn content_is_read_through() {
    let mut archive = open_archive(with_bad_checksum()).unwrap();
    assert!(check_content(&mut archive, 0).is_ok());
    assert_eq!(check_content(&mut archive, 1).unwrap_err().kind, ErrorKind::CorruptEntry);
    assert_eq!(check_content(&mut archive, 2).unwrap_err().kind, ErrorKind::CorruptEntry);
    assert!(check_content(&mut archive, 0).is_ok());
}

#[test]
fn rebuild_is_the_second_half_of_process_file() {
    let mut archive = open_archive(sample()).unwrap();
    let mut names = Vec::new();
    let built = rebuild(&mut archive, &params(false, 256, Some(Sort::Normal)), &mut names)
        .unwrap()
        .unwrap();
    let mut again = Vec::new();
    let whole =
        process_file(sample(), &params(false, 256, Some(Sort::Normal)), &mut again).unwrap();
    assert_eq!(names, again);
    assert_eq!(entries_of(&built), entries_of(&whole.unwrap()));
    assert!(matches!(rebuild(&mut archive, &params(true, 256, None), &mut names), Ok(None)));
}

#[test]
fn failures_keep_the_text_of_their_cause() {
    let bytes = with_first_content(
        archive_of(&[Item::Link("link", "ab"), Item::Stored("file", b"x")]),
        &[0xFF, 0xFE],
    );
    let mut names = Vec::new();
    let error = process_file(bytes, &params(false, 256, None), &mut names).unwrap_err();
    assert_eq!(error.message(), "stream did not contain valid UTF-8");
    let error =
        process_file(with_broken_second_entry(), &params(true, 256, None), &mut names).unwrap_err();
    assert!(error.message().starts_with("invalid Zip archive"));
    let mut archive = open_archive(sample()).unwrap();
    let error = link_target(&mut archive, 9).unwrap_err();
    assert_eq!(error.message(), "specified file not found in archive");
}

#[test]
fn a_failure_to_persist_is_a_kind_of_its_own() {
    let error = rezip::ProcessError::new(ErrorKind::PersistFailure, "cannot rename");
    assert_eq!(error.kind, ErrorKind::PersistFailure);
    assert_eq!(error.message(), "cannot rename");
    assert_ne!(error.kind, ErrorKind::WriteFailure);
}

/// An archive with one file whose name, once decoded, is longer than an
/// archive can hold: 40000 bytes that each stand for a character of three
/// bytes.
fn with_overlong_name() -> Vec<u8> {
    let name = "a".repeat(40_000);
    let mut bytes = archive_of(&[Item::Stored(&name, b"x")]);
    let central = find(&bytes, CENTRAL, 30 + 40_000);
    for byte in &mut bytes[central + 46..central + 46 + 40_000] {
        *byte = 0xB0;
    }
    bytes
}

#[test]
fn a_name_too_long_to_write_stops_the_run() {
    let mut names = Vec::new();
    let error =
        process_file(with_overlong_name(), &params(false, 256, None), &mut names).unwrap_err();
    assert_eq!(error.kind, ErrorKind::WriteFailure);
    assert_eq!(names.len(), 1);
    assert_eq!(names[0].len(), 120_000);
    let mut names = Vec::new();
    assert!(matches!(
        process_file(with_overlong_name(), &params(true, 256, None), &mut names),
        Ok(None)
    ));
    assert_eq!(names.len(), 1);
}

#[test]
fn entries_are_listed_in_archive_order() {
    let archive = open_archive(sample()).unwrap();
    let items = list_entries(&archive);
    let listed: Vec<(usize, Option<&str>)> =
        items.iter().map(|e| (e.idx, e.name.as_deref())).collect();
    assert_eq!(listed, vec![(0, Some("dir/")), (1, Some("link")), (2, Some("data.bin"))]);
    let empty = open_archive(archive_of(&[])).unwrap();
    assert!(list_entries(&empty).is_empty());
}

#[test]
fn entries_are_read_by_position() {
    let mut archive = open_archive(sample()).unwrap();
    let dir = entry_meta(&mut archive, 0).unwrap();
    assert_eq!((dir.name.as_str(), dir.size, dir.is_dir, dir.is_symlink), ("dir/", 0, true, false));
    assert_eq!(dir.kind(), EntryKind::Directory);
    let link = entry_meta(&mut archive, 1).unwrap();
    assert_eq!(
        (link.name.as_str(), link.size, link.is_dir, link.is_symlink),
        ("link", 10, false, true)
    );
    assert_eq!(link.kind(), EntryKind::Symlink);
    let file = entry_meta(&mut archive, 2).unwrap();
    assert_eq!(
        (file.name.as_str(), file.size, file.is_dir, file.is_symlink),
        ("data.bin", 10, false, false)
    );
    assert_eq!(file.kind(), EntryKind::File);
    assert_eq!(entry_meta(&mut archive, 3).unwrap_err().kind, ErrorKind::CorruptEntry);
    assert_eq!(link_target(&mut archive, 1).unwrap(), "target.txt");
    assert_eq!(link_target(&mut archive, 7).unwrap_err().kind, ErrorKind::InvalidSymlink);
    // Reading leaves the archive as it was.
    assert_eq!(entry_meta(&mut archive, 0).unwrap().name, "dir/");
    assert_eq!(list_entries(&archive).len(), 3);
}

#[test]
fn a_directory_that_is_also_marked_a_link_is_a_directory() {
    let meta = rezip::EntryMeta { name: "d/".to_string(), size: 0, is_dir: true, is_symlink: true };
    assert_eq!(meta.kind(), EntryKind::Directory);
}

#[test]
fn create_zip_follows_dry_run() {
    assert!(create_zip(&params(true, 256, None)).is_none());
    let dest = create_zip(&params(false, 256, Some(Sort::Normal))).unwrap();
    assert!(!dest.has_failed());
    assert!(entries_of(&dest.finish().unwrap()).is_empty());
}

#[test]
fn copy_zip_appends_to_the_destination() {
    let mut dest = Destination::new();
    let mut names = Vec::new();
    let mut first = open_archive(archive_of(&[Item::Stored("one", b"1")])).unwrap();
    let mut second =
        open_archive(archive_of(&[Item::Stored("two", b"2"), Item::Dir("z/")])).unwrap();
    copy_zip(&mut first, Some(&mut dest), &params(false, 256, None), &mut names).unwrap();
    copy_zip(&mut second, Some(&mut dest), &params(false, 256, Some(Sort::Normal)), &mut names)
        .unwrap();
    assert!(!dest.has_failed());
    assert_eq!(names, texts(&["one", "two", "z/"]));
    let seen = entries_of(&dest.finish().unwrap());
    let listed: Vec<(&str, EntryKind)> = seen.iter().map(|s| (s.name.as_str(), s.kind)).collect();
    assert_eq!(
        listed,
        vec![("one", EntryKind::File), ("two", EntryKind::File), ("z/", EntryKind::Directory)]
    );
}

#[test]
fn copy_zip_without_destination_only_lists() {
    let mut archive = open_archive(sample()).unwrap();
    let mut names = Vec::new();
    copy_zip(&mut archive, None, &params(false, 256, Some(Sort::IgnoreCase)), &mut names)
        .unwrap();
    assert_eq!(names, texts(&["data.bin", "dir/", "link"]));
}

#[test]
fn a_destination_that_failed_takes_nothing_more() {
    let mut dest = Destination::new();
    let mut names = Vec::new();
    let mut good = open_archive(archive_of(&[Item::Stored("one", b"1")])).unwrap();
    let mut bad = open_archive(with_overlong_name()).unwrap();
    copy_zip(&mut good, Some(&mut dest), &params(false, 256, None), &mut names).unwrap();
    let error =
        copy_zip(&mut bad, Some(&mut dest), &params(false, 256, None), &mut names).unwrap_err();
    assert_eq!(error.kind, ErrorKind::WriteFailure);
    assert!(dest.has_failed());
    let error =
        copy_zip(&mut good, Some(&mut dest), &params(false, 256, None), &mut names).unwrap_err();
    assert_eq!(error.kind, ErrorKind::WriteFailure);
    assert_eq!(names.len(), 3);
    // With nothing to write, a failed destination is not touched.
    let mut empty = open_archive(archive_of(&[])).unwrap();
    copy_zip(&mut empty, Some(&mut dest), &params(false, 256, None), &mut names).unwrap();
    assert_eq!(dest.finish().unwrap_err().kind, ErrorKind::WriteFailure);
}

#[test]
fn the_same_name_twice_in_one_destination_fails() {
    let mut dest = Destination::new();
    let mut names = Vec::new();
    let mut archive = open_archive(archive_of(&[Item::Stored("one", b"1")])).unwrap();
    copy_zip(&mut archive, Some(&mut dest), &params(false, 256, None), &mut names).unwrap();
    let error =
        copy_zip(&mut archive, Some(&mut dest), &params(false, 256, None), &mut names).unwrap_err();
    assert_eq!(error.kind, ErrorKind::WriteFailure);
    assert!(dest.has_failed());
    assert_eq!(names, texts(&["one", "one"]));
}
