use cat198x::archive::{
    read_7z_entry, read_zip_entry, write_7z, write_zip, NewEntry, ReadFault, WriteFault, ZipStyle,
};
use cat198x::digest::{hex_upper, sha1_hex, verify_sha1};
use cat198x::plan::executor::archive_ops::{
    archive_kind, distinct_sources, execute_repack, extract_from_archive, get_entry_name,
    note_removal, sources_to_consume, ArchiveKind, ExtractError, LoadedSource, Removal,
    RepackError, RepackFormat,
};
use cat198x::plan::executor::fs_ops::{
    byte_faithful, hash_file, is_chd_path, read_chd_sha1, verify_written_sha1, ChdFault,
};
use cat198x::plan::executor::space::{check_disk_space, same_volume, volume_root, SpaceError};
use cat198x::plan::{CopyPlacement, Operation, OperationKind, OperationStatus, Plan, SourceRef};
use cat198x::sorted_map::SortedMap;
use cat198x::util::{format_bytes, truncate_path};

fn room(entries: &[(&str, u64)]) -> SortedMap<String, u64> {
    let mut map = SortedMap::new();
    for (volume, bytes) in entries {
        map.insert(volume.to_string(), *bytes);
    }
    map
}

fn loaded(path: &str, sha1: &str, entry_name: Option<&str>, data: &[u8]) -> LoadedSource {
    LoadedSource {
        source: SourceRef {
            path: path.to_string(),
            archive_path: None,
            sha1: sha1.to_string(),
            entry_name: entry_name.map(|n| n.to_string()),
        },
        data: data.to_vec(),
    }
}

fn entry(name: &str, data: &[u8]) -> NewEntry {
    NewEntry { name: name.to_string(), data: data.to_vec() }
}

fn open(bytes: Vec<u8>) -> zip::ZipArchive<std::io::Cursor<Vec<u8>>> {
    zip::ZipArchive::new(std::io::Cursor::new(bytes)).unwrap()
}

const CPU_SHA1: &str = "76218C22675632AEF6A27578DD0A2C6471D995D5";
const GRAPHICS_SHA1: &str = "75BF07C00E138F33E12904F575641F0C06CBB838";
const WRONG_SHA1: &str = "0000000000000000000000000000000000000000";

#[test]
fn test_truncate_path_short() {
    assert_eq!(truncate_path("/short/path", 50), "/short/path");
}

#[test]
fn test_truncate_path_long() {
    let long = "/very/long/path/that/exceeds/the/maximum/length/allowed";
    let truncated = truncate_path(long, 30);
    assert!(truncated.starts_with("..."));
    assert_eq!(truncated.len(), 30);
}

#[test]
fn test_format_bytes() {
    assert_eq!(format_bytes(0), "0 bytes");
    assert_eq!(format_bytes(512), "512 bytes");
    assert_eq!(format_bytes(1024), "1.00 KB");
    assert_eq!(format_bytes(1536), "1.50 KB");
    assert_eq!(format_bytes(1048576), "1.00 MB");
    assert_eq!(format_bytes(1073741824), "1.00 GB");
}

#[test]
fn test_verify_sha1() {
    // SHA1 of "hello" = AAF4C61DDCC5E8A2DABEDE0F3B482CD9AEA9434D
    assert!(verify_sha1(b"hello", "AAF4C61DDCC5E8A2DABEDE0F3B482CD9AEA9434D"));
    assert!(!verify_sha1(b"hello", "0000000000000000000000000000000000000000"));
}

#[test]
fn get_entry_name_prefers_canonical_entry_name() {
    // An explicit entry_name (the DAT rom name) wins over the source's own
    // file name, so repacked archives carry canonical names.
    let source = SourceRef {
        path: "/sources/whatever-it-was-called.bin".to_string(),
        archive_path: None,
        sha1: "ABC123".to_string(),
        entry_name: Some("Canonical Name.rom".to_string()),
    };
    assert_eq!(get_entry_name(&source), "Canonical Name.rom");
}

#[test]
fn get_entry_name_falls_back_to_source_file_name() {
    let source = SourceRef {
        path: "/sources/game.rom".to_string(),
        archive_path: None,
        sha1: "ABC123".to_string(),
        entry_name: None,
    };
    assert_eq!(get_entry_name(&source), "game.rom");
}

#[test]
fn check_disk_space_empty_plan() {
    let plan = Plan::new("test".to_string());
    // Empty plan should always pass
    assert!(check_disk_space(&plan, &room(&[])).is_ok());
}

#[test]
fn check_disk_space_small_operations() {
    let mut plan = Plan::new("test".to_string());

    // Add a small copy operation to /tmp (which should have space)
    plan.operations.push(Operation {
        id: 0,
        status: OperationStatus::Pending,
        kind: OperationKind::Copy {
            source: SourceRef {
                path: "/source/file.rom".to_string(),
                archive_path: None,
                sha1: "ABC123".to_string(),
                entry_name: None,
            },
            dest: "/tmp/test_dest/file.rom".to_string(),
            size: 1024, // 1 KB
            placement: CopyPlacement::LooseFile,
        },
    });

    // Small operation should pass
    assert!(check_disk_space(&plan, &room(&[("/", 1_000_000)])).is_ok());
}

#[test]
fn volume_root_and_same_volume() {
    assert_eq!(volume_root("/Volumes/Data/Library/ROMs/x.zip"), "/Volumes/Data");
    assert_eq!(volume_root("/Volumes/Data"), "/Volumes/Data");
    assert_eq!(volume_root("/Users/me/roms/x.zip"), "/");
    assert_eq!(volume_root("/"), "/");
    // ToSort and Library on the same volume compare equal.
    assert!(same_volume(
        "/Volumes/Data/ToSort/MAME/g.zip",
        "/Volumes/Data/Library/ROMs/MAME/g.zip"
    ));
    // Different volumes do not.
    assert!(!same_volume("/Volumes/Data/x.zip", "/Volumes/Backup/x.zip"));
}

#[test]
fn check_disk_space_ignores_same_volume_moves() {
    // A same-volume move is a rename — it needs no space, however large. Were
    // it counted, this u64::MAX move would fail the check; it must pass.
    let mut plan = Plan::new("h".to_string());
    let src = SourceRef {
        path: "/Volumes/Data/ToSort/big.bin".to_string(),
        archive_path: None,
        sha1: "a".to_string(),
        entry_name: None,
    };
    plan.add_move(src, "/Volumes/Data/Library/big.bin".to_string(), u64::MAX);
    assert!(check_disk_space(&plan, &room(&[("/Volumes/Data", 1)])).is_ok());
}

#[test]
fn check_disk_space_counts_cross_volume_moves() {
    // A cross-volume move genuinely needs space at the destination, so an
    // impossible u64::MAX move must be refused.
    let mut plan = Plan::new("h".to_string());
    let src = SourceRef {
        path: "/Volumes/Data/big.bin".to_string(),
        archive_path: None,
        sha1: "a".to_string(),
        entry_name: None,
    };
    plan.add_move(src, "/Volumes/Backup/big.bin".to_string(), u64::MAX);
    assert!(check_disk_space(&plan, &room(&[("/Volumes/Backup", 1_000_000_000_000)])).is_err());
}

#[test]
fn disk_check_keeps_a_tenth_in_hand() {
    let mut plan = Plan::new("h".to_string());
    plan.add_relocate("/Volumes/A/x".to_string(), "/Volumes/B/x".to_string(), 100);
    assert!(check_disk_space(&plan, &room(&[("/Volumes/B", 110)])).is_ok());
    match check_disk_space(&plan, &room(&[("/Volumes/B", 109)])) {
        Err(SpaceError::Insufficient { volume, needed, available }) => {
            assert_eq!(volume, "/Volumes/B");
            assert_eq!(needed, 110);
            assert_eq!(available, 109);
        }
        _ => panic!("expected a refusal"),
    }
}

#[test]
fn disk_check_needs_every_volume_measured() {
    let mut plan = Plan::new("h".to_string());
    plan.add_relocate("/Volumes/A/x".to_string(), "/Volumes/B/x".to_string(), 100);
    match check_disk_space(&plan, &room(&[("/Volumes/A", 1000)])) {
        Err(SpaceError::Unmeasured { volume }) => assert_eq!(volume, "/Volumes/B"),
        _ => panic!("expected a refusal"),
    }
}

#[test]
fn disk_check_ignores_settled_operations() {
    let mut plan = Plan::new("h".to_string());
    plan.add_relocate("/Volumes/A/x".to_string(), "/Volumes/B/x".to_string(), 100);
    plan.operations[0].status = OperationStatus::Completed;
    assert!(check_disk_space(&plan, &room(&[])).is_ok());
}

#[test]
fn verify_written_sha1_uses_internal_hash_for_chd() {
    // A minimal valid v5 CHD header carrying a chosen internal SHA1 at offset
    // 84. The .chd file's own bytes hash to something else entirely.
    let mut header = vec![0u8; 124];
    header[0..8].copy_from_slice(b"MComprHD");
    header[8..12].copy_from_slice(&124u32.to_be_bytes());
    header[12..16].copy_from_slice(&5u32.to_be_bytes());
    header[84..104].copy_from_slice(&[0x11u8; 20]);

    let internal = "1111111111111111111111111111111111111111";
    // Verified against the internal (header) SHA1, case-insensitively — the
    // bug was hashing the whole file, which never matches.
    assert!(verify_written_sha1("/t/disk.chd", &header, internal).unwrap());
    assert!(verify_written_sha1("/t/disk.chd", &header, &internal.to_uppercase()).unwrap());
    assert!(!verify_written_sha1(
        "/t/disk.chd",
        &header,
        "0000000000000000000000000000000000000000"
    )
    .unwrap());

    // A non-CHD file still verifies by its full-file content hash.
    assert!(verify_written_sha1(
        "/t/a.rom",
        b"abc",
        "a9993e364706816aba3e25717850c26c9cd0d89d"
    )
    .unwrap());
    assert!(!verify_written_sha1("/t/a.rom", b"abc", internal).unwrap());
}

#[test]
fn chd_headers_are_read_or_refused() {
    let mut header = vec![0u8; 124];
    header[0..8].copy_from_slice(b"MComprHD");
    header[8..12].copy_from_slice(&124u32.to_be_bytes());
    header[12..16].copy_from_slice(&5u32.to_be_bytes());
    header[84] = 0xAB;
    header[103] = 0x01;
    assert_eq!(
        read_chd_sha1(&header).unwrap(),
        "AB00000000000000000000000000000000000001"
    );
    assert_eq!(read_chd_sha1(&header[..100]).unwrap_err(), ChdFault::Truncated);
    let mut other = header.clone();
    other[0] = b'X';
    assert_eq!(read_chd_sha1(&other).unwrap_err(), ChdFault::NotChd);
    let mut older = header.clone();
    older[12..16].copy_from_slice(&4u32.to_be_bytes());
    assert_eq!(read_chd_sha1(&older).unwrap_err(), ChdFault::UnsupportedVersion);
    assert!(is_chd_path("/d/x.CHD"));
    assert!(!is_chd_path("/d/x.chd.zip"));
}

#[test]
fn digests_have_known_values() {
    assert_eq!(hex_upper(&[0x00, 0xAF, 0x10]), "00AF10");
    assert_eq!(sha1_hex(b"abc"), "A9993E364706816ABA3E25717850C26C9CD0D89D");
    assert_eq!(sha1_hex(b""), "DA39A3EE5E6B4B0D3255BFEF95601890AFD80709");
    assert_eq!(hash_file(b"abc"), sha1_hex(b"abc"));
    assert!(byte_faithful(b"abc", b"abc"));
    assert!(!byte_faithful(b"abc", b"abd"));
}

#[test]
fn test_execute_repack_multiple_files() {
    let sources = vec![
        loaded("/t/cpu.rom", CPU_SHA1, None, b"cpu data"),
        loaded("/t/gfx.rom", GRAPHICS_SHA1, None, b"graphics data"),
    ];

    let bytes = execute_repack(sources, "zip").unwrap();

    assert_eq!(open(bytes.clone()).len(), 2);
    assert_eq!(read_zip_entry(bytes.clone(), "cpu.rom").unwrap(), b"cpu data");
    assert_eq!(read_zip_entry(bytes, "gfx.rom").unwrap(), b"graphics data");
}

#[test]
fn execute_repack_dedupes_duplicate_entry_names() {
    // The same entry name appears twice in the source set (an entry matched
    // via two locations). A ZIP can't hold a duplicate name, so the repack
    // must collapse them rather than abort with "Duplicate filename".
    let sources = vec![
        loaded("/t/data.rom", CPU_SHA1, Some("game.rom"), b"cpu data"),
        loaded("/t/data.rom", CPU_SHA1, Some("game.rom"), b"cpu data"),
    ];

    let bytes = execute_repack(sources, "zip").unwrap();

    assert_eq!(open(bytes.clone()).len(), 1, "duplicate entry name collapsed to one");
    assert_eq!(read_zip_entry(bytes, "game.rom").unwrap(), b"cpu data");
}

#[test]
fn test_execute_repack_verification_failure() {
    let sources = vec![
        loaded("/t/good.rom", "FC19318DD13128CE14344D066510A982269C241B", None, b"good"),
        loaded("/t/bad.rom", WRONG_SHA1, None, b"bad"),
    ];

    let error = execute_repack(sources, "zip").unwrap_err();

    assert!(error.message().contains("verification failed"));
    // Only the bad entry is named, and no archive comes back.
    assert!(error.message().contains("bad.rom"));
    assert!(!error.message().contains("good.rom"));
    assert!(matches!(error, RepackError::Mismatch(_)));
}

#[test]
fn test_execute_repack_unsupported_format() {
    let sources = vec![loaded(
        "/t/file.rom",
        "A17C9AAA61E80A1BF71D0D850AF4E5BAA9800BBD",
        None,
        b"data",
    )];

    let error = execute_repack(sources, "rar").unwrap_err();

    assert!(error.message().contains("Unsupported repack format"));
}

#[test]
fn test_execute_repack_torrentzip_format() {
    // Sources in reverse alphabetical order
    let sources = vec![
        loaded("/t/z_last.rom", &sha1_hex(b"z data"), None, b"z data"),
        loaded("/t/a_first.rom", &sha1_hex(b"a data"), None, b"a data"),
    ];

    let bytes = execute_repack(sources, "torrentzip").unwrap();

    // Verify the ZIP was created with sorted entries
    let mut archive = open(bytes);
    assert_eq!(archive.len(), 2);

    // Entries should be sorted alphabetically (a_first before z_last)
    let first_name = archive.by_index(0).unwrap().name().to_string();
    let second_name = archive.by_index(1).unwrap().name().to_string();
    assert_eq!(first_name, "a_first.rom");
    assert_eq!(second_name, "z_last.rom");

    // Verify timestamp is TorrentZIP standard
    let entry = archive.by_index(0).unwrap();
    let datetime = entry.last_modified().expect("entry has a last-modified time");
    assert_eq!(datetime.year(), 1996);
    assert_eq!(datetime.month(), 12);
    assert_eq!(datetime.day(), 24);
    assert_eq!(datetime.hour(), 23);
    assert_eq!(datetime.minute(), 32);
    assert_eq!(datetime.second(), 0);
}

#[test]
fn execute_repack_7z_writes_canonical_entries() {
    // Source file with a non-canonical name; SHA1 of "cpu data".
    let sources = vec![loaded(
        "/t/whatever-it-was-called.bin",
        CPU_SHA1,
        Some("canonical.rom"),
        b"cpu data",
    )];

    let bytes = execute_repack(sources, "7z").unwrap();

    // Read back: one entry, named canonically, with the right content hash.
    let reader = sevenz_rust2::ArchiveReader::new(
        std::io::Cursor::new(bytes.clone()),
        sevenz_rust2::Password::empty(),
    )
    .unwrap();
    assert_eq!(reader.archive().files.len(), 1);
    assert_eq!(reader.archive().files[0].name, "canonical.rom");
    let content = read_7z_entry(bytes, "canonical.rom").unwrap();
    assert!(sha1_hex(&content).eq_ignore_ascii_case(CPU_SHA1));
}

#[test]
fn execute_repack_7z_verifies_content_hash() {
    // Wrong expected hash → repack fails and nothing is written.
    let sources = vec![loaded("/t/a.bin", WRONG_SHA1, Some("x.rom"), b"cpu data")];
    assert!(execute_repack(sources, "7z").is_err());
}

#[test]
fn torrent_order_is_by_lowercased_name() {
    let entries = vec![entry("b.rom", b"2"), entry("C.rom", b"3"), entry("A.rom", b"1")];
    let bytes = write_zip(&entries, ZipStyle::Torrent).unwrap();
    let mut archive = open(bytes);
    let names: Vec<String> =
        (0..archive.len()).map(|i| archive.by_index(i).unwrap().name().to_string()).collect();
    assert_eq!(names, vec!["A.rom", "b.rom", "C.rom"]);
}

#[test]
fn torrentzips_do_not_depend_on_the_order_of_their_entries() {
    let one = vec![entry("b.rom", b"2"), entry("C.rom", b"3"), entry("A.rom", b"1")];
    let two = vec![entry("A.rom", b"1"), entry("b.rom", b"2"), entry("C.rom", b"3")];
    let first = write_zip(&one, ZipStyle::Torrent).unwrap();
    assert_eq!(first, write_zip(&two, ZipStyle::Torrent).unwrap());
    // A plain archive keeps the order, and so differs.
    assert_ne!(
        write_zip(&one, ZipStyle::Plain).unwrap(),
        write_zip(&two, ZipStyle::Plain).unwrap()
    );
    assert_eq!(
        write_zip(&one, ZipStyle::Plain).unwrap(),
        write_zip(&one, ZipStyle::Plain).unwrap()
    );
}

#[test]
fn a_zip_without_entries_is_still_a_zip() {
    let bytes = write_zip(&Vec::new(), ZipStyle::Plain).unwrap();
    assert_eq!(open(bytes.clone()).len(), 0);
    assert_eq!(read_zip_entry(bytes, "a").unwrap_err(), ReadFault::NotFound);
}

#[test]
fn plain_zips_keep_their_order_and_a_fixed_stamp() {
    let entries = vec![entry("z.rom", b"zz"), entry("a.rom", b"")];
    let bytes = write_zip(&entries, ZipStyle::Plain).unwrap();
    let mut archive = open(bytes.clone());
    assert_eq!(archive.by_index(0).unwrap().name(), "z.rom");
    assert_eq!(archive.by_index(1).unwrap().name(), "a.rom");
    assert_eq!(archive.by_index(0).unwrap().last_modified().unwrap().year(), 1980);
    assert_eq!(archive.by_index(0).unwrap().compression(), zip::CompressionMethod::Deflated);
    assert_eq!(read_zip_entry(bytes.clone(), "z.rom").unwrap(), b"zz");
    assert_eq!(read_zip_entry(bytes, "a.rom").unwrap(), b"");
}

#[test]
fn zip_faults_are_told_apart() {
    assert_eq!(read_zip_entry(b"not a zip".to_vec(), "a").unwrap_err(), ReadFault::Unreadable);
    let bytes = write_zip(&vec![entry("a", b"1")], ZipStyle::Plain).unwrap();
    assert_eq!(read_zip_entry(bytes, "b").unwrap_err(), ReadFault::NotFound);
    let twice = vec![entry("a", b"1"), entry("a", b"2")];
    match write_zip(&twice, ZipStyle::Plain) {
        Err(WriteFault::Add(name)) => assert_eq!(name, "a"),
        _ => panic!("a duplicate name is refused"),
    }
}

#[test]
fn seven_zips_give_back_what_they_hold() {
    let entries =
        vec![entry("one.rom", b"first content"), entry("none.rom", b""), entry("two.rom", b"2nd")];
    let bytes = write_7z(&entries).unwrap();
    assert_eq!(read_7z_entry(bytes.clone(), "one.rom").unwrap(), b"first content");
    assert_eq!(read_7z_entry(bytes.clone(), "two.rom").unwrap(), b"2nd");
    assert_eq!(read_7z_entry(bytes.clone(), "none.rom").unwrap(), b"");
    assert_eq!(read_7z_entry(bytes, "three.rom").unwrap_err(), ReadFault::NotFound);
    assert_eq!(read_7z_entry(b"not a 7z".to_vec(), "a").unwrap_err(), ReadFault::Unreadable);
}

#[test]
fn extraction_goes_by_the_extension() {
    let zip_bytes = write_zip(&vec![entry("a", b"zipped")], ZipStyle::Plain).unwrap();
    let seven_bytes = write_7z(&vec![entry("a", b"packed")]).unwrap();
    assert_eq!(extract_from_archive("/s/x.zip", zip_bytes.clone(), "a").unwrap(), b"zipped");
    assert_eq!(extract_from_archive("/s/x.7z", seven_bytes, "a").unwrap(), b"packed");
    let unsupported = extract_from_archive("/s/x.rar", zip_bytes.clone(), "a").unwrap_err();
    assert_eq!(unsupported, ExtractError::Unsupported);
    let shouted = extract_from_archive("/s/x.ZIP", zip_bytes.clone(), "a").unwrap_err();
    assert_eq!(shouted, ExtractError::Unsupported);
    let missing = extract_from_archive("/s/x.zip", zip_bytes, "b").unwrap_err();
    assert_eq!(missing, ExtractError::Zip(ReadFault::NotFound));
    assert!(missing.message("/s/x.zip", "b").contains("b"));
    assert_eq!(archive_kind("/s/x.7z"), Some(ArchiveKind::SevenZip));
    assert_eq!(archive_kind("/s/x"), None);
}

#[test]
fn repacked_entries_can_be_extracted_again() {
    for (format, path) in [("zip", "/t/g.zip"), ("torrentzip", "/t/g.zip"), ("7z", "/t/g.7z")] {
        let sources = vec![loaded("/t/x.bin", CPU_SHA1, Some("cpu.rom"), b"cpu data")];
        let bytes = execute_repack(sources, format).unwrap();
        assert_eq!(extract_from_archive(path, bytes, "cpu.rom").unwrap(), b"cpu data");
    }
}

#[test]
fn repack_sources_collapse_and_are_consumed_once() {
    let source = |path: &str, archive_path: Option<&str>, name: &str| SourceRef {
        path: path.to_string(),
        archive_path: archive_path.map(|p| p.to_string()),
        sha1: "A".to_string(),
        entry_name: Some(name.to_string()),
    };
    let sources = vec![
        source("/s/a.rom", None, "a"),
        source("/s/b.rom", None, "a"),
        source("/s/c.zip", Some("c"), "c"),
        source("/s/d.rom", None, "d"),
    ];
    let distinct = distinct_sources(&sources);
    let paths: Vec<&str> = distinct.iter().map(|s| s.path.as_str()).collect();
    assert_eq!(paths, vec!["/s/a.rom", "/s/c.zip", "/s/d.rom"]);

    // Only loose feeders are removed; an archive keeps its entries.
    let feeders = sources_to_consume(&distinct, true);
    assert_eq!(
        feeders,
        vec![
            ("a".to_string(), "/s/a.rom".to_string()),
            ("d".to_string(), "/s/d.rom".to_string()),
        ]
    );
    // A repack that copies consumes nothing.
    assert!(sources_to_consume(&distinct, false).is_empty());

    let mut consumed = Vec::new();
    assert!(note_removal(&mut consumed, feeders[0].clone(), Removal::Removed).is_ok());
    assert!(note_removal(&mut consumed, feeders[1].clone(), Removal::AlreadyGone).is_ok());
    assert_eq!(consumed, vec![("a".to_string(), "/s/a.rom".to_string())]);
    assert!(note_removal(&mut consumed, feeders[1].clone(), Removal::Failed).is_err());
}

#[test]
fn damaged_content_is_told_from_a_missing_entry() {
    let content: Vec<u8> = (0..2000u32).map(|n| (n * n % 251) as u8).collect();
    let clean = write_zip(&vec![entry("a", &content)], ZipStyle::Plain).unwrap();
    // The content of the only entry starts after a header of 30 bytes and the name.
    let mut bytes = clean.clone();
    for b in &mut bytes[40..60] {
        *b ^= 0xff;
    }
    assert_eq!(read_zip_entry(bytes.clone(), "a").unwrap_err(), ReadFault::Damaged);
    let error = extract_from_archive("/s/x.zip", bytes, "a").unwrap_err();
    assert_eq!(error.message("/s/x.zip", "a"), "Failed to extract file");

    // Without its local header the name of the entry cannot be had.
    let mut headless = clean;
    headless[0] = 0;
    assert_eq!(read_zip_entry(headless, "a").unwrap_err(), ReadFault::NotFound);
}

#[test]
fn a_damaged_entry_fails_a_whole_seven_zip() {
    let content: Vec<u8> = (0..2000u32).map(|n| (n * n % 251) as u8).collect();
    let entries = vec![entry("a", b"sound"), entry("b", &content)];
    let mut bytes = write_7z(&entries).unwrap();
    let middle = bytes.len() / 2;
    bytes[middle] ^= 0xff;
    // Another entry is damaged than the one that is asked for.
    assert_eq!(read_7z_entry(bytes.clone(), "a").unwrap_err(), ReadFault::Damaged);
    assert_eq!(read_7z_entry(bytes.clone(), "c").unwrap_err(), ReadFault::NotFound);
    let error = extract_from_archive("/s/x.7z", bytes, "a").unwrap_err();
    assert_eq!(error.message("/s/x.7z", "a"), "Failed to decompress 7z archive");
}

#[test]
fn the_first_entry_that_cannot_be_added_is_named() {
    let long = "n".repeat(65536);
    let entries = vec![entry("a", b"1"), entry(&long, b"2"), entry("a", b"3")];
    match write_zip(&entries, ZipStyle::Plain) {
        Err(fault) => assert_eq!(fault.message(), format!("Failed to add entry: {long}")),
        Ok(_) => panic!("a name beyond 65535 bytes is refused"),
    }
    let fits = "n".repeat(65535);
    let bytes = write_zip(&vec![entry(&fits, b"2")], ZipStyle::Plain).unwrap();
    assert_eq!(read_zip_entry(bytes, &fits).unwrap(), b"2");
}

#[test]
fn write_faults_are_worded_by_their_format() {
    let zip = RepackError::Write(RepackFormat::Zip, WriteFault::Finish);
    assert_eq!(zip.message(), "Failed to finalise archive");
    let add = RepackError::Write(RepackFormat::SevenZip, WriteFault::Add("x".to_string()));
    assert_eq!(add.message(), "Failed to add 7z entry: x");
    let create = RepackError::Write(RepackFormat::SevenZip, WriteFault::Create);
    assert_eq!(create.message(), "Failed to create 7z archive");
    let finish = RepackError::Write(RepackFormat::SevenZip, WriteFault::Finish);
    assert_eq!(finish.message(), "Failed to finalise 7z archive");
}

#[test]
fn zips_of_many_entries_read_back() {
    let many: Vec<NewEntry> = (0..65536).map(|n| entry(&format!("{n}"), b"")).collect();
    let mut archive = open(write_zip(&many, ZipStyle::Plain).unwrap());
    assert_eq!(archive.len(), 65536);
    assert_eq!(archive.by_index(65535).unwrap().name(), "65535");
}

#[test]
fn seven_zips_depend_on_their_entries_alone() {
    let entries = vec![entry("a", b"one"), entry("b", b"two")];
    assert_eq!(write_7z(&entries).unwrap(), write_7z(&entries).unwrap());
    let swapped = vec![entry("b", b"two"), entry("a", b"one")];
    assert_ne!(write_7z(&entries).unwrap(), write_7z(&swapped).unwrap());
}

/// A 7z archive of files, or of directories where there is no content.
fn seven_zip(entries: &[(&str, Option<&[u8]>)]) -> Vec<u8> {
    let mut writer =
        sevenz_rust2::ArchiveWriter::new(std::io::Cursor::new(Vec::new())).unwrap();
    for (name, content) in entries {
        let entry = match content {
            Some(_) => sevenz_rust2::ArchiveEntry::new_file(name),
            None => sevenz_rust2::ArchiveEntry::new_directory(name),
        };
        writer.push_archive_entry(entry, *content).unwrap();
    }
    writer.finish().unwrap().into_inner()
}

#[test]
fn a_7z_is_read_as_it_unpacks() {
    let bytes = seven_zip(&[
        ("dir", None),
        ("dir/a.rom", Some(b"inner")),
        ("b\\c.rom", Some(b"split")),
        ("./d.rom", Some(b"dotted")),
    ]);
    assert_eq!(read_7z_entry(bytes.clone(), "dir/a.rom").unwrap(), b"inner");
    assert_eq!(read_7z_entry(bytes.clone(), "./d.rom").unwrap(), b"dotted");
    assert_eq!(read_7z_entry(bytes.clone(), "dir").unwrap_err(), ReadFault::NotAFile);
    // Unpacked as `b/c.rom`, so that nothing is left under the name itself.
    assert_eq!(read_7z_entry(bytes.clone(), "b\\c.rom").unwrap_err(), ReadFault::EntryUnreadable);
    assert_eq!(read_7z_entry(bytes.clone(), "b/c.rom").unwrap_err(), ReadFault::NotFound);

    let directory = extract_from_archive("/s/x.7z", bytes.clone(), "dir").unwrap_err();
    assert_eq!(directory.message("/s/x.7z", "dir"), "Failed to copy extracted file");
    let split = extract_from_archive("/s/x.7z", bytes, "b\\c.rom").unwrap_err();
    assert_eq!(split.message("/s/x.7z", "b\\c.rom"), "Failed to extract entry: b\\c.rom");
}

#[test]
fn a_7z_with_a_name_that_leads_elsewhere_gives_nothing() {
    for name in ["../out.rom", "sub/../../out.rom", "..\\out.rom", "/out.rom", "\\out.rom", ".", ""] {
        let bytes = seven_zip(&[("a.rom", Some(b"fine")), (name, Some(b"astray"))]);
        assert_eq!(read_7z_entry(bytes.clone(), "a.rom").unwrap_err(), ReadFault::Damaged);
        let error = extract_from_archive("/s/x.7z", bytes, "a.rom").unwrap_err();
        assert_eq!(error.message("/s/x.7z", "a.rom"), "Failed to decompress 7z archive");
    }
    // A directory leads elsewhere in the same way, but may be the place itself.
    let outside = seven_zip(&[("a.rom", Some(b"fine")), ("../out", None)]);
    assert_eq!(read_7z_entry(outside, "a.rom").unwrap_err(), ReadFault::Damaged);
    let itself = seven_zip(&[("a.rom", Some(b"fine")), (".", None)]);
    assert_eq!(read_7z_entry(itself, "a.rom").unwrap(), b"fine");
    // Nothing unpacks below a file.
    for name in ["a.rom/b.rom", "./a.rom\\b.rom"] {
        let below = seven_zip(&[("a.rom", Some(b"fine")), (name, Some(b"under"))]);
        assert_eq!(read_7z_entry(below, "a.rom").unwrap_err(), ReadFault::Damaged);
    }
    // Names that merely hold dots lead nowhere else.
    let dots = seven_zip(&[("..a.rom", Some(b"fine")), ("b../c.rom", Some(b"too"))]);
    assert_eq!(read_7z_entry(dots, "..a.rom").unwrap(), b"fine");
    // A file is not found under a name that ends as a folder's.
    let folder = seven_zip(&[("a.rom/", Some(b"fine"))]);
    assert_eq!(read_7z_entry(folder, "a.rom/").unwrap_err(), ReadFault::EntryUnreadable);
}
