use std::collections::BTreeMap;

use cat198x::archive::{read_zip_entry, write_zip, NewEntry, ZipStyle};
use cat198x::digest::sha1_hex;
use cat198x::plan::executor::archive_ops::extract_from_archive;
use cat198x::plan::executor::fs_ops::{byte_faithful, validate_output_path, verify_written_sha1};
use cat198x::plan::executor::placement_ops::{
    advance, failure_text, placed_bytes, start, transfer_of, worker_count, PlacementKind, Stage,
    StepResult, Transfer, TransferFault,
};
use cat198x::plan::{CopyPlacement, SourceRef};

/// Files by path, and whether a rename works between its directories.
struct Disk {
    files: BTreeMap<String, Vec<u8>>,
    one_volume: bool,
    /// Every step that was carried out, in order
    steps: Vec<Stage>,
}

/// What a transfer reads and what it expects.
struct Errand<'a> {
    source: &'a str,
    archive_path: Option<&'a str>,
    dest: &'a str,
    sha1: &'a str,
    placement: &'a CopyPlacement,
}

fn answer(yes: bool) -> StepResult {
    if yes {
        StepResult::Yes
    } else {
        StepResult::No
    }
}

impl Disk {
    fn new() -> Disk {
        Disk { files: BTreeMap::new(), one_volume: true, steps: Vec::new() }
    }

    fn holding(path: &str, data: &[u8]) -> Disk {
        let mut disk = Disk::new();
        disk.put(path, data);
        disk
    }

    fn put(&mut self, path: &str, data: &[u8]) {
        self.files.insert(path.to_string(), data.to_vec());
    }

    fn has(&self, path: &str) -> bool {
        self.files.contains_key(path)
    }

    fn content(&self, errand: &Errand) -> Option<Vec<u8>> {
        let bytes = self.files.get(errand.source)?.clone();
        match errand.archive_path {
            Some(entry) => extract_from_archive(errand.source, bytes, entry).ok(),
            None => Some(bytes),
        }
    }

    fn write(&mut self, errand: &Errand) -> StepResult {
        let Some(content) = self.content(errand) else {
            return StepResult::Error;
        };
        let written = placed_bytes(content, errand.placement).unwrap();
        self.files.insert(errand.dest.to_string(), written);
        StepResult::Yes
    }

    fn verify_dest(&self, t: Transfer, errand: &Errand) -> StepResult {
        let Some(written) = self.files.get(errand.dest) else {
            return StepResult::Error;
        };
        match (t, errand.placement) {
            (Transfer::Relocate, _) => answer(byte_faithful(&self.files[errand.source], written)),
            (_, CopyPlacement::ZipEntry { entry_name }) => {
                let data = read_zip_entry(written.clone(), entry_name).unwrap();
                answer(sha1_hex(&data).eq_ignore_ascii_case(errand.sha1))
            }
            _ => match verify_written_sha1(errand.dest, written, errand.sha1) {
                Ok(same) => answer(same),
                Err(_) => StepResult::Error,
            },
        }
    }

    fn step(&mut self, t: Transfer, stage: Stage, errand: &Errand) -> StepResult {
        match stage {
            Stage::CheckTarget => answer(self.has(errand.dest)),
            Stage::CheckSource | Stage::CheckLeftover => answer(self.has(errand.source)),
            Stage::VerifySource => {
                match verify_written_sha1(errand.source, &self.files[errand.source], errand.sha1) {
                    Ok(same) => answer(same),
                    Err(_) => StepResult::Error,
                }
            }
            Stage::PrepareDest | Stage::FlushDest => StepResult::Yes,
            Stage::Rename => {
                if !self.one_volume {
                    return StepResult::Error;
                }
                match self.files.remove(errand.source) {
                    Some(bytes) => {
                        self.files.insert(errand.dest.to_string(), bytes);
                        StepResult::Yes
                    }
                    None => StepResult::Error,
                }
            }
            Stage::Write => self.write(errand),
            Stage::VerifyDest => self.verify_dest(t, errand),
            Stage::DropDest => answer(self.files.remove(errand.dest).is_some()),
            Stage::RemoveSource => answer(self.files.remove(errand.source).is_some()),
            Stage::Done | Stage::Failed(_) => unreachable!(),
        }
    }

    fn run(&mut self, t: Transfer, errand: &Errand) -> Result<(), String> {
        let mut stage = start(t, errand.dest);
        loop {
            match stage {
                Stage::Done => return Ok(()),
                Stage::Failed(fault) => {
                    let actual = match self.content(errand) {
                        Some(bytes) => sha1_hex(&bytes),
                        None => String::new(),
                    };
                    return Err(failure_text(
                        t,
                        fault,
                        errand.source,
                        errand.dest,
                        errand.sha1,
                        &actual,
                        "",
                    ));
                }
                _ => {}
            }
            self.steps.push(stage);
            let result = self.step(t, stage, errand);
            stage = advance(t, stage, result);
        }
    }

    fn execute_copy(
        &mut self,
        source: &str,
        archive_path: Option<&str>,
        dest: &str,
        sha1: &str,
        placement: &CopyPlacement,
    ) -> Result<(), String> {
        let into_archive = matches!(placement, CopyPlacement::ZipEntry { .. });
        let errand = Errand { source, archive_path, dest, sha1, placement };
        self.run(Transfer::Copy { into_archive }, &errand)
    }

    fn execute_move(
        &mut self,
        source: &str,
        archive_path: Option<&str>,
        dest: &str,
        sha1: &str,
        placement: &CopyPlacement,
    ) -> Result<(), String> {
        let into_archive = matches!(placement, CopyPlacement::ZipEntry { .. });
        let errand = Errand { source, archive_path, dest, sha1, placement };
        self.run(Transfer::Move { from_archive: archive_path.is_some(), into_archive }, &errand)
    }

    fn whole(&mut self, t: Transfer, source: &str, dest: &str, sha1: &str) -> Result<(), String> {
        let errand = Errand {
            source,
            archive_path: None,
            dest,
            sha1,
            placement: &CopyPlacement::LooseFile,
        };
        self.run(t, &errand)
    }
}

const CONTENT_SHA1: &str = "331407B2BD72286D458F26C426D78F459D7116D3";
const HELLO_SHA1: &str = "AAF4C61DDCC5E8A2DABEDE0F3B482CD9AEA9434D";
const WRONG_SHA1: &str = "0000000000000000000000000000000000000000";

#[test]
fn test_execute_copy_loose_file() {
    let mut disk = Disk::holding("/t/source.rom", b"test rom content");

    disk.execute_copy(
        "/t/source.rom",
        None,
        "/t/dest/output.rom",
        CONTENT_SHA1,
        &CopyPlacement::LooseFile,
    )
    .unwrap();

    assert_eq!(disk.files["/t/dest/output.rom"], b"test rom content");
    assert!(disk.has("/t/source.rom"));
}

#[test]
fn test_execute_copy_verification_fails_on_bad_hash() {
    let mut disk = Disk::holding("/t/source.rom", b"test rom content");

    let result = disk.execute_copy(
        "/t/source.rom",
        None,
        "/t/dest/output.rom",
        WRONG_SHA1,
        &CopyPlacement::LooseFile,
    );

    assert!(result.is_err());
    assert!(result.unwrap_err().contains("Verification failed"));

    // Bad file should be removed
    assert!(!disk.has("/t/dest/output.rom"));
}

#[test]
fn test_execute_copy_to_zip_output() {
    let mut disk = Disk::holding("/t/source.rom", b"test rom content");

    disk.execute_copy(
        "/t/source.rom",
        None,
        "/t/output.zip",
        CONTENT_SHA1,
        &CopyPlacement::ZipEntry { entry_name: "source.rom".to_string() },
    )
    .unwrap();

    assert!(disk.has("/t/output.zip"));
    let bytes = disk.files["/t/output.zip"].clone();
    let archive = zip::ZipArchive::new(std::io::Cursor::new(bytes.clone())).unwrap();
    assert_eq!(archive.len(), 1);
    assert_eq!(read_zip_entry(bytes, "source.rom").unwrap(), b"test rom content");
}

#[test]
fn loose_copy_to_zip_named_file_writes_bytes_not_archive() {
    let mut disk = Disk::holding("/t/source.rom", b"test rom content");

    disk.execute_copy(
        "/t/source.rom",
        None,
        "/t/loose-name.zip",
        CONTENT_SHA1,
        &CopyPlacement::LooseFile,
    )
    .unwrap();

    let written = disk.files["/t/loose-name.zip"].clone();
    assert_eq!(written, b"test rom content");
    assert!(
        zip::ZipArchive::new(std::io::Cursor::new(written)).is_err(),
        "a loose file named .zip must not be wrapped as a ZIP archive"
    );
}

#[test]
fn test_execute_copy_to_zip_bad_hash() {
    let mut disk = Disk::holding("/t/source.rom", b"test rom content");

    let result = disk.execute_copy(
        "/t/source.rom",
        None,
        "/t/output.zip",
        WRONG_SHA1,
        &CopyPlacement::ZipEntry { entry_name: "source.rom".to_string() },
    );

    assert!(result.is_err());
    assert!(result.unwrap_err().contains("Verification failed"));

    // Bad ZIP should be removed
    assert!(!disk.has("/t/output.zip"));
}

#[test]
fn test_execute_copy_to_zip_creates_parent_dirs() {
    let mut disk = Disk::holding("/t/source.rom", b"hello");

    disk.execute_copy(
        "/t/source.rom",
        None,
        "/t/nested/dirs/output.zip",
        HELLO_SHA1,
        &CopyPlacement::ZipEntry { entry_name: "source.rom".to_string() },
    )
    .unwrap();

    assert!(disk.has("/t/nested/dirs/output.zip"));
    // The directory is made before anything is written into it.
    assert_eq!(disk.steps, vec![Stage::PrepareDest, Stage::Write, Stage::VerifyDest]);
}

#[test]
fn test_execute_rollback_move_success() {
    let mut disk = Disk::holding("/t/current.rom", b"hello");

    disk.whole(Transfer::Restore, "/t/current.rom", "/t/original/file.rom", HELLO_SHA1).unwrap();

    assert!(!disk.has("/t/current.rom"));
    assert!(disk.has("/t/original/file.rom"));
    assert_eq!(disk.files["/t/original/file.rom"], b"hello");
}

#[test]
fn test_execute_rollback_move_hash_mismatch() {
    let mut disk = Disk::holding("/t/current.rom", b"hello");

    let result =
        disk.whole(Transfer::Restore, "/t/current.rom", "/t/original/file.rom", WRONG_SHA1);

    assert!(result.is_err());
    assert!(result.unwrap_err().contains("hash mismatch"));

    // Source file should still exist (not moved)
    assert!(disk.has("/t/current.rom"));
    assert!(!disk.has("/t/original/file.rom"));
}

#[test]
fn test_execute_rollback_move_source_not_found() {
    let mut disk = Disk::new();

    let result = disk.whole(Transfer::Restore, "/t/nonexistent.rom", "/t/dest.rom", "somehash");

    assert!(result.is_err());
    assert!(result.unwrap_err().contains("Source file not found"));
}

#[test]
fn test_execute_move_loose_file() {
    let mut disk = Disk::holding("/t/source.rom", b"test rom content");

    disk.execute_move(
        "/t/source.rom",
        None,
        "/t/dest/moved.rom",
        CONTENT_SHA1,
        &CopyPlacement::LooseFile,
    )
    .unwrap();

    // Source should be deleted, destination should exist
    assert!(!disk.has("/t/source.rom"));
    assert!(disk.has("/t/dest/moved.rom"));
    assert_eq!(disk.files["/t/dest/moved.rom"], b"test rom content");
}

#[test]
fn test_execute_move_from_archive_keeps_source() {
    let entry = NewEntry { name: "test.rom".to_string(), data: b"hello".to_vec() };
    let archive = write_zip(&vec![entry], ZipStyle::Plain).unwrap();
    let mut disk = Disk::holding("/t/source.zip", &archive);

    disk.execute_move(
        "/t/source.zip",
        Some("test.rom"),
        "/t/dest/extracted.rom",
        HELLO_SHA1,
        &CopyPlacement::LooseFile,
    )
    .unwrap();

    // Archive should still exist (we can't delete from inside it)
    assert!(disk.has("/t/source.zip"));
    // Destination should exist with extracted content
    assert!(disk.has("/t/dest/extracted.rom"));
    assert_eq!(disk.files["/t/dest/extracted.rom"], b"hello");
}

#[test]
fn test_execute_move_same_fs_renames_without_rehashing() {
    let mut disk = Disk::holding("/t/source.rom", b"test rom content");

    // A same-filesystem loose move is a pure rename that trusts the recorded
    // hash, so even a hash that does not match the content still moves it.
    disk.execute_move(
        "/t/source.rom",
        None,
        "/t/dest/moved.rom",
        WRONG_SHA1,
        &CopyPlacement::LooseFile,
    )
    .unwrap();

    assert!(!disk.has("/t/source.rom"), "source renamed away");
    assert_eq!(disk.files["/t/dest/moved.rom"], b"test rom content");
}

#[test]
fn execute_relocate_moves_whole_file_unchanged() {
    let mut disk = Disk::holding("/t/ToSort/SET/Game.zip", b"a complete zip's bytes");

    disk.whole(Transfer::Relocate, "/t/ToSort/SET/Game.zip", "/t/ROMs/SET/Sys/Game.zip", "")
        .unwrap();

    assert!(!disk.has("/t/ToSort/SET/Game.zip"), "source relocated away");
    assert!(disk.has("/t/ROMs/SET/Sys/Game.zip"));
    assert_eq!(disk.files["/t/ROMs/SET/Sys/Game.zip"], b"a complete zip's bytes");
}

#[test]
fn execute_relocate_missing_source_errors() {
    let mut disk = Disk::new();
    let result = disk.whole(Transfer::Relocate, "/t/nope.zip", "/t/dest.zip", "");
    assert_eq!(result, Err("Source file not found: /t/nope.zip".to_string()));
}

#[test]
fn cross_volume_move_removes_its_source_last() {
    let mut disk = Disk::holding("/t/source.rom", b"test rom content");
    disk.one_volume = false;

    disk.execute_move(
        "/t/source.rom",
        None,
        "/t/dest/moved.rom",
        CONTENT_SHA1,
        &CopyPlacement::LooseFile,
    )
    .unwrap();

    assert_eq!(
        disk.steps,
        vec![
            Stage::PrepareDest,
            Stage::Rename,
            Stage::Write,
            Stage::VerifyDest,
            Stage::FlushDest,
            Stage::CheckLeftover,
            Stage::RemoveSource,
        ]
    );
    assert!(!disk.has("/t/source.rom"));
}

#[test]
fn cross_volume_move_of_bad_content_keeps_the_source() {
    let mut disk = Disk::holding("/t/source.rom", b"test rom content");
    disk.one_volume = false;

    let result = disk.execute_move(
        "/t/source.rom",
        None,
        "/t/dest/moved.rom",
        WRONG_SHA1,
        &CopyPlacement::LooseFile,
    );

    assert_eq!(
        result,
        Err(format!(
            "Verification failed: written file hash does not match expected SHA1 {WRONG_SHA1}"
        ))
    );
    assert!(disk.has("/t/source.rom"));
    assert!(!disk.has("/t/dest/moved.rom"));
}

#[test]
fn quarantine_never_overwrites_its_target() {
    let mut disk = Disk::holding("/lib/g.rom", b"hello");
    disk.put("/q/H_g.rom", b"older");

    let result = disk.whole(Transfer::Quarantine, "/lib/g.rom", "/q/H_g.rom", HELLO_SHA1);

    assert!(result.is_err());
    assert_eq!(disk.files["/q/H_g.rom"], b"older");
    assert!(disk.has("/lib/g.rom"));
}

#[test]
fn transfers_refuse_a_destination_that_climbs() {
    for t in [
        Transfer::Copy { into_archive: false },
        Transfer::Move { from_archive: false, into_archive: false },
        Transfer::Relocate,
        Transfer::Restore,
    ] {
        assert_eq!(start(t, "/lib/../etc/x"), Stage::Failed(TransferFault::UnsafeDest));
    }
    assert!(validate_output_path("/lib/../etc/x").is_err());
    assert!(validate_output_path("/lib/ROMs/x.zip").is_ok());
}

#[test]
fn each_io_error_ends_a_transfer() {
    let copy = Transfer::Copy { into_archive: false };
    let relocate = Transfer::Relocate;
    let io = Stage::Failed(TransferFault::Io);
    assert_eq!(advance(copy, Stage::PrepareDest, StepResult::Error), io);
    assert_eq!(advance(copy, Stage::Write, StepResult::Error), io);
    assert_eq!(advance(copy, Stage::VerifyDest, StepResult::Error), io);
    assert_eq!(advance(relocate, Stage::FlushDest, StepResult::Error), io);
    assert_eq!(advance(relocate, Stage::RemoveSource, StepResult::Error), io);
    assert_eq!(advance(relocate, Stage::Rename, StepResult::Error), Stage::Write);
    assert_eq!(
        advance(Transfer::Quarantine, Stage::CheckTarget, StepResult::Yes),
        Stage::Failed(TransferFault::TargetExists)
    );
}

#[test]
fn placement_kinds_name_their_transfers() {
    let source = |archive_path: Option<&str>| SourceRef {
        path: "/s/a".to_string(),
        archive_path: archive_path.map(|p| p.to_string()),
        sha1: "A".to_string(),
        entry_name: None,
    };
    let copy = PlacementKind::Copy {
        source: source(None),
        dest: "/d/a".to_string(),
        placement: CopyPlacement::ZipEntry { entry_name: "a".to_string() },
    };
    assert_eq!(transfer_of(&copy), Transfer::Copy { into_archive: true });
    let moved = PlacementKind::Move {
        source: source(Some("a")),
        dest: "/d/a".to_string(),
        placement: CopyPlacement::LooseFile,
    };
    assert_eq!(transfer_of(&moved), Transfer::Move { from_archive: true, into_archive: false });
    let relocated =
        PlacementKind::Relocate { source: "/s/a".to_string(), dest: "/d/a".to_string() };
    assert_eq!(transfer_of(&relocated), Transfer::Relocate);
}

#[test]
fn worker_pools_are_bounded_by_their_jobs() {
    assert_eq!(worker_count(4, 10), 4);
    assert_eq!(worker_count(4, 2), 2);
    assert_eq!(worker_count(0, 2), 1);
    assert_eq!(worker_count(4, 0), 0);
}

#[test]
fn content_survives_a_fault_at_any_step() {
    let transfers = [
        Transfer::Copy { into_archive: false },
        Transfer::Move { from_archive: false, into_archive: false },
        Transfer::Relocate,
        Transfer::Restore,
        Transfer::Quarantine,
    ];
    for t in transfers {
        for faulty in 0..9 {
            let mut disk = Disk::holding("/a/x.rom", b"hello");
            disk.one_volume = false;
            let errand = Errand {
                source: "/a/x.rom",
                archive_path: None,
                dest: "/b/x.rom",
                sha1: HELLO_SHA1,
                placement: &CopyPlacement::LooseFile,
            };
            let mut stage = start(t, errand.dest);
            let mut taken = 0;
            while !matches!(stage, Stage::Done | Stage::Failed(_)) {
                let result = if taken == faulty {
                    StepResult::Error
                } else {
                    disk.step(t, stage, &errand)
                };
                stage = advance(t, stage, result);
                taken += 1;
                if stage != Stage::Done {
                    assert_eq!(disk.files["/a/x.rom"], b"hello", "{t:?} at step {taken}");
                }
            }
            assert!(taken <= 9);
            if stage == Stage::Done {
                assert_eq!(disk.files["/b/x.rom"], b"hello");
                assert_eq!(disk.has("/a/x.rom"), matches!(t, Transfer::Copy { .. }));
            }
        }
    }
}

#[test]
fn packed_content_is_extractable() {
    let placement = CopyPlacement::ZipEntry { entry_name: "in/x.rom".to_string() };
    let bytes = placed_bytes(b"hello".to_vec(), &placement).unwrap();
    assert_ne!(bytes, b"hello");
    assert_eq!(read_zip_entry(bytes, "in/x.rom").unwrap(), b"hello");
    assert_eq!(placed_bytes(b"hello".to_vec(), &CopyPlacement::LooseFile).unwrap(), b"hello");
}
