use cat198x::db::files::{Disposition, FileLocation, Source};
use cat198x::db::quarantine::QuarantineReason;
use cat198x::ops::apply::{
    prepare, ApplyProgress, ApplyReport, ApplyRunOptions, Progress, APPLY_JOBS,
};
use cat198x::ops::plans::{newest_plan_file, pending_work, PlanFile};
use cat198x::plan::apply::catalogue::{sync_catalogue_after, CatalogueAction};
use cat198x::plan::apply::runner::{
    batch_notice, op_started, route, serial_task, ApplyRun, DeleteOutcome, NextStep, Route,
    SerialTask,
};
use cat198x::plan::apply::types::{ApplyEvent, ApplyOptions, OpView};
use cat198x::archive::read_zip_entry;
use cat198x::plan::executor::archive_ops::{
    execute_repack, LoadedSource, RepackEvent, RepackOutcome,
};
use cat198x::plan::executor::placement_ops::{
    worker_count, PlacementEvent, PlacementJob, PlacementOutcome,
};
use cat198x::plan::executor::safety_ops::{
    copy_path, delete_has_surviving_copy, quarantine_filename, RecordedCopy,
};
use cat198x::plan::log::{LogStatus, LoggedOperation};
use cat198x::plan::{
    CollectionPlanStat, ContainerRebuild, Operation, OperationKind, OperationStatus, Plan,
    RebuildEntry, SourceRef,
};
use cat198x::sorted_map::SortedMap;

fn loose(path: &str, sha1: &str) -> SourceRef {
    SourceRef {
        path: path.to_string(),
        archive_path: None,
        sha1: sha1.to_string(),
        entry_name: None,
    }
}

fn roomy() -> SortedMap<String, u64> {
    let mut map = SortedMap::new();
    map.insert("/".to_string(), 1_000_000);
    map
}

fn options(dry_run: bool) -> ApplyOptions {
    ApplyOptions {
        dry_run,
        skip_repack: false,
        jobs: APPLY_JOBS,
        quarantine_dir: "/q".to_string(),
    }
}

const REAL: ApplyRunOptions = ApplyRunOptions { dry_run: false, skip_space_check: false };

/// Applies a plan with made-up outcomes, and shows every update.
fn apply_streaming(
    plan: &mut Plan,
    opts: ApplyRunOptions,
    state_hash: &str,
    place: &dyn Fn(&PlacementJob) -> Result<(), String>,
) -> (ApplyReport, Vec<ApplyProgress>, Option<ApplyRun>) {
    let before = prepare(plan, opts, state_hash, &roomy());
    let mut shown = Vec::new();
    if before.refused.is_some() {
        return (before, shown, None);
    }
    let run_opts = options(opts.dry_run);
    let mut progress = Progress::new(plan);
    let mut run = ApplyRun::new(plan, &run_opts);
    loop {
        let mut events: Vec<ApplyEvent> = Vec::new();
        match run.next_step(plan, &run_opts) {
            NextStep::Finish => break,
            NextStep::Serial(index) => {
                events.push(op_started(plan, index, None));
                match serial_task(&plan.operations[index], &run_opts) {
                    SerialTask::Preview => events.extend(run.settle_dry(plan, index)),
                    SerialTask::Delete { .. } => events.extend(run.settle_delete(
                        plan,
                        index,
                        DeleteOutcome::Removed,
                        None,
                    )),
                    SerialTask::Quarantine { path, sha1, .. } => {
                        let to = format!("/q/{}", quarantine_filename(&sha1, &path));
                        events.extend(run.settle_quarantine(plan, index, Ok(to), None));
                    }
                    SerialTask::Place(_) | SerialTask::Unbatched => unreachable!(),
                }
            }
            NextStep::Batches => {
                let (placements, repacks) = run.take_batches();
                for (slot, job) in placements.into_iter().enumerate() {
                    let started = PlacementEvent::Started { slot, plan_index: job.plan_index };
                    events.extend(run.placement_event(plan, started, None));
                    let result = place(&job);
                    let outcome = PlacementOutcome { job, result };
                    let finished = PlacementEvent::Finished { slot, outcome };
                    events.extend(run.placement_event(plan, finished, None));
                }
                for (slot, job) in repacks.into_iter().enumerate() {
                    let started = RepackEvent::Started { slot, plan_index: job.plan_index };
                    events.extend(run.repack_event(plan, started, None));
                    let outcome = RepackOutcome { job, result: Ok(Vec::new()) };
                    let finished = RepackEvent::Finished { slot, outcome };
                    events.extend(run.repack_event(plan, finished, None));
                }
            }
        }
        for event in &events {
            if let Some(update) = progress.observe(event) {
                shown.push(update);
            }
        }
    }
    let journal = ApplyRun {
        next: run.next,
        placements: Vec::new(),
        repacks: Vec::new(),
        log: run.log.take(),
        success_count: run.success_count,
        error_count: run.error_count,
        refused_count: run.refused_count,
    };
    let outcome = run.finish(Some("/logs/x.json".to_string()));
    (progress.report(before, &outcome), shown, Some(journal))
}

fn fine(_: &PlacementJob) -> Result<(), String> {
    Ok(())
}

fn copy_and_delete() -> Plan {
    let mut plan = Plan::new("hash".to_string());
    plan.add_copy(loose("/staging/a.rom", "AAA"), "/t/a.rom".to_string(), 10);
    plan.add_delete("/staging/b.rom".into(), "exact duplicate — kept /lib/b.rom".into());
    plan
}

#[test]
fn apply_dry_run_reports_the_plan_without_mutating() {
    let mut plan = copy_and_delete();

    let (report, _, run) =
        apply_streaming(&mut plan, ApplyRunOptions::preview(), "hash", &fine);

    assert!(report.dry_run);
    assert!(report.refused.is_none(), "a dry run never refuses");
    assert!(!report.stale, "plan hash matches the catalogue");
    assert_eq!(report.total_ops, 2);
    assert_eq!(report.pending, 2);
    assert_eq!(report.total_bytes, 10, "the copy's bytes, from the plan summary");
    // Tallied from the engine's own progress events.
    assert_eq!(report.by_kind.get_str("COPY"), Some(&1));
    assert_eq!(report.by_kind.get_str("DELETE"), Some(&1));
    assert_eq!(report.failed, 0);
    assert!(run.unwrap().log.is_none(), "a dry run keeps no journal");
    assert!(
        plan.operations.iter().all(|op| op.status == OperationStatus::Pending),
        "a dry run mutates nothing"
    );
}

#[test]
fn real_apply_moves_the_file_and_writes_a_journal() {
    let mut plan = Plan::new("hash".to_string());
    let sha1 = "aaf4c61ddcc5e8a2dabede0f3b482cd9aea9434d";
    plan.add_move(loose("/t/staging/a.rom", sha1), "/t/lib/a.rom".to_string(), 5);

    let (report, _, run) = apply_streaming(&mut plan, REAL, "hash", &fine);

    assert!(report.refused.is_none(), "a fresh in-fit plan is not refused");
    assert_eq!(report.succeeded, 1);
    assert_eq!(report.failed, 0);
    assert_eq!(plan.operations[0].status, OperationStatus::Completed);
    let log = run.unwrap().log.expect("a real apply keeps a rollback journal");
    assert_eq!(log.plan_hash, "hash");
    assert_eq!(log.entries.len(), 1);
    assert_eq!(log.entries[0].status, LogStatus::Completed);
    match &log.entries[0].reverse {
        Some(LoggedOperation::Move { source, dest, .. }) => {
            assert_eq!(source, "/t/lib/a.rom");
            assert_eq!(dest, "/t/staging/a.rom");
        }
        other => panic!("expected a move back, got {other:?}"),
    }
}

#[test]
fn real_apply_refuses_a_stale_plan_without_touching_anything() {
    // A plan whose state hash does NOT match the current catalogue, with every
    // operation still pending → stale and not started → must be refused.
    let mut plan = Plan::new("stale-hash-that-will-not-match".into());
    plan.add_move(loose("/t/staging/a.rom", "A"), "/t/lib/a.rom".to_string(), 5);

    let (report, shown, run) = apply_streaming(&mut plan, REAL, "current", &|_| {
        panic!("nothing may run")
    });

    assert!(report.stale, "the plan hash does not match the catalogue");
    assert!(report.refused.is_some(), "a stale fresh plan is refused");
    assert_eq!(report.succeeded, 0);
    assert_eq!(report.failed, 0);
    assert!(shown.is_empty());
    assert!(run.is_none(), "no journal — nothing ran");
    assert_eq!(plan.operations[0].status, OperationStatus::Pending);
}

#[test]
fn apply_streaming_reports_progress_per_operation() {
    let mut plan = copy_and_delete();

    let (_, progress, _) = apply_streaming(&mut plan, ApplyRunOptions::preview(), "hash", &fine);

    // Every op emits a start then a finish, both slotless on a dry run. The
    // finishes carry the count, the running bytes, and an "ok" log outcome.
    let finishes: Vec<_> = progress.iter().filter(|p| p.finished).collect();
    assert_eq!(finishes.len(), 2, "one finish per operation");
    assert!(progress.iter().all(|p| p.slot.is_none() && p.bytes_total == 10));

    assert_eq!((finishes[0].done, finishes[0].total), (1, 2));
    assert_eq!(finishes[0].verb, "COPY");
    assert_eq!(finishes[0].from, "/staging/a.rom");
    assert_eq!(finishes[0].to.as_deref(), Some("/t/a.rom"));
    assert_eq!(finishes[0].bytes, 10);
    assert_eq!(finishes[0].bytes_done, 10, "the copy's bytes are banked");
    assert_eq!(finishes[0].outcome.as_deref(), Some("ok"));

    // The delete is logged too, with no bytes.
    assert_eq!((finishes[1].done, finishes[1].total), (2, 2));
    assert_eq!(finishes[1].verb, "DELETE");
    assert_eq!(finishes[1].from, "/staging/b.rom");
    assert_eq!(finishes[1].to, None);
    assert_eq!(finishes[1].bytes, 0);
    assert_eq!(finishes[1].bytes_done, 10);
    assert_eq!(finishes[1].outcome.as_deref(), Some("ok"));
    assert_eq!(
        finishes[1].reason.as_deref(),
        Some("exact duplicate — kept /lib/b.rom")
    );
}

#[test]
fn real_apply_reports_slotted_start_and_finish_per_placement() {
    let mut plan = Plan::new("hash".to_string());
    let sha1 = "aaf4c61ddcc5e8a2dabede0f3b482cd9aea9434d";
    plan.add_move(loose("/t/a.rom", sha1), "/t/lib/a.rom".to_string(), 5);

    let (_, progress, _) = apply_streaming(&mut plan, REAL, "hash", &fine);

    // A start (slotted, processed still 0) then a finish (slot freed, bytes
    // banked) — the move's 5 bytes count only once it has completed.
    let start = progress.iter().find(|p| !p.finished).expect("a start");
    assert!(start.slot.is_some(), "a placement runs in a worker slot");
    assert_eq!(start.verb, "MOVE");
    assert_eq!(start.bytes_done, 0, "bytes not counted while in flight");
    assert_eq!(start.jobs, 6);

    let finish = progress.iter().rev().find(|p| p.finished).expect("a finish");
    assert!(finish.slot.is_some());
    assert_eq!(finish.bytes_done, 5, "bytes banked on completion");
    assert_eq!(finish.done, 1);
    // The finish is also a log line naming the op.
    assert_eq!(finish.outcome.as_deref(), Some("ok"));
    assert_eq!(finish.verb, "MOVE");
}

#[test]
fn a_failed_placement_emits_a_failed_log_line() {
    let mut plan = Plan::new("hash".to_string());
    let sha1 = "aaf4c61ddcc5e8a2dabede0f3b482cd9aea9434d";
    // A move whose source does not exist → fails on the copy step.
    plan.add_move(loose("/t/missing.rom", sha1), "/t/lib/x.rom".to_string(), 5);

    let (report, progress, _) =
        apply_streaming(&mut plan, REAL, "hash", &|_| Err("Failed to copy file".to_string()));

    let log = progress.iter().find(|p| p.outcome.is_some()).expect("a log line");
    assert_eq!(log.outcome.as_deref(), Some("failed"));
    assert_eq!(log.verb, "MOVE");
    assert_eq!(log.detail.as_deref(), Some("Failed to copy file"));
    assert_eq!(
        progress.last().unwrap().bytes_done,
        0,
        "a failed op never counts toward processed bytes"
    );
    assert_eq!(report.failed, 1);
    assert_eq!(plan.operations[0].status, OperationStatus::Failed);
}

#[test]
fn execute_placements_concurrent_runs_all_and_reports_each() {
    // Eight copies, plus one that fails: one failure must not take the batch
    // down, and every outcome must be reported once.
    let mut plan = Plan::new("hash".to_string());
    for i in 0..8 {
        plan.add_copy(loose(&format!("/t/src-{i}.rom"), "76"), format!("/t/dst-{i}.rom"), 8);
    }
    plan.add_copy(loose("/t/bad.rom", "00"), "/t/bad-dst.rom".to_string(), 8);

    let (report, progress, run) = apply_streaming(&mut plan, REAL, "hash", &|job| {
        if job.plan_index == 8 {
            Err("Verification failed".to_string())
        } else {
            Ok(())
        }
    });

    assert_eq!(progress.iter().filter(|p| !p.finished).count(), 9, "one start event per job");
    assert_eq!(progress.iter().filter(|p| p.finished).count(), 9);
    assert_eq!((report.succeeded, report.failed), (8, 1));
    for i in 0..8 {
        assert_eq!(plan.operations[i].status, OperationStatus::Completed);
    }
    assert_eq!(plan.operations[8].status, OperationStatus::Failed);
    assert_eq!(run.unwrap().log.unwrap().failed_count(), 1);
}

#[test]
fn pending_work_rolls_up_the_saved_plans_per_collection() {
    let mut plan = Plan::new("current".to_string());
    plan.per_collection = vec![
        CollectionPlanStat {
            name: "A".into(),
            node_path: "TOSEC/A".into(),
            to_write: 3,
            already_correct: 0,
            bytes: 30,
        },
        CollectionPlanStat {
            name: "B".into(),
            node_path: "TOSEC/B".into(),
            to_write: 0, // fully placed — excluded
            already_correct: 5,
            bytes: 0,
        },
    ];

    let pw = pending_work(&plan, "current");
    assert!(!pw.stale, "plan hash matches the catalogue");
    assert_eq!(pw.items.len(), 1, "only collections with pending work");
    assert_eq!(pw.items[0].collection, "A");
    assert_eq!(pw.items[0].node_path, "TOSEC/A");
    assert_eq!(pw.items[0].to_write, 3);
    assert_eq!(pw.items[0].bytes, 30);
    assert!(pending_work(&plan, "later").stale);
}

#[test]
fn latest_plan_is_none_without_a_saved_plan() {
    assert_eq!(newest_plan_file(&Vec::new()), None);
}

#[test]
fn latest_plan_reads_the_newest_saved_plan() {
    let file = |path: &str, modified: Option<i128>| PlanFile { path: path.to_string(), modified };
    let list = vec![
        file("/p/old.json", Some(5)),
        file("/p/deadbeefdeadbeef.json", Some(9)),
        file("/p/same.json", Some(9)),
        file("/p/notes.txt", Some(20)),
        file("/p/unknown.json", None),
    ];
    assert_eq!(newest_plan_file(&list), Some(1));
}

#[test]
fn routes_follow_kind_and_status() {
    let mut plan = copy_and_delete();
    plan.add_repack(
        vec![loose("/s/x", "X")],
        "/d/x.zip".to_string(),
        "zip".to_string(),
        3,
        false,
    );
    let real = options(false);
    let dry = options(true);
    let mut deferred = options(false);
    deferred.skip_repack = true;
    assert_eq!(route(&plan.operations[0], &real), Route::Placement);
    assert_eq!(route(&plan.operations[1], &real), Route::Serial);
    assert_eq!(route(&plan.operations[2], &real), Route::Repack);
    assert_eq!(route(&plan.operations[2], &deferred), Route::Skip);
    assert_eq!(route(&plan.operations[2], &dry), Route::Serial);
    plan.operations[0].status = OperationStatus::Refused;
    assert_eq!(route(&plan.operations[0], &real), Route::Skip);
    plan.operations[0].status = OperationStatus::Failed;
    assert_eq!(route(&plan.operations[0], &real), Route::Placement);
}

#[test]
fn batches_run_before_what_follows_them() {
    // A delete stands between two copies: the first batch ends at it.
    let mut plan = copy_and_delete();
    plan.add_copy(loose("/staging/c.rom", "CCC"), "/t/c.rom".to_string(), 10);
    let opts = options(false);
    let mut run = ApplyRun::new(&plan, &opts);
    assert_eq!(run.next_step(&plan, &opts), NextStep::Batches);
    let (placements, repacks) = run.take_batches();
    assert_eq!(placements.len(), 1);
    assert_eq!(placements[0].plan_index, 0);
    assert!(repacks.is_empty());
    assert_eq!(run.next_step(&plan, &opts), NextStep::Serial(1));
    assert_eq!(run.next_step(&plan, &opts), NextStep::Batches);
    let (placements, _) = run.take_batches();
    assert_eq!(placements[0].plan_index, 2);
    assert_eq!(run.next_step(&plan, &opts), NextStep::Finish);
}

#[test]
fn each_delete_outcome_has_its_own_end() {
    let cases = [
        (DeleteOutcome::Removed, OperationStatus::Completed, None),
        (DeleteOutcome::AlreadyGone, OperationStatus::Completed, None),
        (DeleteOutcome::Failed("busy".to_string()), OperationStatus::Failed, Some("busy")),
        (
            DeleteOutcome::NoSurvivor,
            OperationStatus::Refused,
            Some("no surviving copy on disk"),
        ),
        (
            DeleteOutcome::Unverified("no source".to_string()),
            OperationStatus::Refused,
            Some("no source"),
        ),
    ];
    for (outcome, status, detail) in cases {
        let mut plan = Plan::new("h".to_string());
        plan.add_delete("/s/b".to_string(), "dup".to_string());
        let mut run = ApplyRun::new(&plan, &options(false));
        let events = run.settle_delete(&mut plan, 0, outcome, None);
        assert_eq!(plan.operations[0].status, status);
        let ends: Vec<Option<String>> = events
            .iter()
            .filter_map(|e| match e {
                ApplyEvent::OpFinished { detail, .. } => Some(detail.clone()),
                _ => None,
            })
            .collect();
        assert_eq!(ends, vec![detail.map(|d: &str| d.to_string())]);
        let tally = (run.success_count, run.error_count, run.refused_count);
        assert_eq!(tally.0 + tally.1 + tally.2, 1);
    }
}

#[test]
fn a_drain_is_journalled_so_that_it_can_be_rebuilt() {
    let mut plan = Plan::new("h".to_string());
    plan.add_container_drain(
        "/s/bundle.zip".to_string(),
        "consolidated into /d/g.zip".to_string(),
        ContainerRebuild {
            format: "zip".to_string(),
            entries: vec![RebuildEntry {
                dest: "/d/g.zip".to_string(),
                dest_entry: "a.rom".to_string(),
                container_entry: "old.rom".to_string(),
                sha1: "A".to_string(),
            }],
        },
    );
    let mut run = ApplyRun::new(&plan, &options(false));
    run.settle_delete(&mut plan, 0, DeleteOutcome::Removed, Some("catalogue busy".to_string()));
    let log = run.log.as_ref().unwrap();
    match &log.entries[0].reverse {
        Some(LoggedOperation::RebuildContainer { container, format, entries }) => {
            assert_eq!(container, "/s/bundle.zip");
            assert_eq!(format, "zip");
            assert_eq!(entries[0].container_entry, "old.rom");
        }
        other => panic!("expected a rebuild, got {other:?}"),
    }
}

#[test]
fn catalogue_warnings_accompany_a_success() {
    let mut plan = copy_and_delete();
    let opts = options(false);
    let mut run = ApplyRun::new(&plan, &opts);
    assert_eq!(run.next_step(&plan, &opts), NextStep::Batches);
    let (mut placements, _) = run.take_batches();
    let outcome = PlacementOutcome { job: placements.pop().unwrap(), result: Ok(()) };
    let events =
        run.settle_placement(&mut plan, 2, outcome, Some("catalogue busy".to_string()));
    assert!(events.iter().any(|e| matches!(
        e,
        ApplyEvent::CatalogueWarning { message, .. } if message == "catalogue busy"
    )));
    assert!(matches!(
        events.last(),
        Some(ApplyEvent::OpFinished { slot: Some(2), status: OperationStatus::Completed, .. })
    ));
}

#[test]
fn quarantines_are_tasked_and_journalled() {
    let mut plan = Plan::new("h".to_string());
    plan.operations.push(Operation {
        id: 7,
        status: OperationStatus::Pending,
        kind: OperationKind::Quarantine {
            path: "/lib/g.rom".to_string(),
            sha1: "HASH".to_string(),
            size: 4,
            reason: "duplicate".to_string(),
            collection: Some("C".to_string()),
        },
    });
    let opts = options(false);
    match serial_task(&plan.operations[0], &opts) {
        SerialTask::Quarantine { path, sha1, size, reason, collection } => {
            assert_eq!(path, "/lib/g.rom");
            assert_eq!(sha1, "HASH");
            assert_eq!(size, 4);
            assert_eq!(reason, QuarantineReason::Duplicate);
            assert_eq!(collection.as_deref(), Some("C"));
        }
        other => panic!("expected a quarantine, got {other:?}"),
    }
    let mut run = ApplyRun::new(&plan, &opts);
    run.settle_quarantine(&mut plan, 0, Ok("/q/HASH_g.rom".to_string()), None);
    match &run.log.as_ref().unwrap().entries[0].reverse {
        Some(LoggedOperation::Move { source, dest, sha1 }) => {
            assert_eq!(source, "/q/HASH_g.rom");
            assert_eq!(dest, "/lib/g.rom");
            assert_eq!(sha1, "HASH");
        }
        other => panic!("expected a move back, got {other:?}"),
    }
}

#[test]
fn a_shortage_of_room_refuses_a_real_run_unless_waived() {
    let mut plan = Plan::new("h".to_string());
    plan.add_copy(loose("/s/a", "A"), "/d/a".to_string(), 2_000_000);
    let refused = prepare(&plan, REAL, "h", &roomy());
    assert!(!refused.disk_ok);
    assert!(refused.refused.unwrap().starts_with("Not enough disk space: "));
    let waived = ApplyRunOptions { dry_run: false, skip_space_check: true };
    assert!(prepare(&plan, waived, "h", &roomy()).refused.is_none());
    // A plan under way is not stale on its own account.
    plan.operations[0].status = OperationStatus::Failed;
    assert!(prepare(&plan, waived, "other", &roomy()).refused.is_none());
}

#[test]
fn batches_of_several_repacks_are_announced() {
    match batch_notice(5, 3) {
        Some(ApplyEvent::RepackBatchStarted { count, in_flight }) => {
            assert_eq!((count, in_flight), (5, 3));
        }
        _ => panic!("expected a notice"),
    }
    assert!(batch_notice(1, 3).is_none());
    assert!(batch_notice(5, 1).is_none());
}

#[test]
fn repacks_are_shown_by_their_archive() {
    let shown = OpView::of(&OperationKind::Repack {
        sources: vec![loose("/s/a", "A"), loose("/s/b", "B")],
        dest: "/d/g.zip".to_string(),
        format: "zip".to_string(),
        move_sources: true,
        size: 9,
    });
    assert_eq!(shown.verb, "REPACK");
    assert_eq!(shown.from, "/d/g.zip");
    assert_eq!(shown.file_count, Some(2));
    assert_eq!(shown.bytes, 9);
}

fn source(id: i64, path: &str) -> Source {
    Source {
        id,
        path: path.to_string(),
        case_sensitive: false,
        added_at: String::new(),
        last_scanned: None,
        disposition: Disposition::Consume,
    }
}

#[test]
fn the_catalogue_follows_what_was_done() {
    let sources = vec![source(1, "/in"), source(2, "/lib")];
    let mut plan = Plan::new("h".to_string());
    plan.add_move(loose("/in/a.rom", "A"), "/lib/a.rom".to_string(), 1);
    plan.add_move(loose("/in/b.rom", "B"), "/elsewhere/b.rom".to_string(), 1);
    plan.add_copy(loose("/in/c.rom", "C"), "/lib/c.rom".to_string(), 1);
    plan.add_delete("/in/d.rom".to_string(), "dup".to_string());
    plan.add_repack(
        vec![SourceRef { entry_name: Some("e.rom".to_string()), ..loose("/in/e.bin", "E") }],
        "/lib/e.zip".to_string(),
        "zip".to_string(),
        1,
        true,
    );
    let after = |i: usize| sync_catalogue_after(&sources, &plan.operations[i].kind);
    match &after(0)[..] {
        [CatalogueAction::Relocate { from_source, from_path, to_source, to_path }] => {
            assert_eq!((*from_source, from_path.as_str()), (1, "a.rom"));
            assert_eq!((*to_source, to_path.as_str()), (2, "a.rom"));
        }
        other => panic!("expected a relocation, got {other:?}"),
    }
    match &after(1)[..] {
        [CatalogueAction::Remove { source_id: 1, path }] => assert_eq!(path, "b.rom"),
        other => panic!("expected a removal, got {other:?}"),
    }
    match &after(2)[..] {
        [CatalogueAction::Upsert { sha1, source_id: 2, path, entry: None }] => {
            assert_eq!((sha1.as_str(), path.as_str()), ("C", "c.rom"));
        }
        other => panic!("expected an addition, got {other:?}"),
    }
    match &after(3)[..] {
        [CatalogueAction::Remove { source_id: 1, path }] => assert_eq!(path, "d.rom"),
        other => panic!("expected a removal, got {other:?}"),
    }
    match &after(4)[..] {
        [CatalogueAction::Upsert { sha1, path, entry, .. }, CatalogueAction::Remove { path: gone, .. }] =>
        {
            assert_eq!(sha1, "E");
            assert_eq!(path, "e.zip");
            assert_eq!(entry.as_deref(), Some("e.rom"));
            assert_eq!(gone, "e.bin");
        }
        other => panic!("expected an addition and a removal, got {other:?}"),
    }
}

fn recorded(source_id: i64, path: &str, on_disk: bool) -> RecordedCopy {
    RecordedCopy {
        location: FileLocation {
            id: 1,
            sha1: "A".to_string(),
            source_id,
            path: path.to_string(),
            archive_path: None,
            last_seen: String::new(),
        },
        on_disk,
    }
}

#[test]
fn a_delete_needs_every_content_to_survive_elsewhere() {
    let sources = vec![source(1, "/in"), source(2, "/lib")];
    let survives = |contents: Vec<Vec<RecordedCopy>>| {
        delete_has_surviving_copy(&sources, "/in/a.zip", &contents)
    };
    assert!(survives(vec![vec![recorded(1, "a.zip", true), recorded(2, "a.zip", true)]]));
    // The copy that goes does not count, nor one that is not on disk.
    assert!(!survives(vec![vec![recorded(1, "a.zip", true)]]));
    assert!(!survives(vec![vec![recorded(1, "a.zip", true), recorded(2, "a.zip", false)]]));
    // One content of two has no other copy.
    assert!(!survives(vec![
        vec![recorded(1, "a.zip", true), recorded(2, "x.zip", true)],
        vec![recorded(1, "a.zip", true)],
    ]));
    // Nothing recorded vouches for nothing.
    assert!(!survives(Vec::new()));
    let copy = recorded(2, "x/y.zip", true);
    assert_eq!(copy_path(&sources, &copy.location).as_deref(), Some("/lib/x/y.zip"));
    assert_eq!(copy_path(&sources, &recorded(9, "x", true).location), None);
}

#[test]
fn a_preserved_tree_is_deduplicated_against_itself_only() {
    let mut kept = source(1, "/in");
    kept.disposition = Disposition::Preserve;
    let sources = vec![kept, source(2, "/lib")];
    let survives = |contents: Vec<Vec<RecordedCopy>>| {
        delete_has_surviving_copy(&sources, "/in/a.zip", &contents)
    };
    // A copy in another tree does not justify the delete.
    assert!(!survives(vec![vec![recorded(1, "a.zip", true), recorded(2, "a.zip", true)]]));
    assert!(survives(vec![vec![recorded(1, "a.zip", true), recorded(1, "b.zip", true)]]));
}

#[test]
fn quarantine_names_carry_the_digest() {
    assert_eq!(quarantine_filename("HASH", "/lib/a/g.rom"), "HASH_g.rom");
    assert_ne!(
        quarantine_filename("H1", "/lib/a/g.rom"),
        quarantine_filename("H2", "/lib/b/g.rom")
    );
}

const CPU_SHA1: &str = "76218C22675632AEF6A27578DD0A2C6471D995D5";

fn repack_of(plan: &mut Plan, i: usize, sha1: &str, entry_name: Option<&str>) {
    let source = SourceRef {
        entry_name: entry_name.map(|s| s.to_string()),
        ..loose(&format!("/t/src-{i}.rom"), sha1)
    };
    plan.add_repack(vec![source], format!("/t/game-{i}.zip"), "zip".to_string(), 8, false);
}

/// Runs the repacks of a plan, each on the bytes "cpu data", and gives the archives
/// that were built, the number of starts and whether each job succeeded.
fn run_repacks(plan: &mut Plan, jobs: usize) -> (Vec<Vec<u8>>, usize, Vec<(usize, bool)>) {
    let opts = ApplyOptions { jobs, ..options(false) };
    let mut run = ApplyRun::new(plan, &opts);
    assert!(matches!(run.next_step(plan, &opts), NextStep::Batches));
    let (placements, repacks) = run.take_batches();
    assert!(placements.is_empty());
    let workers = worker_count(opts.jobs, repacks.len());
    let (mut built, mut started, mut outcomes) = (Vec::new(), 0, Vec::new());
    for (n, job) in repacks.into_iter().enumerate() {
        let slot = n % workers;
        assert!(slot < jobs);
        let start = RepackEvent::Started { slot, plan_index: job.plan_index };
        started += run.repack_event(plan, start, None).len();
        let loaded = job
            .sources
            .iter()
            .map(|source| LoadedSource { source: source.clone(), data: b"cpu data".to_vec() })
            .collect();
        let result = match execute_repack(loaded, &job.format) {
            Ok(bytes) => {
                built.push(bytes);
                Ok(Vec::new())
            }
            Err(e) => Err(e.message()),
        };
        outcomes.push((job.plan_index, result.is_ok()));
        let finish = RepackEvent::Finished { slot, outcome: RepackOutcome { job, result } };
        run.repack_event(plan, finish, None);
    }
    (built, started, outcomes)
}

#[test]
fn execute_repacks_concurrent_runs_all_jobs() {
    let mut plan = Plan::new("hash".to_string());
    // More jobs than workers, so that workers take more than one.
    for i in 0..10 {
        repack_of(&mut plan, i, CPU_SHA1, Some("game.rom"));
    }
    let (built, started, outcomes) = run_repacks(&mut plan, 4);

    assert_eq!(started, 10, "every job started once");
    assert_eq!(outcomes, (0..10).map(|i| (i, true)).collect::<Vec<_>>(), "every job reported once");
    assert_eq!(built.len(), 10);
    for bytes in built {
        assert_eq!(read_zip_entry(bytes, "game.rom").unwrap(), b"cpu data");
    }
    assert!(plan.operations.iter().all(|op| op.status == OperationStatus::Completed));
}

#[test]
fn execute_repacks_concurrent_reports_failures_individually() {
    let mut plan = Plan::new("hash".to_string());
    repack_of(&mut plan, 0, CPU_SHA1, None);
    repack_of(&mut plan, 1, "0000000000000000000000000000000000000000", None);
    let (built, _, outcomes) = run_repacks(&mut plan, 2);

    // One job that fails verification doesn't take the batch down: the good one
    // still builds, and of the bad one nothing is left.
    assert_eq!(outcomes, vec![(0, true), (1, false)]);
    assert_eq!(built.len(), 1);
    assert_eq!(plan.operations[0].status, OperationStatus::Completed);
    assert_eq!(plan.operations[1].status, OperationStatus::Failed);
}

#[test]
fn work_for_the_workers_has_a_way_on_its_own() {
    let mut plan = Plan::new("hash".to_string());
    plan.add_copy(loose("/t/a.rom", "A"), "/d/a.rom".to_string(), 1);
    repack_of(&mut plan, 1, CPU_SHA1, None);
    let opts = options(false);
    let mut run = ApplyRun::new(&plan, &opts);

    let kind = match serial_task(&plan.operations[0], &opts) {
        SerialTask::Place(kind) => kind,
        other => panic!("expected a placement, got {other:?}"),
    };
    let job = PlacementJob { plan_index: 0, operation_id: plan.operations[0].id, kind };
    let outcome = PlacementOutcome { job, result: Ok(()) };
    let events = run.settle_serial_placement(&mut plan, outcome, None);
    assert!(matches!(
        &events[..],
        [ApplyEvent::OpFinished { index: 0, slot: None, status: OperationStatus::Completed, .. }]
    ));
    assert_eq!(plan.operations[0].status, OperationStatus::Completed);
    assert_eq!(run.log.as_ref().unwrap().entries.len(), 1);

    assert!(matches!(serial_task(&plan.operations[1], &opts), SerialTask::Unbatched));
    match &run.settle_unbatched(&mut plan, 1)[..] {
        [ApplyEvent::OpFinished { index: 1, slot: None, status, detail, .. }] => {
            assert_eq!(*status, OperationStatus::Failed);
            assert_eq!(detail.as_deref(), Some("internal: repack reached the serial path"));
        }
        _ => panic!("expected one end"),
    }
    assert_eq!(run.log.as_ref().unwrap().entries.len(), 1);
    assert_eq!((run.success_count, run.error_count), (1, 1));
}

#[test]
fn a_run_settles_each_remaining_operation_once() {
    let mut plan = Plan::new("hash".to_string());
    for i in 0..3 {
        plan.add_copy(loose(&format!("/t/{i}.rom"), "A"), format!("/d/{i}.rom"), 1);
        plan.add_delete(format!("/t/dup-{i}.rom"), "dup".to_string());
    }
    repack_of(&mut plan, 7, CPU_SHA1, None);
    plan.operations[2].status = OperationStatus::Completed;
    plan.operations[3].status = OperationStatus::Refused;
    plan.operations[4].status = OperationStatus::Failed;

    let (report, progress, _) = apply_streaming(&mut plan, REAL, "hash", &|job| {
        if job.plan_index == 4 {
            Err("again".to_string())
        } else {
            Ok(())
        }
    });
    assert_eq!((report.succeeded, report.failed), (4, 1));
    let mut ended: Vec<&str> =
        progress.iter().filter(|p| p.finished).map(|p| p.from.as_str()).collect();
    ended.sort_unstable();
    assert_eq!(
        ended,
        ["/t/0.rom", "/t/2.rom", "/t/dup-0.rom", "/t/dup-2.rom", "/t/game-7.zip"]
    );
}

#[test]
fn a_plan_from_before_the_epoch_counts() {
    let file = |path: &str, modified: i128| PlanFile {
        path: path.to_string(),
        modified: Some(modified),
    };
    assert_eq!(newest_plan_file(&vec![file("a.json", -5)]), Some(0));
    assert_eq!(newest_plan_file(&vec![file("a.json", -5), file("b.json", -4)]), Some(1));
}
