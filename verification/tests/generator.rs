use std::collections::BTreeMap;

use cat198x::db::collections::{Collection, CollectionVersion};
use cat198x::db::config::CollectionConfig;
use cat198x::db::dats::types::nested_node_path;
use cat198x::db::dats::{DatRom, MergeMode};
use cat198x::db::files::{Disposition, Source};
use cat198x::plan::collection_planning::CollectionPlanningContext;
use cat198x::plan::collection_scope::CollectionFacts;
use cat198x::plan::container_drains::ContainerDrains;
use cat198x::plan::collisions::{find_destination_collisions, DestinationCollision};
use cat198x::plan::desired_state::{compute_desired_state, DesiredState};
use cat198x::plan::error::PlanError;
use cat198x::plan::generator::{
    closing_notice, generate_plan, generate_plan_filtered, ClosingNotice,
};
use cat198x::plan::matching::{
    compute_shared_containers, compute_shared_content, count_match_rows_capped,
    load_collection_matches, HeldFile, ListedRom,
};
use cat198x::plan::options::{set_name, PlanOptions};
use cat198x::plan::rules::{effective_merge_mode, OutputFormat};
use cat198x::plan::source_policy::source_dispositions;
use cat198x::plan::{MatchedRom, OperationKind, Plan};
use cat198x::sorted_map::{SortedMap, SortedSet};

/// A catalogue held in memory.
struct Catalogue {
    collections: Vec<Collection>,
    versions: Vec<CollectionVersion>,
    /// Node paths by version
    nodes: Vec<(i64, String)>,
    listed: Vec<ListedRom>,
    /// Digest, CRC32 and size of each known content
    files: Vec<(String, Option<String>, i64)>,
    sources: Vec<Source>,
    /// Digest, source, path and entry of each held copy
    locations: Vec<(String, i64, String, Option<String>)>,
    configs: Vec<CollectionConfig>,
}

/// A game to which ROMs are added.
#[derive(Clone)]
struct Game {
    version_id: i64,
    id: i64,
    name: String,
    is_clone: bool,
}

impl Catalogue {
    fn new() -> Catalogue {
        Catalogue {
            collections: Vec::new(),
            versions: Vec::new(),
            nodes: Vec::new(),
            listed: Vec::new(),
            files: Vec::new(),
            sources: Vec::new(),
            locations: Vec::new(),
            configs: Vec::new(),
        }
    }

    /// Adds a collection with one active version whose primary node has the path
    /// given, and returns the version.
    fn add_collection(
        &mut self,
        name: &str,
        source_type: &str,
        dat_path: &str,
        hierarchy: &str,
    ) -> i64 {
        let id = self.collections.len() as i64 + 1;
        self.collections.push(Collection {
            id,
            name: name.to_string(),
            source_type: source_type.to_string(),
            created_at: String::new(),
        });
        self.versions.push(CollectionVersion {
            id,
            collection_id: id,
            version: "v1".to_string(),
            dat_path: dat_path.to_string(),
            is_active: true,
            imported_at: String::new(),
        });
        self.nodes.push((id, hierarchy.to_string()));
        id
    }

    fn add_game(&mut self, version_id: i64, name: &str, parent: Option<&str>) -> Game {
        let id = self.listed.len() as i64 + 1000;
        Game { version_id, id, name: name.to_string(), is_clone: parent.is_some() }
    }

    #[allow(clippy::too_many_arguments)]
    fn list(
        &mut self,
        game: &Game,
        name: &str,
        size: i64,
        sha1: Option<&str>,
        crc32: Option<&str>,
        merge_tag: Option<&str>,
        is_disk: bool,
    ) {
        let id = self.listed.len() as i64 + 1;
        self.listed.push(ListedRom {
            version_id: game.version_id,
            game_name: game.name.clone(),
            is_clone: game.is_clone,
            rom: DatRom {
                id,
                game_id: game.id,
                name: name.to_string(),
                size,
                sha1: sha1.map(|s| s.to_string()),
                md5: None,
                crc32: crc32.map(|s| s.to_string()),
                status: "good".to_string(),
                merge_tag: merge_tag.map(|s| s.to_string()),
                is_disk,
            },
        });
    }

    fn add_rom(&mut self, version_id: i64, game_name: &str, rom_name: &str, sha1: &str) {
        let game = self.add_game(version_id, game_name, None);
        self.list(&game, rom_name, 10, Some(sha1), None, None, false);
    }

    fn add_file(&mut self, sha1: &str, crc32: Option<&str>, size: i64) {
        self.files.push((sha1.to_string(), crc32.map(|s| s.to_string()), size));
    }

    fn add_source(&mut self, id: i64, path: &str, disposition: Option<Disposition>) {
        self.sources.push(Source {
            id,
            path: path.to_string(),
            case_sensitive: false,
            added_at: String::new(),
            last_scanned: None,
            disposition: disposition.unwrap_or(Disposition::Preserve),
        });
    }

    fn add_location(&mut self, sha1: &str, source_id: i64, path: &str, entry: Option<&str>) {
        self.locations.push((
            sha1.to_string(),
            source_id,
            path.to_string(),
            entry.map(|s| s.to_string()),
        ));
    }

    fn set_output_format(&mut self, pattern: &str, format: &str) {
        self.configs.push(CollectionConfig {
            id: self.configs.len() as i64 + 1,
            path_pattern: pattern.to_string(),
            dest_path: None,
            output_format: Some(format.to_string()),
            merge_mode: None,
            extra_config: None,
        });
    }

    fn set_dest_path(&mut self, pattern: &str, dest: &str) {
        self.configs.push(CollectionConfig {
            id: self.configs.len() as i64 + 1,
            path_pattern: pattern.to_string(),
            dest_path: Some(dest.to_string()),
            output_format: None,
            merge_mode: None,
            extra_config: None,
        });
    }

    fn config(&self, pattern: &str) -> Option<CollectionConfig> {
        let found = self.configs.iter().find(|c| c.path_pattern == pattern)?;
        Some(CollectionConfig {
            id: found.id,
            path_pattern: found.path_pattern.clone(),
            dest_path: found.dest_path.clone(),
            output_format: found.output_format.clone(),
            merge_mode: found.merge_mode.clone(),
            extra_config: None,
        })
    }

    fn held(&self) -> Vec<HeldFile> {
        let mut held = Vec::new();
        for (sha1, source_id, path, entry) in &self.locations {
            let (_, crc32, size) = self.files.iter().find(|f| &f.0 == sha1).unwrap();
            let source = self.sources.iter().find(|s| s.id == *source_id).unwrap();
            held.push(HeldFile {
                sha1: sha1.clone(),
                md5: None,
                crc32: crc32.clone(),
                size: *size,
                source_root: source.path.clone(),
                source_path: path.clone(),
                archive_path: entry.clone(),
            });
        }
        held
    }

    fn listed_of(&self, version_id: i64) -> Vec<ListedRom> {
        self.listed
            .iter()
            .filter(|l| l.version_id == version_id)
            .map(|l| ListedRom {
                version_id,
                game_name: l.game_name.clone(),
                is_clone: l.is_clone,
                rom: l.rom.clone(),
            })
            .collect()
    }

    fn facts(&self, opts: &PlanOptions) -> Vec<CollectionFacts> {
        let held = self.held();
        let mut all = Vec::new();
        for collection in &self.collections {
            let version = self.versions.iter().find(|v| v.collection_id == collection.id);
            let node_path = version
                .and_then(|v| self.nodes.iter().find(|n| n.0 == v.id))
                .map(|n| n.1.clone());
            let hierarchy = node_path.clone().unwrap_or_else(|| collection.name.clone());
            let config = self.config(&collection.name);
            let set_config = self.config(&set_name(&hierarchy));
            let listed = version.map(|v| self.listed_of(v.id)).unwrap_or_default();
            let mode =
                effective_merge_mode(opts.default_merge_mode, config.as_ref(), set_config.as_ref());
            all.push(CollectionFacts {
                collection: collection.clone(),
                version: version.cloned(),
                node_path,
                config,
                set_config,
                has_disks: listed.iter().any(|l| l.rom.is_disk),
                has_roms: listed.iter().any(|l| !l.rom.is_disk),
                match_rows: count_match_rows_capped(&listed, &held, 1_000_000),
                matches: load_collection_matches(&listed, &held, mode),
            });
        }
        all
    }

    fn try_plan(&self, opts: &PlanOptions) -> Result<Plan, PlanError> {
        let held = self.held();
        let shared = compute_shared_content(&self.listed, &held);
        let shared_containers = compute_shared_containers(&self.listed, &held);
        let dispositions = source_dispositions(&self.sources);
        let ctx = CollectionPlanningContext {
            opts,
            shared: &shared,
            shared_containers: &shared_containers,
            dispositions: &dispositions,
        };
        generate_plan_filtered("state".to_string(), &self.facts(opts), &ctx)
    }

    fn plan(&self, opts: &PlanOptions) -> Plan {
        self.try_plan(opts).unwrap()
    }

    fn plan_with_default_dest(&self, default_format: OutputFormat) -> Plan {
        self.plan(&PlanOptions {
            default_dest: Some("/lib/ROMs".to_string()),
            default_format,
            ..Default::default()
        })
    }

    fn collisions(&self, opts: &PlanOptions) -> Vec<DestinationCollision> {
        find_destination_collisions(opts, &self.facts(opts)).unwrap()
    }

    fn desired_state(&self, opts: &PlanOptions, interesting: &[&str]) -> DesiredState {
        let mut set = SortedSet::new();
        for sha1 in interesting {
            set.insert(sha1.to_string());
        }
        compute_desired_state(opts, &self.facts(opts), &set).unwrap()
    }
}

fn deletes(plan: &Plan) -> Vec<(String, String)> {
    plan.operations
        .iter()
        .filter_map(|op| match &op.kind {
            OperationKind::Delete { path, reason, .. } => Some((path.clone(), reason.clone())),
            _ => None,
        })
        .collect()
}

fn relocates(plan: &Plan) -> Vec<(String, String)> {
    plan.operations
        .iter()
        .filter_map(|op| match &op.kind {
            OperationKind::Relocate { source, dest, .. } => Some((source.clone(), dest.clone())),
            _ => None,
        })
        .collect()
}

/// Map each game's planned archive to the sorted canonical entry names it
/// will hold, read from the repack sources' `entry_name`.
fn repack_entries(plan: &Plan) -> BTreeMap<String, Vec<String>> {
    let mut by_dest: BTreeMap<String, Vec<String>> = BTreeMap::new();
    for op in &plan.operations {
        if let OperationKind::Repack { sources, dest, .. } = &op.kind {
            let mut entries: Vec<String> =
                sources.iter().filter_map(|s| s.entry_name.clone()).collect();
            entries.sort();
            by_dest.insert(dest.clone(), entries);
        }
    }
    by_dest
}

/// A one-ROM collection whose held file exists in two places: already at its
/// canonical destination under the library, and a staged duplicate elsewhere.
/// `archived` controls whether the file is a loose file or an inner entry of a
/// `.zip` (and sets the per-set format accordingly).
fn dup_fixture(archived: bool) -> Catalogue {
    let mut cat = Catalogue::new();
    let node = cat.add_collection("Test Coll", "tosec", "/dats/test.dat", "SET/Sys");
    cat.add_rom(node, "Game", "game.rom", "AAA");
    cat.add_file("AAA", None, 10);

    // Library copy (already at the canonical destination) and a ToSort dup.
    cat.add_source(101, "/lib/ROMs/SET/Sys", Some(Disposition::Preserve));
    cat.add_source(102, "/lib/ToSort/SET", Some(Disposition::Consume));
    if archived {
        // Each copy is a .zip holding the ROM as an inner entry.
        cat.add_location("AAA", 101, "Game.zip", Some("game.rom"));
        cat.add_location("AAA", 102, "Sys/Game.zip", Some("game.rom"));
        cat.set_output_format("SET", "zip");
    } else {
        cat.add_location("AAA", 101, "game.rom", None);
        cat.add_location("AAA", 102, "Sys/game.rom", None);
    }
    cat
}

/// A parent/clone pair where the clone holds one inherited (merge-tagged) ROM
/// shared with the parent plus one of its own.
fn parent_clone_fixture() -> Catalogue {
    let mut cat = Catalogue::new();
    let vid = cat.add_collection("Arcade", "mame", "/dats/mame.dat", "ARCADE");

    // Parent: owns shared.rom (AAA), no merge tag.
    let parent = cat.add_game(vid, "puckman", None);
    cat.list(&parent, "shared.rom", 10, Some("AAA"), None, None, false);

    // Clone of puckman: shared.rom is inherited (merge-tagged → lives in the
    // parent under split); clone.rom (BBB) is its own unique ROM.
    let clone = cat.add_game(vid, "pacmanm", Some("puckman"));
    cat.list(&clone, "shared.rom", 10, Some("AAA"), None, Some("shared.rom"), false);
    cat.list(&clone, "clone.rom", 10, Some("BBB"), None, None, false);

    cat.add_file("AAA", None, 10);
    cat.add_file("BBB", None, 10);
    cat.add_source(400, "/lib/ToSort/ARCADE", None);
    // Both ROMs held loose in ToSort.
    cat.add_location("AAA", 400, "shared.rom", None);
    cat.add_location("BBB", 400, "clone.rom", None);
    cat
}

fn split_zip() -> PlanOptions {
    PlanOptions {
        default_dest: Some("/lib/ROMs".to_string()),
        default_format: OutputFormat::Zip,
        default_merge_mode: MergeMode::Split,
        ..Default::default()
    }
}

fn under(default_dest: &str) -> PlanOptions {
    PlanOptions { default_dest: Some(default_dest.to_string()), ..Default::default() }
}

fn check_test_generate_plan_no_config() {
    let plan = generate_plan(
        "state".to_string(),
        &[],
        &SortedSet::new(),
        &SortedSet::new(),
        &SortedMap::new(),
    )
    .unwrap();
    assert!(plan.is_empty());
}

#[test]
fn generator_test_generate_plan_no_config() {
    check_test_generate_plan_no_config();
}

#[test]
fn planning_scope_test_generate_plan_no_config() {
    check_test_generate_plan_no_config();
}

fn check_plan_records_collections_skipped_for_no_destination() {
    let mut cat = Catalogue::new();
    // A collection with an active version but no dest_path and no default.
    cat.add_collection("No Dest Coll", "tosec", "/tmp/x.dat", "No Dest Coll");

    let plan = cat.plan(&PlanOptions::default());
    assert!(plan.is_empty(), "no destination → no operations");
    assert_eq!(plan.skipped_no_dest, vec!["No Dest Coll".to_string()]);
}

#[test]
fn generator_plan_records_collections_skipped_for_no_destination() {
    check_plan_records_collections_skipped_for_no_destination();
}

#[test]
fn planning_scope_plan_records_collections_skipped_for_no_destination() {
    check_plan_records_collections_skipped_for_no_destination();
}

fn check_refuses_when_two_collections_share_a_destination_root() {
    let mut cat = Catalogue::new();
    // Both collections have the flat hierarchy "FBN", so both resolve to
    // <default>/FBN — the flat-namespace trap that overwrites same-named games.
    for name in ["Arcade Games", "Game Gear Games"] {
        cat.add_collection(name, "mame", &format!("/d/{name}.dat"), "FBN");
    }
    let msg = cat.try_plan(&under("/lib/ROMs")).unwrap_err().message();
    assert!(msg.contains("share a destination root"), "got: {msg}");
    assert!(msg.contains("/lib/ROMs/FBN"), "names the shared root: {msg}");
    assert!(
        msg.contains("Arcade Games") && msg.contains("Game Gear Games"),
        "names the colliding collections: {msg}"
    );
}

#[test]
fn generator_refuses_when_two_collections_share_a_destination_root() {
    check_refuses_when_two_collections_share_a_destination_root();
}

#[test]
fn planning_scope_refuses_when_two_collections_share_a_destination_root() {
    check_refuses_when_two_collections_share_a_destination_root();
}

fn check_allows_collections_with_distinct_destination_roots() {
    let mut cat = Catalogue::new();
    // Per-machine hierarchies → distinct roots → no collision, plan proceeds.
    for (name, path) in [("Arcade Games", "FBN/Arcade"), ("Game Gear Games", "FBN/Game Gear")] {
        cat.add_collection(name, "mame", &format!("/d/{name}.dat"), path);
    }
    let plan = cat.plan(&under("/lib/ROMs"));
    assert!(plan.is_empty(), "no held content, so an empty but valid plan");
}

#[test]
fn generator_allows_collections_with_distinct_destination_roots() {
    check_allows_collections_with_distinct_destination_roots();
}

#[test]
fn planning_scope_allows_collections_with_distinct_destination_roots() {
    check_allows_collections_with_distinct_destination_roots();
}

fn check_allows_a_chd_collection_to_share_a_root_with_a_rom_collection() {
    let mut cat = Catalogue::new();
    // A ROM collection and a disk-only CHD collection, both at root "Demul".
    // A game's `<game>.zip` and its `<game>/<name>.chd` don't collide.
    let roms = cat.add_collection("Demul ROMs", "mame", "/d/r.dat", "Demul");
    cat.add_rom(roms, "azumanga", "a.rom", "AAA");
    let chds = cat.add_collection("Demul CHDs", "mame", "/d/c.dat", "Demul");
    let game = cat.add_game(chds, "azumanga", None);
    cat.list(&game, "gdl-0018", 0, Some("DDD"), None, None, true);

    // The guard must NOT refuse — ROM and CHD are different output namespaces.
    let plan = cat.plan(&under("/lib/ROMs"));
    assert!(plan.is_empty(), "no held content, but an un-refused plan");
}

#[test]
fn generator_allows_a_chd_collection_to_share_a_root_with_a_rom_collection() {
    check_allows_a_chd_collection_to_share_a_root_with_a_rom_collection();
}

#[test]
fn planning_scope_allows_a_chd_collection_to_share_a_root_with_a_rom_collection() {
    check_allows_a_chd_collection_to_share_a_root_with_a_rom_collection();
}

fn check_set_filter_restricts_planning_to_requested_sets() {
    let cat = dup_fixture(false); // collection whose set (top segment) is "SET"

    let opts = |sets: Option<Vec<String>>| PlanOptions {
        set_filter: sets,
        default_dest: Some("/lib/ROMs".to_string()),
        default_format: OutputFormat::Loose,
        ..Default::default()
    };

    // A non-matching set is skipped entirely — no operations.
    let other = cat.plan(&opts(Some(vec!["TOSEC".to_string()])));
    assert!(other.is_empty(), "collection in set 'SET' excluded by --set TOSEC");

    // The matching set is planned.
    let matched = cat.plan(&opts(Some(vec!["SET".to_string()])));
    assert!(!matched.is_empty(), "set 'SET' is planned when requested");
}

#[test]
fn generator_set_filter_restricts_planning_to_requested_sets() {
    check_set_filter_restricts_planning_to_requested_sets();
}

#[test]
fn planning_scope_set_filter_restricts_planning_to_requested_sets() {
    check_set_filter_restricts_planning_to_requested_sets();
}

#[test]
fn find_destination_collisions_groups_colliders_and_flags_explicit_dest() {
    let mut cat = Catalogue::new();
    // Two collections share the flat root "FBN"; neither has an explicit dest.
    for name in ["Arcade Games", "Game Gear Games"] {
        cat.add_collection(name, "mame", &format!("/d/{name}.dat"), "FBN");
    }
    let collisions = cat.collisions(&under("/lib"));
    assert_eq!(collisions.len(), 1, "one shared root");
    let c = &collisions[0];
    assert_eq!(c.root, "/lib/FBN");
    assert!(!c.disk_only, "ROM-output namespace");
    assert_eq!(c.collections.len(), 2);
    assert!(
        c.collections.iter().all(|m| !m.has_explicit_dest),
        "neither has an explicit dest"
    );
}

#[test]
fn nesting_colliders_under_their_name_clears_the_collision() {
    let mut cat = Catalogue::new();
    for name in ["Arcade Games", "Game Gear Games"] {
        cat.add_collection(name, "mame", &format!("/d/{name}.dat"), "FBN");
    }
    let before = cat.collisions(&under("/lib"));
    assert_eq!(before.len(), 1);
    // The doctor --fix action: nest each non-explicit collider under its name.
    for member in &before[0].collections {
        let node = cat.nodes.iter_mut().find(|n| n.0 == member.version_id).unwrap();
        let new_path = nested_node_path(&node.1, &member.name);
        assert!(new_path.starts_with("FBN/"), "nested under FBN: {new_path}");
        node.1 = new_path;
    }
    let after = cat.collisions(&under("/lib"));
    assert!(after.is_empty(), "each now resolves to a distinct root");
}

fn check_dedup_never_deletes_a_placed_library_copy() {
    // One single-ROM game whose content is held at three places: the canonical
    // destination (already correct), a *second* library path — a sibling
    // placement, as a merged-set clone would have (one DAT game, so not
    // flagged as shared content) — and a stray copy under ToSort.
    let mut cat = Catalogue::new();
    let node = cat.add_collection("Merge Coll", "mame", "/dats/m.dat", "SET/Sys");
    cat.add_rom(node, "Game", "shared.bin", "SSS");
    cat.add_file("SSS", None, 10);
    cat.add_source(1, "/lib/ROMs/SET/Sys", Some(Disposition::Preserve));
    cat.add_source(2, "/lib/ROMs/SET/Sys/clone", Some(Disposition::Preserve));
    cat.add_source(3, "/lib/ToSort/SET", Some(Disposition::Consume));
    cat.add_location("SSS", 1, "shared.bin", None);
    cat.add_location("SSS", 2, "shared.bin", None);
    cat.add_location("SSS", 3, "shared.bin", None);

    let plan = cat.plan_with_default_dest(OutputFormat::Loose);

    // Only the ToSort stray is deleted; both library copies are left in place.
    let deleted: Vec<String> = deletes(&plan).into_iter().map(|d| d.0).collect();
    assert_eq!(
        deleted,
        vec!["/lib/ToSort/SET/shared.bin".to_string()],
        "a placed library copy must never be deleted as a duplicate"
    );
}

#[test]
fn generator_dedup_never_deletes_a_placed_library_copy() {
    check_dedup_never_deletes_a_placed_library_copy();
}

#[test]
fn duplicate_delete_policy_dedup_never_deletes_a_placed_library_copy() {
    check_dedup_never_deletes_a_placed_library_copy();
}

fn check_loose_duplicate_is_deleted_canonical_kept_in_place() {
    let plan = dup_fixture(false).plan_with_default_dest(OutputFormat::Loose);

    // The library copy at /lib/ROMs/SET/Sys/game.rom is already correct, so
    // no move; the ToSort copy is an exact-content duplicate and is deleted
    // (its bytes are preserved by the canonical copy).
    assert_eq!(plan.summary.move_count, 0, "canonical copy already in place");
    assert_eq!(plan.summary.copy_count, 0);
    assert_eq!(plan.summary.quarantine_count, 0, "dups are deleted, not quarantined");
    assert_eq!(plan.summary.delete_count, 1, "ToSort dup deleted");
    let deleted = deletes(&plan);
    assert_eq!(deleted.len(), 1);
    assert_eq!(deleted[0].0, "/lib/ToSort/SET/Sys/game.rom");
    // The delete records why it is safe: the canonical copy it keeps. Every
    // planner delete is a dedup, so the reason names a surviving path.
    assert!(
        deleted[0].1.starts_with("exact duplicate — kept ") && deleted[0].1.contains("game.rom"),
        "reason names the kept copy: {:?}",
        deleted[0].1
    );
}

#[test]
fn generator_loose_duplicate_is_deleted_canonical_kept_in_place() {
    check_loose_duplicate_is_deleted_canonical_kept_in_place();
}

#[test]
fn duplicate_delete_policy_loose_duplicate_is_deleted_canonical_kept_in_place() {
    check_loose_duplicate_is_deleted_canonical_kept_in_place();
}

fn check_loose_duplicate_left_untouched_for_a_preserve_source() {
    let mut cat = dup_fixture(false);
    // A preserve source never loses content, so its exact-content duplicate
    // is left in place rather than deleted.
    cat.sources.iter_mut().find(|s| s.path == "/lib/ToSort/SET").unwrap().disposition =
        Disposition::Preserve;

    let plan = cat.plan_with_default_dest(OutputFormat::Loose);
    assert_eq!(plan.summary.delete_count, 0, "copy mode deletes nothing");
    assert_eq!(plan.summary.quarantine_count, 0);
}

#[test]
fn generator_loose_duplicate_left_untouched_for_a_preserve_source() {
    check_loose_duplicate_left_untouched_for_a_preserve_source();
}

#[test]
fn duplicate_delete_policy_loose_duplicate_left_untouched_for_a_preserve_source() {
    check_loose_duplicate_left_untouched_for_a_preserve_source();
}

fn check_archive_duplicate_container_is_deleted() {
    // The default format is overridden to zip per set.
    let plan = dup_fixture(true).plan_with_default_dest(OutputFormat::Loose);

    // The complete archive already sits at /lib/ROMs/SET/Sys/Game.zip, so
    // nothing is built; the ToSort .zip is a duplicate container and deleted.
    assert_eq!(plan.summary.repack_count, 0, "canonical archive already at dest");
    assert_eq!(plan.summary.delete_count, 1);
    let deleted: Vec<String> = deletes(&plan).into_iter().map(|d| d.0).collect();
    assert_eq!(deleted, vec!["/lib/ToSort/SET/Sys/Game.zip".to_string()]);
}

#[test]
fn generator_archive_duplicate_container_is_deleted() {
    check_archive_duplicate_container_is_deleted();
}

#[test]
fn duplicate_delete_policy_archive_duplicate_container_is_deleted() {
    check_archive_duplicate_container_is_deleted();
}

fn check_preserve_loose_is_consolidated_into_an_archive_in_the_same_tree() {
    let mut cat = Catalogue::new();
    let node = cat.add_collection("Lib Coll", "tosec", "/dats/l.dat", "SET/Sys");
    cat.add_rom(node, "Game", "game.rom", "AAA");
    cat.add_file("AAA", None, 10);

    // The library destination is itself a preserve source, and the loose ROM
    // already lives inside it. Consolidating it into Game.zip keeps the content
    // in the same tree, so the loose original may be consumed.
    cat.add_source(101, "/lib/ROMs/SET/Sys", Some(Disposition::Preserve));
    cat.add_location("AAA", 101, "game.rom", None);
    cat.set_output_format("SET", "zip");

    let plan = cat.plan_with_default_dest(OutputFormat::Loose);

    // One repack builds the canonical Game.zip, and because the archive lands
    // in the same preserve tree, it consumes the loose source (move_sources) —
    // the loose original is not left behind. No separate delete is emitted.
    assert_eq!(plan.summary.repack_count, 1, "the loose ROM is archived");
    assert_eq!(plan.summary.delete_count, 0, "consumed by the repack, not deleted");
    let consumes_loose = plan.operations.iter().any(|op| {
        matches!(
            &op.kind,
            OperationKind::Repack { move_sources: true, dest, .. } if dest.ends_with("Game.zip")
        )
    });
    assert!(
        consumes_loose,
        "loose→archive consolidation within a preserve tree consumes the loose source"
    );
}

#[test]
fn generator_preserve_loose_is_consolidated_into_an_archive_in_the_same_tree() {
    check_preserve_loose_is_consolidated_into_an_archive_in_the_same_tree();
}

#[test]
fn duplicate_delete_policy_preserve_loose_is_consolidated_into_an_archive_in_the_same_tree() {
    check_preserve_loose_is_consolidated_into_an_archive_in_the_same_tree();
}

fn check_shared_content_is_copied_to_each_destination_not_moved() {
    // One physical file's content (BBB) belongs to two distinct games — two
    // destinations. It is held once, in ToSort (at neither destination).
    let mut cat = Catalogue::new();
    let node = cat.add_collection("Shared Coll", "tosec", "/dats/s.dat", "SET/Sys");
    cat.add_rom(node, "GameA", "a.rom", "BBB");
    cat.add_rom(node, "GameB", "b.rom", "BBB");
    cat.add_file("BBB", None, 10);
    cat.add_source(200, "/lib/ToSort/SET", Some(Disposition::Consume));
    cat.add_location("BBB", 200, "Sys/shared.rom", None);

    let plan = cat.plan_with_default_dest(OutputFormat::Loose);

    // Both distinct entries get a real copy; the shared source is never moved
    // or deleted, so neither destination can be stranded.
    assert_eq!(plan.summary.move_count, 0, "shared content is copied, not moved");
    assert_eq!(plan.summary.delete_count, 0, "a shared source is never deleted");
    assert_eq!(plan.summary.copy_count, 2, "a real copy for each distinct destination");
}

#[test]
fn generator_shared_content_is_copied_to_each_destination_not_moved() {
    check_shared_content_is_copied_to_each_destination_not_moved();
}

#[test]
fn archive_repack_policy_shared_content_is_copied_to_each_destination_not_moved() {
    check_shared_content_is_copied_to_each_destination_not_moved();
}

fn check_disk_is_planned_loose_in_a_machine_folder_even_for_a_zip_set() {
    // A CHD (<disk>) in a zip-format set must still be placed loose at
    // <dest>/<game>/<name>.chd — never packed into an archive.
    let mut cat = Catalogue::new();
    let node = cat.add_collection("MAME CHDs", "mame", "/dats/chd.dat", "MAME");
    let game = cat.add_game(node, "azumanga", None);
    // A disk: name without extension, sha1 = the CHD's internal hash.
    cat.list(&game, "gdl-0018", 0, Some("DDD"), None, None, true);
    cat.add_file("DDD", None, 4096);
    cat.add_source(300, "/lib/ToSort/MAME", None);
    cat.add_location("DDD", 300, "MAME CHDs (merged)/azumanga/gdl-0018.chd", None);

    // Zip is the set format — the disk must ignore it and stay loose.
    let plan = cat.plan_with_default_dest(OutputFormat::Zip);

    // No archive is built for a disk.
    assert_eq!(plan.summary.repack_count, 0, "a CHD is never packed");
    // It is copied loose to <dest>/MAME/<game>/<name>.chd.
    let copies: Vec<String> = plan
        .operations
        .iter()
        .filter_map(|op| match &op.kind {
            OperationKind::Copy { dest, .. } => Some(dest.clone()),
            _ => None,
        })
        .collect();
    assert_eq!(copies, vec!["/lib/ROMs/MAME/azumanga/gdl-0018.chd".to_string()]);
}

#[test]
fn generator_disk_is_planned_loose_in_a_machine_folder_even_for_a_zip_set() {
    check_disk_is_planned_loose_in_a_machine_folder_even_for_a_zip_set();
}

#[test]
fn archive_repack_policy_disk_is_planned_loose_in_a_machine_folder_even_for_a_zip_set() {
    check_disk_is_planned_loose_in_a_machine_folder_even_for_a_zip_set();
}

fn check_shared_detection_matches_crc_only_arcade_content() {
    // Arcade DATs (MAME / FinalBurn Neo) are CRC-only: their ROMs have no sha1
    // and match held content by CRC32 + size. Both detectors must see it.
    let mut cat = Catalogue::new();
    let node = cat.add_collection("Arcade", "mame", "/dats/a.dat", "ARCADE");

    // Two distinct games whose ROM is the same content, declared CRC-only.
    let parent = cat.add_game(node, "2010", None);
    cat.list(&parent, "p.rom", 100, None, Some("AABBCCDD"), None, false);
    let clone = cat.add_game(node, "2010p1", Some("2010"));
    cat.list(&clone, "p.rom", 100, None, Some("AABBCCDD"), None, false);

    // One held file (real sha1) carrying that CRC32/size, inside one archive.
    cat.add_file("FILESHA", Some("AABBCCDD"), 100);
    cat.add_source(500, "/lib/ToSort/ARCADE", None);
    cat.add_location("FILESHA", 500, "2010.zip", Some("p.rom"));

    let shared = compute_shared_content(&cat.listed, &cat.held());
    assert!(
        shared.contains("FILESHA"),
        "CRC-only content shared across two games must be flagged shared"
    );

    let containers = compute_shared_containers(&cat.listed, &cat.held());
    assert!(
        containers.contains("/lib/ToSort/ARCADE/2010.zip"),
        "a container sourcing two games by CRC32 must be flagged shared (repack, not relocate)"
    );
}

#[test]
fn generator_shared_detection_matches_crc_only_arcade_content() {
    check_shared_detection_matches_crc_only_arcade_content();
}

#[test]
fn archive_repack_policy_shared_detection_matches_crc_only_arcade_content() {
    check_shared_detection_matches_crc_only_arcade_content();
}

fn check_split_mode_drops_a_clones_inherited_rom_from_its_archive() {
    // Zip + split — the chosen arcade layout. The clone's archive must hold
    // only its own unique ROM; the inherited (merge-tagged) shared.rom lives
    // in the parent's archive, not the clone's.
    let plan = parent_clone_fixture().plan(&split_zip());

    let entries = repack_entries(&plan);
    assert_eq!(
        entries.get("/lib/ROMs/ARCADE/pacmanm.zip"),
        Some(&vec!["clone.rom".to_string()]),
        "split: the clone archive holds only its own unique ROM"
    );
    assert_eq!(
        entries.get("/lib/ROMs/ARCADE/puckman.zip"),
        Some(&vec!["shared.rom".to_string()]),
        "split: the inherited ROM lives in the parent archive"
    );
}

#[test]
fn generator_split_mode_drops_a_clones_inherited_rom_from_its_archive() {
    check_split_mode_drops_a_clones_inherited_rom_from_its_archive();
}

#[test]
fn archive_repack_policy_split_mode_drops_a_clones_inherited_rom_from_its_archive() {
    check_split_mode_drops_a_clones_inherited_rom_from_its_archive();
}

fn check_non_merged_mode_keeps_a_clones_inherited_rom_in_its_archive() {
    // Default merge mode (NonMerged): every ROM the DAT lists per game is
    // placed, so the clone's archive carries its own copy of the inherited
    // shared.rom alongside its unique ROM.
    let plan = parent_clone_fixture().plan_with_default_dest(OutputFormat::Zip);

    let entries = repack_entries(&plan);
    assert_eq!(
        entries.get("/lib/ROMs/ARCADE/pacmanm.zip"),
        Some(&vec!["clone.rom".to_string(), "shared.rom".to_string()]),
        "non-merged: the clone archive carries its own copy of the inherited ROM"
    );
}

#[test]
fn generator_non_merged_mode_keeps_a_clones_inherited_rom_in_its_archive() {
    check_non_merged_mode_keeps_a_clones_inherited_rom_in_its_archive();
}

#[test]
fn archive_repack_policy_non_merged_mode_keeps_a_clones_inherited_rom_in_its_archive() {
    check_non_merged_mode_keeps_a_clones_inherited_rom_in_its_archive();
}

fn check_shared_archive_content_is_repacked_to_each_game_not_consumed() {
    // Content CCC belongs to two distinct games in a zip-format set, held once
    // as a loose file in ToSort.
    let mut cat = Catalogue::new();
    let node = cat.add_collection("Shared Zip", "tosec", "/dats/z.dat", "SET/Sys");
    cat.add_rom(node, "GA", "r.rom", "CCC");
    cat.add_rom(node, "GB", "r.rom", "CCC");
    cat.add_file("CCC", None, 10);
    cat.add_source(201, "/lib/ToSort/SET", Some(Disposition::Consume));
    cat.add_location("CCC", 201, "Sys/shared.rom", None);
    cat.set_output_format("SET", "zip");

    let plan = cat.plan_with_default_dest(OutputFormat::Loose);

    // Each game's archive is built by copying; the shared loose source is
    // neither consumed by a repack nor removed as a duplicate container.
    assert_eq!(plan.summary.repack_count, 2, "an archive built for each game");
    assert_eq!(plan.summary.delete_count, 0, "shared source never deleted");
    let none_consume_source = plan.operations.iter().all(|op| match &op.kind {
        OperationKind::Repack { move_sources, .. } => !*move_sources,
        _ => true,
    });
    assert!(none_consume_source, "shared repacks must not consume their source");
}

#[test]
fn generator_shared_archive_content_is_repacked_to_each_game_not_consumed() {
    check_shared_archive_content_is_repacked_to_each_game_not_consumed();
}

#[test]
fn archive_repack_policy_shared_archive_content_is_repacked_to_each_game_not_consumed() {
    check_shared_archive_content_is_repacked_to_each_game_not_consumed();
}

fn check_shared_container_is_repacked_per_game_not_relocated_whole() {
    // One archive (bundle.zip) holds ROMs for two distinct games — a
    // multi-game container. Each game's ROM is a different entry/SHA1.
    let mut cat = Catalogue::new();
    let node = cat.add_collection("Bundle Coll", "tosec", "/dats/b.dat", "SET/Sys");
    cat.add_rom(node, "GameOne", "a.rom", "AAA");
    cat.add_rom(node, "GameTwo", "b.rom", "BBB");
    cat.add_file("AAA", None, 10);
    cat.add_file("BBB", None, 10);
    cat.add_source(210, "/lib/ToSort/SET", Some(Disposition::Consume));
    // Both ROMs live as entries inside the SAME archive file.
    cat.add_location("AAA", 210, "bundle.zip", Some("a.rom"));
    cat.add_location("BBB", 210, "bundle.zip", Some("b.rom"));
    cat.set_output_format("SET", "zip");

    let plan = cat.plan_with_default_dest(OutputFormat::Loose);

    // The shared container is repacked per game (extracting each game's own
    // entry), never relocated whole (which would strand the other game).
    assert_eq!(
        relocates(&plan).len(),
        0,
        "a multi-game container is never relocated whole"
    );
    assert_eq!(plan.summary.repack_count, 2, "each game repacks its own entry");
    // Once *both* games are repacked, every entry the container held survives
    // in a game archive, so the consume container is drained — exactly once,
    // despite feeding two games.
    assert_eq!(
        plan.summary.delete_count, 1,
        "the fully-consolidated shared container is drained, once"
    );
    let drained = deletes(&plan);
    assert_eq!(drained.len(), 1);
    assert_eq!(drained[0].0, "/lib/ToSort/SET/bundle.zip");
    assert!(
        drained[0].1.starts_with("consolidated into "),
        "reason names where the content went: {:?}",
        drained[0].1
    );
}

#[test]
fn generator_shared_container_is_repacked_per_game_not_relocated_whole() {
    check_shared_container_is_repacked_per_game_not_relocated_whole();
}

#[test]
fn archive_repack_policy_shared_container_is_repacked_per_game_not_relocated_whole() {
    check_shared_container_is_repacked_per_game_not_relocated_whole();
}

fn check_single_game_consume_container_drains_when_a_shared_entry_forces_a_repack() {
    // The real CD-image case: g1.zip, in a CONSUME staging source, holds
    // GameOne in full — its own ROM plus a ROM whose content (CCC) is shared
    // with GameTwo (a common .cue/.sub). The shared entry makes GameOne
    // `game_shared`, which blocks a whole-file relocate and forces a rebuild.
    let mut cat = Catalogue::new();
    let node = cat.add_collection("ISO Coll", "tosec", "/dats/i.dat", "SET/Sys");
    let g1 = cat.add_game(node, "GameOne", None);
    cat.list(&g1, "own.rom", 10, Some("AAA"), None, None, false);
    cat.list(&g1, "common.rom", 10, Some("CCC"), None, None, false);
    let g2 = cat.add_game(node, "GameTwo", None);
    cat.list(&g2, "other.rom", 10, Some("BBB"), None, None, false);
    cat.list(&g2, "common.rom", 10, Some("CCC"), None, None, false);
    cat.add_file("AAA", None, 10);
    cat.add_file("BBB", None, 10);
    cat.add_file("CCC", None, 10);
    cat.add_source(220, "/lib/ToSort/SET", Some(Disposition::Consume));
    cat.add_location("AAA", 220, "g1.zip", Some("own.rom"));
    cat.add_location("CCC", 220, "g1.zip", Some("common.rom"));
    cat.add_location("BBB", 220, "g2.zip", Some("other.rom"));
    cat.add_location("CCC", 220, "g2.zip", Some("common.rom"));
    cat.set_output_format("SET", "zip");

    let plan = cat.plan_with_default_dest(OutputFormat::Loose);

    // GameOne's source container is drained (its content is now in GameOne's
    // archive); the shared CCC entry does not block the drain.
    let drained: Vec<String> = deletes(&plan).into_iter().map(|d| d.0).collect();
    assert!(
        drained.contains(&"/lib/ToSort/SET/g1.zip".to_string()),
        "GameOne's single-game consume container is drained: {drained:?}"
    );
}

#[test]
fn generator_single_game_consume_container_drains_when_a_shared_entry_forces_a_repack() {
    check_single_game_consume_container_drains_when_a_shared_entry_forces_a_repack();
}

#[test]
fn archive_repack_policy_single_game_consume_container_drains_when_a_shared_entry_forces_a_repack() {
    check_single_game_consume_container_drains_when_a_shared_entry_forces_a_repack();
}

fn check_complete_container_found_among_many_shared_only_containers() {
    // A game whose BIOS ROM is held in many containers (as a Neo-Geo BIOS
    // would be) but whose clone-specific ROM lives in just one — only that
    // container is complete.
    let mut cat = Catalogue::new();
    let node = cat.add_collection("Arcade", "mame", "/dats/a.dat", "SET/Sys");
    let game = cat.add_game(node, "neoclone", None);
    cat.list(&game, "bios.rom", 10, Some("B105"), None, None, false);
    cat.list(&game, "clone.rom", 10, Some("C10E"), None, None, false);
    cat.add_file("B105", None, 10);
    cat.add_file("C10E", None, 10);
    cat.add_source(400, "/lib/ToSort/SET", None);
    // The one complete container holds both ROMs.
    cat.add_location("B105", 400, "Sys/neoclone.zip", Some("bios.rom"));
    cat.add_location("C10E", 400, "Sys/neoclone.zip", Some("clone.rom"));
    // The BIOS ROM is also present in 50 other (BIOS-only) containers.
    for i in 0..50 {
        cat.add_location("B105", 400, &format!("Sys/other{i}.zip"), Some("bios.rom"));
    }
    cat.set_output_format("SET", "zip");

    // Copy mode: no relocates/deletes, just the build — so the assertion
    // isolates which container the planner chose to build from.
    let plan = cat.plan_with_default_dest(OutputFormat::Loose);

    // Exactly one archive built, sourced entirely from the one complete
    // container — never from a BIOS-only container (which lacks clone.rom).
    assert_eq!(plan.summary.repack_count, 1);
    let sources: Vec<String> = plan
        .operations
        .iter()
        .filter_map(|op| match &op.kind {
            OperationKind::Repack { sources, .. } => Some(sources.clone()),
            _ => None,
        })
        .flatten()
        .map(|s| s.path)
        .collect();
    assert!(!sources.is_empty());
    assert!(
        sources.iter().all(|p| p == "/lib/ToSort/SET/Sys/neoclone.zip"),
        "repack must build from the one complete container, got {sources:?}"
    );
}

#[test]
fn generator_complete_container_found_among_many_shared_only_containers() {
    check_complete_container_found_among_many_shared_only_containers();
}

#[test]
fn archive_repack_policy_complete_container_found_among_many_shared_only_containers() {
    check_complete_container_found_among_many_shared_only_containers();
}

fn check_archive_complete_staged_copy_is_relocated_not_repacked() {
    // Only a staged ToSort copy exists; the library does not hold this game.
    let mut cat = Catalogue::new();
    let node = cat.add_collection("Test Coll", "tosec", "/dats/test.dat", "SET/Sys");
    cat.add_rom(node, "Game", "game.rom", "AAA");
    cat.add_file("AAA", None, 10);
    cat.add_source(102, "/lib/ToSort/SET", Some(Disposition::Consume));
    cat.add_location("AAA", 102, "Sys/Game.zip", Some("game.rom"));
    cat.set_output_format("SET", "zip");

    let plan = cat.plan_with_default_dest(OutputFormat::Loose);

    // A complete staged archive is relocated whole to its canonical path —
    // an instant rename — rather than rebuilt by repacking its entries.
    assert_eq!(plan.summary.repack_count, 0, "the staged zip is moved as-is, not rebuilt");
    assert_eq!(
        relocates(&plan),
        vec![(
            "/lib/ToSort/SET/Sys/Game.zip".to_string(),
            "/lib/ROMs/SET/Sys/Game.zip".to_string(),
        )]
    );
}

#[test]
fn generator_archive_complete_staged_copy_is_relocated_not_repacked() {
    check_archive_complete_staged_copy_is_relocated_not_repacked();
}

#[test]
fn archive_repack_policy_archive_complete_staged_copy_is_relocated_not_repacked() {
    check_archive_complete_staged_copy_is_relocated_not_repacked();
}

fn check_loose_staged_file_is_repacked_not_renamed_to_archive() {
    // A complete game held only as a loose .tap under ToSort, in a zip set.
    let mut cat = Catalogue::new();
    let node = cat.add_collection("Test Coll", "tosec", "/dats/test.dat", "SET/Sys");
    cat.add_rom(node, "Game", "game.tap", "AAA");
    cat.add_file("AAA", None, 10);
    cat.add_source(102, "/lib/ToSort/SET", Some(Disposition::Consume));
    // Loose file (no entry): NOT an archive in the target format.
    cat.add_location("AAA", 102, "Sys/game.tap", None);
    cat.set_output_format("SET", "zip");

    let plan = cat.plan_with_default_dest(OutputFormat::Loose);

    // Renaming a loose .tap to .zip would mint a file whose extension lies
    // about its contents — the loose ROM must be repacked into a real zip.
    assert_eq!(relocates(&plan).len(), 0, "a loose file is never relocated to an archive");
    assert_eq!(plan.summary.repack_count, 1, "the loose .tap is repacked into Game.zip");
    let dest = plan.operations.iter().find_map(|op| match &op.kind {
        OperationKind::Repack { dest, .. } => Some(dest.clone()),
        _ => None,
    });
    assert_eq!(dest.as_deref(), Some("/lib/ROMs/SET/Sys/Game.zip"));
}

#[test]
fn generator_loose_staged_file_is_repacked_not_renamed_to_archive() {
    check_loose_staged_file_is_repacked_not_renamed_to_archive();
}

#[test]
fn archive_repack_policy_loose_staged_file_is_repacked_not_renamed_to_archive() {
    check_loose_staged_file_is_repacked_not_renamed_to_archive();
}

fn check_desired_state_assigns_a_split_inherited_rom_to_the_parent_archive() {
    let state = parent_clone_fixture().desired_state(&split_zip(), &["AAA", "BBB"]);

    // Both games' canonical archives are recorded as desired destinations.
    assert!(state.dest_paths.contains("/lib/ROMs/ARCADE/puckman.zip"));
    assert!(state.dest_paths.contains("/lib/ROMs/ARCADE/pacmanm.zip"));

    // The crux: under split, the inherited shared ROM (AAA) belongs in the
    // PARENT's archive, never the clone's.
    let home = |sha1: &str| {
        let set = state.archive_homes.get_str(sha1).unwrap();
        (0..set.len()).map(|i| set.member_at(i).clone()).collect::<Vec<String>>()
    };
    assert_eq!(
        home("AAA"),
        vec!["/lib/ROMs/ARCADE/puckman.zip".to_string()],
        "inherited content's canonical archive is the parent's"
    );
    assert_eq!(
        home("BBB"),
        vec!["/lib/ROMs/ARCADE/pacmanm.zip".to_string()],
        "the clone's own ROM belongs in the clone's archive"
    );
}

#[test]
fn generator_desired_state_assigns_a_split_inherited_rom_to_the_parent_archive() {
    check_desired_state_assigns_a_split_inherited_rom_to_the_parent_archive();
}

#[test]
fn desired_state_tests_desired_state_assigns_a_split_inherited_rom_to_the_parent_archive() {
    check_desired_state_assigns_a_split_inherited_rom_to_the_parent_archive();
}

fn check_desired_state_archive_homes_only_for_interesting_content() {
    // Only BBB is of interest; AAA must not be indexed even though it is a
    // desired archive member — the index stays scoped to the caller's set.
    let state = parent_clone_fixture().desired_state(&split_zip(), &["BBB"]);

    assert!(state.archive_homes.get_str("BBB").is_some());
    assert!(
        state.archive_homes.get_str("AAA").is_none(),
        "uninteresting content is not indexed"
    );
    // dest_paths are unconditional, so both archives are still recorded.
    assert!(state.dest_paths.contains("/lib/ROMs/ARCADE/puckman.zip"));
}

#[test]
fn generator_desired_state_archive_homes_only_for_interesting_content() {
    check_desired_state_archive_homes_only_for_interesting_content();
}

#[test]
fn desired_state_tests_desired_state_archive_homes_only_for_interesting_content() {
    check_desired_state_archive_homes_only_for_interesting_content();
}

#[test]
fn desired_state_gives_the_same_answer_whatever_else_is_asked() {
    let cat = parent_clone_fixture();
    let one = cat.desired_state(&split_zip(), &["BBB"]);
    let both = cat.desired_state(&split_zip(), &["AAA", "BBB", "ZZZ"]);
    let members = |set: &SortedSet<String>| {
        (0..set.len()).map(|i| set.member_at(i).clone()).collect::<Vec<String>>()
    };
    assert_eq!(members(&one.dest_paths), members(&both.dest_paths));
    let home = members(one.archive_homes.get_str("BBB").unwrap());
    assert_eq!(home, members(both.archive_homes.get_str("BBB").unwrap()));
    assert_eq!(home, vec!["/lib/ROMs/ARCADE/pacmanm.zip".to_string()]);
    assert!(one.dest_paths.contains(&home[0]));
    // What was asked about and has no home is not listed.
    assert!(both.archive_homes.get_str("ZZZ").is_none());
}

fn check_desired_state_records_loose_paths_and_no_archive_homes() {
    // A loose-format collection: a single-ROM game placed flat, a multi-ROM
    // game placed in its own folder. Loose collections hold no archives, so
    // they contribute destination paths but never archive homes.
    let mut cat = Catalogue::new();
    let node = cat.add_collection("Tapes", "tosec", "/dats/tapes.dat", "Tapes");
    cat.add_rom(node, "Solo", "solo.tap", "AAA");
    let duo = cat.add_game(node, "Duo", None);
    cat.list(&duo, "duo-a.tap", 10, Some("BBB"), None, None, false);
    cat.list(&duo, "duo-b.tap", 10, Some("CCC"), None, None, false);
    for sha1 in ["AAA", "BBB", "CCC"] {
        cat.add_file(sha1, None, 10);
    }
    cat.add_source(500, "/lib/ToSort/Tapes", None);
    cat.add_location("AAA", 500, "solo.tap", None);
    cat.add_location("BBB", 500, "duo-a.tap", None);
    cat.add_location("CCC", 500, "duo-b.tap", None);

    let opts = PlanOptions {
        default_dest: Some("/lib/ROMs".to_string()),
        default_format: OutputFormat::Loose,
        ..Default::default()
    };
    let state = cat.desired_state(&opts, &["AAA", "BBB", "CCC"]);

    // Single-ROM game flat; multi-ROM game in its own folder.
    assert!(state.dest_paths.contains("/lib/ROMs/Tapes/solo.tap"));
    assert!(state.dest_paths.contains("/lib/ROMs/Tapes/Duo/duo-a.tap"));
    assert!(state.dest_paths.contains("/lib/ROMs/Tapes/Duo/duo-b.tap"));
    assert!(
        state.archive_homes.is_empty(),
        "a loose collection contributes no archive homes"
    );
}

#[test]
fn generator_desired_state_records_loose_paths_and_no_archive_homes() {
    check_desired_state_records_loose_paths_and_no_archive_homes();
}

#[test]
fn desired_state_tests_desired_state_records_loose_paths_and_no_archive_homes() {
    check_desired_state_records_loose_paths_and_no_archive_homes();
}

#[test]
fn count_expansion_capped_caps_and_counts_with_rom_multiplicity() {
    // Two distinct ROMs share content AAA, which is held in three locations.
    // The materialised expansion is one row per (matched ROM × location) =
    // 2 ROMs × 3 locations = 6.
    let mut cat = Catalogue::new();
    let node = cat.add_collection("Agg", "mame", "/dats/agg.dat", "MAME");
    let game = cat.add_game(node, "bucket", None);
    cat.list(&game, "a.rom", 10, Some("AAA"), None, None, false);
    cat.list(&game, "b.rom", 10, Some("AAA"), None, None, false);
    cat.add_file("AAA", None, 10);
    cat.add_source(500, "/src", None);
    for i in 0..3 {
        cat.add_location("AAA", 500, &format!("loc{i}.zip"), Some("x.rom"));
    }
    let (listed, held) = (cat.listed_of(node), cat.held());

    // A generous cap returns the true expansion (6).
    assert_eq!(count_match_rows_capped(&listed, &held, 100), 6);
    // A cap below the expansion is detected without counting past cap + 1.
    let capped = count_match_rows_capped(&listed, &held, 4);
    assert_eq!(capped, 5, "the count halts at cap + 1");
    assert!(capped > 4, "over-cap is reported as exceeding the cap");
}

#[test]
fn explicit_destinations_collide_too_and_say_so() {
    let mut cat = Catalogue::new();
    cat.add_collection("One", "mame", "/d/1.dat", "A");
    cat.add_collection("Two", "mame", "/d/2.dat", "B");
    cat.set_dest_path("One", "/lib/B");
    let collisions = cat.collisions(&under("/lib"));
    assert_eq!(collisions.len(), 1);
    assert_eq!(collisions[0].root, "/lib/B");
    let flags: Vec<(String, bool)> = collisions[0]
        .collections
        .iter()
        .map(|m| (m.name.clone(), m.has_explicit_dest))
        .collect();
    assert_eq!(flags, vec![("One".to_string(), true), ("Two".to_string(), false)]);
}

#[test]
fn oversized_collections_are_skipped_and_named() {
    let cat = dup_fixture(false);
    let opts = under("/lib/ROMs");
    let mut facts = cat.facts(&opts);
    facts[0].match_rows = usize::MAX;
    let (shared, containers) = (SortedSet::new(), SortedSet::new());
    let dispositions = source_dispositions(&cat.sources);
    let ctx = CollectionPlanningContext {
        opts: &opts,
        shared: &shared,
        shared_containers: &containers,
        dispositions: &dispositions,
    };
    let plan = generate_plan_filtered("h".to_string(), &facts, &ctx).unwrap();
    assert!(plan.is_empty());
    assert_eq!(plan.skipped_oversized.len(), 1);
    assert_eq!(plan.state_hash, "h");
}

#[test]
fn unsafe_dat_names_fail_the_plan() {
    let mut cat = Catalogue::new();
    let node = cat.add_collection("Bad", "tosec", "/d/b.dat", "SET");
    cat.add_rom(node, "Game", "../escape.rom", "AAA");
    cat.add_file("AAA", None, 10);
    cat.add_source(1, "/src", Some(Disposition::Consume));
    cat.add_location("AAA", 1, "x.rom", None);
    let error = cat.try_plan(&under("/lib/ROMs")).unwrap_err();
    assert!(matches!(error, PlanError::DatPath { .. } | PlanError::Path(_)));
    assert!(error.message().contains("../escape.rom"));
}

#[test]
fn moved_content_is_totalled_per_collection() {
    let mut cat = Catalogue::new();
    let node = cat.add_collection("Tapes", "tosec", "/d/t.dat", "Tapes");
    cat.add_rom(node, "Solo", "solo.tap", "AAA");
    cat.add_file("AAA", None, 10);
    cat.add_source(1, "/in", Some(Disposition::Consume));
    cat.add_location("AAA", 1, "x.tap", None);
    let plan = cat.plan_with_default_dest(OutputFormat::Loose);
    assert_eq!(plan.summary.move_count, 1);
    assert_eq!(plan.summary.total_bytes, 10);
    assert_eq!(plan.per_collection.len(), 1);
    assert_eq!(plan.per_collection[0].name, "Tapes");
    assert_eq!(plan.per_collection[0].to_write, 1);
    assert_eq!(plan.per_collection[0].bytes, 10);
    match &plan.operations[0].kind {
        OperationKind::Move { source, dest, size, .. } => {
            assert_eq!(source.path, "/in/x.tap");
            assert_eq!(dest, "/lib/ROMs/Tapes/solo.tap");
            assert_eq!(*size, 10);
        }
        other => panic!("expected a move, got {other:?}"),
    }
}

#[test]
fn drains_follow_every_other_operation() {
    let mut cat = Catalogue::new();
    let node = cat.add_collection("Bundle", "tosec", "/d/b.dat", "SET/Sys");
    cat.add_rom(node, "GameOne", "a.rom", "AAA");
    cat.add_rom(node, "GameTwo", "b.rom", "BBB");
    cat.add_file("AAA", None, 10);
    cat.add_file("BBB", None, 10);
    cat.add_source(210, "/lib/ToSort/SET", Some(Disposition::Consume));
    cat.add_location("AAA", 210, "bundle.zip", Some("a.rom"));
    cat.add_location("BBB", 210, "bundle.zip", Some("b.rom"));
    cat.set_output_format("SET", "zip");
    let plan = cat.plan_with_default_dest(OutputFormat::Loose);
    let last = plan.operations.last().unwrap();
    match &last.kind {
        OperationKind::Delete { rebuild: Some(rebuild), .. } => {
            assert_eq!(rebuild.format, "zip");
            let mut entries: Vec<(String, String)> = rebuild
                .entries
                .iter()
                .map(|e| (e.dest.clone(), e.container_entry.clone()))
                .collect();
            entries.sort();
            assert_eq!(
                entries,
                vec![
                    ("/lib/ROMs/SET/Sys/GameOne.zip".to_string(), "a.rom".to_string()),
                    ("/lib/ROMs/SET/Sys/GameTwo.zip".to_string(), "b.rom".to_string()),
                ]
            );
        }
        other => panic!("expected a drain, got {other:?}"),
    }
}

#[test]
fn closing_notices_explain_an_empty_plan() {
    let empty = Catalogue::new();
    let opts = PlanOptions { dat_filter: Some("Nin*".to_string()), ..Default::default() };
    let plan = empty.plan(&opts);
    let notice = closing_notice(&opts, &empty.facts(&opts), &plan);
    assert_eq!(notice, ClosingNotice::NoMatchingFilter);
    let all = PlanOptions::default();
    let notice = closing_notice(&all, &empty.facts(&all), &empty.plan(&all));
    assert_eq!(notice, ClosingNotice::NoActiveCollections);
    let cat = dup_fixture(false);
    let opts = under("/lib/ROMs");
    let plan = cat.plan(&opts);
    assert_eq!(closing_notice(&opts, &cat.facts(&opts), &plan), ClosingNotice::Nothing);
}

#[test]
fn planned_destinations_are_desired() {
    let cat = parent_clone_fixture();
    let opts = split_zip();
    let plan = cat.plan(&opts);
    let state = cat.desired_state(&opts, &["AAA", "BBB"]);
    for dest in repack_entries(&plan).keys() {
        assert!(state.dest_paths.contains(dest));
    }
    for i in 0..state.archive_homes.len() {
        let homes = state.archive_homes.value_at(i);
        for j in 0..homes.len() {
            assert!(state.dest_paths.contains(homes.member_at(j)));
        }
    }
}

#[test]
fn default_options_place_loose_files_below_an_explicit_destination() {
    let mut cat = Catalogue::new();
    let node = cat.add_collection("Coll", "tosec", "/dats/test.dat", "SET/Sys");
    cat.add_rom(node, "Game", "game.rom", "AAA");
    cat.add_file("AAA", None, 10);
    cat.add_source(1, "/in", Some(Disposition::Consume));
    cat.add_location("AAA", 1, "x.bin", None);
    cat.set_dest_path("Coll", "/out");

    let held = cat.held();
    let plan = generate_plan(
        "state".to_string(),
        &cat.facts(&PlanOptions::default()),
        &compute_shared_content(&cat.listed, &held),
        &compute_shared_containers(&cat.listed, &held),
        &source_dispositions(&cat.sources),
    )
    .unwrap();
    assert_eq!(plan.state_hash, "state");
    assert_eq!(plan.operations.len(), 1);
    match &plan.operations[0].kind {
        OperationKind::Move { source, dest, .. } => {
            assert_eq!(source.path, "/in/x.bin");
            assert_eq!(dest, "/out/game.rom");
        }
        other => panic!("expected a move, got {other:?}"),
    }
}

#[test]
fn what_is_in_place_is_left_alone() {
    for archived in [false, true] {
        let plan = dup_fixture(archived).plan_with_default_dest(OutputFormat::Loose);
        assert!(plan
            .operations
            .iter()
            .all(|op| matches!(op.kind, OperationKind::Delete { .. })));
        assert_eq!(plan.operations.len(), 1);
    }
}

#[test]
fn each_game_is_packed_into_an_archive_of_its_own() {
    let mut cat = Catalogue::new();
    let node = cat.add_collection("Coll", "tosec", "/dats/test.dat", "SET/Sys");
    cat.add_source(1, "/in", Some(Disposition::Consume));
    for (game, sha1) in [("One", "AAA"), ("Two", "BBB"), ("Three", "CCC")] {
        // The ROMs share a name: only the archives tell them apart.
        cat.add_rom(node, game, "rom.bin", sha1);
        cat.add_file(sha1, None, 10);
        cat.add_location(sha1, 1, &format!("{game}.bin"), None);
    }
    let plan = cat.plan_with_default_dest(OutputFormat::Zip);
    let packed: Vec<String> = repack_entries(&plan).into_keys().collect();
    assert_eq!(
        packed,
        [
            "/lib/ROMs/SET/Sys/One.zip",
            "/lib/ROMs/SET/Sys/Three.zip",
            "/lib/ROMs/SET/Sys/Two.zip"
        ]
    );
    assert_eq!(plan.operations.len(), 3);
}

#[test]
fn content_is_shared_only_between_different_roms() {
    let mut cat = Catalogue::new();
    let node = cat.add_collection("Coll", "tosec", "/dats/test.dat", "SET/Sys");
    cat.add_source(1, "/in", Some(Disposition::Consume));
    cat.add_rom(node, "One", "rom.bin", "AAA");
    cat.add_rom(node, "One", "rom.bin", "AAA");
    cat.add_rom(node, "One", "other.bin", "BBB");
    cat.add_rom(node, "Two", "other.bin", "BBB");
    for sha1 in ["AAA", "BBB"] {
        cat.add_file(sha1, None, 10);
        cat.add_location(sha1, 1, "pack.zip", Some(sha1));
    }
    let held = cat.held();
    let shared = compute_shared_content(&cat.listed, &held);
    assert!(!shared.contains(&"AAA".to_string()));
    assert!(shared.contains(&"BBB".to_string()));
    let containers = compute_shared_containers(&cat.listed, &held);
    assert!(containers.contains(&"/in/pack.zip".to_string()));
    assert_eq!(containers.len(), 1);
}

#[test]
fn a_drained_container_is_deleted_once_with_all_it_gave() {
    let entry = |rom_name: &str, inner: Option<&str>| MatchedRom {
        game_name: "Game".to_string(),
        rom_name: rom_name.to_string(),
        sha1: format!("sha-{rom_name}"),
        size: 1,
        source_path: "pack.7Z".to_string(),
        source_root: "/in".to_string(),
        archive_path: inner.map(|s| s.to_string()),
        is_disk: false,
    };
    let mut drains = ContainerDrains::new();
    drains
        .record_repack_from_container(
            "/in/pack.7Z",
            "/out/A.zip",
            &vec![entry("a.rom", Some("x/a")), entry("loose.rom", None)],
        )
        .unwrap();
    drains
        .record_repack_from_container("/in/pack.7Z", "/out/B.zip", &vec![entry("b.rom", Some("b"))])
        .unwrap();
    assert!(drains
        .record_repack_from_container("/in/pack.7Z", "/out/C.zip", &vec![entry("../c", Some("c"))])
        .is_err());

    let mut plan = Plan::new("h".to_string());
    drains.emit_into(&mut plan);
    assert_eq!(plan.operations.len(), 1);
    match &plan.operations[0].kind {
        OperationKind::Delete { path, rebuild: Some(rebuild), .. } => {
            assert_eq!(path, "/in/pack.7Z");
            assert_eq!(rebuild.format, "7z");
            let given: Vec<(&str, &str, &str)> = rebuild
                .entries
                .iter()
                .map(|e| (e.dest.as_str(), e.dest_entry.as_str(), e.container_entry.as_str()))
                .collect();
            assert_eq!(given, [("/out/A.zip", "a.rom", "x/a"), ("/out/B.zip", "b.rom", "b")]);
        }
        other => panic!("expected a delete that can be rebuilt, got {other:?}"),
    }
}
