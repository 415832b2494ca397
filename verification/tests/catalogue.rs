use std::collections::HashMap;

use cat198x::clock::{chrono_now, format_stamp, Moment};
use cat198x::db::collections::{Collection, CollectionVersion};
use cat198x::db::config::{
    with_exclude_prereleases, with_one_g_one_r, with_region_priority, CollectionConfig, ExtraConfig,
};
use cat198x::db::dats::stats::{
    calculate_merge_mode_stats, calculate_rom_requirements,
    calculate_rom_requirements_with_options, group_roms_by_game, key_batches, placeholders,
    present_keys, required_keys, rom_sizes_by_key, Inventory, MergeModeStats, RequirementOptions,
    RomHashes, RomKey,
};
use cat198x::db::dats::types::nested_node_path;
use cat198x::db::dats::{DatGame, DatRom, MergeMode};
use cat198x::db::files::{owning_source, resolve_in_sources, Disposition, Source};
use cat198x::db::quarantine::{like_pattern, QuarantineReason};
use cat198x::db::schema::{schema_steps, SchemaStep};
use cat198x::ops::catalogue::{
    collection_status, list_collections, list_sources, CatalogueEntry,
};
use cat198x::paths::{
    extension_of, file_name_of, is_under, join_under_root, validate_relative_path, PathFault,
};
use cat198x::sorted_map::{SortedMap, SortedSet};
use cat198x::util::{format_bytes, truncate_path};

fn config_with(extra: Option<ExtraConfig>) -> CollectionConfig {
    CollectionConfig {
        id: 1,
        path_pattern: "Test".to_string(),
        dest_path: Some("/roms".to_string()),
        output_format: None,
        merge_mode: None,
        extra_config: extra,
    }
}

fn collection(id: i64, name: &str) -> Collection {
    Collection {
        id,
        name: name.to_string(),
        source_type: "nointro".to_string(),
        created_at: String::new(),
    }
}

fn version(id: i64, collection_id: i64, name: &str) -> CollectionVersion {
    CollectionVersion {
        id,
        collection_id,
        version: name.to_string(),
        dat_path: "/d/x.dat".to_string(),
        is_active: true,
        imported_at: String::new(),
    }
}

fn game(id: i64, name: &str, parent: Option<&str>) -> DatGame {
    DatGame {
        id,
        node_id: 1,
        name: name.to_string(),
        description: None,
        parent_name: parent.map(|p| p.to_string()),
        is_bios: false,
        is_device: false,
        is_mechanical: false,
    }
}

fn rom(game_id: i64, name: &str, sha1: Option<&str>, status: &str, merge: Option<&str>) -> DatRom {
    DatRom {
        id: 0,
        game_id,
        name: name.to_string(),
        size: 10,
        sha1: sha1.map(|s| s.to_string()),
        md5: None,
        crc32: None,
        status: status.to_string(),
        merge_tag: merge.map(|s| s.to_string()),
        is_disk: false,
    }
}

fn holding(sha1s: &[&str]) -> Inventory {
    let mut set = SortedSet::new();
    for sha1 in sha1s {
        set.insert(sha1.to_string());
    }
    Inventory { sha1s: set, md5s: SortedSet::new(), crc_sizes: SortedSet::new() }
}

fn stats_of(
    games: &[DatGame],
    roms: &HashMap<i64, Vec<DatRom>>,
    mode: MergeMode,
    inventory: &Inventory,
) -> MergeModeStats {
    let reqs = calculate_rom_requirements(games, roms, mode, false);
    let have = present_keys(&required_keys(&reqs), inventory);
    let mut rows = Vec::new();
    for list in roms.values() {
        for r in list {
            rows.push(RomHashes {
                sha1: r.sha1.clone(),
                md5: r.md5.clone(),
                crc32: r.crc32.clone(),
                size: r.size,
            });
        }
    }
    calculate_merge_mode_stats(&reqs, &have, &rom_sizes_by_key(rows))
}

#[test]
fn test_quarantine_reason_roundtrip() {
    assert_eq!(
        QuarantineReason::parse(QuarantineReason::SetRemoved.as_str()),
        Some(QuarantineReason::SetRemoved)
    );
    assert_eq!(
        QuarantineReason::parse(QuarantineReason::ContentChanged.as_str()),
        Some(QuarantineReason::ContentChanged)
    );
    assert_eq!(
        QuarantineReason::parse(QuarantineReason::PathChanged.as_str()),
        Some(QuarantineReason::PathChanged)
    );
}

#[test]
fn test_set_one_g_one_r() {
    // Enable 1G1R
    let extra = with_one_g_one_r(None, true);
    assert!(extra.one_g_one_r);
    assert!(extra.exclude_modified); // default true
    assert!(extra.exclude_bad_dumps); // default true
}

#[test]
fn test_set_region_priority() {
    let extra = with_region_priority(None, vec!["Japan".to_string(), "USA".to_string()]);
    assert_eq!(extra.region_priority, vec!["Japan", "USA"]);
}

#[test]
fn test_extra_config_to_filter_preferences() {
    // Set up config
    let extra = with_one_g_one_r(None, true);
    let extra =
        with_region_priority(Some(config_with(Some(extra))), vec!["Japan".to_string()]);
    let extra = with_exclude_prereleases(Some(config_with(Some(extra))), true);
    let prefs = extra.to_filter_preferences();

    assert_eq!(prefs.region_priority[0], "Japan");
    assert!(prefs.exclude_prereleases);
    assert!(prefs.exclude_modified);
}

#[test]
fn test_extra_config_preserved_with_other_settings() {
    // A dest_path was set first; the extra settings are added to it.
    let config = config_with(None);
    let extra = with_one_g_one_r(Some(config_with(None)), true);
    assert_eq!(config.dest_path, Some("/roms".to_string()));
    assert!(extra.one_g_one_r);
    // What was set before stays.
    let later = with_region_priority(Some(config_with(Some(extra))), vec!["UK".to_string()]);
    assert!(later.one_g_one_r);
    assert_eq!(later.region_priority, vec!["UK"]);
}

#[test]
fn an_empty_region_list_means_the_default_order() {
    let prefs = ExtraConfig::default().to_filter_preferences();
    assert!(!prefs.region_priority.is_empty());
}

#[test]
fn test_database_creation() {
    // A new database is created whole, and ends at the current version.
    let steps = schema_steps(0);
    assert_eq!(steps, vec![SchemaStep::CreateAll]);
    assert_eq!(
        SchemaStep::CreateAll.recorded_version(),
        SchemaStep::AddDisks.recorded_version()
    );
    // An older one is brought forward one version at a time.
    assert_eq!(schema_steps(1), vec![SchemaStep::AddQuarantine, SchemaStep::AddDisks]);
    assert_eq!(schema_steps(2), vec![SchemaStep::AddDisks]);
    assert_eq!(schema_steps(3), vec![]);
}

#[test]
fn collection_status_reports_completeness_and_no_active_version() {
    // One collection with an active version holding one of two ROMs…
    let games = vec![game(1, "Game", None)];
    let roms = group_roms_by_game(vec![
        rom(1, "a.nes", Some("AAA"), "good", None),
        rom(1, "b.nes", Some("BBB"), "good", None),
    ]);
    let stats = stats_of(&games, &roms, MergeMode::NonMerged, &holding(&["AAA"]));
    // …and one collection with no active version.
    let none = stats_of(&[], &HashMap::new(), MergeMode::NonMerged, &holding(&[]));
    let entries = vec![
        CatalogueEntry {
            collection: collection(1, "NES"),
            version: Some(version(1, 1, "v1")),
            node_path: Some("NES".to_string()),
            stats,
        },
        CatalogueEntry {
            collection: collection(2, "Empty"),
            version: None,
            node_path: None,
            stats: none,
        },
    ];

    let all = collection_status(&entries, None);
    assert_eq!(all.len(), 2);

    let nes = all.iter().find(|s| s.name == "NES").unwrap();
    assert_eq!(nes.version.as_deref(), Some("v1"));
    assert_eq!(nes.total_roms, 2);
    assert_eq!(nes.have_roms, 1);
    assert_eq!(nes.missing_roms, 1);
    assert_eq!(nes.have_roms * 100 / nes.total_roms, 50);

    let empty = all.iter().find(|s| s.name == "Empty").unwrap();
    assert_eq!(empty.version, None);
    assert_eq!(empty.total_roms, 0);

    // Filtering returns just the requested collection.
    let just_nes = collection_status(&entries, Some("NES"));
    assert_eq!(just_nes.len(), 1);
    assert_eq!(just_nes[0].name, "NES");
}

#[test]
fn list_collections_reports_the_full_library_path() {
    let none = stats_of(&[], &HashMap::new(), MergeMode::NonMerged, &holding(&[]));
    // A collection whose library path nests under a set ("TOSEC-PIX/…"), and one
    // with no active version, which falls back to its own name.
    let entries = vec![
        CatalogueEntry {
            collection: collection(1, "Acorn BBC - Magazines"),
            version: Some(version(1, 1, "v1")),
            node_path: Some("TOSEC-PIX/Acorn/BBC/Magazines".to_string()),
            stats: none,
        },
        CatalogueEntry {
            collection: collection(2, "Loose Coll"),
            version: None,
            node_path: None,
            stats: none,
        },
    ];

    let cols = list_collections(&entries);
    let bbc = cols.iter().find(|c| c.name == "Acorn BBC - Magazines").unwrap();
    assert_eq!(
        bbc.node_path, "TOSEC-PIX/Acorn/BBC/Magazines",
        "the full library path is reported, not just the set"
    );
    assert!(bbc.has_active_version);

    let loose = cols.iter().find(|c| c.name == "Loose Coll").unwrap();
    assert_eq!(loose.node_path, "Loose Coll", "no active version → path is the name");
    assert!(!loose.has_active_version);
}

#[test]
fn requirements_follow_the_merge_mode() {
    let games = vec![game(1, "puckman", None), game(2, "pacmanm", Some("puckman"))];
    let roms = group_roms_by_game(vec![
        rom(1, "shared.rom", Some("AAA"), "good", None),
        rom(2, "shared.rom", Some("AAA"), "good", Some("shared.rom")),
        rom(2, "clone.rom", Some("BBB"), "good", None),
    ]);
    let counts = |mode: MergeMode| {
        let reqs = calculate_rom_requirements(&games, &roms, mode, false);
        reqs.iter()
            .map(|r| (r.game_name.clone(), r.required_roms.len()))
            .collect::<Vec<(String, usize)>>()
    };
    assert_eq!(
        counts(MergeMode::NonMerged),
        vec![("puckman".to_string(), 1), ("pacmanm".to_string(), 2)]
    );
    assert_eq!(
        counts(MergeMode::Split),
        vec![("puckman".to_string(), 1), ("pacmanm".to_string(), 1)]
    );
    assert_eq!(counts(MergeMode::Merged), vec![("puckman".to_string(), 2)]);
}

#[test]
fn nodumps_and_mechanical_games_are_left_out() {
    let mut pinball = game(2, "pinball", None);
    pinball.is_mechanical = true;
    let mut bios = game(3, "neogeo", None);
    bios.is_bios = true;
    let games = vec![game(1, "g", None), pinball, bios];
    let roms = group_roms_by_game(vec![
        rom(1, "a", Some("AAA"), "good", None),
        rom(1, "b", None, "nodump", None),
        rom(2, "c", Some("CCC"), "good", None),
        rom(3, "d", Some("DDD"), "good", None),
    ]);
    let reqs = calculate_rom_requirements_with_options(
        &games,
        &roms,
        MergeMode::NonMerged,
        &RequirementOptions {
            exclude_mechanical: true,
            exclude_bios: true,
            exclude_devices: false,
        },
    );
    assert_eq!(reqs.len(), 1);
    assert_eq!(reqs[0].game_name, "g");
    assert_eq!(reqs[0].required_roms, vec![RomKey::Sha1("AAA".to_string())]);
    assert_eq!(reqs[0].nodump_count, 1);
}

#[test]
fn figures_split_games_by_what_is_held() {
    let games = vec![game(1, "full", None), game(2, "part", None), game(3, "none", None)];
    let roms = group_roms_by_game(vec![
        rom(1, "a", Some("AAA"), "good", None),
        rom(2, "b", Some("BBB"), "good", None),
        rom(2, "c", Some("CCC"), "good", None),
        rom(3, "d", Some("DDD"), "good", None),
    ]);
    let stats = stats_of(&games, &roms, MergeMode::NonMerged, &holding(&["AAA", "BBB"]));
    assert_eq!(stats.total_games, 3);
    assert_eq!(stats.complete_games, 1);
    assert_eq!(stats.partial_games, 1);
    assert_eq!(stats.missing_games, 1);
    assert_eq!((stats.total_roms, stats.have_roms), (4, 2));
    assert_eq!((stats.total_bytes, stats.have_bytes), (40, 20));
}

#[test]
fn keys_are_looked_up_in_batches() {
    let mut keys = SortedSet::new();
    keys.insert(RomKey::Sha1("A".to_string()));
    keys.insert(RomKey::Md5("M".to_string()));
    keys.insert(RomKey::CrcSize("C".to_string(), 7));
    let batches = key_batches(&keys);
    assert_eq!(batches.sha1s, vec!["A"]);
    assert_eq!(batches.md5s, vec!["M"]);
    assert_eq!(batches.crc_sizes, vec![("C".to_string(), 7)]);
    assert_eq!(placeholders(3), "?,?,?");
    assert_eq!(placeholders(0), "");

    let mut inventory = holding(&[]);
    inventory.crc_sizes.insert(("C".to_string(), 7));
    let present = present_keys(&keys, &inventory);
    assert_eq!(present.len(), 1);
    assert!(present.has(&RomKey::CrcSize("C".to_string(), 7)));
}

fn source(id: i64, path: &str) -> Source {
    Source {
        id,
        path: path.to_string(),
        case_sensitive: false,
        added_at: String::new(),
        last_scanned: Some("2024-01-01".to_string()),
        disposition: Disposition::Preserve,
    }
}

#[test]
fn the_deepest_source_owns_a_path() {
    let sources = vec![source(1, "/lib"), source(2, "/lib/roms"), source(3, "/other")];
    assert_eq!(
        resolve_in_sources(&sources, "/lib/roms/a/b.rom"),
        Some((2, "a/b.rom".to_string()))
    );
    assert_eq!(owning_source(&sources, "/lib/x.rom"), Some((0, "x.rom".to_string())));
    // A name that only starts alike is not inside.
    assert_eq!(resolve_in_sources(&sources, "/libx/a.rom"), None);
    let infos = list_sources(&sources);
    assert_eq!(infos.len(), 3);
    assert_eq!(infos[1].path, "/lib/roms");
    assert_eq!(infos[1].last_scanned.as_deref(), Some("2024-01-01"));
}

#[test]
fn dispositions_default_to_preserve() {
    assert_eq!(Disposition::parse("consume"), Disposition::Consume);
    assert_eq!(Disposition::parse("preserve"), Disposition::Preserve);
    assert_eq!(Disposition::parse("whatever"), Disposition::Preserve);
    assert_eq!(Disposition::parse(Disposition::Consume.as_str()), Disposition::Consume);
}

#[test]
fn quarantine_records_read_leniently() {
    assert_eq!(QuarantineReason::parse("duplicate"), Some(QuarantineReason::Duplicate));
    assert_eq!(QuarantineReason::parse("nonsense"), None);
    assert_eq!(like_pattern("MAME*"), "MAME%");
}

#[test]
fn nodes_nest_under_their_name_once() {
    assert_eq!(nested_node_path("FBN", "Arcade Games"), "FBN/Arcade Games");
}

#[test]
fn paths_are_joined_and_refused() {
    assert_eq!(
        join_under_root("/lib/", &[("game", "G"), ("rom", "r.bin")]).unwrap(),
        "/lib/G/r.bin"
    );
    let fault = |value: &str| validate_relative_path("rom", value).unwrap_err().fault;
    assert_eq!(fault(""), PathFault::Empty);
    assert_eq!(fault("a\\b"), PathFault::Backslash);
    assert_eq!(fault("/a"), PathFault::Absolute);
    assert_eq!(fault("a/../b"), PathFault::UnsafeComponent);
    assert_eq!(
        validate_relative_path("rom", "a/../b").unwrap_err().message(),
        "rom contains an unsafe path component: a/../b"
    );
    assert_eq!(file_name_of("/a/b.zip").as_deref(), Some("b.zip"));
    assert_eq!(extension_of("/a/b.tar.gz").as_deref(), Some("gz"));
    assert_eq!(extension_of("/a/.hidden"), None);
    assert!(is_under("/lib/a", "/lib"));
    assert!(!is_under("/library/a", "/lib"));
}

#[test]
fn sorted_maps_keep_one_value_per_key_in_order() {
    let mut map: SortedMap<String, u32> = SortedMap::new();
    map.insert("b".to_string(), 1);
    map.insert("a".to_string(), 2);
    map.insert("b".to_string(), 3);
    assert_eq!(map.len(), 2);
    assert_eq!((map.key_at(0).as_str(), *map.value_at(0)), ("a", 2));
    assert_eq!((map.key_at(1).as_str(), *map.value_at(1)), ("b", 3));
    assert_eq!(map.remove(&"a".to_string()), Some(2));
    assert_eq!(map.remove(&"a".to_string()), None);
    assert!(!map.contains_key(&"a".to_string()));
}

#[test]
fn stamps_are_plain_utc() {
    let moment = Moment { year: 2024, month: 3, day: 7, hour: 9, minute: 5, second: 0 };
    let stamp = format_stamp(moment);
    assert_eq!(stamp, "20240307T090500Z");
    // The clock gives the same form, some time after this was written.
    let now = chrono_now();
    assert_eq!(now.len(), stamp.len());
    assert!(now > stamp);
}

#[test]
fn sizes_are_shown_to_two_places() {
    assert_eq!(format_bytes(1023), "1023 bytes");
    assert_eq!(format_bytes(1_049_600), "1.00 MB");
    assert_eq!(format_bytes(2 * 1073741824 + 536870912), "2.50 GB");
    assert_eq!(truncate_path("abcdefgh", 8), "abcdefgh");
    assert_eq!(truncate_path("abcdefghi", 8), "...efghi");
}

#[test]
fn roms_are_grouped_as_they_are() {
    let rows = vec![
        DatRom { id: 11, ..rom(2, "b", Some("BBB"), "good", None) },
        DatRom { id: 12, ..rom(1, "a", Some("AAA"), "good", None) },
        DatRom { id: 13, ..rom(2, "c", None, "nodump", None) },
    ];
    let grouped = group_roms_by_game(rows);
    assert_eq!(grouped.len(), 2, "no game without rows");
    let ids = |game: i64| grouped[&game].iter().map(|r| r.id).collect::<Vec<_>>();
    assert_eq!(ids(1), [12]);
    assert_eq!(ids(2), [11, 13]);
}
