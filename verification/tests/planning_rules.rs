use cat198x::filter::FilterPreferences;
use cat198x::db::dats::MergeMode;
use cat198x::plan::destinations::{
    build_archive_dest_path, build_dest_path, build_disk_dest_path, resolve_dest_root,
};
use cat198x::plan::rules::{
    apply_one_g_one_r_filter, archive_extension, archive_format_tag, glob_match,
    resolve_merge_mode, resolve_output_format, OutputFormat,
};
use cat198x::plan::MatchedRom;

#[test]
fn build_dest_path_single_rom_is_flat() {
    // A single-ROM game is placed flat, with no redundant game folder.
    assert_eq!(
        build_dest_path("/roms/nes", "Super Mario Bros", "mario.nes", false).unwrap(),
        "/roms/nes/mario.nes"
    );
    // A trailing slash on the root is normalised away.
    assert_eq!(
        build_dest_path("/roms/nes/", "Game", "game.rom", false).unwrap(),
        "/roms/nes/game.rom"
    );
}

#[test]
fn build_dest_path_multi_rom_gets_game_folder() {
    assert_eq!(
        build_dest_path("/roms/nes", "Multi Disk Game", "disk1.img", true).unwrap(),
        "/roms/nes/Multi Disk Game/disk1.img"
    );
    assert_eq!(
        build_dest_path("/roms/nes", "Multi Disk Game", "disk2.img", true).unwrap(),
        "/roms/nes/Multi Disk Game/disk2.img"
    );
}

#[test]
fn destinations_destination_building_rejects_unsafe_dat_names() {
    for unsafe_name in [
        "../escape.rom",
        "dir/../../escape.rom",
        "/tmp/escape.rom",
        r"dir\escape.rom",
    ] {
        assert!(
            build_dest_path("/roms/nes", "Game", unsafe_name, false).is_err(),
            "unsafe ROM name should be rejected: {unsafe_name}"
        );
        assert!(
            build_dest_path("/roms/nes", unsafe_name, "disk1.img", true).is_err(),
            "unsafe game name should be rejected: {unsafe_name}"
        );
    }
    assert!(
        resolve_dest_root(None, Some("/roms"), "../Collection").is_err(),
        "unsafe hierarchy should be rejected"
    );
}

#[test]
fn destinations_resolve_dest_root_prefers_explicit_path() {
    // An explicit per-collection dest_path wins and is used verbatim,
    // ignoring both the default and the hierarchy.
    assert_eq!(
        resolve_dest_root(Some("/explicit/here"), Some("/lib"), "Acorn/BBC").unwrap(),
        Some("/explicit/here".to_string())
    );
}

#[test]
fn destinations_resolve_dest_root_falls_back_to_default_plus_hierarchy() {
    assert_eq!(
        resolve_dest_root(None, Some("/Volumes/Data"), "TOSEC-PIX/Acorn/BBC").unwrap(),
        Some("/Volumes/Data/TOSEC-PIX/Acorn/BBC".to_string())
    );
    // A trailing slash on the default base is normalised away.
    assert_eq!(
        resolve_dest_root(None, Some("/Volumes/Data/"), "TOSEC/Sinclair").unwrap(),
        Some("/Volumes/Data/TOSEC/Sinclair".to_string())
    );
}

#[test]
fn destinations_resolve_dest_root_is_none_without_explicit_or_default() {
    // Neither an explicit path nor a default: no destination, caller skips.
    assert_eq!(resolve_dest_root(None, None, "Acorn/BBC").unwrap(), None);
}

#[test]
fn test_build_dest_path_single_rom_is_flat() {
    // A single-ROM game is placed flat, with no redundant game folder.
    assert_eq!(
        build_dest_path("/roms/nes", "Super Mario Bros", "mario.nes", false).unwrap(),
        "/roms/nes/mario.nes"
    );
    // A trailing slash on the root is normalised away.
    assert_eq!(
        build_dest_path("/roms/nes/", "Game", "game.rom", false).unwrap(),
        "/roms/nes/game.rom"
    );
}

#[test]
fn test_build_dest_path_multi_rom_gets_game_folder() {
    assert_eq!(
        build_dest_path("/roms/nes", "Multi Disk Game", "disk1.img", true).unwrap(),
        "/roms/nes/Multi Disk Game/disk1.img"
    );
    assert_eq!(
        build_dest_path("/roms/nes", "Multi Disk Game", "disk2.img", true).unwrap(),
        "/roms/nes/Multi Disk Game/disk2.img"
    );
}

#[test]
fn generator_destination_building_rejects_unsafe_dat_names() {
    for unsafe_name in [
        "../escape.rom",
        "dir/../../escape.rom",
        "/tmp/escape.rom",
        r"dir\escape.rom",
    ] {
        assert!(
            build_dest_path("/roms/nes", "Game", unsafe_name, false).is_err(),
            "unsafe ROM name should be rejected: {unsafe_name}"
        );
        assert!(
            build_dest_path("/roms/nes", unsafe_name, "disk1.img", true).is_err(),
            "unsafe game name should be rejected: {unsafe_name}"
        );
    }
    assert!(
        resolve_dest_root(None, Some("/roms"), "../Collection").is_err(),
        "unsafe hierarchy should be rejected"
    );
}

#[test]
fn generator_resolve_dest_root_prefers_explicit_path() {
    // An explicit per-collection dest_path wins and is used verbatim,
    // ignoring both the default and the hierarchy.
    assert_eq!(
        resolve_dest_root(Some("/explicit/here"), Some("/lib"), "Acorn/BBC").unwrap(),
        Some("/explicit/here".to_string())
    );
}

#[test]
fn generator_resolve_dest_root_falls_back_to_default_plus_hierarchy() {
    assert_eq!(
        resolve_dest_root(None, Some("/Volumes/Data"), "TOSEC-PIX/Acorn/BBC").unwrap(),
        Some("/Volumes/Data/TOSEC-PIX/Acorn/BBC".to_string())
    );
    // A trailing slash on the default base is normalised away.
    assert_eq!(
        resolve_dest_root(None, Some("/Volumes/Data/"), "TOSEC/Sinclair").unwrap(),
        Some("/Volumes/Data/TOSEC/Sinclair".to_string())
    );
}

#[test]
fn generator_resolve_dest_root_is_none_without_explicit_or_default() {
    // Neither an explicit path nor a default: no destination, caller skips.
    assert_eq!(resolve_dest_root(None, None, "Acorn/BBC").unwrap(), None);
}

#[test]
fn resolve_output_format_prefers_explicit() {
    assert_eq!(
        resolve_output_format(Some("zip"), OutputFormat::Loose),
        OutputFormat::Zip
    );
    assert_eq!(
        resolve_output_format(Some("TorrentZip"), OutputFormat::Loose),
        OutputFormat::TorrentZip
    );
    assert_eq!(
        resolve_output_format(Some("loose"), OutputFormat::Zip),
        OutputFormat::Loose
    );
}

#[test]
fn resolve_output_format_falls_back_to_default() {
    assert_eq!(
        resolve_output_format(None, OutputFormat::TorrentZip),
        OutputFormat::TorrentZip
    );
    // Unrecognised value falls back rather than failing the plan.
    assert_eq!(
        resolve_output_format(Some("rar"), OutputFormat::Zip),
        OutputFormat::Zip
    );
}

#[test]
fn archive_format_tag_maps_formats() {
    assert_eq!(archive_format_tag(OutputFormat::Loose), None);
    assert_eq!(archive_format_tag(OutputFormat::Zip), Some("zip"));
    assert_eq!(
        archive_format_tag(OutputFormat::TorrentZip),
        Some("torrentzip")
    );
    assert_eq!(archive_format_tag(OutputFormat::SevenZip), Some("7z"));
}

#[test]
fn resolve_output_format_and_extension_handle_7z() {
    assert_eq!(
        resolve_output_format(Some("7z"), OutputFormat::Loose),
        OutputFormat::SevenZip
    );
    assert_eq!(archive_extension("7z"), "7z");
    assert_eq!(archive_extension("zip"), "zip");
    assert_eq!(archive_extension("torrentzip"), "zip");
}

#[test]
fn resolve_merge_mode_prefers_explicit_then_default() {
    // The kebab-case strings match the MergeMode serde representation.
    assert_eq!(
        resolve_merge_mode(Some("split"), MergeMode::NonMerged),
        MergeMode::Split
    );
    assert_eq!(
        resolve_merge_mode(Some("merged"), MergeMode::NonMerged),
        MergeMode::Merged
    );
    assert_eq!(
        resolve_merge_mode(Some("non-merged"), MergeMode::Split),
        MergeMode::NonMerged
    );
    // Case-insensitive.
    assert_eq!(
        resolve_merge_mode(Some("Split"), MergeMode::NonMerged),
        MergeMode::Split
    );
    // Absent or unrecognised falls back to the default rather than failing.
    assert_eq!(resolve_merge_mode(None, MergeMode::Split), MergeMode::Split);
    assert_eq!(
        resolve_merge_mode(Some("clone"), MergeMode::NonMerged),
        MergeMode::NonMerged
    );
}

#[test]
fn test_glob_match_exact() {
    assert!(glob_match("MAME", "MAME"));
    assert!(glob_match("mame", "MAME")); // case insensitive
    assert!(!glob_match("MAME", "MAME 2020"));
}

#[test]
fn test_glob_match_star() {
    // * matches any sequence
    assert!(glob_match("MAME*", "MAME"));
    assert!(glob_match("MAME*", "MAME 2020"));
    assert!(glob_match("*MAME*", "FBNeo MAME 2020"));
    assert!(glob_match("*", "anything"));
    assert!(glob_match("Nintendo*", "Nintendo - NES"));
    assert!(glob_match("Nintendo*", "Nintendo - SNES"));
    assert!(!glob_match("Nintendo*", "Sega - Genesis"));
}

#[test]
fn test_glob_match_question() {
    // ? matches exactly one character
    assert!(glob_match("MAME 202?", "MAME 2020"));
    assert!(glob_match("MAME 202?", "MAME 2024"));
    assert!(!glob_match("MAME 202?", "MAME 20"));
    assert!(!glob_match("MAME 202?", "MAME 20245"));
}

#[test]
fn test_glob_match_complex() {
    assert!(glob_match("*NES*", "Nintendo - NES"));
    assert!(glob_match("*NES*", "NES"));
    assert!(glob_match("*-*", "Nintendo - NES"));
    assert!(glob_match("Nintendo - *", "Nintendo - Game Boy"));
    assert!(glob_match("???", "NES"));
    assert!(!glob_match("???", "SNES"));
}

#[test]
fn test_glob_match_empty() {
    assert!(glob_match("", ""));
    assert!(!glob_match("", "text"));
    assert!(glob_match("*", ""));
}

fn make_test_rom(game_name: &str) -> MatchedRom {
    MatchedRom {
        game_name: game_name.to_string(),
        rom_name: format!("{}.rom", game_name),
        sha1: "abc123".to_string(),
        size: 1024,
        source_path: "/source/test.rom".to_string(),
        source_root: "/source".to_string(),
        archive_path: None,
        is_disk: false,
    }
}

#[test]
fn test_one_g_one_r_selects_usa_over_europe() {
    let matches = vec![
        make_test_rom("Super Mario Bros (Europe)"),
        make_test_rom("Super Mario Bros (USA)"),
        make_test_rom("Super Mario Bros (Japan)"),
    ];

    let prefs = FilterPreferences::default();
    let filtered = apply_one_g_one_r_filter(&matches, &prefs);

    assert_eq!(filtered.len(), 1);
    assert!(filtered[0].game_name.contains("USA"));
}

#[test]
fn test_one_g_one_r_excludes_cracks() {
    let matches = vec![
        make_test_rom("Game (USA)[cr PDX]"),
        make_test_rom("Game (Europe)"),
    ];

    let prefs = FilterPreferences::default();
    let filtered = apply_one_g_one_r_filter(&matches, &prefs);

    assert_eq!(filtered.len(), 1);
    assert!(filtered[0].game_name.contains("Europe"));
}

#[test]
fn test_one_g_one_r_excludes_bad_dumps() {
    let matches = vec![
        make_test_rom("Game (USA)[b]"),
        make_test_rom("Game (Japan)"),
    ];

    let prefs = FilterPreferences::default();
    let filtered = apply_one_g_one_r_filter(&matches, &prefs);

    assert_eq!(filtered.len(), 1);
    assert!(filtered[0].game_name.contains("Japan"));
}

#[test]
fn test_one_g_one_r_different_games_not_merged() {
    let matches = vec![
        make_test_rom("Super Mario Bros (USA)"),
        make_test_rom("Tetris (USA)"),
    ];

    let prefs = FilterPreferences::default();
    let filtered = apply_one_g_one_r_filter(&matches, &prefs);

    // Both games should remain (different titles)
    assert_eq!(filtered.len(), 2);
}

#[test]
fn test_one_g_one_r_custom_region_priority() {
    let matches = vec![make_test_rom("Game (USA)"), make_test_rom("Game (Japan)")];

    // Prefer Japan over USA
    let prefs = FilterPreferences::with_regions(vec!["Japan".to_string(), "USA".to_string()]);
    let filtered = apply_one_g_one_r_filter(&matches, &prefs);

    assert_eq!(filtered.len(), 1);
    assert!(filtered[0].game_name.contains("Japan"));
}

#[test]
fn different_roms_and_games_have_different_places() {
    let place = |game: &str, rom: &str, multi: bool| {
        build_dest_path("/roms", game, rom, multi).unwrap()
    };
    assert_ne!(place("A", "rom.bin", true), place("B", "rom.bin", true));
    assert_ne!(place("A", "rom.bin", true), place("B", "rom.bin", false));
    assert_ne!(place("A", "one.bin", false), place("B", "two.bin", false));
    // Two single-ROM games are placed flat, and meet where their ROMs share a name.
    assert_eq!(place("A", "rom.bin", false), place("B", "rom.bin", false));

    let archive = |game: &str| build_archive_dest_path("/roms", game, "zip").unwrap();
    assert_eq!(archive("A"), "/roms/A.zip");
    assert_ne!(archive("A"), archive("B"));
    assert_ne!(archive("A"), archive("A.zip"));
}

#[test]
fn the_root_of_the_file_system_is_a_root() {
    assert_eq!(build_dest_path("/", "Game", "a.rom", false).unwrap(), "/a.rom");
    assert_eq!(build_dest_path("//", "Game", "a.rom", true).unwrap(), "/Game/a.rom");
    assert_eq!(build_archive_dest_path("/", "Game", "zip").unwrap(), "/Game.zip");
    assert_eq!(build_disk_dest_path("/", "Game", "disk").unwrap(), "/Game/disk.chd");
    assert_eq!(resolve_dest_root(None, Some("/"), "SET/Sys").unwrap().unwrap(), "/SET/Sys");
    assert_eq!(build_dest_path("", "Game", "a.rom", false).unwrap(), "a.rom");
}
