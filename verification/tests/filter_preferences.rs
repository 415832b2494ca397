use std::cmp::Ordering;

use cat198x::filter::{
    group_by_title, parse_game_name, select_preferred, FilterPreferences, RomCandidate,
};
use cat198x::filter::preferences::preferred_index;

#[test]
fn test_default_preferences() {
    let prefs = FilterPreferences::default();
    assert!(prefs.exclude_modified);
    assert!(prefs.exclude_bad_dumps);
    assert!(!prefs.exclude_prereleases);
    assert!(prefs.prefer_verified);
}

#[test]
fn test_should_exclude_cracked() {
    let prefs = FilterPreferences::default();
    let parsed = parse_game_name("Game (1990)(Publisher)(US)[cr Razor]");
    assert!(prefs.should_exclude(&parsed));
}

#[test]
fn test_should_exclude_bad_dump() {
    let prefs = FilterPreferences::default();
    let parsed = parse_game_name("Game (USA)[b]");
    assert!(prefs.should_exclude(&parsed));
}

#[test]
fn test_should_not_exclude_clean() {
    let prefs = FilterPreferences::default();
    let parsed = parse_game_name("Game (USA)");
    assert!(!prefs.should_exclude(&parsed));
}

#[test]
fn test_region_priority() {
    let prefs = FilterPreferences::default();

    let usa = parse_game_name("Game (USA)");
    let europe = parse_game_name("Game (Europe)");
    let japan = parse_game_name("Game (Japan)");

    // USA should score better than Europe
    assert!(prefs.region_score(&usa) < prefs.region_score(&europe));
    // Europe should score better than Japan
    assert!(prefs.region_score(&europe) < prefs.region_score(&japan));
}

#[test]
fn test_world_preferred() {
    let prefs = FilterPreferences::default();

    let world = parse_game_name("Game (World)");
    let usa = parse_game_name("Game (USA)");

    // World is the most preferred
    assert!(prefs.region_score(&world) < prefs.region_score(&usa));
}

#[test]
fn test_select_preferred_simple() {
    let prefs = FilterPreferences::default();

    let candidates = vec![
        RomCandidate::new("Game (Europe)"),
        RomCandidate::new("Game (USA)"),
        RomCandidate::new("Game (Japan)"),
    ];

    let selected = select_preferred(&candidates, &prefs);
    assert_eq!(selected, Some("Game (USA)"));
}

#[test]
fn test_select_preferred_excludes_cracks() {
    let prefs = FilterPreferences::default();

    let candidates = vec![
        RomCandidate::new("Game (USA)[cr PDX]"),
        RomCandidate::new("Game (Europe)"),
    ];

    // Should pick Europe because USA version is cracked
    let selected = select_preferred(&candidates, &prefs);
    assert_eq!(selected, Some("Game (Europe)"));
}

#[test]
fn test_select_preferred_verified() {
    let prefs = FilterPreferences::default();

    let candidates = vec![
        RomCandidate::new("Game (USA)"),
        RomCandidate::new("Game (USA) [!]"),
    ];

    // Should pick verified version
    let selected = select_preferred(&candidates, &prefs);
    assert_eq!(selected, Some("Game (USA) [!]"));
}

#[test]
fn test_select_preferred_all_excluded() {
    let prefs = FilterPreferences::default();

    let candidates = vec![
        RomCandidate::new("Game (USA)[cr]"),
        RomCandidate::new("Game (USA)[t]"),
        RomCandidate::new("Game (USA)[b]"),
    ];

    // All are excluded
    let selected = select_preferred(&candidates, &prefs);
    assert!(selected.is_none());
}

#[test]
fn test_select_preferred_parent() {
    let prefs = FilterPreferences {
        prefer_parent: true,
        ..Default::default()
    };

    let candidates = vec![
        RomCandidate::with_parent_status("Game (USA)", true),
        RomCandidate::with_parent_status("Game (World)", false),
    ];

    // Should prefer parent even though World ranks higher
    let selected = select_preferred(&candidates, &prefs);
    assert_eq!(selected, Some("Game (USA)"));
}

#[test]
fn test_group_by_title() {
    let names = vec![
        "Super Mario Bros (USA)",
        "Super Mario Bros (Europe)",
        "Tetris (USA)",
        "Tetris (Japan)",
    ];

    let groups = group_by_title(&names);

    assert_eq!(groups.len(), 2);
    assert_eq!(groups.get_str("Super Mario Bros").unwrap().len(), 2);
    assert_eq!(groups.get_str("Tetris").unwrap().len(), 2);
}

#[test]
fn test_custom_region_priority() {
    let prefs = FilterPreferences::with_regions(vec![
        "Japan".to_string(),
        "USA".to_string(),
        "Europe".to_string(),
    ]);

    let candidates = vec![
        RomCandidate::new("Game (USA)"),
        RomCandidate::new("Game (Japan)"),
    ];

    // Japan should be preferred with custom priority
    let selected = select_preferred(&candidates, &prefs);
    assert_eq!(selected, Some("Game (Japan)"));
}

#[test]
fn test_prefer_base_over_revision() {
    let prefs = FilterPreferences::default();

    let candidates = vec![
        RomCandidate::new("Game (USA) (Rev A)"),
        RomCandidate::new("Game (USA)"),
    ];

    // Should prefer base version over revision
    let selected = select_preferred(&candidates, &prefs);
    assert_eq!(selected, Some("Game (USA)"));
}

#[test]
fn region_score_is_the_best_place_of_any_region() {
    let prefs = FilterPreferences::default();
    assert_eq!(prefs.region_score(&parse_game_name("Game (World)")), Some(0));
    assert_eq!(prefs.region_score(&parse_game_name("Game (Japan, USA)")), Some(1));
    assert_eq!(prefs.region_score(&parse_game_name("Game")), None);
}

#[test]
fn prereleases_are_excluded_only_on_request() {
    let beta = parse_game_name("Game (USA) (Beta)");
    let mut prefs = FilterPreferences::default();
    assert!(!prefs.should_exclude(&beta));
    prefs.exclude_prereleases = true;
    assert!(prefs.should_exclude(&beta));
}

#[test]
fn first_of_equal_candidates_is_chosen() {
    let prefs = FilterPreferences::default();
    let candidates = vec![
        RomCandidate::new("Game (USA) (Rev A)"),
        RomCandidate::new("Game (USA) (Rev B)"),
    ];
    assert_eq!(select_preferred(&candidates, &prefs), Some("Game (USA) (Rev A)"));
    assert_eq!(preferred_index(&candidates, &prefs), Some(0));
    assert_eq!(select_preferred(&[], &prefs), None);
}

#[test]
fn groups_keep_the_order_of_names() {
    let groups = group_by_title(&["B (USA)", "A (USA)", "B (Japan)"]);
    assert_eq!(groups.get_str("B").unwrap(), &vec!["B (USA)", "B (Japan)"]);
    assert_eq!(groups.get_str("A").unwrap(), &vec!["A (USA)"]);
    assert!(groups.get_str("C").is_none());
}

#[test]
fn comparison_goes_by_verification_then_region_then_revision() {
    let prefs = FilterPreferences::default();
    let compare = |a: &str, b: &str| prefs.compare(&parse_game_name(a), &parse_game_name(b));
    assert_eq!(compare("Game (Japan) [!]", "Game (USA)"), Ordering::Less);
    assert_eq!(compare("Game (USA)", "Game (Europe)"), Ordering::Less);
    assert_eq!(compare("Game (Europe)", "Game (USA)"), Ordering::Greater);
    assert_eq!(compare("Game (USA)", "Game (USA) (Rev A)"), Ordering::Less);
    assert_eq!(compare("Game (USA) (Rev A)", "Game (USA) (Rev B)"), Ordering::Equal);
    assert_eq!(compare("Game (Scandinavia)", "Game"), Ordering::Less);
    assert_eq!(compare("Game", "Game"), Ordering::Equal);
}
