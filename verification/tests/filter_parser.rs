use cat198x::filter::parse_game_name;

#[test]
fn test_parse_nointro_usa() {
    let parsed = parse_game_name("Super Mario Bros (USA)");
    assert_eq!(parsed.title, "Super Mario Bros");
    assert_eq!(parsed.regions, vec!["USA"]);
    assert!(parsed.is_clean());
}

#[test]
fn test_parse_nointro_multi_region() {
    let parsed = parse_game_name("Tetris (USA, Europe)");
    assert_eq!(parsed.title, "Tetris");
    assert_eq!(parsed.regions, vec!["USA", "Europe"]);
}

#[test]
fn test_parse_nointro_world() {
    let parsed = parse_game_name("Pokemon Red (World)");
    assert_eq!(parsed.regions, vec!["World"]);
}

#[test]
fn test_parse_nointro_with_revision() {
    let parsed = parse_game_name("Legend of Zelda, The (USA) (Rev A)");
    assert_eq!(parsed.title, "Legend of Zelda, The");
    assert_eq!(parsed.regions, vec!["USA"]);
    assert_eq!(parsed.revision, Some("Rev A".to_string()));
}

#[test]
fn test_parse_tosec_basic() {
    let parsed = parse_game_name("Game Name (1990)(Publisher)(US)");
    assert_eq!(parsed.title, "Game Name");
    assert_eq!(parsed.regions, vec!["USA"]);
}

#[test]
fn test_parse_tosec_cracked() {
    let parsed = parse_game_name("Game Name (1990)(Publisher)(US)[cr Razor]");
    assert_eq!(parsed.regions, vec!["USA"]);
    assert!(parsed.flags.contains("cr"));
    assert!(!parsed.is_original());
    assert!(!parsed.is_clean());
}

#[test]
fn test_parse_tosec_trainer() {
    let parsed = parse_game_name("Game Name (1990)(Publisher)(US)[t +3]");
    assert!(parsed.flags.contains("t"));
    assert!(!parsed.is_original());
}

#[test]
fn test_parse_tosec_hacked() {
    let parsed = parse_game_name("Game Name (1990)(Publisher)(US)[h Intro]");
    assert!(parsed.flags.contains("h"));
    assert!(!parsed.is_original());
}

#[test]
fn test_parse_tosec_bad_dump() {
    let parsed = parse_game_name("Game Name (1990)(Publisher)(US)[b]");
    assert!(parsed.bad_dump);
    assert!(!parsed.is_clean());
}

#[test]
fn test_parse_tosec_alternate() {
    let parsed = parse_game_name("Game Name (1990)(Publisher)(US)[a]");
    assert!(parsed.flags.contains("a"));
    // Alternate is still "original" (not a hack/crack), just a different dump
    assert!(parsed.is_original());
}

#[test]
fn test_parse_verified_dump() {
    let parsed = parse_game_name("Game Name (USA) [!]");
    assert!(parsed.verified);
}

#[test]
fn test_parse_beta() {
    let parsed = parse_game_name("Game Name (USA) (Beta)");
    assert!(parsed.is_prerelease);
}

#[test]
fn test_parse_multi_country_tosec() {
    let parsed = parse_game_name("Game Name (1990)(Publisher)(US-EU)");
    assert_eq!(parsed.regions, vec!["USA", "Europe"]);
}

#[test]
fn test_is_clean() {
    // Clean: original + not bad
    let clean = parse_game_name("Game (USA)");
    assert!(clean.is_clean());

    // Not clean: cracked
    let cracked = parse_game_name("Game (USA)[cr]");
    assert!(!cracked.is_clean());

    // Not clean: bad dump
    let bad = parse_game_name("Game (USA)[b]");
    assert!(!bad.is_clean());

    // Not clean: trained
    let trained = parse_game_name("Game (USA)[t]");
    assert!(!trained.is_clean());
}

#[test]
fn title_ends_at_the_first_mark_of_either_kind() {
    assert_eq!(parse_game_name("Game [a] (USA)").title, "Game");
    assert_eq!(parse_game_name("Game (USA) [a]").title, "Game");
    assert_eq!(parse_game_name("  Plain Title  ").title, "Plain Title");
    assert_eq!(parse_game_name("").title, "");
}

#[test]
fn marks_do_not_change_the_title() {
    for marks in ["", " (USA)", "(1990)(Publisher)(US)[cr Razor]", " [!](Europe)[b]"] {
        let name = format!("Some Game{}", marks);
        assert_eq!(parse_game_name(&name).title, "Some Game");
    }
}

#[test]
fn languages_and_primary_region() {
    let parsed = parse_game_name("Game (Europe) (En) (Fr)");
    assert_eq!(parsed.regions, vec!["Europe"]);
    assert_eq!(parsed.languages, vec!["En", "Fr"]);
    assert_eq!(parsed.primary_region(), Some("Europe"));
    assert_eq!(parse_game_name("Game").primary_region(), None);
}

#[test]
fn pirate_flag_is_not_original_but_not_altered() {
    let parsed = parse_game_name("Game (1990)(Publisher)[p]");
    assert!(parsed.flags.contains("p"));
    assert!(!parsed.is_original());
    assert!(!parsed.is_altered());
}
