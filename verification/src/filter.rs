//! Release-name parsing and 1G1R (one game, one ROM) selection, for both the
//! No-Intro and the TOSEC naming conventions.

pub mod parser;
pub mod preferences;

pub use parser::{parse_game_name, ParsedGameName};
pub use preferences::{group_by_title, select_preferred, FilterPreferences, RomCandidate};
