//! DAT contents and completeness against them.

pub mod stats;
pub mod types;

pub use stats::{
    calculate_merge_mode_stats, calculate_rom_requirements,
    calculate_rom_requirements_with_options, present_keys, GameRomRequirements, Inventory,
    MergeModeStats, RequirementOptions, RomKey,
};
pub use types::{DatGame, DatNode, DatRom, MergeMode};
