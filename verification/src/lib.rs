//! Verified core of a ROM collection manager: release-name parsing, 1G1R
//! selection, reorganisation planning, apply bookkeeping and reporting rules.

pub mod archive;
pub mod clock;
pub mod db;
pub mod digest;
pub mod filter;
pub mod ops;
pub mod paths;
pub mod plan;
pub mod seqs;
pub mod sorted_map;
pub mod text;
pub mod util;
