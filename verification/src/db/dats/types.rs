//! The records of a DAT.

use crate::text;
use vstd::prelude::*;

verus! {

/// Merge mode for MAME-style ROM sets.
#[derive(Clone, Copy, Debug, PartialEq, Eq, Structural)]
pub enum MergeMode {
    /// Every game contains all its ROMs (no inheritance)
    NonMerged,
    /// Clones only have unique ROMs; inherited ROMs come from parent
    Split,
    /// Parent contains all ROMs including clones (no separate clone archives)
    Merged,
}

impl Default for MergeMode {
    fn default() -> (r: Self)
        ensures
            r is NonMerged,
    {
        MergeMode::NonMerged
    }
}

/// A node in the DAT hierarchy.
#[derive(Clone, Debug)]
pub struct DatNode {
    pub id: i64,
    pub version_id: i64,
    pub parent_id: Option<i64>,
    pub name: String,
    pub node_type: String,
    pub path: String,
}

/// A game/set from a DAT.
#[derive(Clone, Debug)]
pub struct DatGame {
    pub id: i64,
    pub node_id: i64,
    pub name: String,
    pub description: Option<String>,
    pub parent_name: Option<String>,
    pub is_bios: bool,
    pub is_device: bool,
    pub is_mechanical: bool,
}

#[verifier::ext_equal]
pub struct GameView {
    pub id: i64,
    pub name: Seq<char>,
    pub parent_name: Option<Seq<char>>,
    pub is_bios: bool,
    pub is_device: bool,
    pub is_mechanical: bool,
}

impl DeepView for DatGame {
    type V = GameView;

    open spec fn deep_view(&self) -> GameView {
        GameView {
            id: self.id,
            name: self.name@,
            parent_name: self.parent_name.deep_view(),
            is_bios: self.is_bios,
            is_device: self.is_device,
            is_mechanical: self.is_mechanical,
        }
    }
}

/// A ROM within a game.
#[derive(Clone, Debug)]
pub struct DatRom {
    pub id: i64,
    pub game_id: i64,
    pub name: String,
    pub size: i64,
    pub sha1: Option<String>,
    pub md5: Option<String>,
    pub crc32: Option<String>,
    pub status: String,
    pub merge_tag: Option<String>,
    /// True for a `<disk>` (CHD): `sha1` is the CHD's internal hash, the file is
    /// `<name>.chd`, and it is stored loose rather than packed.
    pub is_disk: bool,
}

#[verifier::ext_equal]
pub struct RomView {
    pub id: i64,
    pub game_id: i64,
    pub name: Seq<char>,
    pub size: i64,
    pub sha1: Option<Seq<char>>,
    pub md5: Option<Seq<char>>,
    pub crc32: Option<Seq<char>>,
    pub status: Seq<char>,
    pub merge_tag: Option<Seq<char>>,
    pub is_disk: bool,
}

impl DeepView for DatRom {
    type V = RomView;

    open spec fn deep_view(&self) -> RomView {
        RomView {
            id: self.id,
            game_id: self.game_id,
            name: self.name@,
            size: self.size,
            sha1: self.sha1.deep_view(),
            md5: self.md5.deep_view(),
            crc32: self.crc32.deep_view(),
            status: self.status@,
            merge_tag: self.merge_tag.deep_view(),
            is_disk: self.is_disk,
        }
    }
}

/// The path of a node moved under its own name, so that sibling DATs of one
/// directory get distinct destinations.
pub fn nested_node_path(path: &str, name: &str) -> (r: String)
    ensures
        r@ == path@ + "/"@ + name@,
{
    text::concat3(path, "/", name)
}

} // verus!
