//! Plan execution: the rules by which the file operations of a plan are carried
//! out, and the archives that they build and read.

pub mod archive_ops;
pub mod fs_ops;
pub mod placement_ops;
pub mod safety_ops;
pub mod space;
