//! The operation surface that front ends share: it returns data and never prints.

pub mod apply;
pub mod catalogue;
pub mod plans;
