//! Plan application: which operations run when, what each outcome means for the
//! plan, the journal and the catalogue, and what is reported.

pub mod catalogue;
pub mod runner;
pub mod types;
pub mod whole_run;
