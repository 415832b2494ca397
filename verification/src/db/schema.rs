//! Which schema scripts a database of a given version still needs.

use vstd::prelude::*;

verus! {

/// Current schema version.
pub const SCHEMA_VERSION: i32 = 3;

/// A script that brings a database forward.
#[derive(Clone, Copy, Debug, PartialEq, Eq, Structural)]
pub enum SchemaStep {
    /// Create every table, in its current form
    CreateAll,
    /// Version two: add the quarantine table
    AddQuarantine,
    /// Version three: mark the disks among the ROMs
    AddDisks,
}

/// The version that is recorded once a step has run.
pub open spec fn version_after(step: SchemaStep) -> i32 {
    match step {
        SchemaStep::CreateAll => SCHEMA_VERSION,
        SchemaStep::AddQuarantine => 2,
        SchemaStep::AddDisks => 3,
    }
}

/// The steps that a database of a version needs: a fresh one (version 0) is
/// created whole, an older one migrated step by step.
pub open spec fn steps_from(version: i32) -> Seq<SchemaStep> {
    if version == 0 {
        seq![SchemaStep::CreateAll]
    } else if version < 2 {
        seq![SchemaStep::AddQuarantine, SchemaStep::AddDisks]
    } else if version < 3 {
        seq![SchemaStep::AddDisks]
    } else {
        Seq::empty()
    }
}

/// Running the steps leaves a database at the current version; one that needs
/// none is at it, or beyond.
pub proof fn law_steps_reach_current_version(version: i32)
    ensures
        steps_from(version).len() > 0 ==> version_after(steps_from(version).last())
            == SCHEMA_VERSION,
        steps_from(version).len() == 0 ==> version >= SCHEMA_VERSION,
{
}

/// Steps are run one version after another: each brings the database to a later
/// version than it had, none is left out on the way, and a fresh one is created whole.
pub proof fn law_every_missing_version_is_made_up(version: i32, v: i32)
    ensures
        version == 0 ==> steps_from(version) == seq![SchemaStep::CreateAll],
        1 <= version && version < v <= SCHEMA_VERSION ==> exists|i: int|
            0 <= i < steps_from(version).len() && version_after(
                #[trigger] steps_from(version)[i],
            ) == v && !(steps_from(version)[i] is CreateAll),
        forall|i: int|
            0 <= i < steps_from(version).len() ==> version < version_after(
                #[trigger] steps_from(version)[i],
            ) <= SCHEMA_VERSION,
        forall|i: int, j: int|
            0 <= i < j < steps_from(version).len() ==> version_after(
                #[trigger] steps_from(version)[i],
            ) < version_after(#[trigger] steps_from(version)[j]),
        SCHEMA_VERSION == 3,
{
    let steps = steps_from(version);
    if 1 <= version && version < v && v <= SCHEMA_VERSION {
        let i: int = if version < 2 {
            v - 2
        } else {
            0
        };
        assert(version_after(steps[i]) == v);
    }
}

impl SchemaStep {
    /// The version to record once the step has run.
    pub fn recorded_version(self) -> (r: i32)
        ensures
            r == version_after(self),
    {
        match self {
            SchemaStep::CreateAll => SCHEMA_VERSION,
            SchemaStep::AddQuarantine => 2,
            SchemaStep::AddDisks => 3,
        }
    }
}

/// The steps to run, in order.
pub fn schema_steps(version: i32) -> (r: Vec<SchemaStep>)
    ensures
        r@ == steps_from(version),
{
    let mut r: Vec<SchemaStep> = Vec::new();
    if version == 0 {
        r.push(SchemaStep::CreateAll);
    } else {
        if version < 2 {
            r.push(SchemaStep::AddQuarantine);
        }
        if version < 3 {
            r.push(SchemaStep::AddDisks);
        }
    }
    proof {
        assert(r@ =~= steps_from(version));
    }
    r
}

} // verus!
