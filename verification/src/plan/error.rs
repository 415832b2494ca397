//! Why a plan could not be made.

use crate::paths;
use crate::paths::{PathError, PathErrorView};
use crate::text;
use vstd::prelude::*;

verus! {

/// Why a plan could not be made.
#[derive(Debug)]
pub enum PlanError {
    /// A destination cannot be built
    Path(PathError),
    /// A DAT names an entry that cannot be placed
    DatPath { game_name: String, error: PathError },
    /// Collections share a destination root
    SharedRoots { message: String },
}

#[verifier::ext_equal]
pub enum PlanErrorView {
    Path(PathErrorView),
    DatPath { game_name: Seq<char>, error: PathErrorView },
    SharedRoots { message: Seq<char> },
}

impl DeepView for PlanError {
    type V = PlanErrorView;

    open spec fn deep_view(&self) -> PlanErrorView {
        match self {
            PlanError::Path(e) => PlanErrorView::Path(e.deep_view()),
            PlanError::DatPath { game_name, error } => PlanErrorView::DatPath {
                game_name: game_name@,
                error: error.deep_view(),
            },
            PlanError::SharedRoots { message } => PlanErrorView::SharedRoots { message: message@ },
        }
    }
}

impl PlanError {
    /// The reason in words.
    pub fn message(&self) -> (r: String)
        ensures
            r@ == match self.deep_view() {
                PlanErrorView::Path(e) => paths::path_message(e),
                PlanErrorView::DatPath { game_name, error } => "invalid DAT path in "@ + game_name
                    + (": "@ + paths::path_message(error)),
                PlanErrorView::SharedRoots { message } => message,
            },
    {
        match self {
            PlanError::Path(e) => e.message(),
            PlanError::DatPath { game_name, error } => {
                let cause = error.message();
                let tail = text::concat2(": ", cause.as_str());
                text::concat3("invalid DAT path in ", game_name.as_str(), tail.as_str())
            },
            PlanError::SharedRoots { message } => message.clone(),
        }
    }
}

} // verus!
