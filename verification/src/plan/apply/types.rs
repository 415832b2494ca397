//! What applying a plan takes and what it reports.

use crate::plan::types::{KindView, OperationKind, OperationStatus};
use crate::text;
use vstd::prelude::*;

verus! {

/// How to apply a plan.
pub struct ApplyOptions {
    /// Report what would happen without touching any file
    pub dry_run: bool,
    /// Leave repacks pending for a later pass
    pub skip_repack: bool,
    /// How many workers run at a time
    pub jobs: usize,
    /// Where quarantined files go
    pub quarantine_dir: String,
}

/// An operation as it is shown: full paths and counts, nothing formatted.
#[derive(Debug)]
pub struct OpView {
    pub verb: &'static str,
    /// The source of a copy, move or relocation, the path of a delete or
    /// quarantine, the archive of a repack
    pub from: String,
    /// The destination, where there is a distinct one
    pub to: Option<String>,
    /// How many files a repack folds in
    pub file_count: Option<usize>,
    /// The size in bytes; none for a delete
    pub bytes: u64,
    /// Why the operation is safe to do, where it says
    pub reason: Option<String>,
}

#[verifier::ext_equal]
pub struct ShownView {
    pub verb: Seq<char>,
    pub from: Seq<char>,
    pub to: Option<Seq<char>>,
    pub file_count: Option<usize>,
    pub bytes: u64,
    pub reason: Option<Seq<char>>,
}

impl DeepView for OpView {
    type V = ShownView;

    open spec fn deep_view(&self) -> ShownView {
        ShownView {
            verb: self.verb@,
            from: self.from@,
            to: self.to.deep_view(),
            file_count: self.file_count,
            bytes: self.bytes,
            reason: self.reason.deep_view(),
        }
    }
}

/// How an operation is shown.
pub open spec fn shown(kind: KindView) -> ShownView {
    match kind {
        KindView::Copy { source, dest, size, .. } => ShownView {
            verb: "COPY"@,
            from: source.path,
            to: Some(dest),
            file_count: None,
            bytes: size,
            reason: None,
        },
        KindView::Move { source, dest, size, .. } => ShownView {
            verb: "MOVE"@,
            from: source.path,
            to: Some(dest),
            file_count: None,
            bytes: size,
            reason: None,
        },
        KindView::Relocate { source, dest, size } => ShownView {
            verb: "RELOCATE"@,
            from: source,
            to: Some(dest),
            file_count: None,
            bytes: size,
            reason: None,
        },
        KindView::Repack { sources, dest, size, .. } => shown_repack(
            sources.len() as usize,
            dest,
            size,
        ),
        KindView::Delete { path, reason, .. } => ShownView {
            verb: "DELETE"@,
            from: path,
            to: None,
            file_count: None,
            bytes: 0,
            reason: if reason.len() > 0 {
                Some(reason)
            } else {
                None
            },
        },
        KindView::Quarantine { path, size, reason, .. } => ShownView {
            verb: "QUARANTINE"@,
            from: path,
            to: None,
            file_count: None,
            bytes: size,
            reason: Some(reason),
        },
    }
}

/// How a repack is shown.
pub open spec fn shown_repack(count: usize, dest: Seq<char>, size: u64) -> ShownView {
    ShownView {
        verb: "REPACK"@,
        from: dest,
        to: None,
        file_count: Some(count),
        bytes: size,
        reason: None,
    }
}

/// An operation is shown by what it does and where: what it reads and writes, how many
/// files a repack takes, how many bytes are at stake, and its reason where it has one.
pub proof fn law_operations_are_shown_as_they_are(kind: KindView)
    ensures
        shown(kind).to == (match kind {
            KindView::Copy { dest, .. } => Some(dest),
            KindView::Move { dest, .. } => Some(dest),
            KindView::Relocate { dest, .. } => Some(dest),
            _ => None,
        }),
        kind matches KindView::Copy { source, .. } ==> shown(kind).from == source.path,
        kind matches KindView::Move { source, .. } ==> shown(kind).from == source.path,
        kind matches KindView::Relocate { source, .. } ==> shown(kind).from == source,
        kind matches KindView::Repack { dest, .. } ==> shown(kind).from == dest,
        kind matches KindView::Delete { path, .. } ==> shown(kind).from == path,
        kind matches KindView::Quarantine { path, .. } ==> shown(kind).from == path,
        kind is Repack <==> shown(kind).file_count is Some,
        kind matches KindView::Repack { sources, .. } ==> (sources.len() <= usize::MAX ==> shown(
            kind,
        ).file_count == Some(sources.len() as usize)),
        kind is Delete ==> shown(kind).bytes == 0,
        !(kind is Delete) ==> shown(kind).bytes == (match kind {
            KindView::Copy { size, .. } => size,
            KindView::Move { size, .. } => size,
            KindView::Relocate { size, .. } => size,
            KindView::Repack { size, .. } => size,
            KindView::Quarantine { size, .. } => size,
            KindView::Delete { .. } => 0,
        }),
        shown(kind).reason == (match kind {
            KindView::Quarantine { reason, .. } => Some(reason),
            KindView::Delete { reason, .. } => if reason == ""@ {
                None
            } else {
                Some(reason)
            },
            _ => None,
        }),
{
    reveal_strlit("");
    if let KindView::Delete { reason, .. } = kind {
        if reason.len() == 0 {
            assert(reason =~= ""@);
        }
    }
}

/// Operations that are shown with the same verb are of the same kind.
pub proof fn law_verbs_tell_kinds_apart(a: KindView, b: KindView)
    requires
        shown(a).verb == shown(b).verb,
    ensures
        a is Copy <==> b is Copy,
        a is Move <==> b is Move,
        a is Relocate <==> b is Relocate,
        a is Repack <==> b is Repack,
        a is Delete <==> b is Delete,
        a is Quarantine <==> b is Quarantine,
{
    reveal_strlit("COPY");
    reveal_strlit("MOVE");
    reveal_strlit("RELOCATE");
    reveal_strlit("REPACK");
    reveal_strlit("DELETE");
    reveal_strlit("QUARANTINE");
    assert("COPY"@[0] == 'C' && "MOVE"@[0] == 'M' && "RELOCATE"@[0] == 'R' && "REPACK"@[0] == 'R'
        && "DELETE"@[0] == 'D' && "QUARANTINE"@[0] == 'Q');
    assert("RELOCATE"@.len() == 8 && "REPACK"@.len() == 6);
}

impl OpView {
    /// How an operation is shown.
    pub fn of(kind: &OperationKind) -> (r: Self)
        ensures
            r.deep_view() == shown(kind.deep_view()),
    {
        match kind {
            OperationKind::Copy { source, dest, size, .. } => OpView {
                verb: "COPY",
                from: source.path.clone(),
                to: Some(dest.clone()),
                file_count: None,
                bytes: *size,
                reason: None,
            },
            OperationKind::Move { source, dest, size, .. } => OpView {
                verb: "MOVE",
                from: source.path.clone(),
                to: Some(dest.clone()),
                file_count: None,
                bytes: *size,
                reason: None,
            },
            OperationKind::Relocate { source, dest, size } => OpView {
                verb: "RELOCATE",
                from: source.clone(),
                to: Some(dest.clone()),
                file_count: None,
                bytes: *size,
                reason: None,
            },
            OperationKind::Repack { sources, dest, size, .. } => {
                proof {
                    assert(sources.deep_view().len() == sources@.len());
                }
                OpView::of_repack(sources.len(), dest.as_str(), *size)
            },
            OperationKind::Delete { path, reason, .. } => {
                let count: usize = text::chars_of(reason.as_str()).len();
                let why = if count > 0 {
                    Some(reason.clone())
                } else {
                    None
                };
                OpView {
                    verb: "DELETE",
                    from: path.clone(),
                    to: None,
                    file_count: None,
                    bytes: 0,
                    reason: why,
                }
            },
            OperationKind::Quarantine { path, size, reason, .. } => OpView {
                verb: "QUARANTINE",
                from: path.clone(),
                to: None,
                file_count: None,
                bytes: *size,
                reason: Some(reason.clone()),
            },
        }
    }

    /// How a repack is shown.
    pub fn of_repack(count: usize, dest: &str, size: u64) -> (r: Self)
        ensures
            r.deep_view() == shown_repack(count, dest@, size),
    {
        OpView {
            verb: "REPACK",
            from: dest.to_owned(),
            to: None,
            file_count: Some(count),
            bytes: size,
            reason: None,
        }
    }
}

/// What is reported while a plan is applied.
#[derive(Debug)]
pub enum ApplyEvent {
    /// An operation starts, in a worker's slot unless it is serial
    OpStarted { index: usize, total: usize, slot: Option<usize>, op: OpView },
    /// An operation has finished: once for each, with what came of it
    OpFinished {
        index: usize,
        slot: Option<usize>,
        op: OpView,
        status: OperationStatus,
        detail: Option<String>,
    },
    /// The file of a delete was gone already
    AlreadyGone { index: usize },
    /// A delete was refused: no copy of its content survives on disk
    DeleteRefused { index: usize, path: String },
    /// A delete was refused: the check for a surviving copy failed
    DeleteVerifyError { index: usize, message: String },
    OpFailed { index: usize, message: String },
    /// The catalogue could not be updated after a completed operation
    CatalogueWarning { op_id: u64, message: String },
    /// A batch of repacks starts
    RepackBatchStarted { count: usize, in_flight: usize },
}

#[verifier::ext_equal]
pub enum EventView {
    OpStarted { index: usize, total: usize, slot: Option<usize>, op: ShownView },
    OpFinished {
        index: usize,
        slot: Option<usize>,
        op: ShownView,
        status: OperationStatus,
        detail: Option<Seq<char>>,
    },
    AlreadyGone { index: usize },
    DeleteRefused { index: usize, path: Seq<char> },
    DeleteVerifyError { index: usize, message: Seq<char> },
    OpFailed { index: usize, message: Seq<char> },
    CatalogueWarning { op_id: u64, message: Seq<char> },
    RepackBatchStarted { count: usize, in_flight: usize },
}

impl DeepView for ApplyEvent {
    type V = EventView;

    open spec fn deep_view(&self) -> EventView {
        match self {
            ApplyEvent::OpStarted { index, total, slot, op } => EventView::OpStarted {
                index: *index,
                total: *total,
                slot: *slot,
                op: op.deep_view(),
            },
            ApplyEvent::OpFinished { index, slot, op, status, detail } => EventView::OpFinished {
                index: *index,
                slot: *slot,
                op: op.deep_view(),
                status: *status,
                detail: detail.deep_view(),
            },
            ApplyEvent::AlreadyGone { index } => EventView::AlreadyGone { index: *index },
            ApplyEvent::DeleteRefused { index, path } => EventView::DeleteRefused {
                index: *index,
                path: path@,
            },
            ApplyEvent::DeleteVerifyError { index, message } => EventView::DeleteVerifyError {
                index: *index,
                message: message@,
            },
            ApplyEvent::OpFailed { index, message } => EventView::OpFailed {
                index: *index,
                message: message@,
            },
            ApplyEvent::CatalogueWarning { op_id, message } => EventView::CatalogueWarning {
                op_id: *op_id,
                message: message@,
            },
            ApplyEvent::RepackBatchStarted { count, in_flight } => EventView::RepackBatchStarted {
                count: *count,
                in_flight: *in_flight,
            },
        }
    }
}

/// What came of applying a plan.
#[derive(Debug)]
pub struct ApplyOutcome {
    pub success_count: usize,
    /// Failures that a later run tries again
    pub error_count: usize,
    /// Operations that a safety check declined; not tried again
    pub refused_count: usize,
    /// Where the rollback journal is; none for a dry run
    pub log_path: Option<String>,
}

} // verus!
