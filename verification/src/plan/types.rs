//! The plan and what it is made of.

use crate::clock;
use crate::seqs;
use crate::text;
use vstd::prelude::*;

verus! {

/// Where an operation reads its content from.
#[derive(Debug)]
pub struct SourceRef {
    /// The file, or the container that holds the content
    pub path: String,
    /// The entry inside the container, for archived content
    pub archive_path: Option<String>,
    pub sha1: String,
    /// The canonical name to give the content inside an archive
    pub entry_name: Option<String>,
}

#[verifier::ext_equal]
pub struct SourceRefView {
    pub path: Seq<char>,
    pub archive_path: Option<Seq<char>>,
    pub sha1: Seq<char>,
    pub entry_name: Option<Seq<char>>,
}

impl DeepView for SourceRef {
    type V = SourceRefView;

    open spec fn deep_view(&self) -> SourceRefView {
        SourceRefView {
            path: self.path@,
            archive_path: self.archive_path.deep_view(),
            sha1: self.sha1@,
            entry_name: self.entry_name.deep_view(),
        }
    }
}

impl Clone for SourceRef {
    fn clone(&self) -> (r: Self)
        ensures
            r.deep_view() == self.deep_view(),
    {
        SourceRef {
            path: self.path.clone(),
            archive_path: text::clone_opt(&self.archive_path),
            sha1: self.sha1.clone(),
            entry_name: text::clone_opt(&self.entry_name),
        }
    }
}

/// A copy of a list of sources.
pub fn clone_sources(list: &Vec<SourceRef>) -> (r: Vec<SourceRef>)
    ensures
        r.deep_view() == list.deep_view(),
{
    let mut r: Vec<SourceRef> = Vec::new();
    let mut i: usize = 0;
    while i < list.len()
        invariant
            i <= list@.len(),
            r.deep_view() == list.deep_view().take(i as int),
        decreases list@.len() - i,
    {
        let ghost before = r.deep_view();
        r.push(list[i].clone());
        i = i + 1;
        proof {
            assert(r.deep_view() =~= before.push(list.deep_view()[i - 1]));
            assert(r.deep_view() =~= list.deep_view().take(i as int));
        }
    }
    proof {
        assert(list.deep_view().take(i as int) =~= list.deep_view());
    }
    r
}

/// How a copied or moved file is written.
#[derive(Debug)]
pub enum CopyPlacement {
    /// As a file of its own
    LooseFile,
    /// As the single entry of a new zip archive
    ZipEntry { entry_name: String },
}

#[verifier::ext_equal]
pub enum PlacementView {
    LooseFile,
    ZipEntry { entry_name: Seq<char> },
}

impl DeepView for CopyPlacement {
    type V = PlacementView;

    open spec fn deep_view(&self) -> PlacementView {
        match self {
            CopyPlacement::LooseFile => PlacementView::LooseFile,
            CopyPlacement::ZipEntry { entry_name } => PlacementView::ZipEntry {
                entry_name: entry_name@,
            },
        }
    }
}

impl Clone for CopyPlacement {
    fn clone(&self) -> (r: Self)
        ensures
            r.deep_view() == self.deep_view(),
    {
        match self {
            CopyPlacement::LooseFile => CopyPlacement::LooseFile,
            CopyPlacement::ZipEntry { entry_name } => CopyPlacement::ZipEntry {
                entry_name: entry_name.clone(),
            },
        }
    }
}

/// Where one entry of a drained container went.
#[derive(Debug)]
pub struct RebuildEntry {
    /// The archive that now holds the content
    pub dest: String,
    /// Its name there
    pub dest_entry: String,
    /// The name it had in the container
    pub container_entry: String,
    pub sha1: String,
}

#[verifier::ext_equal]
pub struct RebuildEntryView {
    pub dest: Seq<char>,
    pub dest_entry: Seq<char>,
    pub container_entry: Seq<char>,
    pub sha1: Seq<char>,
}

impl DeepView for RebuildEntry {
    type V = RebuildEntryView;

    open spec fn deep_view(&self) -> RebuildEntryView {
        RebuildEntryView {
            dest: self.dest@,
            dest_entry: self.dest_entry@,
            container_entry: self.container_entry@,
            sha1: self.sha1@,
        }
    }
}

impl Clone for RebuildEntry {
    fn clone(&self) -> (r: Self)
        ensures
            r.deep_view() == self.deep_view(),
    {
        RebuildEntry {
            dest: self.dest.clone(),
            dest_entry: self.dest_entry.clone(),
            container_entry: self.container_entry.clone(),
            sha1: self.sha1.clone(),
        }
    }
}

/// The contents of a list of rebuild entries.
pub open spec fn entry_views(entries: Seq<RebuildEntry>) -> Seq<RebuildEntryView> {
    Seq::new(entries.len(), |i: int| entries[i].deep_view())
}

/// A copy of a list of rebuild entries.
pub fn clone_entries(list: &[RebuildEntry]) -> (r: Vec<RebuildEntry>)
    ensures
        r.deep_view() == entry_views(list@),
{
    let mut r: Vec<RebuildEntry> = Vec::new();
    let mut i: usize = 0;
    while i < list.len()
        invariant
            i <= list@.len(),
            r.deep_view() == entry_views(list@).take(i as int),
        decreases list@.len() - i,
    {
        let ghost before = r.deep_view();
        r.push(list[i].clone());
        i = i + 1;
        proof {
            assert(r.deep_view() =~= before.push(entry_views(list@)[i - 1]));
            assert(r.deep_view() =~= entry_views(list@).take(i as int));
        }
    }
    proof {
        assert(entry_views(list@).take(i as int) =~= entry_views(list@));
    }
    r
}

/// How to rebuild a drained container on rollback.
#[derive(Debug)]
pub struct ContainerRebuild {
    pub format: String,
    pub entries: Vec<RebuildEntry>,
}

#[verifier::ext_equal]
pub struct RebuildView {
    pub format: Seq<char>,
    pub entries: Seq<RebuildEntryView>,
}

impl DeepView for ContainerRebuild {
    type V = RebuildView;

    open spec fn deep_view(&self) -> RebuildView {
        RebuildView { format: self.format@, entries: self.entries.deep_view() }
    }
}

impl Clone for ContainerRebuild {
    fn clone(&self) -> (r: Self)
        ensures
            r.deep_view() == self.deep_view(),
    {
        let entries = clone_entries(self.entries.as_slice());
        proof {
            assert(entries.deep_view() =~= self.entries.deep_view());
        }
        ContainerRebuild { format: self.format.clone(), entries }
    }
}

/// One thing a plan does.
#[derive(Debug)]
pub enum OperationKind {
    /// Copy content to its destination
    Copy { source: SourceRef, dest: String, size: u64, placement: CopyPlacement },
    /// Move content to its destination
    Move { source: SourceRef, dest: String, size: u64, placement: CopyPlacement },
    /// Move a whole file unchanged
    Relocate { source: String, dest: String, size: u64 },
    /// Build an archive out of several sources
    Repack {
        sources: Vec<SourceRef>,
        dest: String,
        format: String,
        move_sources: bool,
        size: u64,
    },
    /// Delete a file; a drained container also carries how to rebuild it
    Delete { path: String, reason: String, rebuild: Option<ContainerRebuild> },
    /// Move a file into the quarantine store
    Quarantine {
        path: String,
        sha1: String,
        size: u64,
        reason: String,
        collection: Option<String>,
    },
}

#[verifier::ext_equal]
pub enum KindView {
    Copy { source: SourceRefView, dest: Seq<char>, size: u64, placement: PlacementView },
    Move { source: SourceRefView, dest: Seq<char>, size: u64, placement: PlacementView },
    Relocate { source: Seq<char>, dest: Seq<char>, size: u64 },
    Repack {
        sources: Seq<SourceRefView>,
        dest: Seq<char>,
        format: Seq<char>,
        move_sources: bool,
        size: u64,
    },
    Delete { path: Seq<char>, reason: Seq<char>, rebuild: Option<RebuildView> },
    Quarantine {
        path: Seq<char>,
        sha1: Seq<char>,
        size: u64,
        reason: Seq<char>,
        collection: Option<Seq<char>>,
    },
}

impl DeepView for OperationKind {
    type V = KindView;

    open spec fn deep_view(&self) -> KindView {
        match self {
            OperationKind::Copy { source, dest, size, placement } => KindView::Copy {
                source: source.deep_view(),
                dest: dest@,
                size: *size,
                placement: placement.deep_view(),
            },
            OperationKind::Move { source, dest, size, placement } => KindView::Move {
                source: source.deep_view(),
                dest: dest@,
                size: *size,
                placement: placement.deep_view(),
            },
            OperationKind::Relocate { source, dest, size } => KindView::Relocate {
                source: source@,
                dest: dest@,
                size: *size,
            },
            OperationKind::Repack { sources, dest, format, move_sources, size } => KindView::Repack {
                sources: sources.deep_view(),
                dest: dest@,
                format: format@,
                move_sources: *move_sources,
                size: *size,
            },
            OperationKind::Delete { path, reason, rebuild } => KindView::Delete {
                path: path@,
                reason: reason@,
                rebuild: rebuild.deep_view(),
            },
            OperationKind::Quarantine { path, sha1, size, reason, collection } =>
                KindView::Quarantine {
                path: path@,
                sha1: sha1@,
                size: *size,
                reason: reason@,
                collection: collection.deep_view(),
            },
        }
    }
}

impl Clone for OperationKind {
    fn clone(&self) -> (r: Self)
        ensures
            r.deep_view() == self.deep_view(),
    {
        match self {
            OperationKind::Copy { source, dest, size, placement } => OperationKind::Copy {
                source: source.clone(),
                dest: dest.clone(),
                size: *size,
                placement: placement.clone(),
            },
            OperationKind::Move { source, dest, size, placement } => OperationKind::Move {
                source: source.clone(),
                dest: dest.clone(),
                size: *size,
                placement: placement.clone(),
            },
            OperationKind::Relocate { source, dest, size } => OperationKind::Relocate {
                source: source.clone(),
                dest: dest.clone(),
                size: *size,
            },
            OperationKind::Repack { sources, dest, format, move_sources, size } =>
                OperationKind::Repack {
                sources: clone_sources(sources),
                dest: dest.clone(),
                format: format.clone(),
                move_sources: *move_sources,
                size: *size,
            },
            OperationKind::Delete { path, reason, rebuild } => {
                let rebuild: Option<ContainerRebuild> = match rebuild {
                    Some(b) => Some(b.clone()),
                    None => None,
                };
                OperationKind::Delete { path: path.clone(), reason: reason.clone(), rebuild }
            },
            OperationKind::Quarantine { path, sha1, size, reason, collection } =>
                OperationKind::Quarantine {
                path: path.clone(),
                sha1: sha1.clone(),
                size: *size,
                reason: reason.clone(),
                collection: text::clone_opt(collection),
            },
        }
    }
}

/// How far an operation has come.
#[derive(Clone, Copy, Debug, PartialEq, Eq, Structural)]
pub enum OperationStatus {
    Pending,
    Completed,
    /// It failed and may be tried again
    Failed,
    /// A safety check declined it; it is not tried again
    Refused,
}

/// Whether a status leaves the operation to be done.
pub open spec fn remaining(s: OperationStatus) -> bool {
    s is Pending || s is Failed
}

impl OperationStatus {
    /// Whether the operation is still to be done.
    pub fn is_remaining_work(&self) -> (r: bool)
        ensures
            r == remaining(*self),
    {
        match self {
            OperationStatus::Pending => true,
            OperationStatus::Failed => true,
            OperationStatus::Completed => false,
            OperationStatus::Refused => false,
        }
    }
}

/// An operation of a plan.
#[derive(Debug)]
pub struct Operation {
    pub id: u64,
    pub status: OperationStatus,
    pub kind: OperationKind,
}

#[verifier::ext_equal]
pub struct OperationView {
    pub id: u64,
    pub status: OperationStatus,
    pub kind: KindView,
}

impl DeepView for Operation {
    type V = OperationView;

    open spec fn deep_view(&self) -> OperationView {
        OperationView { id: self.id, status: self.status, kind: self.kind.deep_view() }
    }
}

/// Totals over a plan.
#[derive(Clone, Copy, Debug, PartialEq, Eq, Structural)]
pub struct PlanSummary {
    pub copy_count: usize,
    pub move_count: usize,
    pub relocate_count: usize,
    pub repack_count: usize,
    pub delete_count: usize,
    pub quarantine_count: usize,
    pub already_correct: usize,
    /// Bytes that the placements of the plan transfer
    pub total_bytes: u64,
}

/// What a plan does for one collection.
#[derive(Debug)]
pub struct CollectionPlanStat {
    pub name: String,
    pub node_path: String,
    pub to_write: usize,
    pub already_correct: usize,
    pub bytes: u64,
}

#[verifier::ext_equal]
pub struct StatView {
    pub name: Seq<char>,
    pub node_path: Seq<char>,
    pub to_write: usize,
    pub already_correct: usize,
    pub bytes: u64,
}

impl DeepView for CollectionPlanStat {
    type V = StatView;

    open spec fn deep_view(&self) -> StatView {
        StatView {
            name: self.name@,
            node_path: self.node_path@,
            to_write: self.to_write,
            already_correct: self.already_correct,
            bytes: self.bytes,
        }
    }
}

/// A reorganisation plan.
#[derive(Debug)]
pub struct Plan {
    /// The state of the catalogue that the plan was made from
    pub state_hash: String,
    pub created_at: String,
    pub operations: Vec<Operation>,
    pub summary: PlanSummary,
    pub per_collection: Vec<CollectionPlanStat>,
    /// Collections left out for want of a destination
    pub skipped_no_dest: Vec<String>,
    /// Collections left out because they match too many rows
    pub skipped_oversized: Vec<String>,
}

#[verifier::ext_equal]
pub struct PlanView {
    pub state_hash: Seq<char>,
    pub created_at: Seq<char>,
    pub operations: Seq<OperationView>,
    pub summary: PlanSummary,
    pub per_collection: Seq<StatView>,
    pub skipped_no_dest: Seq<Seq<char>>,
    pub skipped_oversized: Seq<Seq<char>>,
}

impl DeepView for Plan {
    type V = PlanView;

    open spec fn deep_view(&self) -> PlanView {
        PlanView {
            state_hash: self.state_hash@,
            created_at: self.created_at@,
            operations: self.operations.deep_view(),
            summary: self.summary,
            per_collection: self.per_collection.deep_view(),
            skipped_no_dest: self.skipped_no_dest.deep_view(),
            skipped_oversized: self.skipped_oversized.deep_view(),
        }
    }
}

pub open spec fn no_totals() -> PlanSummary {
    PlanSummary {
        copy_count: 0,
        move_count: 0,
        relocate_count: 0,
        repack_count: 0,
        delete_count: 0,
        quarantine_count: 0,
        already_correct: 0,
        total_bytes: 0,
    }
}

/// A plan that does nothing.
pub open spec fn empty_plan(state_hash: Seq<char>, created_at: Seq<char>) -> PlanView {
    PlanView {
        state_hash,
        created_at,
        operations: Seq::empty(),
        summary: no_totals(),
        per_collection: Seq::empty(),
        skipped_no_dest: Seq::empty(),
        skipped_oversized: Seq::empty(),
    }
}

/// The totals with one more operation.
pub open spec fn counted(s: PlanSummary, kind: KindView) -> PlanSummary {
    match kind {
        KindView::Copy { size, .. } => PlanSummary {
            copy_count: s.copy_count.saturating_add(1),
            total_bytes: s.total_bytes.saturating_add(size),
            ..s
        },
        KindView::Move { size, .. } => PlanSummary {
            move_count: s.move_count.saturating_add(1),
            total_bytes: s.total_bytes.saturating_add(size),
            ..s
        },
        KindView::Relocate { size, .. } => PlanSummary {
            relocate_count: s.relocate_count.saturating_add(1),
            total_bytes: s.total_bytes.saturating_add(size),
            ..s
        },
        KindView::Repack { size, .. } => PlanSummary {
            repack_count: s.repack_count.saturating_add(1),
            total_bytes: s.total_bytes.saturating_add(size),
            ..s
        },
        KindView::Delete { .. } => PlanSummary {
            delete_count: s.delete_count.saturating_add(1),
            ..s
        },
        KindView::Quarantine { .. } => PlanSummary {
            quarantine_count: s.quarantine_count.saturating_add(1),
            ..s
        },
    }
}

/// Where an operation puts a file, if it does.
pub open spec fn written_to(kind: KindView) -> Option<Seq<char>> {
    match kind {
        KindView::Copy { dest, .. } => Some(dest),
        KindView::Move { dest, .. } => Some(dest),
        KindView::Relocate { dest, .. } => Some(dest),
        KindView::Repack { dest, .. } => Some(dest),
        KindView::Delete { .. } => None,
        KindView::Quarantine { .. } => None,
    }
}

/// A plan with one more pending operation.
pub open spec fn with_kind(p: PlanView, kind: KindView) -> PlanView {
    PlanView {
        operations: p.operations.push(
            OperationView {
                id: p.operations.len() as u64,
                status: OperationStatus::Pending,
                kind,
            },
        ),
        summary: counted(p.summary, kind),
        ..p
    }
}

/// A plan with more pending operations, in order.
pub open spec fn with_kinds(p: PlanView, kinds: Seq<KindView>) -> PlanView
    decreases kinds.len(),
{
    if kinds.len() == 0 {
        p
    } else {
        with_kind(with_kinds(p, kinds.drop_last()), kinds.last())
    }
}

pub proof fn lemma_with_kinds_push(p: PlanView, kinds: Seq<KindView>, kind: KindView)
    ensures
        with_kinds(p, kinds.push(kind)) == with_kind(with_kinds(p, kinds), kind),
{
    assert(kinds.push(kind).drop_last() =~= kinds);
}

/// Adding operations appends exactly those, pending, and touches nothing that a
/// plan held before.
pub proof fn law_operations_are_appended(p: PlanView, kinds: Seq<KindView>)
    ensures
        ({
            let q = with_kinds(p, kinds);
            &&& q.operations.len() == p.operations.len() + kinds.len()
            &&& q.operations.take(p.operations.len() as int) == p.operations
            &&& forall|i: int|
                0 <= i < kinds.len() ==> (#[trigger] q.operations[p.operations.len() + i]).kind
                    == kinds[i] && q.operations[p.operations.len() + i].status is Pending
            &&& q.state_hash == p.state_hash && q.created_at == p.created_at
            &&& q.per_collection == p.per_collection
        }),
    decreases kinds.len(),
{
    let q = with_kinds(p, kinds);
    if kinds.len() > 0 {
        law_operations_are_appended(p, kinds.drop_last());
        let before = with_kinds(p, kinds.drop_last());
        assert(q.operations.take(p.operations.len() as int) =~= before.operations.take(
            p.operations.len() as int,
        ));
        assert forall|i: int| 0 <= i < kinds.len() implies (#[trigger] q.operations[p.operations.len()
            + i]).kind == kinds[i] && q.operations[p.operations.len() + i].status is Pending by {
            if i < kinds.len() - 1 {
                assert(q.operations[p.operations.len() + i] == before.operations[p.operations.len()
                    + i]);
                assert(kinds.drop_last()[i] == kinds[i]);
            }
        }
    } else {
        assert(p.operations.take(p.operations.len() as int) =~= p.operations);
    }
}

/// How many of the operations are deletes.
pub open spec fn deletes_in(kinds: Seq<KindView>) -> nat
    decreases kinds.len(),
{
    if kinds.len() == 0 {
        0
    } else {
        deletes_in(kinds.drop_last()) + (if kinds.last() is Delete {
            1nat
        } else {
            0nat
        })
    }
}

/// The delete total of a plan is the number of its deletes, as long as that
/// number can be represented.
pub proof fn law_delete_total_counts_deletes(p: PlanView, kinds: Seq<KindView>)
    requires
        p.summary.delete_count + deletes_in(kinds) <= usize::MAX,
    ensures
        with_kinds(p, kinds).summary.delete_count == p.summary.delete_count + deletes_in(kinds),
    decreases kinds.len(),
{
    if kinds.len() > 0 {
        law_delete_total_counts_deletes(p, kinds.drop_last());
    }
}

/// The bytes that operations transfer, added up.
pub open spec fn transferred(kinds: Seq<KindView>) -> int {
    kinds.fold_left(
        0int,
        |sum: int, k: KindView|
            sum + match k {
                KindView::Copy { source: _, dest: _, size, placement: _ } => size as int,
                KindView::Move { source: _, dest: _, size, placement: _ } => size as int,
                KindView::Relocate { source: _, dest: _, size } => size as int,
                KindView::Repack { sources: _, dest: _, format: _, move_sources: _, size } =>
                    size as int,
                KindView::Delete { .. } => 0,
                KindView::Quarantine { .. } => 0,
            },
    )
}

/// The totals of a plan count its operations, kind by kind, and the bytes of all
/// that it transfers, as far as they can be represented; and each operation is
/// numbered by its place.
pub proof fn law_totals_count_operations(p: PlanView, kinds: Seq<KindView>)
    requires
        p.summary.copy_count + kinds.len() <= usize::MAX,
        p.summary.move_count + kinds.len() <= usize::MAX,
        p.summary.relocate_count + kinds.len() <= usize::MAX,
        p.summary.repack_count + kinds.len() <= usize::MAX,
        p.summary.delete_count + kinds.len() <= usize::MAX,
        p.summary.quarantine_count + kinds.len() <= usize::MAX,
        p.operations.len() + kinds.len() <= u64::MAX,
    ensures
        ({
            let s = with_kinds(p, kinds).summary;
            let ops = with_kinds(p, kinds).operations;
            &&& s.copy_count == p.summary.copy_count + kinds.filter(|k: KindView| k is Copy).len()
            &&& s.move_count == p.summary.move_count + kinds.filter(|k: KindView| k is Move).len()
            &&& s.relocate_count == p.summary.relocate_count + kinds.filter(
                |k: KindView| k is Relocate,
            ).len()
            &&& s.repack_count == p.summary.repack_count + kinds.filter(
                |k: KindView| k is Repack,
            ).len()
            &&& s.delete_count == p.summary.delete_count + kinds.filter(
                |k: KindView| k is Delete,
            ).len()
            &&& s.quarantine_count == p.summary.quarantine_count + kinds.filter(
                |k: KindView| k is Quarantine,
            ).len()
            &&& s.already_correct == p.summary.already_correct
            &&& transferred(kinds) >= 0
            &&& p.summary.total_bytes + transferred(kinds) <= u64::MAX ==> s.total_bytes
                == p.summary.total_bytes + transferred(kinds)
            &&& p.summary.total_bytes + transferred(kinds) > u64::MAX ==> s.total_bytes == u64::MAX
            &&& ops.len() == p.operations.len() + kinds.len()
            &&& forall|i: int|
                p.operations.len() <= i < ops.len() ==> (#[trigger] ops[i]).id == i
        }),
    decreases kinds.len(),
{
    reveal_with_fuel(Seq::filter, 2);
    reveal_with_fuel(Seq::fold_left, 2);
    if kinds.len() > 0 {
        law_totals_count_operations(p, kinds.drop_last());
        let before = with_kinds(p, kinds.drop_last());
        let now = with_kinds(p, kinds);
        seqs::lemma_filter_members(kinds.drop_last(), |k: KindView| k is Copy);
        seqs::lemma_filter_members(kinds.drop_last(), |k: KindView| k is Move);
        seqs::lemma_filter_members(kinds.drop_last(), |k: KindView| k is Relocate);
        seqs::lemma_filter_members(kinds.drop_last(), |k: KindView| k is Repack);
        seqs::lemma_filter_members(kinds.drop_last(), |k: KindView| k is Delete);
        seqs::lemma_filter_members(kinds.drop_last(), |k: KindView| k is Quarantine);
        assert forall|i: int| p.operations.len() <= i < now.operations.len() implies (
        #[trigger] now.operations[i]).id == i by {
            if i < before.operations.len() {
                assert(now.operations[i] == before.operations[i]);
            }
        }
    }
}

impl Plan {
    /// A plan that does nothing yet.
    pub fn new(state_hash: String) -> (p: Self)
        ensures
            p.deep_view() == empty_plan(state_hash@, p.created_at@),
            clock::is_stamp(p.created_at@),
    {
        let p = Plan {
            state_hash,
            created_at: clock::chrono_now(),
            operations: Vec::new(),
            summary: PlanSummary {
                copy_count: 0,
                move_count: 0,
                relocate_count: 0,
                repack_count: 0,
                delete_count: 0,
                quarantine_count: 0,
                already_correct: 0,
                total_bytes: 0,
            },
            per_collection: Vec::new(),
            skipped_no_dest: Vec::new(),
            skipped_oversized: Vec::new(),
        };
        proof {
            assert(p.deep_view() =~= empty_plan(state_hash@, p.created_at@));
        }
        p
    }

    /// Whether the plan holds no operation.
    pub fn is_empty(&self) -> (r: bool)
        ensures
            r == (self.operations@.len() == 0),
    {
        self.operations.len() == 0
    }

    /// Appends a pending operation.
    pub fn add_kind(&mut self, kind: OperationKind)
        ensures
            final(self).deep_view() == with_kind(old(self).deep_view(), kind.deep_view()),
    {
        let ghost before = self.deep_view();
        match &kind {
            OperationKind::Copy { size, .. } => {
                self.summary.copy_count = self.summary.copy_count.saturating_add(1);
                self.summary.total_bytes = self.summary.total_bytes.saturating_add(*size);
            },
            OperationKind::Move { size, .. } => {
                self.summary.move_count = self.summary.move_count.saturating_add(1);
                self.summary.total_bytes = self.summary.total_bytes.saturating_add(*size);
            },
            OperationKind::Relocate { size, .. } => {
                self.summary.relocate_count = self.summary.relocate_count.saturating_add(1);
                self.summary.total_bytes = self.summary.total_bytes.saturating_add(*size);
            },
            OperationKind::Repack { size, .. } => {
                self.summary.repack_count = self.summary.repack_count.saturating_add(1);
                self.summary.total_bytes = self.summary.total_bytes.saturating_add(*size);
            },
            OperationKind::Delete { .. } => {
                self.summary.delete_count = self.summary.delete_count.saturating_add(1);
            },
            OperationKind::Quarantine { .. } => {
                self.summary.quarantine_count = self.summary.quarantine_count.saturating_add(1);
            },
        }
        let id: u64 = self.operations.len() as u64;
        self.operations.push(Operation { id, status: OperationStatus::Pending, kind });
        proof {
            assert(self.deep_view().operations =~= with_kind(
                before,
                kind.deep_view(),
            ).operations);
            assert(self.deep_view() =~= with_kind(before, kind.deep_view()));
        }
    }

    /// Appends pending operations, in order.
    pub fn add_kinds(&mut self, kinds: Vec<OperationKind>)
        ensures
            final(self).deep_view() == with_kinds(old(self).deep_view(), kinds.deep_view()),
    {
        let ghost before = self.deep_view();
        let ghost all = kinds.deep_view();
        let mut pending = seqs::reversed(kinds);
        let ghost mut done: int = 0;
        proof {
            assert(seqs::rev(pending.deep_view()) =~= all);
            assert(all.take(0) =~= Seq::<KindView>::empty());
        }
        while pending.len() > 0
            invariant
                0 <= done <= all.len(),
                all.take(done) + seqs::rev(pending.deep_view()) == all,
                self.deep_view() == with_kinds(before, all.take(done)),
            decreases pending@.len(),
        {
            let ghost p0 = pending.deep_view();
            if let Some(kind) = pending.pop() {
                proof {
                    assert(pending.deep_view() =~= p0.drop_last());
                    assert(seqs::rev(p0)[0] == kind.deep_view());
                    assert((all.take(done) + seqs::rev(p0))[done] == kind.deep_view());
                    assert(all[done] == kind.deep_view());
                    assert(all.take(done + 1) =~= all.take(done).push(kind.deep_view()));
                    assert(all.take(done + 1) + seqs::rev(pending.deep_view()) =~= all);
                    lemma_with_kinds_push(before, all.take(done), kind.deep_view());
                }
                self.add_kind(kind);
                proof {
                    done = done + 1;
                }
            }
        }
        proof {
            assert(all.take(done) =~= all);
        }
    }

    /// Plans a copy of a loose file into place.
    pub fn add_copy(&mut self, source: SourceRef, dest: String, size: u64)
        ensures
            final(self).deep_view() == with_kind(
                old(self).deep_view(),
                KindView::Copy {
                    source: source.deep_view(),
                    dest: dest@,
                    size,
                    placement: PlacementView::LooseFile,
                },
            ),
    {
        self.add_kind(
            OperationKind::Copy { source, dest, size, placement: CopyPlacement::LooseFile },
        );
    }

    /// Plans a move of a file into place.
    pub fn add_move(&mut self, source: SourceRef, dest: String, size: u64)
        ensures
            final(self).deep_view() == with_kind(
                old(self).deep_view(),
                KindView::Move {
                    source: source.deep_view(),
                    dest: dest@,
                    size,
                    placement: PlacementView::LooseFile,
                },
            ),
    {
        self.add_kind(
            OperationKind::Move { source, dest, size, placement: CopyPlacement::LooseFile },
        );
    }

    /// Plans to move a whole file unchanged.
    pub fn add_relocate(&mut self, source: String, dest: String, size: u64)
        ensures
            final(self).deep_view() == with_kind(
                old(self).deep_view(),
                KindView::Relocate { source: source@, dest: dest@, size },
            ),
    {
        self.add_kind(OperationKind::Relocate { source, dest, size });
    }

    /// Plans to build an archive.
    pub fn add_repack(
        &mut self,
        sources: Vec<SourceRef>,
        dest: String,
        format: String,
        size: u64,
        move_sources: bool,
    )
        ensures
            final(self).deep_view() == with_kind(
                old(self).deep_view(),
                KindView::Repack {
                    sources: sources.deep_view(),
                    dest: dest@,
                    format: format@,
                    move_sources,
                    size,
                },
            ),
    {
        self.add_kind(OperationKind::Repack { sources, dest, format, move_sources, size });
    }

    /// Plans to delete a file.
    pub fn add_delete(&mut self, path: String, reason: String)
        ensures
            final(self).deep_view() == with_kind(
                old(self).deep_view(),
                KindView::Delete { path: path@, reason: reason@, rebuild: None },
            ),
    {
        self.add_kind(OperationKind::Delete { path, reason, rebuild: None });
    }

    /// Plans to delete a container whose entries have all been repacked.
    pub fn add_container_drain(
        &mut self,
        container: String,
        reason: String,
        rebuild: ContainerRebuild,
    )
        ensures
            final(self).deep_view() == with_kind(
                old(self).deep_view(),
                KindView::Delete {
                    path: container@,
                    reason: reason@,
                    rebuild: Some(rebuild.deep_view()),
                },
            ),
    {
        self.add_kind(
            OperationKind::Delete { path: container, reason, rebuild: Some(rebuild) },
        );
    }
}

/// A ROM of a collection and one place where its content is held.
#[derive(Debug)]
pub struct MatchedRom {
    pub game_name: String,
    pub rom_name: String,
    pub sha1: String,
    pub size: i64,
    /// The path below the source root
    pub source_path: String,
    pub source_root: String,
    /// The entry inside the file, where the file is an archive
    pub archive_path: Option<String>,
    pub is_disk: bool,
}

#[verifier::ext_equal]
pub struct MatchView {
    pub game_name: Seq<char>,
    pub rom_name: Seq<char>,
    pub sha1: Seq<char>,
    pub size: i64,
    pub source_path: Seq<char>,
    pub source_root: Seq<char>,
    pub archive_path: Option<Seq<char>>,
    pub is_disk: bool,
}

impl DeepView for MatchedRom {
    type V = MatchView;

    open spec fn deep_view(&self) -> MatchView {
        MatchView {
            game_name: self.game_name@,
            rom_name: self.rom_name@,
            sha1: self.sha1@,
            size: self.size,
            source_path: self.source_path@,
            source_root: self.source_root@,
            archive_path: self.archive_path.deep_view(),
            is_disk: self.is_disk,
        }
    }
}

impl Clone for MatchedRom {
    fn clone(&self) -> (r: Self)
        ensures
            r.deep_view() == self.deep_view(),
    {
        MatchedRom {
            game_name: self.game_name.clone(),
            rom_name: self.rom_name.clone(),
            sha1: self.sha1.clone(),
            size: self.size,
            source_path: self.source_path.clone(),
            source_root: self.source_root.clone(),
            archive_path: text::clone_opt(&self.archive_path),
            is_disk: self.is_disk,
        }
    }
}

/// The contents of a list of matches.
pub open spec fn match_views(matches: Seq<MatchedRom>) -> Seq<MatchView> {
    Seq::new(matches.len(), |i: int| matches[i].deep_view())
}

/// The file that holds the content of a match: `<root>/<path>`.
pub open spec fn held_at(m: MatchView) -> Seq<char> {
    m.source_root + "/"@ + m.source_path
}

impl MatchedRom {
    /// The file that holds the content.
    pub fn location(&self) -> (r: String)
        ensures
            r@ == held_at(self.deep_view()),
    {
        text::concat3(self.source_root.as_str(), "/", self.source_path.as_str())
    }
}

/// What planning the placements of a collection came to.
#[derive(Clone, Copy, Debug, PartialEq, Eq, Structural)]
pub struct PlacementPlanCounts {
    pub already_correct: usize,
    pub to_write: usize,
    pub relocated: usize,
    pub deduped: usize,
    pub bytes: u64,
}

pub open spec fn no_counts() -> PlacementPlanCounts {
    PlacementPlanCounts { already_correct: 0, to_write: 0, relocated: 0, deduped: 0, bytes: 0 }
}

/// Counts added up.
pub open spec fn merged(a: PlacementPlanCounts, b: PlacementPlanCounts) -> PlacementPlanCounts {
    PlacementPlanCounts {
        already_correct: a.already_correct.saturating_add(b.already_correct),
        to_write: a.to_write.saturating_add(b.to_write),
        relocated: a.relocated.saturating_add(b.relocated),
        deduped: a.deduped.saturating_add(b.deduped),
        bytes: a.bytes.saturating_add(b.bytes),
    }
}

impl PlacementPlanCounts {
    pub fn zero() -> (r: Self)
        ensures
            r == no_counts(),
    {
        PlacementPlanCounts { already_correct: 0, to_write: 0, relocated: 0, deduped: 0, bytes: 0 }
    }

    /// Adds other counts to these.
    pub fn merge(&mut self, other: PlacementPlanCounts)
        ensures
            *final(self) == merged(*old(self), other),
    {
        self.already_correct = self.already_correct.saturating_add(other.already_correct);
        self.to_write = self.to_write.saturating_add(other.to_write);
        self.relocated = self.relocated.saturating_add(other.relocated);
        self.deduped = self.deduped.saturating_add(other.deduped);
        self.bytes = self.bytes.saturating_add(other.bytes);
    }
}

} // verus!
