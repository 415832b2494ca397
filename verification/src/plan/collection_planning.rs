//! Planning of one collection.

use super::archive_planning;
use super::archive_planning::{
    plan_archive_matches, ArchivePlanInputs, InputsView, PlacementPlan, PlacementPlanView,
};
use super::collection_scope;
use super::collection_scope::{
    resolve_scoped_collection, CollectionFacts, FactsView, ScopeView, ScopedCollectionResolution,
};
use super::container_drains;
use super::container_drains::{ContainerDrains, DrainView};
use super::error::{PlanError, PlanErrorView};
use super::options::{OptionsView, PlanOptions};
use super::placement_planning;
use super::placement_planning::{
    plan_disk_matches, plan_loose_matches, Layout, LooseInputsView, LoosePlanInputs,
};
use super::rules;
use super::rules::{
    apply_one_g_one_r_filter, archive_extension, archive_format_tag, effective_format,
    OutputFormat, MAX_MATCH_ROWS,
};
use super::types;
use super::types::{
    CollectionPlanStat, MatchView, MatchedRom, PlacementPlanCounts, Plan, PlanSummary, PlanView,
    StatView,
};
use crate::db::config;
use crate::db::files::Disposition;
use crate::sorted_map::{SortedMap, SortedSet};
use crate::text;
use vstd::prelude::*;

verus! {

/// What all collections of a plan share.
pub struct CollectionPlanningContext<'a> {
    pub opts: &'a PlanOptions,
    /// Content that belongs to more than one entry
    pub shared: &'a SortedSet<String>,
    /// Containers that serve more than one game
    pub shared_containers: &'a SortedSet<String>,
    pub dispositions: &'a SortedMap<String, Disposition>,
}

#[verifier::ext_equal]
pub struct ContextView {
    pub opts: OptionsView,
    pub shared: Set<Seq<char>>,
    pub shared_containers: Set<Seq<char>>,
    pub dispositions: Map<Seq<char>, Disposition>,
}

impl<'a> DeepView for CollectionPlanningContext<'a> {
    type V = ContextView;

    open spec fn deep_view(&self) -> ContextView {
        ContextView {
            opts: self.opts.deep_view(),
            shared: self.shared@,
            shared_containers: self.shared_containers@,
            dispositions: self.dispositions@,
        }
    }
}

/// What became of a collection.
#[derive(Debug)]
pub enum CollectionPlanningOutcome {
    NoActiveVersion,
    ExcludedBySet,
    /// Left out for want of a destination: its name
    SkippedNoDest(String),
    /// Left out because it matches too many rows: its name and the limit
    SkippedOversized(String),
    Planned,
}

#[verifier::ext_equal]
pub enum OutcomeView {
    NoActiveVersion,
    ExcludedBySet,
    SkippedNoDest(Seq<char>),
    SkippedOversized(Seq<char>),
    Planned,
}

impl DeepView for CollectionPlanningOutcome {
    type V = OutcomeView;

    open spec fn deep_view(&self) -> OutcomeView {
        match self {
            CollectionPlanningOutcome::NoActiveVersion => OutcomeView::NoActiveVersion,
            CollectionPlanningOutcome::ExcludedBySet => OutcomeView::ExcludedBySet,
            CollectionPlanningOutcome::SkippedNoDest(s) => OutcomeView::SkippedNoDest(s@),
            CollectionPlanningOutcome::SkippedOversized(s) => OutcomeView::SkippedOversized(s@),
            CollectionPlanningOutcome::Planned => OutcomeView::Planned,
        }
    }
}

/// The matches to plan: those of the preferred games only, where 1G1R filtering
/// is on.
pub open spec fn filtered(f: FactsView) -> Seq<MatchView> {
    match f.config {
        Some(c) => match c.extra_config {
            Some(e) => if e.one_g_one_r {
                rules::one_per_title(f.matches, config::preferences_of(e))
            } else {
                f.matches
            },
            None => f.matches,
        },
        None => f.matches,
    }
}

/// The output format of a collection.
pub open spec fn format_for(f: FactsView, opts: OptionsView) -> OutputFormat {
    rules::format_of(
        rules::format_setting(f.config),
        rules::format_of(rules::format_setting(f.set_config), opts.default_format),
    )
}

pub open spec fn disks(ms: Seq<MatchView>) -> Seq<MatchView> {
    ms.filter(|m: MatchView| m.is_disk)
}

pub open spec fn roms(ms: Seq<MatchView>) -> Seq<MatchView> {
    ms.filter(|m: MatchView| !m.is_disk)
}

pub open spec fn loose_inputs(dest_root: Seq<char>, ctx: ContextView) -> LooseInputsView {
    LooseInputsView {
        dest_root,
        default_dest: ctx.opts.default_dest,
        shared: ctx.shared,
        dispositions: ctx.dispositions,
    }
}

/// What is planned for the matches of a collection: its ROMs in the collection's
/// format, then its disks, loose whatever the format.
pub open spec fn content_plan(
    ms: Seq<MatchView>,
    format: OutputFormat,
    dest_root: Seq<char>,
    ctx: ContextView,
) -> Result<PlacementPlanView, PlanErrorView> {
    let for_roms = match rules::tag_of(format) {
        None => placement_planning::loose_plan(
            Layout::Loose,
            roms(ms),
            loose_inputs(dest_root, ctx),
        ),
        Some(tag) => archive_planning::archive_plan(
            roms(ms),
            InputsView {
                tag,
                ext: rules::extension_for(tag),
                dest_root,
                default_dest: ctx.opts.default_dest,
                shared: ctx.shared,
                shared_containers: ctx.shared_containers,
                dispositions: ctx.dispositions,
            },
        ),
    };
    match for_roms {
        Err(e) => Err(e),
        Ok(p) => if disks(ms).len() == 0 {
            Ok(p)
        } else {
            match placement_planning::loose_plan(
                Layout::Disk,
                disks(ms),
                loose_inputs(dest_root, ctx),
            ) {
                Err(e) => Err(e),
                Ok(d) => Ok(archive_planning::joined(p, d)),
            }
        },
    }
}

/// A plan with a collection's placements and figures recorded.
pub open spec fn recorded_on(
    p: PlanView,
    name: Seq<char>,
    hierarchy: Seq<char>,
    placed: PlacementPlanView,
) -> PlanView {
    let q = types::with_kinds(p, placed.kinds);
    PlanView {
        summary: PlanSummary {
            already_correct: q.summary.already_correct.saturating_add(
                placed.counts.already_correct,
            ),
            ..q.summary
        },
        per_collection: q.per_collection.push(
            StatView {
                name,
                node_path: hierarchy,
                to_write: placed.counts.to_write,
                already_correct: placed.counts.already_correct,
                bytes: placed.counts.bytes,
            },
        ),
        ..q
    }
}

/// How a collection that matches too many rows is reported.
pub open spec fn oversized(name: Seq<char>) -> Seq<char> {
    name + " (>"@ + text::decimal(MAX_MATCH_ROWS as nat) + " match-rows)"@
}

/// An oversized collection is reported by its name and the limit that it exceeds.
pub proof fn law_oversized_reports_name_and_limit(name: Seq<char>)
    ensures
        text::begins(oversized(name), name),
        text::finishes(oversized(name), text::decimal(5000000) + " match-rows)"@),
{
    let s = oversized(name);
    let tail = text::decimal(5000000) + " match-rows)"@;
    assert(s.take(name.len() as int) =~= name);
    assert(s.skip(s.len() - tail.len()) =~= tail);
}

/// A plan in the making, with the containers to drain at its end.
#[verifier::ext_equal]
pub struct Draft {
    pub plan: PlanView,
    pub drains: Map<Seq<char>, DrainView>,
}

/// What planning a collection makes of a draft, and what became of the
/// collection.
pub open spec fn collection_plan(d: Draft, f: FactsView, ctx: ContextView) -> Result<
    (Draft, OutcomeView),
    PlanErrorView,
> {
    match collection_scope::scope_of(f, ctx.opts) {
        Err(e) => Err(PlanErrorView::Path(e)),
        Ok(ScopeView::NoActiveVersion) => Ok((d, OutcomeView::NoActiveVersion)),
        Ok(ScopeView::ExcludedBySet) => Ok((d, OutcomeView::ExcludedBySet)),
        Ok(ScopeView::Resolved { version_id: _, hierarchy, dest_root }) => match dest_root {
            None => Ok((d, OutcomeView::SkippedNoDest(f.name))),
            Some(root) => if f.match_rows > MAX_MATCH_ROWS {
                Ok((d, OutcomeView::SkippedOversized(oversized(f.name))))
            } else {
                match content_plan(filtered(f), format_for(f, ctx.opts), root, ctx) {
                    Err(e) => Err(e),
                    Ok(p) => Ok(
                        (
                            Draft {
                                plan: recorded_on(d.plan, f.name, hierarchy, p),
                                drains: container_drains::all_recorded(d.drains, p.drains),
                            },
                            OutcomeView::Planned,
                        ),
                    ),
                }
            },
        },
    }
}

/// Whether a plan holds no operation but those of loose storage.
pub open spec fn only_loose(kinds: Seq<types::KindView>) -> bool {
    forall|i: int|
        0 <= i < kinds.len() ==> (#[trigger] kinds[i]) is Copy || kinds[i] is Move
            || kinds[i] is Delete
}

/// The format of a collection decides what is built: every repack planned for it
/// has that format and goes to a path with that format's extension, and nothing is
/// repacked or moved whole where it is stored loose. Disks are stored loose always.
pub proof fn law_format_decides_what_is_built(
    ms: Seq<MatchView>,
    format: OutputFormat,
    dest_root: Seq<char>,
    ctx: ContextView,
)
    ensures
        content_plan(ms, format, dest_root, ctx) matches Ok(p) ==> {
            &&& format is Loose ==> only_loose(p.kinds)
            &&& (forall|i: int| 0 <= i < ms.len() ==> (#[trigger] ms[i]).is_disk) ==> only_loose(
                p.kinds,
            )
            &&& forall|i: int|
                0 <= i < p.kinds.len() ==> (#[trigger] p.kinds[i] matches types::KindView::Repack {
                    dest,
                    format: built,
                    ..
                } ==> match format {
                    OutputFormat::Loose => false,
                    OutputFormat::Zip => built == "zip"@ && text::finishes(dest, ".zip"@),
                    OutputFormat::TorrentZip => built == "torrentzip"@ && text::finishes(
                        dest,
                        ".zip"@,
                    ),
                    OutputFormat::SevenZip => built == "7z"@ && text::finishes(dest, ".7z"@),
                })
        },
{
    if content_plan(ms, format, dest_root, ctx) is Ok {
        let p = content_plan(ms, format, dest_root, ctx)->Ok_0;
        let linp = loose_inputs(dest_root, ctx);
        let ds = disks(ms);
        let rs = roms(ms);
        placement_planning::law_operations_read_held_copies_whole(Layout::Disk, ds, linp);
        placement_planning::law_operations_read_held_copies_whole(Layout::Loose, rs, linp);
        rules::law_format_settings_name_formats(Seq::empty(), format, format);
        let first = match rules::tag_of(format) {
            None => placement_planning::loose_plan(Layout::Loose, rs, linp)->Ok_0,
            Some(tag) => archive_planning::archive_plan(
                rs,
                archive_inputs(tag, dest_root, ctx),
            )->Ok_0,
        };
        let second = if ds.len() == 0 {
            archive_planning::nothing()
        } else {
            placement_planning::loose_plan(Layout::Disk, ds, linp)->Ok_0
        };
        assert(p.kinds =~= first.kinds + second.kinds);
        assert forall|i: int| 0 <= i < second.kinds.len() implies (#[trigger] second.kinds[i]) is Copy
            || second.kinds[i] is Move || second.kinds[i] is Delete by {
            assert(placement_planning::about_a_match(second.kinds[i], Layout::Disk, ds, linp));
        }
        if format is Loose {
            assert forall|i: int| 0 <= i < first.kinds.len() implies (
            #[trigger] first.kinds[i]) is Copy || first.kinds[i] is Move
                || first.kinds[i] is Delete by {
                assert(placement_planning::about_a_match(first.kinds[i], Layout::Loose, rs, linp));
            }
        } else {
            let inp = archive_inputs(rules::tag_of(format)->0, dest_root, ctx);
            archive_planning::law_repacks_have_the_collections_format(rs, inp);
            lemma_repack_extensions(rs, inp);
        }
        if forall|i: int| 0 <= i < ms.len() ==> (#[trigger] ms[i]).is_disk {
            lemma_no_roms(ms);
            assert(rs =~= Seq::empty());
            if !(format is Loose) {
                lemma_no_matches_no_archives(
                    archive_inputs(rules::tag_of(format)->0, dest_root, ctx),
                );
            }
        }
        reveal_strlit(".");
        reveal_strlit("zip");
        reveal_strlit("7z");
        reveal_strlit(".zip");
        reveal_strlit(".7z");
        assert("."@ + "zip"@ =~= ".zip"@);
        assert("."@ + "7z"@ =~= ".7z"@);
        let n = first.kinds.len() as int;
        assert forall|i: int| 0 <= i < p.kinds.len() implies (
        #[trigger] p.kinds[i] matches types::KindView::Repack { dest, format: built, .. }
            ==> match format {
            OutputFormat::Loose => false,
            OutputFormat::Zip => built == "zip"@ && text::finishes(dest, ".zip"@),
            OutputFormat::TorrentZip => built == "torrentzip"@ && text::finishes(dest, ".zip"@),
            OutputFormat::SevenZip => built == "7z"@ && text::finishes(dest, ".7z"@),
        }) by {
            if i < n {
                assert(p.kinds[i] == first.kinds[i]);
            } else {
                assert(p.kinds[i] == second.kinds[i - n]);
            }
        }
        if first.kinds.len() == 0 || format is Loose {
            assert forall|i: int| 0 <= i < p.kinds.len() implies (#[trigger] p.kinds[i]) is Copy
                || p.kinds[i] is Move || p.kinds[i] is Delete by {
                if i < n {
                    assert(p.kinds[i] == first.kinds[i]);
                } else {
                    assert(p.kinds[i] == second.kinds[i - n]);
                }
            }
        }
    }
}

/// What archive planning goes by for a tag.
spec fn archive_inputs(tag: Seq<char>, dest_root: Seq<char>, ctx: ContextView) -> InputsView {
    InputsView {
        tag,
        ext: rules::extension_for(tag),
        dest_root,
        default_dest: ctx.opts.default_dest,
        shared: ctx.shared,
        shared_containers: ctx.shared_containers,
        dispositions: ctx.dispositions,
    }
}

proof fn lemma_no_roms(ms: Seq<MatchView>)
    requires
        forall|i: int| 0 <= i < ms.len() ==> (#[trigger] ms[i]).is_disk,
    ensures
        roms(ms).len() == 0,
{
    crate::seqs::lemma_filter_members(ms, |m: MatchView| !m.is_disk);
    if roms(ms).len() > 0 {
        assert(roms(ms).contains(roms(ms)[0]));
        let i = choose|i: int| 0 <= i < ms.len() && ms[i] == roms(ms)[0];
        assert(ms[i].is_disk);
    }
}

proof fn lemma_no_matches_no_archives(inp: InputsView)
    ensures
        archive_planning::archive_plan(Seq::empty(), inp) matches Ok(p) ==> p.kinds.len() == 0,
{
    let none = Seq::<MatchView>::empty();
    archive_planning::lemma_games_listed(none);
    let games = crate::sorted_map::in_order::<String>(archive_planning::game_names(none));
    if games.len() > 0 {
        assert(games.to_set().contains(games[0]));
        assert(archive_planning::game_names(none).contains(games[0]));
    }
}

proof fn lemma_repack_extensions(ms: Seq<MatchView>, inp: InputsView)
    ensures
        archive_planning::archive_plan(ms, inp) matches Ok(p) ==> forall|i: int|
            0 <= i < p.kinds.len() ==> (#[trigger] p.kinds[i] matches types::KindView::Repack {
                dest,
                ..
            } ==> text::finishes(dest, "."@ + inp.ext)),
{
    archive_planning::law_repacks_have_the_collections_format(ms, inp);
    if archive_planning::archive_plan(ms, inp) is Ok {
        let p = archive_planning::archive_plan(ms, inp)->Ok_0;
        assert forall|i: int| 0 <= i < p.kinds.len() implies (
        #[trigger] p.kinds[i] matches types::KindView::Repack { dest, .. } ==> text::finishes(
            dest,
            "."@ + inp.ext,
        )) by {
            let kind = p.kinds[i];
            assert(archive_planning::serves_one(kind, ms, inp));
            let g = choose|g: Seq<char>| #[trigger]
                archive_planning::serves_game(kind, g, archive_planning::of_game(ms, g), inp);
            if let types::KindView::Repack { dest, .. } = kind {
                super::destinations::law_archive_has_its_extension(inp.dest_root, g, inp.ext);
            }
        }
    }
}

/// What becomes of a collection in scope, and of the draft: without a destination or
/// with too many rows it is reported by name and nothing is planned; else exactly
/// what its matches call for is appended, and it gets one line of figures.
pub proof fn law_collection_is_planned_or_reported(d: Draft, f: FactsView, ctx: ContextView)
    ensures
        collection_plan(d, f, ctx) matches Ok((after, outcome)) ==> {
            let scope = collection_scope::scope_of(f, ctx.opts)->Ok_0;
            &&& !(outcome is Planned) ==> after == d
            &&& f.version_id is None ==> outcome is NoActiveVersion
            &&& outcome is SkippedNoDest <==> (scope matches ScopeView::Resolved { dest_root, .. }
                && dest_root is None)
            &&& outcome matches OutcomeView::SkippedNoDest(n) ==> n == f.name
            &&& outcome is SkippedOversized <==> (scope matches ScopeView::Resolved {
                dest_root,
                ..
            } && dest_root is Some && f.match_rows > 5000000)
            &&& outcome is Planned <==> (scope matches ScopeView::Resolved { dest_root, .. }
                && dest_root is Some && f.match_rows <= 5000000)
            &&& outcome is Planned ==> {
                let root = scope->Resolved_dest_root->0;
                let p = content_plan(filtered(f), format_for(f, ctx.opts), root, ctx)->Ok_0;
                let ops = after.plan.operations;
                let n = d.plan.operations.len();
                &&& ops.len() == n + p.kinds.len()
                &&& ops.take(n as int) == d.plan.operations
                &&& forall|i: int|
                    0 <= i < p.kinds.len() ==> (#[trigger] ops[n + i]).kind == p.kinds[i]
                        && ops[n + i].status is Pending
                &&& after.plan.per_collection.len() == d.plan.per_collection.len() + 1
                &&& ({
                    let line = after.plan.per_collection.last();
                    &&& line.name == f.name
                    &&& line.node_path == collection_scope::hierarchy_of(f)
                    &&& line.to_write == p.counts.to_write
                    &&& line.already_correct == p.counts.already_correct
                    &&& line.bytes == p.counts.bytes
                })
                &&& d.plan.summary.already_correct + p.counts.already_correct <= usize::MAX
                    ==> after.plan.summary.already_correct == d.plan.summary.already_correct
                    + p.counts.already_correct
            }
        },
{
    if let Ok((after, outcome)) = collection_plan(d, f, ctx) {
        if outcome is Planned {
            let scope = collection_scope::scope_of(f, ctx.opts)->Ok_0;
            let root = scope->Resolved_dest_root->0;
            let p = content_plan(filtered(f), format_for(f, ctx.opts), root, ctx)->Ok_0;
            types::law_operations_are_appended(d.plan, p.kinds);
            lemma_already_kept(d.plan, p.kinds);
        }
    }
}

proof fn lemma_already_kept(p: PlanView, kinds: Seq<types::KindView>)
    ensures
        types::with_kinds(p, kinds).summary.already_correct == p.summary.already_correct,
        types::with_kinds(p, kinds).per_collection == p.per_collection,
    decreases kinds.len(),
{
    if kinds.len() > 0 {
        lemma_already_kept(p, kinds.drop_last());
    }
}

/// Filtering is on exactly where the collection's configuration asks for it, and then
/// goes by that configuration; the collection's own format setting comes before that
/// of its set, and that before the default. Every match is a disk's or a ROM's.
pub proof fn law_configuration_decides(f: FactsView, opts: OptionsView, m: MatchView)
    ensures
        (f.config matches Some(c) && c.extra_config matches Some(e) && e.one_g_one_r) ==> filtered(
            f,
        ) == rules::one_per_title(
            f.matches,
            config::preferences_of(f.config->0.extra_config->0),
        ),
        !(f.config matches Some(c) && c.extra_config matches Some(e) && e.one_g_one_r)
            ==> filtered(f) == f.matches,
        (f.config is None || f.config->0.output_format is None) && (f.set_config is None
            || f.set_config->0.output_format is None) ==> format_for(f, opts)
            == opts.default_format,
        (f.config is None || f.config->0.output_format is None) && (f.set_config matches Some(s)
            && s.output_format is Some) ==> format_for(f, opts) == rules::format_of(
            f.set_config->0.output_format,
            opts.default_format,
        ),
        (f.config matches Some(c) && c.output_format matches Some(s) && text::lower_seq(s)
            == "zip"@) ==> format_for(f, opts) is Zip,
        (f.config matches Some(c) && c.output_format matches Some(s) && text::lower_seq(s)
            == "7z"@) ==> format_for(f, opts) is SevenZip,
        (f.config matches Some(c) && c.output_format matches Some(s) && text::lower_seq(s)
            == "torrentzip"@) ==> format_for(f, opts) is TorrentZip,
        (f.config matches Some(c) && c.output_format matches Some(s) && text::lower_seq(s)
            == "loose"@) ==> format_for(f, opts) is Loose,
        disks(f.matches).contains(m) <==> f.matches.contains(m) && m.is_disk,
        roms(f.matches).contains(m) <==> f.matches.contains(m) && !m.is_disk,
{
    crate::seqs::lemma_filter_members(f.matches, |x: MatchView| x.is_disk);
    crate::seqs::lemma_filter_members(f.matches, |x: MatchView| !x.is_disk);
    if let Some(c) = f.config {
        if let Some(s) = c.output_format {
            let set = rules::format_of(rules::format_setting(f.set_config), opts.default_format);
            rules::law_format_settings_name_formats(s, OutputFormat::Zip, set);
            rules::law_format_settings_name_formats(s, OutputFormat::SevenZip, set);
            rules::law_format_settings_name_formats(s, OutputFormat::TorrentZip, set);
        }
    }
}

/// The matches to plan.
pub fn filter_matches(facts: &CollectionFacts) -> (r: Vec<MatchedRom>)
    ensures
        r.deep_view() == filtered(facts.deep_view()),
{
    if let Some(c) = &facts.config {
        if let Some(e) = &c.extra_config {
            if e.one_g_one_r {
                let prefs = e.to_filter_preferences();
                proof {
                    assert(types::match_views(facts.matches@) =~= facts.matches.deep_view());
                }
                return apply_one_g_one_r_filter(facts.matches.as_slice(), &prefs);
            }
        }
    }
    archive_planning::clone_matches(&facts.matches)
}

/// Parts the disks from the ROMs.
pub fn partition_disks(matches: Vec<MatchedRom>) -> (r: (Vec<MatchedRom>, Vec<MatchedRom>))
    ensures
        r.0.deep_view() == disks(matches.deep_view()),
        r.1.deep_view() == roms(matches.deep_view()),
{
    let ghost all = matches.deep_view();
    let mut disk_list: Vec<MatchedRom> = Vec::new();
    let mut rom_list: Vec<MatchedRom> = Vec::new();
    let mut i: usize = 0;
    proof {
        reveal(Seq::filter);
        assert(disk_list.deep_view() =~= disks(all.take(0)));
        assert(rom_list.deep_view() =~= roms(all.take(0)));
    }
    while i < matches.len()
        invariant
            i <= matches@.len(),
            all == matches.deep_view(),
            disk_list.deep_view() == disks(all.take(i as int)),
            rom_list.deep_view() == roms(all.take(i as int)),
        decreases matches@.len() - i,
    {
        let ghost d0 = disk_list.deep_view();
        let ghost r0 = rom_list.deep_view();
        proof {
            assert(all.take(i + 1).drop_last() =~= all.take(i as int));
            reveal_with_fuel(Seq::filter, 2);
        }
        let m = matches[i].clone();
        if m.is_disk {
            disk_list.push(m);
            proof {
                assert(disk_list.deep_view() =~= d0.push(all[i as int]));
            }
        } else {
            rom_list.push(m);
            proof {
                assert(rom_list.deep_view() =~= r0.push(all[i as int]));
            }
        }
        i = i + 1;
    }
    proof {
        assert(all.take(i as int) =~= all);
    }
    (disk_list, rom_list)
}

/// Plans the matches of a collection.
pub fn plan_collection_matches(
    ctx: &CollectionPlanningContext,
    matches: Vec<MatchedRom>,
    format: OutputFormat,
    dest_root: &str,
) -> (r: Result<PlacementPlan, PlanError>)
    ensures
        archive_planning::agrees(
            r,
            content_plan(matches.deep_view(), format, dest_root@, ctx.deep_view()),
        ),
{
    let (disk_list, rom_list) = partition_disks(matches);
    let default_dest: Option<&str> = match &ctx.opts.default_dest {
        Some(d) => Some(d.as_str()),
        None => None,
    };
    let loose = LoosePlanInputs {
        dest_root,
        default_dest,
        shared: ctx.shared,
        dispositions: ctx.dispositions,
    };
    let for_roms = match archive_format_tag(format) {
        None => plan_loose_matches(&rom_list, &loose),
        Some(tag) => {
            let inputs = ArchivePlanInputs {
                tag,
                ext: archive_extension(tag),
                dest_root,
                default_dest,
                shared: ctx.shared,
                shared_containers: ctx.shared_containers,
                dispositions: ctx.dispositions,
            };
            plan_archive_matches(&rom_list, &inputs)
        },
    };
    let mut total = match for_roms {
        Ok(p) => p,
        Err(e) => {
            return Err(e);
        },
    };
    proof {
        assert(disk_list.deep_view().len() == disk_list@.len());
    }
    if disk_list.len() > 0 {
        match plan_disk_matches(&disk_list, &loose) {
            Ok(d) => {
                total.join(d);
            },
            Err(e) => {
                return Err(e);
            },
        }
    }
    Ok(total)
}

/// Records a collection's figures on the plan.
fn record_on_plan(plan: &mut Plan, name: String, node_path: String, counts: PlacementPlanCounts)
    ensures
        final(plan).deep_view() == (PlanView {
            summary: PlanSummary {
                already_correct: old(plan).summary.already_correct.saturating_add(
                    counts.already_correct,
                ),
                ..old(plan).summary
            },
            per_collection: old(plan).deep_view().per_collection.push(
                StatView {
                    name: name@,
                    node_path: node_path@,
                    to_write: counts.to_write,
                    already_correct: counts.already_correct,
                    bytes: counts.bytes,
                },
            ),
            ..old(plan).deep_view()
        }),
{
    let ghost before = plan.per_collection.deep_view();
    plan.summary.already_correct = plan.summary.already_correct.saturating_add(
        counts.already_correct,
    );
    plan.per_collection.push(
        CollectionPlanStat {
            name,
            node_path,
            to_write: counts.to_write,
            already_correct: counts.already_correct,
            bytes: counts.bytes,
        },
    );
    proof {
        assert(plan.per_collection.deep_view() =~= before.push(
            plan.per_collection.deep_view().last(),
        ));
    }
}

/// How a collection that matches too many rows is reported.
fn oversized_text(name: &str) -> (r: String)
    ensures
        r@ == oversized(name@),
{
    let limit = text::decimal_string(MAX_MATCH_ROWS as u64);
    let head = text::concat3(name, " (>", limit.as_str());
    text::concat2(head.as_str(), " match-rows)")
}

/// Plans one collection.
pub fn plan_collection(
    ctx: &CollectionPlanningContext,
    facts: &CollectionFacts,
    plan: &mut Plan,
    drains: &mut ContainerDrains,
) -> (r: Result<CollectionPlanningOutcome, PlanError>)
    ensures
        ({
            let d = Draft { plan: old(plan).deep_view(), drains: old(drains)@ };
            let model = collection_plan(d, facts.deep_view(), ctx.deep_view());
            match r {
                Ok(outcome) => model == Ok::<(Draft, OutcomeView), PlanErrorView>(
                    (
                        Draft { plan: final(plan).deep_view(), drains: final(drains)@ },
                        outcome.deep_view(),
                    ),
                ),
                Err(e) => model == Err::<(Draft, OutcomeView), PlanErrorView>(e.deep_view())
                    && final(plan).deep_view() == old(plan).deep_view() && final(drains)@ == old(
                    drains,
                )@,
            }
        }),
{
    let (hierarchy, dest_root) = match resolve_scoped_collection(ctx.opts, facts) {
        Err(e) => {
            return Err(PlanError::Path(e));
        },
        Ok(ScopedCollectionResolution::NoActiveVersion) => {
            return Ok(CollectionPlanningOutcome::NoActiveVersion);
        },
        Ok(ScopedCollectionResolution::ExcludedBySet) => {
            return Ok(CollectionPlanningOutcome::ExcludedBySet);
        },
        Ok(ScopedCollectionResolution::Resolved { version_id: _, hierarchy, dest_root }) => {
            (hierarchy, dest_root)
        },
    };
    let root = match dest_root {
        Some(root) => root,
        None => {
            return Ok(
                CollectionPlanningOutcome::SkippedNoDest(facts.collection.name.clone()),
            );
        },
    };
    if facts.match_rows > MAX_MATCH_ROWS {
        return Ok(
            CollectionPlanningOutcome::SkippedOversized(
                oversized_text(facts.collection.name.as_str()),
            ),
        );
    }
    let matches = filter_matches(facts);
    let cfg: Option<&crate::db::config::CollectionConfig> = match &facts.config {
        Some(c) => Some(c),
        None => None,
    };
    let set_cfg: Option<&crate::db::config::CollectionConfig> = match &facts.set_config {
        Some(c) => Some(c),
        None => None,
    };
    let format = effective_format(ctx.opts.default_format, cfg, set_cfg);
    let placed = match plan_collection_matches(ctx, matches, format, root.as_str()) {
        Ok(placed) => placed,
        Err(e) => {
            return Err(e);
        },
    };
    let PlacementPlan { kinds, counts, drains: records } = placed;
    plan.add_kinds(kinds);
    record_on_plan(plan, facts.collection.name.clone(), hierarchy, counts);
    drains.record_all(records);
    Ok(CollectionPlanningOutcome::Planned)
}

} // verus!
