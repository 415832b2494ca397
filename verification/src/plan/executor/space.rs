//! Whether the destination volumes have room for what a plan writes.

use crate::plan::types::{KindView, Operation, OperationKind, OperationStatus, OperationView, Plan};
use crate::sorted_map;
use crate::sorted_map::SortedMap;
use crate::text;
use crate::util;
use crate::util::format_bytes;
use vstd::prelude::*;

verus! {

/// A path without the separators at its start.
pub open spec fn unrooted(path: Seq<char>) -> Seq<char>
    decreases path.len(),
{
    if path.len() > 0 && path[0] == '/' {
        unrooted(path.drop_first())
    } else {
        path
    }
}

/// The volume of a path: `/Volumes/<name>` for a mounted one, else `/`.
pub open spec fn volume_of(path: Seq<char>) -> Seq<char> {
    let parts = text::split(unrooted(path), '/');
    if parts.len() >= 2 && parts[0] == "Volumes"@ && parts[1].len() > 0 {
        "/Volumes/"@ + parts[1]
    } else {
        "/"@
    }
}

/// Where an operation writes and how many new bytes it needs there. A move or
/// relocation within a volume is a rename and needs none; a delete frees space;
/// a quarantine does not write to the library.
pub open spec fn needed_by(k: KindView) -> Option<(Seq<char>, u64)> {
    match k {
        KindView::Copy { dest, size, .. } => Some((dest, size)),
        KindView::Move { source, dest, size, .. } => if volume_of(source.path) == volume_of(dest) {
            None
        } else {
            Some((dest, size))
        },
        KindView::Relocate { source, dest, size } => if volume_of(source) == volume_of(dest) {
            None
        } else {
            Some((dest, size))
        },
        KindView::Repack { dest, size, .. } => Some((dest, size)),
        KindView::Delete { .. } => None,
        KindView::Quarantine { .. } => None,
    }
}

/// The new bytes that a volume needs for the pending operations.
pub open spec fn bytes_on(ops: Seq<OperationView>, volume: Seq<char>) -> nat
    decreases ops.len(),
{
    if ops.len() == 0 {
        0
    } else {
        let op = ops.last();
        bytes_on(ops.drop_last(), volume) + match needed_by(op.kind) {
            Some((dest, size)) => if op.status is Pending && volume_of(dest) == volume {
                size as nat
            } else {
                0
            },
            None => 0,
        }
    }
}

/// The volumes that need new bytes.
pub open spec fn volumes(ops: Seq<OperationView>) -> Set<Seq<char>> {
    Set::new(|v: Seq<char>| bytes_on(ops, v) > 0)
}

/// A number of bytes with a margin of a tenth.
pub open spec fn with_margin(bytes: nat) -> u64 {
    text::capped((bytes * 11 / 10) as int)
}

/// Why a plan's writes do not fit.
#[derive(Debug)]
pub enum SpaceError {
    /// The free space of a volume is not known
    Unmeasured { volume: String },
    /// A volume has too little
    Insufficient { volume: String, needed: u64, available: u64 },
}

#[verifier::ext_equal]
pub enum SpaceErrorView {
    Unmeasured { volume: Seq<char> },
    Insufficient { volume: Seq<char>, needed: u64, available: u64 },
}

impl DeepView for SpaceError {
    type V = SpaceErrorView;

    open spec fn deep_view(&self) -> SpaceErrorView {
        match self {
            SpaceError::Unmeasured { volume } => SpaceErrorView::Unmeasured { volume: volume@ },
            SpaceError::Insufficient { volume, needed, available } =>
                SpaceErrorView::Insufficient {
                volume: volume@,
                needed: *needed,
                available: *available,
            },
        }
    }
}

/// A reason why writes do not fit, in words.
pub open spec fn space_message(e: SpaceErrorView) -> Seq<char> {
    match e {
        SpaceErrorView::Unmeasured { volume } => "Failed to get disk space for '"@ + volume + "'"@,
        SpaceErrorView::Insufficient { volume, needed, available } => "Insufficient space on '"@
            + volume + ("': need "@ + util::size_text(needed) + " (with 10% margin), have "@)
            + util::size_text(available),
    }
}

/// A shortage is told with its volume, what is needed and, last, what there is.
pub proof fn law_shortages_are_told_in_full(volume: Seq<char>, needed: u64, available: u64)
    ensures
        ({
            let m = space_message(SpaceErrorView::Insufficient { volume, needed, available });
            &&& text::begins(m, "Insufficient space on '"@ + volume)
            &&& text::finishes(
                m,
                "need "@ + util::size_text(needed) + " (with 10% margin), have "@
                    + util::size_text(available),
            )
        }),
        text::finishes(space_message(SpaceErrorView::Unmeasured { volume }), volume + "'"@),
{
    reveal_strlit("': need ");
    reveal_strlit("need ");
    let m = space_message(SpaceErrorView::Insufficient { volume, needed, available });
    let lead = "Insufficient space on '"@ + volume;
    let tail = "need "@ + util::size_text(needed) + " (with 10% margin), have "@ + util::size_text(
        available,
    );
    assert(m.take(lead.len() as int) =~= lead);
    assert("': need "@.skip(3) =~= "need "@);
    assert(m =~= lead + "': "@ + tail) by {
        reveal_strlit("': ");
        assert("': "@ + "need "@ =~= "': need "@);
    }
    assert(m.skip(m.len() - tail.len()) =~= tail);
    let u = space_message(SpaceErrorView::Unmeasured { volume });
    let end = volume + "'"@;
    assert(u.skip(u.len() - end.len()) =~= end);
}

impl SpaceError {
    /// The reason in words.
    pub fn message(&self) -> (r: String)
        ensures
            r@ == space_message(self.deep_view()),
    {
        match self {
            SpaceError::Unmeasured { volume } => text::concat3(
                "Failed to get disk space for '",
                volume.as_str(),
                "'",
            ),
            SpaceError::Insufficient { volume, needed, available } => {
                let need = format_bytes(*needed);
                let have = format_bytes(*available);
                let mid = text::concat3("': need ", need.as_str(), " (with 10% margin), have ");
                let head = text::concat3("Insufficient space on '", volume.as_str(), mid.as_str());
                text::concat2(head.as_str(), have.as_str())
            },
        }
    }
}

/// What is wrong with a volume, if anything.
pub open spec fn shortage(
    ops: Seq<OperationView>,
    available: Map<Seq<char>, u64>,
    volume: Seq<char>,
) -> Option<SpaceErrorView> {
    let needed = with_margin(bytes_on(ops, volume));
    if !available.contains_key(volume) {
        Some(SpaceErrorView::Unmeasured { volume })
    } else if available[volume] < needed {
        Some(SpaceErrorView::Insufficient { volume, needed, available: available[volume] })
    } else {
        None
    }
}

/// The first volume, in name order, whose writes do not fit.
pub open spec fn first_shortage(
    ops: Seq<OperationView>,
    available: Map<Seq<char>, u64>,
    order: Seq<Seq<char>>,
) -> Option<SpaceErrorView>
    decreases order.len(),
{
    if order.len() == 0 {
        None
    } else {
        match first_shortage(ops, available, order.drop_last()) {
            Some(e) => Some(e),
            None => shortage(ops, available, order.last()),
        }
    }
}

/// A plan that fits leaves room on every volume for all it writes there, with
/// a tenth to spare.
pub proof fn law_fitting_plan_has_room(
    ops: Seq<OperationView>,
    available: Map<Seq<char>, u64>,
    order: Seq<Seq<char>>,
    volume: Seq<char>,
)
    requires
        first_shortage(ops, available, order) is None,
        order.contains(volume),
    ensures
        available.contains_key(volume),
        available[volume] >= with_margin(bytes_on(ops, volume)),
        available[volume] == u64::MAX || available[volume] >= bytes_on(ops, volume),
    decreases order.len(),
{
    let i = choose|i: int| 0 <= i < order.len() && order[i] == volume;
    if i < order.len() - 1 {
        assert(order.drop_last()[i] == volume);
        law_fitting_plan_has_room(ops, available, order.drop_last(), volume);
    }
}

/// A move within one volume takes no room, however large.
pub proof fn law_rename_needs_no_room(k: KindView)
    ensures
        (k matches KindView::Move { source, dest, .. } && volume_of(source.path) == volume_of(
            dest,
        )) ==> needed_by(k) is None,
        (k matches KindView::Relocate { source, dest, .. } && volume_of(source) == volume_of(
            dest,
        )) ==> needed_by(k) is None,
{
}

proof fn lemma_bytes_split(a: Seq<OperationView>, b: Seq<OperationView>, volume: Seq<char>)
    ensures
        bytes_on(a + b, volume) == bytes_on(a, volume) + bytes_on(b, volume),
    decreases b.len(),
{
    if b.len() == 0 {
        assert(a + b =~= a);
    } else {
        assert((a + b).drop_last() =~= a + b.drop_last());
        assert((a + b).last() == b.last());
        lemma_bytes_split(a, b.drop_last(), volume);
    }
}

/// Every pending operation that creates a file counts its full size on the volume
/// of that file, and nothing else counts: a copy or a repack always does, a move or
/// a relocation where it comes from another volume, a delete or a quarantine never,
/// and never what is no longer pending.
pub proof fn law_new_files_count_in_full(ops: Seq<OperationView>, i: int, volume: Seq<char>)
    requires
        0 <= i < ops.len(),
    ensures
        bytes_on(Seq::empty(), volume) == 0,
        ({
            let more = bytes_on(ops, volume) - bytes_on(ops.remove(i), volume);
            let due = ops[i].status == OperationStatus::Pending;
            match ops[i].kind {
                KindView::Copy { source: _, dest, size, placement: _ } => more == if due
                    && volume_of(dest) == volume {
                    size as int
                } else {
                    0
                },
                KindView::Repack { sources: _, dest, format: _, move_sources: _, size } => more
                    == if due && volume_of(dest) == volume {
                    size as int
                } else {
                    0
                },
                KindView::Move { source, dest, size, placement: _ } => more == if due && volume_of(
                    dest,
                ) == volume && volume_of(source.path) != volume {
                    size as int
                } else {
                    0
                },
                KindView::Relocate { source, dest, size } => more == if due && volume_of(dest)
                    == volume && volume_of(source) != volume {
                    size as int
                } else {
                    0
                },
                KindView::Delete { .. } => more == 0,
                KindView::Quarantine { .. } => more == 0,
            }
        }),
{
    let head = ops.take(i);
    let one = seq![ops[i]];
    let tail = ops.skip(i + 1);
    assert(ops =~= head + one + tail);
    assert(ops.remove(i) =~= head + tail);
    lemma_bytes_split(head + one, tail, volume);
    lemma_bytes_split(head, one, volume);
    lemma_bytes_split(head, tail, volume);
    assert(one.drop_last() =~= Seq::empty());
    assert(bytes_on(one.drop_last(), volume) == 0);
}

/// What a volume needs does not depend on the order of the operations.
pub proof fn law_room_ignores_order(
    a: Seq<OperationView>,
    b: Seq<OperationView>,
    volume: Seq<char>,
)
    ensures
        bytes_on(a + b, volume) == bytes_on(b + a, volume),
        bytes_on(a + b, volume) == bytes_on(a, volume) + bytes_on(b, volume),
{
    lemma_bytes_split(a, b, volume);
    lemma_bytes_split(b, a, volume);
}

/// Room is wanted for a tenth more than is written, as far as that can be counted.
pub proof fn law_margin_is_a_tenth(bytes: nat)
    ensures
        bytes + bytes / 10 <= u64::MAX ==> with_margin(bytes) == bytes + bytes / 10,
        bytes + bytes / 10 > u64::MAX ==> with_margin(bytes) == u64::MAX,
{
}

/// A path below `/Volumes/<name>` is on that volume; a path that does not begin
/// with `/Volumes/`, or names no volume there, is on `/`.
pub proof fn law_volume_is_the_mount(name: Seq<char>, rest: Seq<char>, path: Seq<char>)
    requires
        !name.contains('/'),
        rest.len() == 0 || rest[0] == '/',
    ensures
        name.len() > 0 ==> volume_of("/Volumes/"@ + name + rest) == "/Volumes/"@ + name,
        name.len() == 0 ==> volume_of("/Volumes/"@ + name + rest) == "/"@,
        path.len() > 1 && path[0] == '/' && path[1] != '/' && !(path.len() >= 9 && path.take(9)
            == "/Volumes/"@) ==> volume_of(path) == "/"@,
{
    reveal_strlit("/Volumes/");
    reveal_strlit("Volumes");
    reveal_strlit("/");
    let whole = "/Volumes/"@ + name + rest;
    let bare = whole.drop_first();
    assert(unrooted(whole) == unrooted(bare));
    assert(unrooted(bare) == bare);
    text::lemma_first_index_is(bare, '/', 7);
    assert(bare.take(7) =~= "Volumes"@);
    let after = bare.skip(8);
    assert(after =~= name + rest);
    let k = name.len() as int;
    assert forall|j: int| 0 <= j < k implies after[j] != '/' by {
        assert(name.contains(name[j]));
    }
    text::lemma_first_index_is(after, '/', k);
    if k < after.len() {
        assert(after.take(k) =~= name);
        assert(text::split(after, '/') == seq![name] + text::split(after.skip(k + 1), '/'));
    } else {
        assert(after =~= name);
        assert(text::split(after, '/') == seq![after]);
    }
    assert(text::split(after, '/')[0] == name);
    assert(text::split(bare, '/') == seq![bare.take(7)] + text::split(after, '/'));
    assert(text::split(bare, '/')[0] == "Volumes"@);
    assert(text::split(bare, '/')[1] == name);
    if path.len() > 1 && path[0] == '/' && path[1] != '/' {
        let p = path.drop_first();
        assert(unrooted(path) == unrooted(p));
        assert(unrooted(p) == p);
        text::lemma_first_index(p, '/');
        let f = text::first_index(p, '/');
        let parts = text::split(p, '/');
        if f < p.len() {
            assert(parts[0] == p.take(f));
            if parts[0] == "Volumes"@ {
                assert(f == 7);
                assert forall|j: int| 0 <= j < 9 implies path.take(9)[j] == "/Volumes/"@[j] by {
                    if 0 < j < 8 {
                        assert(p.take(f)[j - 1] == "Volumes"@[j - 1]);
                    }
                }
                assert(path.take(9) =~= "/Volumes/"@);
            }
        } else {
            assert(parts == seq![p]);
        }
    }
}

proof fn lemma_volumes_finite(ops: Seq<OperationView>)
    ensures
        volumes(ops).finite(),
    decreases ops.len(),
{
    if ops.len() == 0 {
        assert(volumes(ops) =~= Set::empty());
    } else {
        lemma_volumes_finite(ops.drop_last());
        let before = volumes(ops.drop_last());
        let more = match needed_by(ops.last().kind) {
            Some((dest, _)) => before.insert(volume_of(dest)),
            None => before,
        };
        assert(volumes(ops).subset_of(more));
        vstd::set_lib::lemma_set_subset_finite(more, volumes(ops));
    }
}

proof fn lemma_shortages(
    ops: Seq<OperationView>,
    available: Map<Seq<char>, u64>,
    order: Seq<Seq<char>>,
)
    ensures
        first_shortage(ops, available, order) is None <==> forall|i: int|
            0 <= i < order.len() ==> shortage(ops, available, #[trigger] order[i]) is None,
        first_shortage(ops, available, order) matches Some(e) ==> exists|i: int|
            0 <= i < order.len() && shortage(ops, available, #[trigger] order[i]) == Some(e),
    decreases order.len(),
{
    if order.len() > 0 {
        let rest = order.drop_last();
        lemma_shortages(ops, available, rest);
        assert forall|i: int| 0 <= i < rest.len() implies rest[i] == #[trigger] order[i] by {}
        assert(order[order.len() - 1] == order.last());
        if first_shortage(ops, available, rest) is None {
            assert forall|i: int| 0 <= i < rest.len() implies shortage(
                ops,
                available,
                #[trigger] order[i],
            ) is None by {
                assert(rest[i] == order[i]);
            }
        } else {
            let e = first_shortage(ops, available, rest)->0;
            let i = choose|i: int|
                0 <= i < rest.len() && shortage(ops, available, #[trigger] rest[i]) == Some(e);
            assert(shortage(ops, available, order[i]) == Some(e));
        }
    }
}

/// A plan is let through exactly where every volume that it writes to is measured
/// and has room for what is written there and a tenth more; and what a refusal
/// says is so: that volume is short, by those figures.
pub proof fn law_refused_exactly_where_short(
    ops: Seq<OperationView>,
    available: Map<Seq<char>, u64>,
)
    ensures
        ({
            let found = first_shortage(
                ops,
                available,
                sorted_map::in_order::<String>(volumes(ops)),
            );
            &&& found is None <==> forall|v: Seq<char>| #[trigger]
                bytes_on(ops, v) > 0 ==> available.contains_key(v) && (available[v] == u64::MAX
                    || available[v] >= bytes_on(ops, v) + bytes_on(ops, v) / 10)
            &&& found matches Some(SpaceErrorView::Unmeasured { volume }) ==> bytes_on(ops, volume)
                > 0 && !available.contains_key(volume)
            &&& found matches Some(SpaceErrorView::Insufficient {
                volume,
                needed,
                available: free,
            }) ==> available.contains_key(volume) && free == available[volume] && free < needed
                && needed <= bytes_on(ops, volume) + bytes_on(ops, volume) / 10 && (needed
                == u64::MAX || needed == bytes_on(ops, volume) + bytes_on(ops, volume) / 10)
        }),
{
    let order = sorted_map::in_order::<String>(volumes(ops));
    lemma_volumes_finite(ops);
    sorted_map::lemma_order_exists::<String>(volumes(ops));
    lemma_shortages(ops, available, order);
    let found = first_shortage(ops, available, order);
    assert forall|v: Seq<char>| #[trigger] bytes_on(ops, v) > 0 implies order.contains(v) by {
        assert(volumes(ops).contains(v));
        assert(order.to_set().contains(v));
    }
    assert forall|i: int| 0 <= i < order.len() implies bytes_on(ops, #[trigger] order[i]) > 0 by {
        assert(order.to_set().contains(order[i]));
        assert(volumes(ops).contains(order[i]));
    }
    if found is None {
        assert forall|v: Seq<char>| #[trigger] bytes_on(ops, v) > 0 implies available.contains_key(v)
            && (available[v] == u64::MAX || available[v] >= bytes_on(ops, v) + bytes_on(ops, v)
            / 10) by {
            let i = choose|i: int| 0 <= i < order.len() && order[i] == v;
            assert(shortage(ops, available, order[i]) is None);
            law_margin_is_a_tenth(bytes_on(ops, v));
        }
    } else {
        let e = found->0;
        let i = choose|i: int|
            0 <= i < order.len() && shortage(ops, available, #[trigger] order[i]) == Some(e);
        law_margin_is_a_tenth(bytes_on(ops, order[i]));
        assert(bytes_on(ops, order[i]) > 0);
    }
}

/// The volume of a path.
pub fn volume_root(path: &str) -> (r: String)
    ensures
        r@ == volume_of(path@),
{
    let chars = text::chars_of(path);
    let mut lo: usize = 0;
    proof {
        assert(chars@.skip(0) =~= path@);
    }
    while lo < chars.len() && chars[lo] == '/'
        invariant
            lo <= chars@.len(),
            unrooted(path@) == unrooted(chars@.skip(lo as int)),
        decreases chars@.len() - lo,
    {
        proof {
            assert(chars@.skip(lo as int).drop_first() =~= chars@.skip(lo + 1));
        }
        lo = lo + 1;
    }
    let rest = text::string_of(chars.as_slice(), lo, chars.len());
    proof {
        assert(chars@.subrange(lo as int, chars@.len() as int) =~= chars@.skip(lo as int));
    }
    let parts = text::split_string(rest.as_str(), '/');
    proof {
        assert(parts.deep_view().len() == parts@.len());
    }
    if parts.len() >= 2 && text::str_eq(parts[0].as_str(), "Volumes") && text::chars_of(
        parts[1].as_str(),
    ).len() > 0 {
        text::concat2("/Volumes/", parts[1].as_str())
    } else {
        "/".to_owned()
    }
}

/// Whether two paths live on the same volume, so that a move between them is a
/// rename.
pub fn same_volume(a: &str, b: &str) -> (r: bool)
    ensures
        r == (volume_of(a@) == volume_of(b@)),
{
    let x = volume_root(a);
    let y = volume_root(b);
    text::str_eq(x.as_str(), y.as_str())
}

/// Where an operation writes and how many new bytes it needs there.
fn need(kind: &OperationKind) -> (r: Option<(&str, u64)>)
    ensures
        match r {
            Some((dest, size)) => needed_by(kind.deep_view()) == Some((dest@, size)),
            None => needed_by(kind.deep_view()) is None,
        },
{
    match kind {
        OperationKind::Copy { dest, size, .. } => Some((dest.as_str(), *size)),
        OperationKind::Move { source, dest, size, .. } => if same_volume(
            source.path.as_str(),
            dest.as_str(),
        ) {
            None
        } else {
            Some((dest.as_str(), *size))
        },
        OperationKind::Relocate { source, dest, size } => if same_volume(
            source.as_str(),
            dest.as_str(),
        ) {
            None
        } else {
            Some((dest.as_str(), *size))
        },
        OperationKind::Repack { dest, size, .. } => Some((dest.as_str(), *size)),
        OperationKind::Delete { .. } => None,
        OperationKind::Quarantine { .. } => None,
    }
}

proof fn lemma_bytes_bound(ops: Seq<OperationView>, volume: Seq<char>)
    ensures
        bytes_on(ops, volume) <= ops.len() * 0x1_0000_0000_0000_0000,
    decreases ops.len(),
{
    if ops.len() > 0 {
        lemma_bytes_bound(ops.drop_last(), volume);
    }
}

/// The new bytes that each volume needs; volumes that need none are left out.
pub fn bytes_by_volume(operations: &Vec<Operation>) -> (r: SortedMap<String, u128>)
    ensures
        r.linked(),
        forall|v: Seq<char>| #[trigger]
            r@.contains_key(v) <==> bytes_on(operations.deep_view(), v) > 0,
        forall|v: Seq<char>| #[trigger]
            r@.contains_key(v) ==> r@[v] == bytes_on(operations.deep_view(), v),
{
    let ghost ops = operations.deep_view();
    let mut sums: SortedMap<String, u128> = SortedMap::new();
    let mut i: usize = 0;
    while i < operations.len()
        invariant
            i <= operations@.len(),
            ops == operations.deep_view(),
            sums.linked(),
            forall|v: Seq<char>| #[trigger]
                sums@.contains_key(v) <==> bytes_on(ops.take(i as int), v) > 0,
            forall|v: Seq<char>| #[trigger]
                sums@.contains_key(v) ==> sums@[v] == bytes_on(ops.take(i as int), v),
        decreases operations@.len() - i,
    {
        let op = &operations[i];
        let ghost t = ops.take(i as int);
        let ghost before = sums@;
        proof {
            assert(ops.take(i + 1).drop_last() =~= t);
            assert(ops.take(i + 1).last() == op.deep_view());
        }
        if op.status == OperationStatus::Pending {
            if let Some((dest, size)) = need(&op.kind) {
                if size > 0 {
                    let volume = volume_root(dest);
                    let had: u128 = match sums.get(&volume) {
                        Some(n) => *n,
                        None => 0,
                    };
                    proof {
                        lemma_bytes_bound(t, volume@);
                        assert(had == bytes_on(t, volume@)) by {
                            if !before.contains_key(volume@) {
                                assert(!(bytes_on(t, volume@) > 0));
                            }
                        }
                        assert(t.len() < 0x1_0000_0000_0000_0000);
                        assert(t.len() * 0x1_0000_0000_0000_0000 <= 0xffff_ffff_ffff_ffff
                            * 0x1_0000_0000_0000_0000) by (nonlinear_arith)
                            requires
                                t.len() <= 0xffff_ffff_ffff_ffff,
                        ;
                    }
                    sums.insert(volume, had + size as u128);
                }
            }
        }
        proof {
            let u = ops.take(i + 1);
            assert forall|v: Seq<char>| #[trigger] sums@.contains_key(v) <==> bytes_on(u, v) > 0 by {
                assert(before.contains_key(v) <==> bytes_on(t, v) > 0);
            }
            assert forall|v: Seq<char>| #[trigger] sums@.contains_key(v) implies sums@[v]
                == bytes_on(u, v) by {
                assert(before.contains_key(v) <==> bytes_on(t, v) > 0);
            }
        }
        i = i + 1;
    }
    proof {
        assert(ops.take(i as int) =~= ops);
    }
    sums
}

fn margin(bytes: u128) -> (r: u64)
    requires
        bytes <= 0xffff_ffff_ffff_ffff * 0x1_0000_0000_0000_0000,
    ensures
        r == with_margin(bytes as nat),
{
    if bytes >= 0x1_0000_0000_0000_0000 {
        u64::MAX
    } else {
        let m: u128 = bytes * 11 / 10;
        if m > u64::MAX as u128 {
            u64::MAX
        } else {
            m as u64
        }
    }
}

/// Checks that there is room for everything the plan has yet to write, given the
/// free space of each volume. Only new bytes count, added up by destination
/// volume.
pub fn check_disk_space(plan: &Plan, available: &SortedMap<String, u64>) -> (r: Result<
    (),
    SpaceError,
>)
    ensures
        ({
            let ops = plan.deep_view().operations;
            let found = first_shortage(
                ops,
                available@,
                sorted_map::in_order::<String>(volumes(ops)),
            );
            match r {
                Ok(_) => found is None,
                Err(e) => found == Some(e.deep_view()),
            }
        }),
{
    let ghost ops = plan.deep_view().operations;
    let total: usize = plan.operations.len();
    let sums = bytes_by_volume(&plan.operations);
    let n = sums.len();
    let ghost order = sums.keys();
    proof {
        assert forall|v: Seq<char>| #[trigger] volumes(ops).contains(v) <==> order.contains(v) by {
            assert(sums@.contains_key(v) <==> order.contains(v));
        }
        sorted_map::lemma_in_order::<String>(order, volumes(ops));
    }
    let mut i: usize = 0;
    while i < n
        invariant
            i <= n,
            n == order.len(),
            order == sums.keys(),
            order == sorted_map::in_order::<String>(volumes(ops)),
            ops == plan.deep_view().operations,
            ops.len() == total,
            sums.linked(),
            forall|v: Seq<char>| #[trigger]
                sums@.contains_key(v) ==> sums@[v] == bytes_on(ops, v),
            first_shortage(ops, available@, order.take(i as int)) is None,
        decreases n - i,
    {
        let volume = sums.key_at(i);
        let bytes: u128 = *sums.value_at(i);
        proof {
            assert(sums@.contains_key(order[i as int]));
            assert(bytes == bytes_on(ops, order[i as int]));
            assert(order.take(i + 1).drop_last() =~= order.take(i as int));
            lemma_bytes_bound(ops, order[i as int]);
            assert(ops.len() * 0x1_0000_0000_0000_0000 <= 0xffff_ffff_ffff_ffff
                * 0x1_0000_0000_0000_0000) by (nonlinear_arith)
                requires
                    ops.len() <= 0xffff_ffff_ffff_ffff,
            ;
        }
        let needed = margin(bytes);
        let fault: Option<SpaceError> = match available.get(volume) {
            None => Some(SpaceError::Unmeasured { volume: volume.clone() }),
            Some(have) => if *have < needed {
                Some(SpaceError::Insufficient { volume: volume.clone(), needed, available: *have })
            } else {
                None
            },
        };
        if let Some(e) = fault {
            proof {
                lemma_shortage_stays(ops, available@, order, i + 1);
            }
            return Err(e);
        }
        i = i + 1;
    }
    proof {
        assert(order.take(i as int) =~= order);
    }
    Ok(())
}

proof fn lemma_shortage_stays(
    ops: Seq<OperationView>,
    available: Map<Seq<char>, u64>,
    order: Seq<Seq<char>>,
    n: int,
)
    requires
        0 <= n <= order.len(),
        first_shortage(ops, available, order.take(n)) is Some,
    ensures
        first_shortage(ops, available, order) == first_shortage(ops, available, order.take(n)),
    decreases order.len(),
{
    if n == order.len() {
        assert(order.take(n) =~= order);
    } else {
        assert(order.drop_last().take(n) =~= order.take(n));
        lemma_shortage_stays(ops, available, order.drop_last(), n);
    }
}

} // verus!
