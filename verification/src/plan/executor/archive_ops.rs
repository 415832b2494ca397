//! Repacks and extractions: which entries an archive gets, that each is what it
//! should be, and what may go once the archive is built.

use crate::archive;
use crate::archive::{
    read_7z_entry, read_zip_entry, write_7z, write_zip, EntryView, NewEntry, ReadFault,
    WriteFault, ZipStyle,
};
use crate::digest;
use crate::digest::sha1_hex;
use crate::paths;
use crate::plan::types::{SourceRef, SourceRefView};
use crate::seqs;
use crate::seqs::reversed;
use crate::sorted_map::SortedSet;
use crate::text;
use vstd::prelude::*;

verus! {

/// A repack on its way to a worker.
pub struct RepackJob {
    /// The position of the operation in the plan
    pub plan_index: usize,
    /// The operation's id, for the rollback journal
    pub operation_id: u64,
    pub sources: Vec<SourceRef>,
    pub dest: String,
    pub format: String,
    pub move_sources: bool,
    /// The archive's size in bytes, for progress reporting
    pub size: u64,
}

#[verifier::ext_equal]
pub struct RepackJobView {
    pub plan_index: usize,
    pub operation_id: u64,
    pub sources: Seq<SourceRefView>,
    pub dest: Seq<char>,
    pub format: Seq<char>,
    pub move_sources: bool,
    pub size: u64,
}

impl DeepView for RepackJob {
    type V = RepackJobView;

    open spec fn deep_view(&self) -> RepackJobView {
        RepackJobView {
            plan_index: self.plan_index,
            operation_id: self.operation_id,
            sources: self.sources.deep_view(),
            dest: self.dest@,
            format: self.format@,
            move_sources: self.move_sources,
            size: self.size,
        }
    }
}

/// What came of a repack: the loose sources that it consumed, as pairs of an
/// entry name and a path; where it failed, why.
pub struct RepackOutcome {
    pub job: RepackJob,
    pub result: Result<Vec<(String, String)>, String>,
}

/// What a worker reports: that it picked a job, and that the job is done. Both
/// name the worker's slot.
pub enum RepackEvent {
    Started { slot: usize, plan_index: usize },
    Finished { slot: usize, outcome: RepackOutcome },
}

/// The name that a source gets in an archive: the one it was given, else that of
/// its archive entry, else that of its file.
pub open spec fn entry_name(s: SourceRefView) -> Seq<char> {
    match s.entry_name {
        Some(name) => name,
        None => {
            let inner = match s.archive_path {
                Some(p) => paths::file_name(p),
                None => None,
            };
            match inner {
                Some(name) => name,
                None => match paths::file_name(s.path) {
                    Some(name) => name,
                    None => "rom.bin"@,
                },
            }
        },
    }
}

/// The name that a source gets in an archive.
pub fn get_entry_name(source: &SourceRef) -> (r: String)
    ensures
        r@ == entry_name(source.deep_view()),
{
    if let Some(name) = &source.entry_name {
        return name.clone();
    }
    let inner = match &source.archive_path {
        Some(p) => paths::file_name_of(p.as_str()),
        None => None,
    };
    match inner {
        Some(name) => name,
        None => match paths::file_name_of(source.path.as_str()) {
            Some(name) => name,
            None => "rom.bin".to_owned(),
        },
    }
}

/// A source with its content.
pub struct LoadedSource {
    pub source: SourceRef,
    pub data: Vec<u8>,
}

#[verifier::ext_equal]
pub struct LoadedView {
    pub source: SourceRefView,
    pub data: Seq<u8>,
}

impl DeepView for LoadedSource {
    type V = LoadedView;

    open spec fn deep_view(&self) -> LoadedView {
        LoadedView { source: self.source.deep_view(), data: self.data@ }
    }
}

/// Whether one of some sources gets a name.
pub open spec fn takes_name(sources: Seq<SourceRefView>, name: Seq<char>) -> bool {
    exists|i: int| 0 <= i < sources.len() && entry_name(#[trigger] sources[i]) == name
}

/// The sources of an archive: of those with the same entry name only the first.
pub open spec fn first_by_name(sources: Seq<SourceRefView>) -> Seq<SourceRefView>
    decreases sources.len(),
{
    if sources.len() == 0 {
        Seq::empty()
    } else {
        let before = first_by_name(sources.drop_last());
        if takes_name(before, entry_name(sources.last())) {
            before
        } else {
            before.push(sources.last())
        }
    }
}

/// Picks the sources of an archive.
pub fn distinct_sources(sources: &Vec<SourceRef>) -> (r: Vec<SourceRef>)
    ensures
        r.deep_view() == first_by_name(sources.deep_view()),
{
    let ghost all = sources.deep_view();
    let mut seen: SortedSet<String> = SortedSet::new();
    let mut r: Vec<SourceRef> = Vec::new();
    let mut i: usize = 0;
    proof {
        assert(r.deep_view() =~= first_by_name(all.take(0)));
    }
    while i < sources.len()
        invariant
            i <= sources@.len(),
            all == sources.deep_view(),
            r.deep_view() == first_by_name(all.take(i as int)),
            forall|n: Seq<char>| #[trigger] seen@.contains(n) <==> takes_name(r.deep_view(), n),
        decreases sources@.len() - i,
    {
        let name = get_entry_name(&sources[i]);
        let ghost before = r.deep_view();
        let ghost had = seen@;
        let ghost s = all[i as int];
        proof {
            assert(all.take(i + 1).drop_last() =~= all.take(i as int));
        }
        if !seen.has(&name) {
            seen.insert(name);
            r.push(sources[i].clone());
            proof {
                let after = r.deep_view();
                assert(after =~= before.push(s));
                assert forall|n: Seq<char>| #[trigger] seen@.contains(n) <==> takes_name(
                    after,
                    n,
                ) by {
                    assert(had.contains(n) <==> takes_name(before, n));
                    if takes_name(before, n) {
                        let j = choose|j: int|
                            0 <= j < before.len() && entry_name(#[trigger] before[j]) == n;
                        assert(entry_name(after[j]) == n);
                    }
                    if n == entry_name(s) {
                        assert(entry_name(after[before.len() as int]) == n);
                    }
                    if takes_name(after, n) && n != entry_name(s) {
                        let j = choose|j: int|
                            0 <= j < after.len() && entry_name(#[trigger] after[j]) == n;
                        assert(entry_name(before[j]) == n);
                    }
                }
            }
        }
        i = i + 1;
    }
    proof {
        assert(all.take(i as int) =~= all);
    }
    r
}

/// How a repack builds its archive.
#[derive(Clone, Copy, Debug, PartialEq, Eq, Structural)]
pub enum RepackFormat {
    Zip,
    TorrentZip,
    SevenZip,
}

/// The format that a tag names.
pub open spec fn format_named(tag: Seq<char>) -> Option<RepackFormat> {
    if tag == "zip"@ {
        Some(RepackFormat::Zip)
    } else if tag == "torrentzip"@ {
        Some(RepackFormat::TorrentZip)
    } else if tag == "7z"@ {
        Some(RepackFormat::SevenZip)
    } else {
        None
    }
}

/// The format that a tag names.
pub fn repack_format(tag: &str) -> (r: Option<RepackFormat>)
    ensures
        r == format_named(tag@),
{
    if text::str_eq(tag, "zip") {
        Some(RepackFormat::Zip)
    } else if text::str_eq(tag, "torrentzip") {
        Some(RepackFormat::TorrentZip)
    } else if text::str_eq(tag, "7z") {
        Some(RepackFormat::SevenZip)
    } else {
        None
    }
}

/// Why a repack failed.
#[derive(Debug)]
pub enum RepackError {
    /// The format is not one that is built
    Unsupported(String),
    /// Contents that are not what they should be, each in words
    Mismatch(Vec<String>),
    /// The archive of a format cannot be written
    Write(RepackFormat, WriteFault),
}

/// Whether content is what its source should hold.
pub open spec fn genuine(l: LoadedView) -> bool {
    text::same_ignoring_case(digest::hex(digest::sha1_of(l.data)), l.source.sha1)
}

/// The words for content that is not what it should be.
pub open spec fn mismatch(l: LoadedView) -> Seq<char> {
    entry_name(l.source) + ": expected "@ + (l.source.sha1 + ", got "@ + digest::hex(
        digest::sha1_of(l.data),
    ))
}

/// The words for all contents that are not what they should be, in order.
pub open spec fn mismatches(sources: Seq<LoadedView>) -> Seq<Seq<char>> {
    sources.filter(|l: LoadedView| !genuine(l)).map_values(|l: LoadedView| mismatch(l))
}

/// The entries of the archive, in order.
pub open spec fn entries_of(sources: Seq<LoadedView>) -> Seq<EntryView> {
    sources.map_values(|l: LoadedView| EntryView { name: entry_name(l.source), data: l.data })
}

/// Whether bytes are the ZIP archive of some entries in a style.
pub open spec fn zipped(bytes: Seq<u8>, entries: Seq<EntryView>, style: ZipStyle) -> bool {
    archive::zip_of(bytes, archive::laid_out(entries, style), style)
}

/// Whether bytes are the archive of some entries.
pub open spec fn holds_all(
    bytes: Seq<u8>,
    format: RepackFormat,
    entries: Seq<EntryView>,
) -> bool {
    match format {
        RepackFormat::Zip => zipped(bytes, entries, ZipStyle::Plain),
        RepackFormat::TorrentZip => zipped(bytes, entries, ZipStyle::Torrent),
        RepackFormat::SevenZip => archive::seven_of(bytes, entries),
    }
}

/// Whether the archive of some entries can be written.
pub open spec fn buildable(format: RepackFormat, entries: Seq<EntryView>) -> bool {
    match format {
        RepackFormat::Zip => archive::writable(entries, ZipStyle::Plain),
        RepackFormat::TorrentZip => archive::writable(
            archive::torrent_order(entries),
            ZipStyle::Torrent,
        ),
        RepackFormat::SevenZip => archive::seven_writable(entries),
    }
}

/// Why the archive of some entries cannot be written.
pub open spec fn unbuildable(
    format: RepackFormat,
    entries: Seq<EntryView>,
    fault: WriteFault,
) -> bool {
    match format {
        RepackFormat::Zip => archive::refuses(entries, ZipStyle::Plain, fault),
        RepackFormat::TorrentZip => archive::refuses(
            archive::torrent_order(entries),
            ZipStyle::Torrent,
            fault,
        ),
        RepackFormat::SevenZip => archive::seven_refuses(entries, fault),
    }
}

/// The words for a failed repack.
pub open spec fn repack_message(e: RepackError) -> Seq<char> {
    match e {
        RepackError::Unsupported(format) => "Unsupported repack format: "@ + format@
            + " (use 'zip', 'torrentzip', or '7z')"@,
        RepackError::Mismatch(errors) => "Repack verification failed for "@ + text::decimal(
            errors@.len(),
        ) + (" file(s):\n  "@ + joined_lines(errors.deep_view())),
        RepackError::Write(RepackFormat::SevenZip, fault) => match fault {
            WriteFault::Create => "Failed to create 7z archive"@,
            WriteFault::Add(name) => "Failed to add 7z entry: "@ + name@,
            WriteFault::Finish => "Failed to finalise 7z archive"@,
        },
        RepackError::Write(_, fault) => archive::write_message(fault),
    }
}

/// Lines joined by a line break and an indent.
pub open spec fn joined_lines(lines: Seq<Seq<char>>) -> Seq<char>
    decreases lines.len(),
{
    if lines.len() == 0 {
        Seq::empty()
    } else if lines.len() == 1 {
        lines[0]
    } else {
        joined_lines(lines.drop_last()) + "\n  "@ + lines.last()
    }
}

/// A repack that is refused for its format names the format; one that is refused for
/// its contents says how many are wrong and tells each, on a line of its own.
pub proof fn law_failed_repacks_say_why(
    format: String,
    errors: Vec<String>,
    lines: Seq<Seq<char>>,
    line: Seq<char>,
)
    ensures
        text::begins(
            repack_message(RepackError::Unsupported(format)),
            "Unsupported repack format: "@ + format@,
        ),
        text::begins(
            repack_message(RepackError::Mismatch(errors)),
            "Repack verification failed for "@ + text::decimal(errors@.len()),
        ),
        text::finishes(
            repack_message(RepackError::Mismatch(errors)),
            joined_lines(errors.deep_view()),
        ),
        joined_lines(seq![line]) == line,
        lines.len() > 0 ==> joined_lines(lines.push(line)) == joined_lines(lines) + "\n  "@ + line,
{
    let a = repack_message(RepackError::Unsupported(format));
    let lead = "Unsupported repack format: "@ + format@;
    assert(a.take(lead.len() as int) =~= lead);
    let b = repack_message(RepackError::Mismatch(errors));
    let first = "Repack verification failed for "@ + text::decimal(errors@.len());
    let tail = joined_lines(errors.deep_view());
    assert(b.take(first.len() as int) =~= first);
    assert(b.skip(b.len() - tail.len()) =~= tail);
    assert(lines.push(line).drop_last() =~= lines);
}

fn join_lines(lines: &Vec<String>) -> (r: String)
    ensures
        r@ == joined_lines(lines.deep_view()),
{
    let ghost all = lines.deep_view();
    let mut r = String::new();
    let mut i: usize = 0;
    while i < lines.len()
        invariant
            i <= lines@.len(),
            all == lines.deep_view(),
            r@ == joined_lines(all.take(i as int)),
        decreases lines@.len() - i,
    {
        proof {
            assert(all.take(i + 1).drop_last() =~= all.take(i as int));
            assert(all.take(i + 1).last() == all[i as int]);
        }
        if i == 0 {
            r = lines[i].clone();
        } else {
            r = text::concat3(r.as_str(), "\n  ", lines[i].as_str());
        }
        i = i + 1;
    }
    proof {
        assert(all.take(i as int) =~= all);
    }
    r
}

impl RepackError {
    /// The failure in words.
    pub fn message(&self) -> (r: String)
        ensures
            r@ == repack_message(*self),
    {
        match self {
            RepackError::Unsupported(format) => text::concat3(
                "Unsupported repack format: ",
                format.as_str(),
                " (use 'zip', 'torrentzip', or '7z')",
            ),
            RepackError::Mismatch(errors) => {
                let count = text::decimal_string(errors.len() as u64);
                let lines = join_lines(errors);
                let tail = text::concat2(" file(s):\n  ", lines.as_str());
                text::concat3("Repack verification failed for ", count.as_str(), tail.as_str())
            },
            RepackError::Write(RepackFormat::SevenZip, fault) => match fault {
                WriteFault::Create => "Failed to create 7z archive".to_owned(),
                WriteFault::Add(name) => text::concat2("Failed to add 7z entry: ", name.as_str()),
                WriteFault::Finish => "Failed to finalise 7z archive".to_owned(),
            },
            RepackError::Write(_, fault) => fault.message(),
        }
    }
}

/// The loaded sources of an archive: of those with the same entry name only the
/// first.
pub open spec fn first_loaded(sources: Seq<LoadedView>) -> Seq<LoadedView>
    decreases sources.len(),
{
    if sources.len() == 0 {
        Seq::empty()
    } else {
        let before = first_loaded(sources.drop_last());
        if archive::has_entry(entries_of(before), entry_name(sources.last().source)) {
            before
        } else {
            before.push(sources.last())
        }
    }
}

proof fn lemma_first_loaded(sources: Seq<LoadedView>)
    ensures
        archive::names_distinct(entries_of(first_loaded(sources))),
    decreases sources.len(),
{
    if sources.len() > 0 {
        lemma_first_loaded(sources.drop_last());
        let before = first_loaded(sources.drop_last());
        let after = first_loaded(sources);
        let es = entries_of(before);
        let fs = entries_of(after);
        assert forall|i: int, j: int| 0 <= i < j < fs.len() implies (#[trigger] fs[i]).name != (
        #[trigger] fs[j]).name by {
            assert(es[i] == fs[i]);
            if j < es.len() {
                assert(es[j] == fs[j]);
            }
        }
    }
}

/// An archive never gets two entries of one name, and what it gets was verified:
/// where no mismatch is found, every entry is genuine.
pub proof fn law_repacked_entries_are_genuine(sources: Seq<LoadedView>)
    ensures
        archive::names_distinct(entries_of(first_loaded(sources))),
        mismatches(first_loaded(sources)).len() == 0 ==> forall|i: int|
            0 <= i < first_loaded(sources).len() ==> genuine(#[trigger] first_loaded(sources)[i]),
{
    lemma_first_loaded(sources);
    let picked = first_loaded(sources);
    let bad = |l: LoadedView| !genuine(l);
    if mismatches(picked).len() == 0 {
        assert forall|i: int| 0 <= i < picked.len() implies genuine(#[trigger] picked[i]) by {
            if !genuine(picked[i]) {
                seqs::lemma_filter_members(picked, bad);
                assert(picked.contains(picked[i]));
                assert(picked.filter(bad).contains(picked[i]));
            }
        }
    }
}

/// A verified entry can be had back: extracting it from the archive that was built
/// gives its content. This is stated within the bounds in which an archive reads
/// back, and of a 7z archive for names that hold no NUL and unpack below one place,
/// the entry's being kept.
pub proof fn law_repacked_entry_is_extractable(
    bytes: Seq<u8>,
    format: RepackFormat,
    sources: Seq<LoadedView>,
    i: int,
)
    requires
        holds_all(bytes, format, entries_of(first_loaded(sources))),
        0 <= i < first_loaded(sources).len(),
        !(format is SevenZip) ==> archive::zip_reads_back(
            first_loaded(sources).len(),
            bytes.len(),
        ),
        format is SevenZip ==> archive::seven_reads_back(bytes.len()) && archive::found_as_named(
            entry_name(first_loaded(sources)[i].source),
        ) && archive::files_unpack_below(
            Seq::new(
                first_loaded(sources).len(),
                |k: int| entry_name(first_loaded(sources)[k].source),
            ),
        ) && forall|k: int|
            0 <= k < first_loaded(sources).len() ==> !entry_name(
                (#[trigger] first_loaded(sources)[k]).source,
            ).contains('\0'),
    ensures
        ({
            let name = entry_name(first_loaded(sources)[i].source);
            let data = Ok::<Seq<u8>, ReadFault>(first_loaded(sources)[i].data);
            match format {
                RepackFormat::SevenZip => archive::seven_entry(bytes, name) == data,
                _ => archive::zip_entry(bytes, name) == data,
            }
        }),
{
    lemma_first_loaded(sources);
    let es = entries_of(first_loaded(sources));
    assert(es[i].name == entry_name(first_loaded(sources)[i].source));
    match format {
        RepackFormat::Zip => {
            archive::law_zip_gives_back_what_it_holds(
                bytes,
                es,
                archive::stamp_for(ZipStyle::Plain),
                i,
            );
        },
        RepackFormat::TorrentZip => {
            let sorted = archive::torrent_order(es);
            archive::law_torrent_order_keeps_entries(es);
            assert(es.to_set().contains(es[i]));
            assert(sorted.to_set().contains(es[i]));
            let k = choose|k: int| 0 <= k < sorted.len() && sorted[k] == es[i];
            archive::law_zip_gives_back_what_it_holds(
                bytes,
                sorted,
                archive::stamp_for(ZipStyle::Torrent),
                k,
            );
        },
        RepackFormat::SevenZip => {
            assert forall|k: int| 0 <= k < es.len() implies !(#[trigger] es[k]).name.contains(
                '\0',
            ) by {
                assert(es[k].name == entry_name(first_loaded(sources)[k].source));
            }
            assert(Seq::new(es.len(), |k: int| es[k].name) =~= Seq::new(
                first_loaded(sources).len(),
                |k: int| entry_name(first_loaded(sources)[k].source),
            ));
            archive::law_7z_gives_back_what_it_holds(bytes, es, i);
        },
    }
}

/// Picks the loaded sources of an archive, as entries, and the words for those
/// that are not what they should be.
fn checked_entries(sources: Vec<LoadedSource>) -> (r: (Vec<NewEntry>, Vec<String>))
    ensures
        r.0.deep_view() == entries_of(first_loaded(sources.deep_view())),
        r.1.deep_view() == mismatches(first_loaded(sources.deep_view())),
{
    let ghost all = sources.deep_view();
    let mut left = reversed(sources);
    let mut seen: SortedSet<String> = SortedSet::new();
    let mut entries: Vec<NewEntry> = Vec::new();
    let mut errors: Vec<String> = Vec::new();
    let ghost mut i: int = 0;
    proof {
        reveal(Seq::filter);
        assert(entries.deep_view() =~= entries_of(first_loaded(all.take(0))));
        assert(errors.deep_view() =~= mismatches(first_loaded(all.take(0))));
    }
    while left.len() > 0
        invariant
            0 <= i <= all.len(),
            left@.len() == all.len() - i,
            forall|k: int|
                0 <= k < left@.len() ==> (#[trigger] left@[k]).deep_view() == all[all.len() - 1
                    - k],
            entries.deep_view() == entries_of(first_loaded(all.take(i))),
            errors.deep_view() == mismatches(first_loaded(all.take(i))),
            forall|n: Seq<char>| #[trigger]
                seen@.contains(n) <==> archive::has_entry(entries.deep_view(), n),
        decreases left@.len(),
    {
        let ghost last = left@[left@.len() - 1];
        let l = match left.pop() {
            Some(l) => l,
            None => {
                return (entries, errors);
            },
        };
        let ghost before = first_loaded(all.take(i));
        let ghost es = entries.deep_view();
        let ghost ws = errors.deep_view();
        let ghost had = seen@;
        let ghost v = all[i];
        let ghost f = |x: LoadedView| !genuine(x);
        let name = get_entry_name(&l.source);
        proof {
            assert(l.deep_view() == v);
            assert(all.take(i + 1).drop_last() =~= all.take(i));
        }
        if !seen.has(&name) {
            let actual = sha1_hex(l.data.as_slice());
            let LoadedSource { source, data } = l;
            let ok = text::eq_ignore_case(actual.as_str(), source.sha1.as_str());
            if !ok {
                let tail = text::concat3(source.sha1.as_str(), ", got ", actual.as_str());
                errors.push(text::concat3(name.as_str(), ": expected ", tail.as_str()));
            }
            seen.insert(name.clone());
            entries.push(NewEntry { name, data });
            proof {
                let now = before.push(v);
                let e = EntryView { name: entry_name(v.source), data: v.data };
                assert(entries.deep_view() =~= es.push(e));
                assert(entries_of(now) =~= es.push(e));
                assert(now.drop_last() =~= before);
                reveal_with_fuel(Seq::filter, 2);
                if !ok {
                    assert(errors.deep_view() =~= ws.push(mismatch(v)));
                    assert(mismatches(now) =~= ws.push(mismatch(v)));
                } else {
                    assert(mismatches(now) =~= ws);
                }
                assert forall|n: Seq<char>| #[trigger]
                    seen@.contains(n) <==> archive::has_entry(es.push(e), n) by {
                    assert(had.contains(n) <==> archive::has_entry(es, n));
                    if archive::has_entry(es, n) {
                        let j = choose|j: int| 0 <= j < es.len() && (#[trigger] es[j]).name == n;
                        assert(es.push(e)[j].name == n);
                    }
                    if n == e.name {
                        assert(es.push(e)[es.len() as int].name == n);
                    }
                    if archive::has_entry(es.push(e), n) && n != e.name {
                        let j = choose|j: int|
                            0 <= j < es.push(e).len() && (#[trigger] es.push(e)[j]).name == n;
                        assert(es[j].name == n);
                    }
                }
            }
        }
        proof {
            i = i + 1;
        }
    }
    proof {
        assert(all.take(i) =~= all);
    }
    (entries, errors)
}

/// Builds the archive of a repack: of sources with the same entry name the first,
/// each verified against its digest. Fails, with all that is wrong, where any
/// content is not what it should be; and else only where the archive cannot be
/// written.
pub fn execute_repack(sources: Vec<LoadedSource>, format: &str) -> (r: Result<
    Vec<u8>,
    RepackError,
>)
    ensures
        ({
            let picked = first_loaded(sources.deep_view());
            match format_named(format@) {
                None => r matches Err(RepackError::Unsupported(f)) && f@ == format@,
                Some(kind) => if mismatches(picked).len() > 0 {
                    r matches Err(RepackError::Mismatch(errors)) && errors.deep_view()
                        == mismatches(picked)
                } else {
                    (r is Ok <==> buildable(kind, entries_of(picked))) && match r {
                        Ok(bytes) => holds_all(bytes@, kind, entries_of(picked)),
                        Err(RepackError::Write(format, fault)) => format == kind && unbuildable(
                            kind,
                            entries_of(picked),
                            fault,
                        ),
                        Err(_) => false,
                    }
                },
            }
        }),
{
    let kind = match repack_format(format) {
        Some(kind) => kind,
        None => {
            return Err(RepackError::Unsupported(format.to_owned()));
        },
    };
    let (entries, errors) = checked_entries(sources);
    proof {
        assert(errors.deep_view().len() == errors@.len());
    }
    if errors.len() > 0 {
        return Err(RepackError::Mismatch(errors));
    }
    let written = match kind {
        RepackFormat::Zip => write_zip(&entries, ZipStyle::Plain),
        RepackFormat::TorrentZip => write_zip(&entries, ZipStyle::Torrent),
        RepackFormat::SevenZip => write_7z(&entries),
    };
    match written {
        Ok(bytes) => Ok(bytes),
        Err(fault) => Err(RepackError::Write(kind, fault)),
    }
}

/// The loose files that a repack in move mode consumes once its archive is built,
/// each with its entry name. A file inside an archive is never among them: its
/// container may hold more.
pub open spec fn loose_feeders(sources: Seq<SourceRefView>) -> Seq<(Seq<char>, Seq<char>)> {
    first_by_name(sources).filter(|s: SourceRefView| s.archive_path is None).map_values(
        |s: SourceRefView| (entry_name(s), s.path),
    )
}

/// The loose files that a repack in move mode consumes.
pub fn consumable_sources(sources: &Vec<SourceRef>) -> (r: Vec<(String, String)>)
    ensures
        r.deep_view() == loose_feeders(sources.deep_view()),
{
    let picked = distinct_sources(sources);
    let ghost all = picked.deep_view();
    let ghost f = |s: SourceRefView| s.archive_path is None;
    let ghost g = |s: SourceRefView| (entry_name(s), s.path);
    let mut r: Vec<(String, String)> = Vec::new();
    let mut i: usize = 0;
    proof {
        reveal(Seq::filter);
        assert(r.deep_view() =~= all.take(0).filter(f).map_values(g));
    }
    while i < picked.len()
        invariant
            i <= picked@.len(),
            all == picked.deep_view(),
            f == (|s: SourceRefView| s.archive_path is None),
            g == (|s: SourceRefView| (entry_name(s), s.path)),
            r.deep_view() == all.take(i as int).filter(f).map_values(g),
        decreases picked@.len() - i,
    {
        let ghost before = r.deep_view();
        proof {
            assert(all.take(i + 1).drop_last() =~= all.take(i as int));
            reveal_with_fuel(Seq::filter, 2);
        }
        let s = &picked[i];
        if s.archive_path.is_none() {
            r.push((get_entry_name(s), s.path.clone()));
            proof {
                assert(r.deep_view() =~= before.push(g(all[i as int])));
                assert(all.take(i + 1).filter(f).map_values(g) =~= before.push(
                    g(all[i as int]),
                ));
            }
        }
        i = i + 1;
    }
    proof {
        assert(all.take(i as int) =~= all);
    }
    r
}

/// The loose files that a repack consumes once its archive is built: none where it
/// copies.
pub fn sources_to_consume(sources: &Vec<SourceRef>, move_sources: bool) -> (r: Vec<
    (String, String),
>)
    ensures
        r.deep_view() == (if move_sources {
            loose_feeders(sources.deep_view())
        } else {
            Seq::empty()
        }),
{
    if move_sources {
        consumable_sources(sources)
    } else {
        let r: Vec<(String, String)> = Vec::new();
        proof {
            assert(r.deep_view() =~= Seq::<(Seq<char>, Seq<char>)>::empty());
        }
        r
    }
}

/// What came of removing a file.
#[derive(Clone, Copy, Debug, PartialEq, Eq, Structural)]
pub enum Removal {
    Removed,
    /// It was gone already
    AlreadyGone,
    Failed,
}

/// Notes what came of removing a file that a repack consumed: one removed now is
/// to be restored by a rollback, one that was gone already is not, and one that
/// could not be removed fails the repack.
pub fn note_removal(
    consumed: &mut Vec<(String, String)>,
    feeder: (String, String),
    removal: Removal,
) -> (r: Result<(), String>)
    ensures
        final(consumed).deep_view() == (if removal is Removed {
            old(consumed).deep_view().push((feeder.0@, feeder.1@))
        } else {
            old(consumed).deep_view()
        }),
        match r {
            Ok(_) => !(removal is Failed),
            Err(message) => removal is Failed && message@
                == "Failed to delete source after repack: "@ + feeder.1@,
        },
{
    let ghost before = consumed.deep_view();
    match removal {
        Removal::Removed => {
            consumed.push(feeder);
            proof {
                assert(consumed.deep_view() =~= before.push((feeder.0@, feeder.1@)));
            }
            Ok(())
        },
        Removal::AlreadyGone => Ok(()),
        Removal::Failed => Err(
            text::concat2("Failed to delete source after repack: ", feeder.1.as_str()),
        ),
    }
}

/// How an archive is read.
#[derive(Clone, Copy, Debug, PartialEq, Eq, Structural)]
pub enum ArchiveKind {
    Zip,
    SevenZip,
}

/// The kind of an archive, by its extension.
pub open spec fn kind_of(path: Seq<char>) -> Option<ArchiveKind> {
    match paths::extension(path) {
        Some(e) => if e == "zip"@ {
            Some(ArchiveKind::Zip)
        } else if e == "7z"@ {
            Some(ArchiveKind::SevenZip)
        } else {
            None
        },
        None => None,
    }
}

/// The kind of an archive, by its extension.
pub fn archive_kind(path: &str) -> (r: Option<ArchiveKind>)
    ensures
        r == kind_of(path@),
{
    match paths::extension_of(path) {
        Some(e) => if text::str_eq(e.as_str(), "zip") {
            Some(ArchiveKind::Zip)
        } else if text::str_eq(e.as_str(), "7z") {
            Some(ArchiveKind::SevenZip)
        } else {
            None
        },
        None => None,
    }
}

/// Why an entry could not be extracted.
#[derive(Clone, Copy, Debug, PartialEq, Eq, Structural)]
pub enum ExtractError {
    /// The archive is of no kind that is read
    Unsupported,
    Zip(ReadFault),
    SevenZip(ReadFault),
}

/// What extracting an entry gives.
pub open spec fn extracted(path: Seq<char>, bytes: Seq<u8>, entry: Seq<char>) -> Result<
    Seq<u8>,
    ExtractError,
> {
    match kind_of(path) {
        None => Err(ExtractError::Unsupported),
        Some(ArchiveKind::Zip) => match archive::zip_entry(bytes, entry) {
            Ok(data) => Ok(data),
            Err(fault) => Err(ExtractError::Zip(fault)),
        },
        Some(ArchiveKind::SevenZip) => match archive::seven_entry(bytes, entry) {
            Ok(data) => Ok(data),
            Err(fault) => Err(ExtractError::SevenZip(fault)),
        },
    }
}

/// The words for a failed extraction.
pub open spec fn extract_message(e: ExtractError, path: Seq<char>, entry: Seq<char>) -> Seq<char> {
    match e {
        ExtractError::Unsupported => "Unsupported archive format: "@ + path,
        ExtractError::Zip(ReadFault::Unreadable) => "Failed to read ZIP archive"@,
        ExtractError::SevenZip(ReadFault::Unreadable) => "Failed to read 7z archive"@,
        ExtractError::Zip(ReadFault::NotFound) => "Entry not found in archive: "@ + entry,
        ExtractError::SevenZip(ReadFault::NotFound) => "Entry not found in archive: "@ + entry,
        ExtractError::Zip(ReadFault::EntryUnreadable) => "Failed to read entry: "@ + entry,
        ExtractError::Zip(ReadFault::Damaged) => "Failed to extract file"@,
        ExtractError::SevenZip(ReadFault::EntryUnreadable) => "Failed to extract entry: "@ + entry,
        ExtractError::SevenZip(ReadFault::Damaged) => "Failed to decompress 7z archive"@,
        ExtractError::Zip(ReadFault::NotAFile) => "Failed to extract file"@,
        ExtractError::SevenZip(ReadFault::NotAFile) => "Failed to copy extracted file"@,
    }
}

/// The words for a failed extraction end in the archive's path where its kind is not
/// read, and in the entry's name where the entry is not found.
pub proof fn law_extraction_failures_name_their_subject(
    path: Seq<char>,
    entry: Seq<char>,
)
    ensures
        text::finishes(extract_message(ExtractError::Unsupported, path, entry), path),
        text::finishes(
            extract_message(ExtractError::Zip(ReadFault::NotFound), path, entry),
            entry,
        ),
        text::finishes(
            extract_message(ExtractError::SevenZip(ReadFault::NotFound), path, entry),
            entry,
        ),
{
    let a = extract_message(ExtractError::Unsupported, path, entry);
    let b = extract_message(ExtractError::Zip(ReadFault::NotFound), path, entry);
    assert(a.skip(a.len() - path.len()) =~= path);
    assert(b.skip(b.len() - entry.len()) =~= entry);
}

impl ExtractError {
    /// The failure in words.
    pub fn message(&self, path: &str, entry: &str) -> (r: String)
        ensures
            r@ == extract_message(*self, path@, entry@),
    {
        match self {
            ExtractError::Unsupported => text::concat2("Unsupported archive format: ", path),
            ExtractError::Zip(ReadFault::Unreadable) => "Failed to read ZIP archive".to_owned(),
            ExtractError::SevenZip(ReadFault::Unreadable) =>
                "Failed to read 7z archive".to_owned(),
            ExtractError::Zip(ReadFault::NotFound) => text::concat2(
                "Entry not found in archive: ",
                entry,
            ),
            ExtractError::SevenZip(ReadFault::NotFound) => text::concat2(
                "Entry not found in archive: ",
                entry,
            ),
            ExtractError::Zip(ReadFault::EntryUnreadable) => text::concat2(
                "Failed to read entry: ",
                entry,
            ),
            ExtractError::Zip(ReadFault::Damaged) => "Failed to extract file".to_owned(),
            ExtractError::SevenZip(ReadFault::EntryUnreadable) => text::concat2(
                "Failed to extract entry: ",
                entry,
            ),
            ExtractError::SevenZip(ReadFault::Damaged) =>
                "Failed to decompress 7z archive".to_owned(),
            ExtractError::Zip(ReadFault::NotAFile) => "Failed to extract file".to_owned(),
            ExtractError::SevenZip(ReadFault::NotAFile) =>
                "Failed to copy extracted file".to_owned(),
        }
    }
}

/// Whether a source is the first of those that get its name.
pub open spec fn first_so_named(sources: Seq<SourceRefView>, i: int) -> bool {
    forall|j: int| 0 <= j < i ==> entry_name(#[trigger] sources[j]) != entry_name(sources[i])
}

/// The positions below a number that a predicate accepts, in order.
pub open spec fn positions(n: nat, p: spec_fn(int) -> bool) -> Seq<int> {
    Seq::new(n, |i: int| i).filter(p)
}

proof fn lemma_positions_step(n: nat, p: spec_fn(int) -> bool)
    ensures
        positions(n + 1, p) == (if p(n as int) {
            positions(n, p).push(n as int)
        } else {
            positions(n, p)
        }),
{
    reveal_with_fuel(Seq::filter, 2);
    let ids = Seq::new(n + 1, |i: int| i);
    assert(ids.drop_last() =~= Seq::new(n, |i: int| i));
}

proof fn lemma_first_by_name_positions(sources: Seq<SourceRefView>, n: nat)
    requires
        n <= sources.len(),
    ensures
        first_by_name(sources.take(n as int)) == positions(
            n,
            |i: int| first_so_named(sources, i),
        ).map_values(|i: int| sources[i]),
        forall|i: int|
            0 <= i < n ==> takes_name(
                first_by_name(sources.take(n as int)),
                entry_name(#[trigger] sources[i]),
            ),
        forall|k: int|
            0 <= k < first_by_name(sources.take(n as int)).len() ==> sources.take(
                n as int,
            ).contains(#[trigger] first_by_name(sources.take(n as int))[k]),
    decreases n,
{
    let p = |i: int| first_so_named(sources, i);
    let g = |i: int| sources[i];
    let now = first_by_name(sources.take(n as int));
    if n == 0 {
        reveal(Seq::filter);
        assert(now =~= positions(n, p).map_values(g));
    } else {
        let m = (n - 1) as nat;
        lemma_first_by_name_positions(sources, m);
        lemma_positions_step(m, p);
        let t = sources.take(n as int);
        assert(t.drop_last() =~= sources.take(m as int));
        assert(t.last() == sources[m as int]);
        let before = first_by_name(sources.take(m as int));
        let name = entry_name(sources[m as int]);
        assert(takes_name(before, name) <==> !first_so_named(sources, m as int)) by {
            if takes_name(before, name) {
                let k = choose|k: int|
                    0 <= k < before.len() && entry_name(#[trigger] before[k]) == name;
                assert(sources.take(m as int).contains(before[k]));
                let j = choose|j: int| 0 <= j < m && sources.take(m as int)[j] == before[k];
                assert(entry_name(sources[j]) == name);
            }
            if !first_so_named(sources, m as int) {
                let j = choose|j: int|
                    0 <= j < m && entry_name(#[trigger] sources[j]) == name;
                assert(takes_name(before, entry_name(sources[j])));
            }
        }
        assert(now =~= positions(n, p).map_values(g));
        assert forall|i: int| 0 <= i < n implies takes_name(
            now,
            entry_name(#[trigger] sources[i]),
        ) by {
            if i < m {
                assert(takes_name(before, entry_name(sources[i])));
                let k = choose|k: int|
                    0 <= k < before.len() && entry_name(#[trigger] before[k]) == entry_name(
                        sources[i],
                    );
                assert(now[k] == before[k]);
            } else if !takes_name(before, name) {
                assert(now[before.len() as int] == sources[m as int]);
            }
        }
        assert forall|k: int| 0 <= k < now.len() implies t.contains(#[trigger] now[k]) by {
            if k < before.len() {
                assert(now[k] == before[k]);
                assert(sources.take(m as int).contains(before[k]));
                let j = choose|j: int| 0 <= j < m && sources.take(m as int)[j] == before[k];
                assert(t[j] == now[k]);
            } else {
                assert(t[m as int] == now[k]);
            }
        }
    }
}

/// Of sources that get one name an archive takes the first, and it takes every one
/// that is the first of its name, in their order.
pub proof fn law_first_of_each_name_is_taken(sources: Seq<SourceRefView>)
    ensures
        first_by_name(sources) == positions(
            sources.len(),
            |i: int|
                forall|j: int|
                    0 <= j < i ==> entry_name(#[trigger] sources[j]) != entry_name(sources[i]),
        ).map_values(|i: int| sources[i]),
{
    lemma_first_by_name_positions(sources, sources.len());
    assert(sources.take(sources.len() as int) =~= sources);
    assert((|i: int| first_so_named(sources, i)) =~= (|i: int|
        forall|j: int|
            0 <= j < i ==> entry_name(#[trigger] sources[j]) != entry_name(sources[i])));
}

/// What goes into an archive is what was picked for it: the loaded sources taken are
/// those that the sources alone decide, each with its own content.
pub proof fn law_packed_is_what_was_picked(sources: Seq<LoadedView>)
    ensures
        first_loaded(sources).map_values(|l: LoadedView| l.source) == first_by_name(
            sources.map_values(|l: LoadedView| l.source),
        ),
        forall|k: int|
            0 <= k < first_loaded(sources).len() ==> sources.contains(
                #[trigger] first_loaded(sources)[k],
            ),
    decreases sources.len(),
{
    let f = |l: LoadedView| l.source;
    let now = first_loaded(sources);
    if sources.len() == 0 {
        assert(now.map_values(f) =~= first_by_name(sources.map_values(f)));
    } else {
        let t = sources.drop_last();
        law_packed_is_what_was_picked(t);
        let before = first_loaded(t);
        let name = entry_name(sources.last().source);
        assert(sources.map_values(f).drop_last() =~= t.map_values(f));
        assert(archive::has_entry(entries_of(before), name) <==> takes_name(
            before.map_values(f),
            name,
        )) by {
            if archive::has_entry(entries_of(before), name) {
                let k = choose|k: int|
                    0 <= k < entries_of(before).len() && (#[trigger] entries_of(before)[k]).name
                        == name;
                assert(entry_name(before.map_values(f)[k]) == name);
            }
            if takes_name(before.map_values(f), name) {
                let k = choose|k: int|
                    0 <= k < before.map_values(f).len() && entry_name(
                        #[trigger] before.map_values(f)[k],
                    ) == name;
                assert(entries_of(before)[k].name == name);
            }
        }
        assert(now.map_values(f) =~= first_by_name(sources.map_values(f)));
        assert forall|k: int| 0 <= k < now.len() implies sources.contains(#[trigger] now[k]) by {
            if k < before.len() {
                assert(now[k] == before[k]);
                assert(t.contains(before[k]));
                let j = choose|j: int| 0 <= j < t.len() && t[j] == before[k];
                assert(sources[j] == now[k]);
            } else {
                assert(sources[sources.len() - 1] == now[k]);
            }
        }
    }
}

/// A source keeps the name it was given; without one it has the last component of
/// its path, inside an archive or else on disk.
pub proof fn law_entry_is_named_after_its_source(
    s: SourceRefView,
    dir: Seq<char>,
    name: Seq<char>,
)
    requires
        name.len() > 0,
        !name.contains('/'),
        name != seq!['.'],
        name != seq!['.', '.'],
    ensures
        s.entry_name matches Some(given) ==> entry_name(s) == given,
        s.entry_name is None && s.archive_path == Some(dir + "/"@ + name) ==> entry_name(s)
            == name,
        s.entry_name is None && s.archive_path == Some(name) ==> entry_name(s) == name,
        s.entry_name is None && s.archive_path is None && s.path == dir + "/"@ + name
            ==> entry_name(s) == name,
{
    paths::law_file_name_is_the_last_component(dir, name);
}

/// A repack is refused for its contents exactly where some content has another
/// digest than its source should have, and once for each such content.
pub proof fn law_every_wrong_content_is_reported(sources: Seq<LoadedView>)
    ensures
        mismatches(sources).len() == sources.filter(
            |l: LoadedView|
                text::lower_seq(digest::hex(digest::sha1_of(l.data))) != text::lower_seq(
                    l.source.sha1,
                ),
        ).len(),
        mismatches(sources).len() == 0 <==> forall|i: int|
            0 <= i < sources.len() ==> text::lower_seq(
                digest::hex(digest::sha1_of((#[trigger] sources[i]).data)),
            ) == text::lower_seq(sources[i].source.sha1),
        forall|k: int|
            0 <= k < mismatches(sources).len() ==> exists|i: int|
                0 <= i < sources.len() && text::begins(
                    #[trigger] mismatches(sources)[k],
                    entry_name((#[trigger] sources[i]).source),
                ) && text::finishes(
                    mismatches(sources)[k],
                    sources[i].source.sha1 + ", got "@ + digest::hex(
                        digest::sha1_of(sources[i].data),
                    ),
                ) && text::lower_seq(digest::hex(digest::sha1_of(sources[i].data)))
                    != text::lower_seq(sources[i].source.sha1),
{
    let bad = |l: LoadedView| !genuine(l);
    let off = |l: LoadedView|
        text::lower_seq(digest::hex(digest::sha1_of(l.data))) != text::lower_seq(l.source.sha1);
    assert(bad =~= off);
    let picked = sources.filter(bad);
    seqs::lemma_filter_members(sources, bad);
    if mismatches(sources).len() == 0 {
        assert forall|i: int| 0 <= i < sources.len() implies !off(#[trigger] sources[i]) by {
            if bad(sources[i]) {
                assert(sources.contains(sources[i]));
                assert(picked.contains(sources[i]));
            }
        }
    } else {
        assert(picked.contains(picked[0]));
        let i = choose|i: int| 0 <= i < sources.len() && sources[i] == picked[0];
        assert(off(sources[i]));
    }
    assert forall|k: int| 0 <= k < mismatches(sources).len() implies exists|i: int|
        0 <= i < sources.len() && text::begins(
            #[trigger] mismatches(sources)[k],
            entry_name((#[trigger] sources[i]).source),
        ) && text::finishes(
            mismatches(sources)[k],
            sources[i].source.sha1 + ", got "@ + digest::hex(digest::sha1_of(sources[i].data)),
        ) && text::lower_seq(digest::hex(digest::sha1_of(sources[i].data))) != text::lower_seq(
            sources[i].source.sha1,
        ) by {
        assert(picked.contains(picked[k]));
        let i = choose|i: int| 0 <= i < sources.len() && sources[i] == picked[k];
        let words = mismatches(sources)[k];
        let name = entry_name(sources[i].source);
        let tail = sources[i].source.sha1 + ", got "@ + digest::hex(
            digest::sha1_of(sources[i].data),
        );
        assert(bad(sources[i]));
        assert(words == mismatch(sources[i]));
        assert(words =~= name + (": expected "@ + tail));
        assert(words.take(name.len() as int) =~= name);
        assert(words.skip(words.len() - tail.len()) =~= tail);
        assert(text::begins(mismatches(sources)[k], entry_name(sources[i].source)));
    }
}

/// A repack in move mode consumes the loose files that it packed, and no file that
/// lies in an archive or was left out for its name.
pub proof fn law_consumed_are_the_loose_files_packed(
    sources: Seq<SourceRefView>,
    name: Seq<char>,
    path: Seq<char>,
)
    ensures
        loose_feeders(sources).contains((name, path)) <==> exists|i: int|
            0 <= i < sources.len() && first_so_named(sources, i) && (
            #[trigger] sources[i]).archive_path is None && sources[i].path == path && entry_name(
                sources[i],
            ) == name,
{
    let p = |i: int| first_so_named(sources, i);
    let ids = Seq::new(sources.len(), |i: int| i);
    let at = ids.filter(p);
    let picked = first_by_name(sources);
    law_first_of_each_name_is_taken(sources);
    assert(p =~= (|i: int|
        forall|j: int|
            0 <= j < i ==> entry_name(#[trigger] sources[j]) != entry_name(sources[i])));
    seqs::lemma_filter_members(ids, p);
    let loose = |s: SourceRefView| s.archive_path is None;
    let kept = picked.filter(loose);
    seqs::lemma_filter_members(picked, loose);
    if loose_feeders(sources).contains((name, path)) {
        let k = choose|k: int|
            0 <= k < loose_feeders(sources).len() && loose_feeders(sources)[k] == (name, path);
        assert(kept.contains(kept[k]));
        let m = choose|m: int| 0 <= m < picked.len() && picked[m] == kept[k];
        assert(at.contains(at[m]));
        assert(ids.contains(at[m]));
        assert(sources[at[m]] == kept[k]);
    }
    if exists|i: int|
        0 <= i < sources.len() && first_so_named(sources, i) && (
        #[trigger] sources[i]).archive_path is None && sources[i].path == path && entry_name(
            sources[i],
        ) == name {
        let i = choose|i: int|
            0 <= i < sources.len() && first_so_named(sources, i) && (
            #[trigger] sources[i]).archive_path is None && sources[i].path == path && entry_name(
                sources[i],
            ) == name;
        assert(ids[i] == i);
        assert(ids.contains(i));
        assert(at.contains(i));
        let m = choose|m: int| 0 <= m < at.len() && at[m] == i;
        assert(picked[m] == sources[i]);
        assert(picked.contains(sources[i]));
        assert(kept.contains(sources[i]));
        let k = choose|k: int| 0 <= k < kept.len() && kept[k] == sources[i];
        assert(loose_feeders(sources)[k] == (name, path));
    }
}

/// What a repack writes is read by the reader that its file's extension picks.
pub proof fn law_archives_are_read_as_they_were_written(
    stem: Seq<char>,
    bytes: Seq<u8>,
    entry: Seq<char>,
)
    requires
        stem.len() > 0,
        !stem.contains('/'),
    ensures
        format_named("zip"@) is Some && format_named("zip"@)->0 is Zip,
        format_named("torrentzip"@) is Some && format_named("torrentzip"@)->0 is TorrentZip,
        format_named("7z"@) is Some && format_named("7z"@)->0 is SevenZip,
        archive::zip_entry(bytes, entry) matches Ok(data) ==> extracted(
            stem + "."@ + "zip"@,
            bytes,
            entry,
        ) == Ok::<Seq<u8>, ExtractError>(data),
        archive::zip_entry(bytes, entry) matches Err(fault) ==> extracted(
            stem + "."@ + "zip"@,
            bytes,
            entry,
        ) == Err::<Seq<u8>, ExtractError>(ExtractError::Zip(fault)),
        archive::seven_entry(bytes, entry) matches Ok(data) ==> extracted(
            stem + "."@ + "7z"@,
            bytes,
            entry,
        ) == Ok::<Seq<u8>, ExtractError>(data),
        archive::seven_entry(bytes, entry) matches Err(fault) ==> extracted(
            stem + "."@ + "7z"@,
            bytes,
            entry,
        ) == Err::<Seq<u8>, ExtractError>(ExtractError::SevenZip(fault)),
{
    reveal_strlit("zip");
    reveal_strlit("torrentzip");
    reveal_strlit("7z");
    assert("zip"@.len() == 3 && "torrentzip"@.len() == 10 && "7z"@.len() == 2);
    paths::law_extension_follows_the_last_dot(stem, "zip"@);
    paths::law_extension_follows_the_last_dot(stem, "7z"@);
}

/// Extracts an entry from the bytes of an archive, by the archive's extension.
pub fn extract_from_archive(archive_path: &str, bytes: Vec<u8>, entry_path: &str) -> (r: Result<
    Vec<u8>,
    ExtractError,
>)
    ensures
        match r {
            Ok(data) => extracted(archive_path@, bytes@, entry_path@) == Ok::<
                Seq<u8>,
                ExtractError,
            >(data@),
            Err(e) => extracted(archive_path@, bytes@, entry_path@) == Err::<
                Seq<u8>,
                ExtractError,
            >(e),
        },
{
    match archive_kind(archive_path) {
        None => Err(ExtractError::Unsupported),
        Some(ArchiveKind::Zip) => match read_zip_entry(bytes, entry_path) {
            Ok(data) => Ok(data),
            Err(fault) => Err(ExtractError::Zip(fault)),
        },
        Some(ArchiveKind::SevenZip) => match read_7z_entry(bytes, entry_path) {
            Ok(data) => Ok(data),
            Err(fault) => Err(ExtractError::SevenZip(fault)),
        },
    }
}

} // verus!
