//! ZIP and 7z archives in memory: how they are written, and what is read from
//! them.

use crate::sorted_map;
use crate::sorted_map::SortedMap;
use crate::text;
use vstd::prelude::*;

verus! {

/// A date and time that a ZIP entry carries: year, month, day, hour, minute and
/// second.
pub type ZipStamp = (u16, u8, u8, u8, u8, u8);

/// Whether a ZIP entry can carry a date and time exactly: from 1980 to 2107, a
/// day that every month has, and an even second.
pub open spec fn storable(t: ZipStamp) -> bool {
    &&& 1980 <= t.0 <= 2107
    &&& 1 <= t.1 <= 12
    &&& 1 <= t.2 <= 28
    &&& t.3 <= 23
    &&& t.4 <= 59
    &&& t.5 <= 58 && t.5 % 2 == 0
}

// ---------------------------------------------------------------------------
// Outside types and calls
// ---------------------------------------------------------------------------

/// The error of the `zip` crate.
#[verifier::external_type_specification]
#[verifier::external_body]
pub struct ExZipError(zip::result::ZipError);

/// The error of the `sevenz_rust2` crate.
#[verifier::external_type_specification]
#[verifier::external_body]
pub struct ExSevenZipError(sevenz_rust2::Error);

/// A reader over bytes in memory.
#[verifier::external_type_specification]
#[verifier::external_body]
#[verifier::reject_recursive_types(T)]
pub struct ExCursor<T>(std::io::Cursor<T>);

/// A ZIP archive that is open for reading.
#[verifier::external_type_specification]
#[verifier::external_body]
#[verifier::reject_recursive_types(R)]
pub struct ExZipArchive<R>(zip::ZipArchive<R>);

/// A ZIP archive in the making: a `zip::ZipWriter` into memory.
#[verifier::external_body]
pub struct ZipOutput {
    writer: zip::ZipWriter<std::io::Cursor<Vec<u8>>>,
}

/// A 7z archive in the making: a `sevenz_rust2::ArchiveWriter` into memory.
#[verifier::external_body]
pub struct SevenZipOutput {
    writer: sevenz_rust2::ArchiveWriter<std::io::Cursor<Vec<u8>>>,
}

/// A 7z archive that is open for reading: a `sevenz_rust2::ArchiveReader`.
#[verifier::external_body]
pub struct SevenZipInput {
    reader: sevenz_rust2::ArchiveReader<std::io::Cursor<Vec<u8>>>,
}

/// The entries written so far, in order: name, content, date and compression
/// level.
pub uninterp spec fn zip_written(w: ZipOutput) -> Seq<(Seq<char>, Seq<u8>, ZipStamp, i64)>;

/// Whether an entry can be begun after those that were written: its name, date and
/// compression level.
pub uninterp spec fn zip_starts(
    before: Seq<(Seq<char>, Seq<u8>, (u16, u8, u8, u8, u8, u8), i64)>,
    name: Seq<char>,
    stamp: (u16, u8, u8, u8, u8, u8),
    level: i64,
) -> bool;

/// The bytes that a ZIP archive of some entries is written as, or none where it
/// cannot be finished: name, content, date and compression level of each, in order.
pub uninterp spec fn zip_image(
    entries: Seq<(Seq<char>, Seq<u8>, (u16, u8, u8, u8, u8, u8), i64)>,
) -> Option<Seq<u8>>;

/// The entries of an open archive, in order: name, content and date, each where
/// it can be had. Of the content the outer option is none where the entry cannot
/// be opened, the inner one where it cannot be read to its end.
pub uninterp spec fn zip_items(a: zip::ZipArchive<std::io::Cursor<Vec<u8>>>) -> Seq<
    (Option<Seq<char>>, Option<Option<Seq<u8>>>, Option<(u16, u8, u8, u8, u8, u8)>),
>;

/// What opening bytes as a ZIP archive finds in them, or none where they are no
/// such archive.
pub uninterp spec fn zip_contents(bytes: Seq<u8>) -> Option<
    Seq<(Option<Seq<char>>, Option<Option<Seq<u8>>>, Option<(u16, u8, u8, u8, u8, u8)>)>,
>;

/// The entries pushed so far, in order: name and content.
pub uninterp spec fn seven_written(w: SevenZipOutput) -> Seq<(Seq<char>, Seq<u8>)>;

/// Whether a file can be added after those that were pushed: its name and content.
pub uninterp spec fn seven_takes(
    before: Seq<(Seq<char>, Seq<u8>)>,
    name: Seq<char>,
    data: Seq<u8>,
) -> bool;

/// The bytes that a 7z archive of some entries is written as, or none where it
/// cannot be finished: name and content of each, in order.
pub uninterp spec fn seven_image(entries: Seq<(Seq<char>, Seq<u8>)>) -> Option<Seq<u8>>;

/// The entries of an open 7z archive, in order: name, the content that reading by
/// that name gives, where it can be read, and whether it is a directory.
pub uninterp spec fn seven_items(a: SevenZipInput) -> Seq<(Seq<char>, Option<Seq<u8>>, bool)>;

/// What opening bytes as a 7z archive finds in them, or none where they are no
/// such archive.
pub uninterp spec fn seven_contents(bytes: Seq<u8>) -> Option<
    Seq<(Seq<char>, Option<Seq<u8>>, bool)>,
>;

/// `zip::ZipWriter::new`: an archive without entries.
#[verifier::external_body]
fn zip_new() -> (w: ZipOutput)
    ensures
        zip_written(w).len() == 0,
{
    ZipOutput { writer: zip::ZipWriter::new(std::io::Cursor::new(Vec::new())) }
}

/// `zip::ZipWriter::start_file`, with a deflated entry at some level and date: it
/// depends on nothing but these, the name and the entries so far whether it
/// succeeds; it fails where the name is taken. Where it succeeds, one more entry
/// without content is there. A name that takes more than 65535 bytes is left out,
/// on which the writer panics.
#[verifier::external_body]
fn zip_start_file(w: ZipOutput, name: &str, level: i64, stamp: ZipStamp) -> (r: Result<
    ZipOutput,
    zip::result::ZipError,
>)
    requires
        text::utf8_len(name@) <= 65535,
    ensures
        r is Ok <==> zip_starts(zip_written(w), name@, stamp, level),
        r matches Ok(next) ==> zip_written(next) == zip_written(w).push(
            (name@, Seq::<u8>::empty(), stamp, level),
        ),
        r is Ok ==> forall|i: int|
            0 <= i < zip_written(w).len() ==> (#[trigger] zip_written(w)[i]).0 != name@,
{
    let when = zip::DateTime::from_date_and_time(
        stamp.0, stamp.1, stamp.2, stamp.3, stamp.4, stamp.5,
    ).map_err(|_| zip::result::ZipError::UnsupportedArchive("date out of range"))?;
    let options = zip::write::SimpleFileOptions::default()
        .compression_method(zip::CompressionMethod::Deflated)
        .compression_level(Some(level))
        .last_modified_time(when);
    let mut next = w;
    next.writer.start_file(name, options)?;
    Ok(next)
}

/// `write_all` of `zip::ZipWriter`: the bytes become the content of the entry that
/// was started last. It fails exactly where they are more than an entry without
/// the large-file option can hold. An entry is written in one piece, on which
/// alone its compressed form then depends.
#[verifier::external_body]
fn zip_write_all(w: ZipOutput, data: &[u8]) -> (r: Result<ZipOutput, zip::result::ZipError>)
    requires
        zip_written(w).len() > 0,
        zip_written(w).last().1.len() == 0,
    ensures
        r is Ok <==> data@.len() <= u32::MAX,
        r matches Ok(next) ==> zip_written(next) == zip_written(w).update(
            zip_written(w).len() - 1,
            (
                zip_written(w).last().0,
                data@,
                zip_written(w).last().2,
                zip_written(w).last().3,
            ),
        ),
{
    let mut next = w;
    std::io::Write::write_all(&mut next.writer, data)?;
    Ok(next)
}

/// Whether an archive of so many entries and bytes is sure to be read as it was
/// written. One of exactly 65535 entries can be taken for one with a larger
/// footer, and so can one beyond 4 GiB.
pub open spec fn zip_reads_back(count: nat, size: nat) -> bool {
    count != 65535 && size <= u32::MAX
}

/// `zip::ZipWriter::finish`: whether it succeeds, and the bytes, depend on nothing
/// but the entries that were written. Within the bounds in which the reader takes
/// the footer for what it is, opening the bytes finds those entries, in order, with
/// their names and contents, and with the dates that an entry can carry.
#[verifier::external_body]
fn zip_finish(w: ZipOutput) -> (r: Result<Vec<u8>, zip::result::ZipError>)
    ensures
        match r {
            Ok(bytes) => zip_image(zip_written(w)) == Some(bytes@),
            Err(_) => zip_image(zip_written(w)) is None,
        },
        r matches Ok(bytes) ==> zip_reads_back(zip_written(w).len(), bytes@.len()) ==> (
        zip_contents(bytes@) matches Some(items) && items.len() == zip_written(w).len()
            && forall|i: int|
            0 <= i < items.len() ==> (#[trigger] items[i]).0 == Some(zip_written(w)[i].0)
                && items[i].1 == Some(Some(zip_written(w)[i].1)) && (storable(zip_written(w)[i].2)
                ==> items[i].2 == Some(zip_written(w)[i].2))),
{
    w.writer.finish().map(|cursor| cursor.into_inner())
}

/// `zip::ZipArchive::new`: opens bytes as a ZIP archive; what it finds is a
/// function of the bytes.
#[verifier::external_body]
fn zip_open(bytes: Vec<u8>) -> (r: Result<
    zip::ZipArchive<std::io::Cursor<Vec<u8>>>,
    zip::result::ZipError,
>)
    ensures
        match r {
            Ok(a) => zip_contents(bytes@) == Some(zip_items(a)),
            Err(_) => zip_contents(bytes@) is None,
        },
{
    zip::ZipArchive::new(std::io::Cursor::new(bytes))
}

/// `zip::ZipArchive::len`: the number of entries.
#[verifier::external_body]
fn zip_len(a: &zip::ZipArchive<std::io::Cursor<Vec<u8>>>) -> (n: usize)
    ensures
        n == zip_items(*a).len(),
{
    a.len()
}

/// `zip::ZipArchive::by_index_raw` and `zip::read::ZipFile::name`: the name of an
/// entry, where it can be had; the archive still holds the same.
#[verifier::external_body]
fn zip_name(a: &mut zip::ZipArchive<std::io::Cursor<Vec<u8>>>, i: usize) -> (r: Result<
    String,
    zip::result::ZipError,
>)
    requires
        i < zip_items(*old(a)).len(),
    ensures
        zip_items(*final(a)) == zip_items(*old(a)),
        match r {
            Ok(name) => zip_items(*old(a))[i as int].0 == Some(name@),
            Err(_) => zip_items(*old(a))[i as int].0 is None,
        },
{
    a.by_index_raw(i).map(|entry| entry.name().to_string())
}

/// `zip::ZipArchive::by_index`, read to the end: an error where the entry cannot
/// be opened; else its content, or none where it cannot be read to its end. The
/// archive still holds the same.
#[verifier::external_body]
fn zip_read(a: &mut zip::ZipArchive<std::io::Cursor<Vec<u8>>>, i: usize) -> (r: Result<
    Option<Vec<u8>>,
    zip::result::ZipError,
>)
    requires
        i < zip_items(*old(a)).len(),
    ensures
        zip_items(*final(a)) == zip_items(*old(a)),
        match r {
            Ok(Some(data)) => zip_items(*old(a))[i as int].1 == Some(Some(data@)),
            Ok(None) => zip_items(*old(a))[i as int].1 == Some(None::<Seq<u8>>),
            Err(_) => zip_items(*old(a))[i as int].1 is None,
        },
{
    let mut data = Vec::new();
    let mut entry = a.by_index(i)?;
    Ok(std::io::Read::read_to_end(&mut entry, &mut data).ok().map(|_| data))
}

/// `sevenz_rust2::ArchiveWriter::new`: an archive without entries. It only moves to
/// where the first entry goes, which a writer into memory always can.
#[verifier::external_body]
fn seven_new() -> (r: Result<SevenZipOutput, sevenz_rust2::Error>)
    ensures
        r is Ok,
        r matches Ok(w) ==> seven_written(w).len() == 0,
{
    let writer = sevenz_rust2::ArchiveWriter::new(std::io::Cursor::new(Vec::new()))?;
    Ok(SevenZipOutput { writer })
}

/// `sevenz_rust2::ArchiveWriter::push_archive_entry`: it depends on nothing but the
/// name, the content and the entries so far whether it succeeds. Where it does,
/// one more file with that name and content is there.
#[verifier::external_body]
fn seven_push(w: SevenZipOutput, name: &str, data: &[u8]) -> (r: Result<
    SevenZipOutput,
    sevenz_rust2::Error,
>)
    ensures
        r is Ok <==> seven_takes(seven_written(w), name@, data@),
        r matches Ok(next) ==> seven_written(next) == seven_written(w).push((name@, data@)),
{
    let entry = sevenz_rust2::ArchiveEntry::new_file(name);
    let mut next = w;
    next.writer.push_archive_entry(entry, Some(std::io::Cursor::new(data)))?;
    Ok(next)
}

/// Whether an archive of so many bytes is sure to be read as it was written. The
/// length of the header is recorded in 32 bits.
pub open spec fn seven_reads_back(size: nat) -> bool {
    size <= u32::MAX
}

/// `sevenz_rust2::ArchiveWriter::finish`: whether it succeeds, and the bytes, depend
/// on nothing but the entries that were pushed. Where there are entries, with
/// distinct names that hold no NUL, and the archive keeps within 4 GiB, beyond
/// which the length of its header may not be recorded whole, opening the bytes
/// finds them, in order, with their names and contents, as files.
#[verifier::external_body]
fn seven_finish(w: SevenZipOutput) -> (r: Result<Vec<u8>, sevenz_rust2::Error>)
    ensures
        match r {
            Ok(bytes) => seven_image(seven_written(w)) == Some(bytes@),
            Err(_) => seven_image(seven_written(w)) is None,
        },
        r matches Ok(bytes) ==> (seven_reads_back(bytes@.len()) && seven_written(w).len() > 0 && (
        forall|i: int, j: int|
            0 <= i < j < seven_written(w).len() ==> (#[trigger] seven_written(w)[i]).0 != (
            #[trigger] seven_written(w)[j]).0) && (forall|i: int|
            0 <= i < seven_written(w).len() ==> !(#[trigger] seven_written(w)[i]).0.contains(
                '\0',
            ))) ==> (seven_contents(bytes@) matches Some(items) && items.len() == seven_written(
            w,
        ).len() && forall|i: int|
            0 <= i < items.len() ==> (#[trigger] items[i]).0 == seven_written(w)[i].0
                && items[i].1 == Some(seven_written(w)[i].1) && !items[i].2),
{
    Ok(w.writer.finish()?.into_inner())
}

/// `sevenz_rust2::ArchiveReader::new` without a password, set to one thread by
/// `set_thread_count`: opens bytes as a 7z archive; what it finds, and what is read
/// from it on one thread, is a function of the bytes.
#[verifier::external_body]
fn seven_open(bytes: Vec<u8>) -> (r: Result<SevenZipInput, sevenz_rust2::Error>)
    ensures
        match r {
            Ok(a) => seven_contents(bytes@) == Some(seven_items(a)),
            Err(_) => seven_contents(bytes@) is None,
        },
{
    let password = sevenz_rust2::Password::empty();
    let mut reader = sevenz_rust2::ArchiveReader::new(std::io::Cursor::new(bytes), password)?;
    reader.set_thread_count(1);
    Ok(SevenZipInput { reader })
}

/// `sevenz_rust2::ArchiveReader::archive`, the number of its files.
#[verifier::external_body]
fn seven_len(a: &SevenZipInput) -> (n: usize)
    ensures
        n == seven_items(*a).len(),
{
    a.reader.archive().files.len()
}

/// `sevenz_rust2::ArchiveReader::archive` and `sevenz_rust2::ArchiveEntry::name`:
/// the name of an entry.
#[verifier::external_body]
fn seven_name(a: &SevenZipInput, i: usize) -> (name: String)
    requires
        i < seven_items(*a).len(),
    ensures
        name@ == seven_items(*a)[i as int].0,
{
    a.reader.archive().files[i].name().to_string()
}

/// `sevenz_rust2::ArchiveReader::archive` and
/// `sevenz_rust2::ArchiveEntry::is_directory`: whether an entry is a directory.
#[verifier::external_body]
fn seven_is_dir(a: &SevenZipInput, i: usize) -> (r: bool)
    requires
        i < seven_items(*a).len(),
    ensures
        r == seven_items(*a)[i as int].2,
{
    a.reader.archive().files[i].is_directory()
}

/// `sevenz_rust2::ArchiveReader::read_file`: the content that reading by the name
/// of some entry gives, where it can be read; the archive still holds the same.
#[verifier::external_body]
fn seven_read(a: &mut SevenZipInput, name: &str) -> (r: Result<Vec<u8>, sevenz_rust2::Error>)
    ensures
        seven_items(*final(a)) == seven_items(*old(a)),
        forall|i: int|
            0 <= i < seven_items(*old(a)).len() && (#[trigger] seven_items(*old(a))[i]).0
                == name@ ==> match r {
                Ok(data) => seven_items(*old(a))[i].1 == Some(data@),
                Err(_) => seven_items(*old(a))[i].1 is None,
            },
{
    a.reader.read_file(name)
}

// ---------------------------------------------------------------------------
// Writing
// ---------------------------------------------------------------------------

/// An entry to be written.
pub struct NewEntry {
    pub name: String,
    pub data: Vec<u8>,
}

#[verifier::ext_equal]
pub struct EntryView {
    pub name: Seq<char>,
    pub data: Seq<u8>,
}

impl DeepView for NewEntry {
    type V = EntryView;

    open spec fn deep_view(&self) -> EntryView {
        EntryView { name: self.name@, data: self.data@ }
    }
}

/// How a ZIP archive is written.
#[derive(Clone, Copy, Debug, PartialEq, Eq, Structural)]
pub enum ZipStyle {
    /// Entries as they come
    Plain,
    /// TorrentZIP: entries in name order, at the best compression, all of one date
    Torrent,
}

/// Why an archive cannot be written.
#[derive(Debug)]
pub enum WriteFault {
    Create,
    /// An entry cannot be added: its name
    Add(String),
    Finish,
}

/// The words for an archive that cannot be written.
pub open spec fn write_message(fault: WriteFault) -> Seq<char> {
    match fault {
        WriteFault::Create => "Failed to create archive"@,
        WriteFault::Add(name) => "Failed to add entry: "@ + name@,
        WriteFault::Finish => "Failed to finalise archive"@,
    }
}

impl WriteFault {
    /// The fault in words.
    pub fn message(&self) -> (r: String)
        ensures
            r@ == write_message(*self),
    {
        match self {
            WriteFault::Create => "Failed to create archive".to_owned(),
            WriteFault::Add(name) => text::concat2("Failed to add entry: ", name.as_str()),
            WriteFault::Finish => "Failed to finalise archive".to_owned(),
        }
    }
}

/// The date of every entry.
pub open spec fn stamp_for(style: ZipStyle) -> ZipStamp {
    match style {
        ZipStyle::Plain => (1980, 1, 1, 0, 0, 0),
        ZipStyle::Torrent => (1996, 12, 24, 23, 32, 0),
    }
}

/// The compression level of every entry.
pub open spec fn level_for(style: ZipStyle) -> i64 {
    match style {
        ZipStyle::Plain => 6,
        ZipStyle::Torrent => 9,
    }
}

/// The entries of an archive as they are written.
pub open spec fn written_as(entries: Seq<EntryView>, style: ZipStyle) -> Seq<
    (Seq<char>, Seq<u8>, ZipStamp, i64),
> {
    entries.map_values(
        |e: EntryView| (e.name, e.data, stamp_for(style), level_for(style)),
    )
}

/// Whether a ZIP archive holds exactly some entries, in order.
pub open spec fn zip_holds(bytes: Seq<u8>, entries: Seq<EntryView>, stamp: ZipStamp) -> bool {
    zip_contents(bytes) matches Some(items) && items.len() == entries.len() && forall|i: int|
        0 <= i < items.len() ==> (#[trigger] items[i]).0 == Some(entries[i].name)
            && items[i].1 == Some(Some(entries[i].data)) && items[i].2 == Some(stamp)
}

/// Whether a 7z archive holds exactly some entries, all files, in order.
pub open spec fn seven_holds(bytes: Seq<u8>, entries: Seq<EntryView>) -> bool {
    seven_contents(bytes) matches Some(items) && items.len() == entries.len() && forall|i: int|
        0 <= i < items.len() ==> (#[trigger] items[i]).0 == entries[i].name && items[i].1 == Some(
            entries[i].data,
        ) && !items[i].2
}

/// Whether an entry can be added to a ZIP archive after those before it: its name
/// takes no more than 65535 bytes, it can be begun, and its content fits.
pub open spec fn addable(entries: Seq<EntryView>, style: ZipStyle, i: int) -> bool {
    &&& text::utf8_len(entries[i].name) <= 65535
    &&& zip_starts(
        written_as(entries.take(i), style),
        entries[i].name,
        stamp_for(style),
        level_for(style),
    )
    &&& entries[i].data.len() <= u32::MAX
}

/// Whether a ZIP archive of some entries, in order, can be written.
pub open spec fn writable(entries: Seq<EntryView>, style: ZipStyle) -> bool {
    (forall|i: int| 0 <= i < entries.len() ==> #[trigger] addable(entries, style, i)) && zip_image(
        written_as(entries, style),
    ) is Some
}

/// Why a ZIP archive of some entries cannot be written: the first entry that cannot
/// be added, or else the finish.
pub open spec fn refuses(entries: Seq<EntryView>, style: ZipStyle, fault: WriteFault) -> bool {
    match fault {
        WriteFault::Create => false,
        WriteFault::Add(name) => exists|i: int|
            0 <= i < entries.len() && !(#[trigger] addable(entries, style, i)) && entries[i].name
                == name@ && forall|j: int| 0 <= j < i ==> #[trigger] addable(entries, style, j),
        WriteFault::Finish => (forall|i: int|
            0 <= i < entries.len() ==> #[trigger] addable(entries, style, i)) && zip_image(
            written_as(entries, style),
        ) is None,
    }
}

/// The entries of a 7z archive as they are written.
pub open spec fn pushed_as(entries: Seq<EntryView>) -> Seq<(Seq<char>, Seq<u8>)> {
    entries.map_values(|e: EntryView| (e.name, e.data))
}

/// Whether an entry can be added to a 7z archive after those before it.
pub open spec fn seven_addable(entries: Seq<EntryView>, i: int) -> bool {
    seven_takes(pushed_as(entries.take(i)), entries[i].name, entries[i].data)
}

/// Whether a 7z archive of some entries, in order, can be written.
pub open spec fn seven_writable(entries: Seq<EntryView>) -> bool {
    (forall|i: int| 0 <= i < entries.len() ==> #[trigger] seven_addable(entries, i))
        && seven_image(pushed_as(entries)) is Some
}

/// Why a 7z archive of some entries cannot be written: the first entry that cannot
/// be added, or else the finish.
pub open spec fn seven_refuses(entries: Seq<EntryView>, fault: WriteFault) -> bool {
    match fault {
        WriteFault::Create => false,
        WriteFault::Add(name) => exists|i: int|
            0 <= i < entries.len() && !(#[trigger] seven_addable(entries, i)) && entries[i].name
                == name@ && forall|j: int| 0 <= j < i ==> #[trigger] seven_addable(entries, j),
        WriteFault::Finish => (forall|i: int|
            0 <= i < entries.len() ==> #[trigger] seven_addable(entries, i)) && seven_image(
            pushed_as(entries),
        ) is None,
    }
}

/// Whether no two entries share a name.
pub open spec fn names_distinct(entries: Seq<EntryView>) -> bool {
    forall|i: int, j: int|
        0 <= i < j < entries.len() ==> (#[trigger] entries[i]).name != (#[trigger] entries[j]).name
}

/// Whether an entry has a name.
pub open spec fn has_entry(entries: Seq<EntryView>, name: Seq<char>) -> bool {
    exists|i: int| 0 <= i < entries.len() && (#[trigger] entries[i]).name == name
}

/// Where an entry stands in a TorrentZIP archive: by its name without regard to
/// case, then by its name.
pub open spec fn sort_key(e: EntryView) -> (Seq<char>, Seq<char>) {
    (text::lower_seq(e.name), e.name)
}

/// The keys of some entries.
pub open spec fn sort_keys(entries: Seq<EntryView>) -> Set<(Seq<char>, Seq<char>)> {
    Set::new(|k: (Seq<char>, Seq<char>)| exists|i: int|
        0 <= i < entries.len() && sort_key(#[trigger] entries[i]) == k)
}

/// The entry with a key; the last of them.
pub open spec fn entry_for(entries: Seq<EntryView>, k: (Seq<char>, Seq<char>)) -> EntryView
    decreases entries.len(),
{
    if entries.len() == 0 || sort_key(entries.last()) == k {
        entries.last()
    } else {
        entry_for(entries.drop_last(), k)
    }
}

/// The entries in TorrentZIP order.
pub open spec fn torrent_order(entries: Seq<EntryView>) -> Seq<EntryView> {
    sorted_map::in_order::<(String, String)>(sort_keys(entries)).map_values(
        |k: (Seq<char>, Seq<char>)| entry_for(entries, k),
    )
}

/// The entries of an archive in the order that its style wants.
pub open spec fn laid_out(entries: Seq<EntryView>, style: ZipStyle) -> Seq<EntryView> {
    match style {
        ZipStyle::Plain => entries,
        ZipStyle::Torrent => torrent_order(entries),
    }
}

fn clone_bytes(data: &Vec<u8>) -> (r: Vec<u8>)
    ensures
        r@ == data@,
{
    let mut r: Vec<u8> = Vec::new();
    let mut i: usize = 0;
    while i < data.len()
        invariant
            i <= data@.len(),
            r@ == data@.take(i as int),
        decreases data@.len() - i,
    {
        r.push(data[i]);
        i = i + 1;
        proof {
            assert(r@ =~= data@.take(i as int));
        }
    }
    proof {
        assert(data@.take(i as int) =~= data@);
    }
    r
}

proof fn lemma_entry_for(entries: Seq<EntryView>, i: int)
    requires
        0 <= i < entries.len(),
        forall|j: int|
            i < j < entries.len() ==> sort_key(#[trigger] entries[j]) != sort_key(entries[i]),
    ensures
        entry_for(entries, sort_key(entries[i])) == entries[i],
    decreases entries.len(),
{
    if i < entries.len() - 1 {
        assert(entries[entries.len() - 1] == entries.last());
        assert forall|j: int| i < j < entries.drop_last().len() implies sort_key(
            #[trigger] entries.drop_last()[j],
        ) != sort_key(entries[i]) by {
            assert(entries.drop_last()[j] == entries[j]);
        }
        lemma_entry_for(entries.drop_last(), i);
    }
}

proof fn lemma_sort_keys_finite(entries: Seq<EntryView>)
    ensures
        sort_keys(entries).finite(),
{
    let keys = sort_keys(entries);
    let list = entries.map_values(|e: EntryView| sort_key(e));
    assert forall|k: (Seq<char>, Seq<char>)| #[trigger] keys.contains(k) <==> list.to_set().contains(
        k,
    ) by {
        if keys.contains(k) {
            let i = choose|i: int| 0 <= i < entries.len() && sort_key(#[trigger] entries[i]) == k;
            assert(list[i] == k);
        }
        if list.to_set().contains(k) {
            let i = choose|i: int| 0 <= i < list.len() && list[i] == k;
            assert(sort_key(entries[i]) == k);
        }
    }
    assert(keys =~= list.to_set());
    vstd::seq_lib::seq_to_set_is_finite(list);
}

/// TorrentZIP order only rearranges: every entry is still there, once, where
/// names are distinct.
pub proof fn law_torrent_order_keeps_entries(entries: Seq<EntryView>)
    requires
        names_distinct(entries),
    ensures
        names_distinct(torrent_order(entries)),
        torrent_order(entries).to_set() == entries.to_set(),
        torrent_order(entries).len() == entries.len(),
        sorted_map::increasing::<(String, String)>(
            torrent_order(entries).map_values(|e: EntryView| sort_key(e)),
        ),
{
    let keys = sort_keys(entries);
    lemma_sort_keys_finite(entries);
    sorted_map::lemma_order_exists::<(String, String)>(keys);
    let order = sorted_map::in_order::<(String, String)>(keys);
    let out = torrent_order(entries);
    assert forall|k: (Seq<char>, Seq<char>)| #[trigger] keys.contains(k) implies sort_key(
        entry_for(entries, k),
    ) == k && entries.contains(entry_for(entries, k)) by {
        let i = choose|i: int| 0 <= i < entries.len() && sort_key(#[trigger] entries[i]) == k;
        lemma_entry_for(entries, i);
    }
    assert forall|i: int| 0 <= i < out.len() implies sort_key(#[trigger] out[i]) == order[i] by {
        assert(order.to_set().contains(order[i]));
    }
    assert(out.map_values(|e: EntryView| sort_key(e)) =~= order);
    assert forall|i: int, j: int| 0 <= i < j < out.len() implies (#[trigger] out[i]).name != (
    #[trigger] out[j]).name by {
        assert(<(String, String) as sorted_map::Key>::precedes(order[i], order[j]));
        <(String, String) as sorted_map::Key>::lemma_irreflexive(order[i]);
        assert(sort_key(out[i]) == order[i] && sort_key(out[j]) == order[j]);
    }
    assert forall|e: EntryView| #[trigger] out.to_set().contains(e) <==> entries.to_set().contains(
        e,
    ) by {
        if out.to_set().contains(e) {
            let i = choose|i: int| 0 <= i < out.len() && out[i] == e;
            assert(order.to_set().contains(order[i]));
        }
        if entries.to_set().contains(e) {
            let i = choose|i: int| 0 <= i < entries.len() && entries[i] == e;
            lemma_entry_for(entries, i);
            assert(keys.contains(sort_key(entries[i])));
            assert(order.to_set().contains(sort_key(entries[i])));
            let k = choose|k: int| 0 <= k < order.len() && order[k] == sort_key(entries[i]);
            assert(out[k] == e);
        }
    }
    assert(out.to_set() =~= entries.to_set());
    out.unique_seq_to_set();
    entries.unique_seq_to_set();
}

/// A TorrentZIP archive is the same whatever order its entries came in: it depends
/// on nothing but which entries there are.
pub proof fn law_torrentzip_is_canonical(a: Seq<EntryView>, b: Seq<EntryView>)
    requires
        names_distinct(a),
        names_distinct(b),
        a.to_set() == b.to_set(),
    ensures
        zip_image(written_as(laid_out(a, ZipStyle::Torrent), ZipStyle::Torrent)) == zip_image(
            written_as(laid_out(b, ZipStyle::Torrent), ZipStyle::Torrent),
        ),
{
    assert forall|k: (Seq<char>, Seq<char>)| #[trigger] sort_keys(a).contains(k) implies sort_keys(
        b,
    ).contains(k) && entry_for(a, k) == entry_for(b, k) by {
        lemma_entry_moves(a, b, k);
    }
    assert forall|k: (Seq<char>, Seq<char>)| #[trigger] sort_keys(b).contains(k) implies sort_keys(
        a,
    ).contains(k) by {
        lemma_entry_moves(b, a, k);
    }
    assert(sort_keys(a) =~= sort_keys(b));
    let keys = sort_keys(a);
    lemma_sort_keys_finite(a);
    sorted_map::lemma_order_exists::<(String, String)>(keys);
    let order = sorted_map::in_order::<(String, String)>(keys);
    assert(torrent_order(a) =~= torrent_order(b)) by {
        assert forall|i: int| 0 <= i < order.len() implies #[trigger] torrent_order(a)[i]
            == torrent_order(b)[i] by {
            assert(order.to_set().contains(order[i]));
        }
    }
}

/// Whether a ZIP archive can be written and why it cannot exclude each other: one that
/// can has no reason against it, and one that cannot has exactly one.
pub proof fn law_refusal_has_one_reason(
    entries: Seq<EntryView>,
    style: ZipStyle,
    a: WriteFault,
    b: WriteFault,
)
    ensures
        writable(entries, style) ==> !refuses(entries, style, a),
        !(a is Create && refuses(entries, style, a)),
        refuses(entries, style, a) && refuses(entries, style, b) ==> match (a, b) {
            (WriteFault::Add(m), WriteFault::Add(n)) => m@ == n@,
            (WriteFault::Finish, WriteFault::Finish) => true,
            _ => false,
        },
        writable(entries, style) ==> forall|i: int|
            0 <= i < entries.len() ==> vstd::utf8::encode_utf8((#[trigger] entries[i]).name).len() <= 65535
                && entries[i].data.len() <= 4294967295,
{
    assert forall|i: int|
        writable(entries, style) && 0 <= i < entries.len() implies vstd::utf8::encode_utf8(
        (#[trigger] entries[i]).name,
    ).len() <= 65535 && entries[i].data.len() <= 4294967295 by {
        assert(addable(entries, style, i));
        text::law_utf8_length_is_of_the_encoding(entries[i].name);
    }
    if refuses(entries, style, a) && refuses(entries, style, b) {
        if a is Add && b is Add {
            let i = choose|i: int|
                0 <= i < entries.len() && !(#[trigger] addable(entries, style, i))
                    && entries[i].name == a->Add_0@ && forall|j: int|
                    0 <= j < i ==> #[trigger] addable(entries, style, j);
            let k = choose|k: int|
                0 <= k < entries.len() && !(#[trigger] addable(entries, style, k))
                    && entries[k].name == b->Add_0@ && forall|j: int|
                    0 <= j < k ==> #[trigger] addable(entries, style, j);
            assert(i == k) by {
                if i < k {
                    assert(addable(entries, style, i));
                }
                if k < i {
                    assert(addable(entries, style, k));
                }
            }
        }
    }
}

/// Entries are written whole and in order: each with its own name and content, and all
/// with the date and the level of compression that the style asks for.
pub proof fn law_entries_are_written_whole(entries: Seq<EntryView>, i: int)
    requires
        0 <= i < entries.len(),
    ensures
        written_as(entries, ZipStyle::Plain).len() == entries.len(),
        written_as(entries, ZipStyle::Torrent).len() == entries.len(),
        written_as(entries, ZipStyle::Plain)[i].0 == entries[i].name,
        written_as(entries, ZipStyle::Plain)[i].1 == entries[i].data,
        written_as(entries, ZipStyle::Torrent)[i].0 == entries[i].name,
        written_as(entries, ZipStyle::Torrent)[i].1 == entries[i].data,
        written_as(entries, ZipStyle::Torrent)[i].2 == (1996u16, 12u8, 24u8, 23u8, 32u8, 0u8),
        written_as(entries, ZipStyle::Torrent)[i].3 == 9,
        written_as(entries, ZipStyle::Plain)[i].2 == (1980u16, 1u8, 1u8, 0u8, 0u8, 0u8),
        pushed_as(entries).len() == entries.len(),
        pushed_as(entries)[i] == (entries[i].name, entries[i].data),
        laid_out(entries, ZipStyle::Plain) == entries,
{
}

/// A TorrentZIP archive has its entries in the order of their names without regard to
/// case.
pub proof fn law_torrentzip_is_in_name_order(entries: Seq<EntryView>, i: int, j: int)
    requires
        names_distinct(entries),
        0 <= i < j < laid_out(entries, ZipStyle::Torrent).len(),
    ensures
        ({
            let a = laid_out(entries, ZipStyle::Torrent)[i].name;
            let b = laid_out(entries, ZipStyle::Torrent)[j].name;
            text::lower_seq(a) == text::lower_seq(b) || text::before(
                text::lower_seq(a),
                text::lower_seq(b),
            )
        }),
{
    law_torrent_order_keeps_entries(entries);
    let out = torrent_order(entries);
    let keys = out.map_values(|e: EntryView| sort_key(e));
    assert(<(String, String) as sorted_map::Key>::precedes(keys[i], keys[j]));
}

/// The same key leads to the same entry among the same entries.
proof fn lemma_entry_moves(a: Seq<EntryView>, b: Seq<EntryView>, k: (Seq<char>, Seq<char>))
    requires
        names_distinct(a),
        names_distinct(b),
        a.to_set() == b.to_set(),
        sort_keys(a).contains(k),
    ensures
        sort_keys(b).contains(k),
        entry_for(a, k) == entry_for(b, k),
{
    let i = choose|i: int| 0 <= i < a.len() && sort_key(#[trigger] a[i]) == k;
    lemma_entry_for(a, i);
    assert(a.to_set().contains(a[i]));
    assert(b.to_set().contains(a[i]));
    let j = choose|j: int| 0 <= j < b.len() && b[j] == a[i];
    lemma_entry_for(b, j);
}

/// Puts entries into TorrentZIP order.
fn sort_entries(entries: &Vec<NewEntry>) -> (r: Vec<NewEntry>)
    ensures
        r.deep_view() == torrent_order(entries.deep_view()),
{
    let ghost es = entries.deep_view();
    let mut places: SortedMap<(String, String), usize> = SortedMap::new();
    let mut i: usize = 0;
    while i < entries.len()
        invariant
            i <= entries@.len(),
            es == entries.deep_view(),
            places.linked(),
            forall|k: (Seq<char>, Seq<char>)| #[trigger]
                places@.contains_key(k) <==> sort_keys(es.take(i as int)).contains(k),
            forall|k: (Seq<char>, Seq<char>)| #[trigger]
                places@.contains_key(k) ==> places@[k] < i && es[places@[k] as int] == entry_for(
                    es.take(i as int),
                    k,
                ),
        decreases entries@.len() - i,
    {
        let name = entries[i].name.clone();
        let ghost before = places@;
        let ghost t = es.take(i as int);
        let ghost u = es.take(i + 1);
        let ghost key = sort_key(es[i as int]);
        places.insert((text::lower_string(name.as_str()), name), i);
        proof {
            assert(u.drop_last() =~= t);
            assert(u.last() == es[i as int]);
            assert forall|k: (Seq<char>, Seq<char>)| #[trigger]
                places@.contains_key(k) <==> sort_keys(u).contains(k) by {
                assert(before.contains_key(k) <==> sort_keys(t).contains(k));
                if sort_keys(t).contains(k) {
                    let j = choose|j: int| 0 <= j < t.len() && sort_key(#[trigger] t[j]) == k;
                    assert(sort_key(u[j]) == k);
                }
                if k == key {
                    assert(sort_key(u[i as int]) == k);
                }
                if sort_keys(u).contains(k) && k != key {
                    let j = choose|j: int| 0 <= j < u.len() && sort_key(#[trigger] u[j]) == k;
                    assert(sort_key(t[j]) == k);
                }
            }
            assert forall|k: (Seq<char>, Seq<char>)| #[trigger]
                places@.contains_key(k) implies places@[k] < i + 1 && es[places@[k] as int]
                == entry_for(u, k) by {
                if k != key {
                    assert(before.contains_key(k));
                }
            }
        }
        i = i + 1;
    }
    let n = places.len();
    let ghost order = places.keys();
    proof {
        assert(es.take(i as int) =~= es);
        assert forall|k: (Seq<char>, Seq<char>)| #[trigger]
            sort_keys(es).contains(k) <==> order.contains(k) by {
            assert(places@.contains_key(k) <==> order.contains(k));
        }
        sorted_map::lemma_in_order::<(String, String)>(order, sort_keys(es));
    }
    let ghost want = torrent_order(es);
    let mut r: Vec<NewEntry> = Vec::new();
    let mut j: usize = 0;
    proof {
        assert(r.deep_view() =~= want.take(0));
    }
    while j < n
        invariant
            j <= n,
            n == order.len(),
            order == places.keys(),
            es == entries.deep_view(),
            want == torrent_order(es),
            want == order.map_values(|k: (Seq<char>, Seq<char>)| entry_for(es, k)),
            places.linked(),
            forall|k: (Seq<char>, Seq<char>)| #[trigger]
                places@.contains_key(k) ==> places@[k] < entries@.len() && es[places@[k] as int]
                    == entry_for(es, k),
            r.deep_view() == want.take(j as int),
        decreases n - j,
    {
        let at: usize = *places.value_at(j);
        let ghost had = r.deep_view();
        proof {
            assert(places@.contains_key(order[j as int]));
            assert(at == places@[order[j as int]]);
        }
        let e = &entries[at];
        r.push(NewEntry { name: e.name.clone(), data: clone_bytes(&e.data) });
        j = j + 1;
        proof {
            assert(r.deep_view() =~= had.push(want[j - 1]));
            assert(r.deep_view() =~= want.take(j as int));
        }
    }
    proof {
        assert(want.take(j as int) =~= want);
    }
    r
}

/// The date and the compression level of every entry.
fn settings(style: ZipStyle) -> (r: (ZipStamp, i64))
    ensures
        r == (stamp_for(style), level_for(style)),
        storable(r.0),
{
    match style {
        ZipStyle::Plain => ((1980, 1, 1, 0, 0, 0), 6),
        ZipStyle::Torrent => ((1996, 12, 24, 23, 32, 0), 9),
    }
}

/// Writes a ZIP archive with entries as they come.
fn write_in_order(entries: &Vec<NewEntry>, style: ZipStyle) -> (r: Result<Vec<u8>, WriteFault>)
    ensures
        match r {
            Ok(bytes) => zip_of(bytes@, entries.deep_view(), style),
            Err(fault) => refuses(entries.deep_view(), style, fault),
        },
{
    let ghost es = entries.deep_view();
    let ghost all = written_as(es, style);
    let (stamp, level) = settings(style);
    let mut w = zip_new();
    let mut i: usize = 0;
    proof {
        assert(zip_written(w) =~= all.take(0));
    }
    while i < entries.len()
        invariant
            i <= entries@.len(),
            es == entries.deep_view(),
            all == written_as(es, style),
            stamp == stamp_for(style) && level == level_for(style),
            zip_written(w) == all.take(i as int),
            names_distinct(es.take(i as int)),
            forall|j: int| 0 <= j < i ==> #[trigger] addable(es, style, j),
        decreases entries@.len() - i,
    {
        let e = &entries[i];
        let ghost before = zip_written(w);
        proof {
            assert(es[i as int].name == e.name@);
            assert(es[i as int].data == e.data@);
            assert(written_as(es.take(i as int), style) =~= all.take(i as int));
        }
        let chars = text::chars_of(e.name.as_str());
        if !text::utf8_at_most(chars.as_slice(), 65535) {
            assert(!addable(es, style, i as int));
            return Err(WriteFault::Add(e.name.clone()));
        }
        let begun = match zip_start_file(w, e.name.as_str(), level, stamp) {
            Ok(begun) => begun,
            Err(_) => {
                assert(!addable(es, style, i as int));
                return Err(WriteFault::Add(e.name.clone()));
            },
        };
        proof {
            assert forall|a: int, b: int| 0 <= a < b < i + 1 implies (#[trigger] es.take(
                i + 1,
            )[a]).name != (#[trigger] es.take(i + 1)[b]).name by {
                if b == i {
                    assert(before[a].0 == es[a].name);
                } else {
                    assert(es.take(i as int)[a].name != es.take(i as int)[b].name);
                }
            }
        }
        w = match zip_write_all(begun, e.data.as_slice()) {
            Ok(next) => next,
            Err(_) => {
                assert(!addable(es, style, i as int));
                return Err(WriteFault::Add(e.name.clone()));
            },
        };
        i = i + 1;
        proof {
            assert(addable(es, style, i - 1));
            assert(zip_written(w) =~= all.take(i as int));
        }
    }
    proof {
        assert(es.take(i as int) =~= es);
        assert(all.take(i as int) =~= all);
    }
    match zip_finish(w) {
        Ok(bytes) => Ok(bytes),
        Err(_) => Err(WriteFault::Finish),
    }
}

/// Whether bytes are the ZIP archive of some entries, in order, in a style: they
/// are as written, and, within bounds, reading them gives back every entry.
pub open spec fn zip_of(bytes: Seq<u8>, entries: Seq<EntryView>, style: ZipStyle) -> bool {
    &&& writable(entries, style)
    &&& zip_image(written_as(entries, style)) == Some(bytes)
    &&& zip_reads_back(entries.len(), bytes.len()) ==> zip_holds(bytes, entries, stamp_for(style))
    &&& names_distinct(entries)
}

/// Writes a ZIP archive, of the entries in the order, with the date and at the
/// compression level that the style wants. Succeeds where every entry can be added
/// and the archive finished, and else says what could not be done first.
pub fn write_zip(entries: &Vec<NewEntry>, style: ZipStyle) -> (r: Result<Vec<u8>, WriteFault>)
    ensures
        r is Ok <==> writable(laid_out(entries.deep_view(), style), style),
        match r {
            Ok(bytes) => zip_of(bytes@, laid_out(entries.deep_view(), style), style),
            Err(fault) => refuses(laid_out(entries.deep_view(), style), style, fault),
        },
{
    match style {
        ZipStyle::Plain => write_in_order(entries, style),
        ZipStyle::Torrent => {
            let sorted = sort_entries(entries);
            write_in_order(&sorted, style)
        },
    }
}

/// Whether a 7z archive can be told to hold some entries: there are some, with
/// distinct names that hold no NUL.
pub open spec fn seven_plain(entries: Seq<EntryView>) -> bool {
    entries.len() > 0 && names_distinct(entries) && forall|i: int|
        0 <= i < entries.len() ==> !(#[trigger] entries[i]).name.contains('\0')
}

/// Whether bytes are the 7z archive of some entries, in order: they are as written,
/// and, within bounds, reading them gives back every entry where the entries are
/// plain.
pub open spec fn seven_of(bytes: Seq<u8>, entries: Seq<EntryView>) -> bool {
    &&& seven_writable(entries)
    &&& seven_image(pushed_as(entries)) == Some(bytes)
    &&& seven_reads_back(bytes.len()) && seven_plain(entries) ==> seven_holds(bytes, entries)
}

/// Writes a 7z archive. Succeeds where every entry can be added and the archive
/// finished, and else says what could not be done first.
pub fn write_7z(entries: &Vec<NewEntry>) -> (r: Result<Vec<u8>, WriteFault>)
    ensures
        r is Ok <==> seven_writable(entries.deep_view()),
        match r {
            Ok(bytes) => seven_of(bytes@, entries.deep_view()),
            Err(fault) => seven_refuses(entries.deep_view(), fault),
        },
{
    let ghost es = entries.deep_view();
    let ghost all = pushed_as(es);
    let mut w = match seven_new() {
        Ok(w) => w,
        Err(_) => {
            return Err(WriteFault::Create);
        },
    };
    let mut i: usize = 0;
    proof {
        assert(seven_written(w) =~= all.take(0));
    }
    while i < entries.len()
        invariant
            i <= entries@.len(),
            es == entries.deep_view(),
            all == pushed_as(es),
            seven_written(w) == all.take(i as int),
            forall|j: int| 0 <= j < i ==> #[trigger] seven_addable(es, j),
        decreases entries@.len() - i,
    {
        let e = &entries[i];
        proof {
            assert(es[i as int].name == e.name@);
            assert(es[i as int].data == e.data@);
            assert(pushed_as(es.take(i as int)) =~= all.take(i as int));
        }
        w = match seven_push(w, e.name.as_str(), e.data.as_slice()) {
            Ok(next) => next,
            Err(_) => {
                assert(!seven_addable(es, i as int));
                return Err(WriteFault::Add(e.name.clone()));
            },
        };
        i = i + 1;
        proof {
            assert(seven_addable(es, i - 1));
            assert(seven_written(w) =~= all.take(i as int));
        }
    }
    proof {
        assert(all.take(i as int) =~= all);
        if seven_plain(es) {
            assert forall|a: int, b: int| 0 <= a < b < all.len() implies (#[trigger] all[a]).0 != (
            #[trigger] all[b]).0 by {
                assert(es[a].name != es[b].name);
            }
            assert forall|a: int| 0 <= a < all.len() implies !(#[trigger] all[a]).0.contains(
                '\0',
            ) by {
                assert(!es[a].name.contains('\0'));
            }
        }
    }
    match seven_finish(w) {
        Ok(bytes) => Ok(bytes),
        Err(_) => Err(WriteFault::Finish),
    }
}

// ---------------------------------------------------------------------------
// Reading
// ---------------------------------------------------------------------------

/// Why an entry cannot be read.
#[derive(Clone, Copy, Debug, PartialEq, Eq, Structural)]
pub enum ReadFault {
    /// The bytes are no archive of the kind
    Unreadable,
    /// No entry has the name
    NotFound,
    /// The entry is there but cannot be opened
    EntryUnreadable,
    /// The content cannot be unpacked: that of the entry, or, of a 7z archive, that
    /// of any entry
    Damaged,
    /// The entry is a directory
    NotAFile,
}

/// The first entry of a ZIP archive with a name.
pub open spec fn zip_place(
    items: Seq<(Option<Seq<char>>, Option<Option<Seq<u8>>>, Option<ZipStamp>)>,
    name: Seq<char>,
) -> Option<int>
    decreases items.len(),
{
    if items.len() == 0 {
        None
    } else {
        match zip_place(items.drop_last(), name) {
            Some(i) => Some(i),
            None => if items.last().0 == Some(name) {
                Some(items.len() - 1)
            } else {
                None
            },
        }
    }
}

/// What reading an entry of a ZIP archive by name gives.
pub open spec fn zip_entry(bytes: Seq<u8>, name: Seq<char>) -> Result<Seq<u8>, ReadFault> {
    match zip_contents(bytes) {
        None => Err(ReadFault::Unreadable),
        Some(items) => match zip_place(items, name) {
            None => Err(ReadFault::NotFound),
            Some(i) => match items[i].1 {
                Some(Some(data)) => Ok(data),
                Some(None) => Err(ReadFault::Damaged),
                None => Err(ReadFault::EntryUnreadable),
            },
        },
    }
}

/// The first entry of a 7z archive with a name.
pub open spec fn seven_place(items: Seq<(Seq<char>, Option<Seq<u8>>, bool)>, name: Seq<char>) -> Option<
    int,
>
    decreases items.len(),
{
    if items.len() == 0 {
        None
    } else {
        match seven_place(items.drop_last(), name) {
            Some(i) => Some(i),
            None => if items.last().0 == name {
                Some(items.len() - 1)
            } else {
                None
            },
        }
    }
}

/// A name with either separator written as `/`.
pub open spec fn slashed(name: Seq<char>) -> Seq<char> {
    name.map_values(
        |c: char|
            if c == '\\' {
                '/'
            } else {
                c
            },
    )
}

/// The components that a name leads through, from wherever it is unpacked.
pub open spec fn steps(name: Seq<char>) -> Seq<Seq<char>> {
    text::split(slashed(name), '/').filter(|p: Seq<char>| p.len() > 0 && p != seq!['.'])
}

/// Whether a name leads to a place below wherever it is unpacked: it is not
/// absolute, does not climb, and a file's names some component.
pub open spec fn unpacks_below(name: Seq<char>, is_dir: bool) -> bool {
    let path = slashed(name);
    &&& !(path.len() > 0 && path[0] == '/')
    &&& !steps(name).contains(seq!['.', '.'])
    &&& is_dir || steps(name).len() > 0
}

/// Whether the way to `b` leads on from `a`.
pub open spec fn leads_on(a: Seq<Seq<char>>, b: Seq<Seq<char>>) -> bool {
    a.len() < b.len() && b.take(a.len() as int) == a
}

/// Whether names, some of them directories', all unpack below one place, no way
/// leading on from a file.
pub open spec fn all_unpack_below(names: Seq<Seq<char>>, dirs: Seq<bool>) -> bool {
    &&& forall|i: int| 0 <= i < names.len() ==> unpacks_below(#[trigger] names[i], dirs[i])
    &&& forall|i: int, j: int|
        0 <= i < names.len() && 0 <= j < names.len() && !dirs[i] ==> !leads_on(
            steps(#[trigger] names[i]),
            steps(#[trigger] names[j]),
        )
}

/// Whether names of files all unpack below one place.
pub open spec fn files_unpack_below(names: Seq<Seq<char>>) -> bool {
    all_unpack_below(names, Seq::new(names.len(), |i: int| false))
}

/// Whether a file is found under its name once it is unpacked: the name holds no
/// backslash and does not end as that of a folder does.
pub open spec fn found_as_named(name: Seq<char>) -> bool {
    let n = name.len();
    &&& !name.contains('\\')
    &&& !(n > 0 && name[n - 1] == '/')
    &&& !(n >= 2 && name[n - 1] == '.' && name[n - 2] == '/')
}

/// Whether every entry of a 7z archive can be unpacked, below one place.
pub open spec fn all_unpack(items: Seq<(Seq<char>, Option<Seq<u8>>, bool)>) -> bool {
    &&& forall|i: int| 0 <= i < items.len() ==> (#[trigger] items[i]).1 is Some
    &&& all_unpack_below(
        Seq::new(items.len(), |i: int| items[i].0),
        Seq::new(items.len(), |i: int| items[i].2),
    )
}

/// What reading an entry of a 7z archive by name gives. The archive is unpacked
/// whole, so that any entry that is damaged or leads elsewhere fails it. Entries are
/// told apart by their names: that two names lead to one place is not looked at.
pub open spec fn seven_entry(bytes: Seq<u8>, name: Seq<char>) -> Result<Seq<u8>, ReadFault> {
    match seven_contents(bytes) {
        None => Err(ReadFault::Unreadable),
        Some(items) => match seven_place(items, name) {
            None => Err(ReadFault::NotFound),
            Some(i) => if !all_unpack(items) {
                Err(ReadFault::Damaged)
            } else if name.contains('\\') || (!items[i].2 && !found_as_named(name)) {
                Err(ReadFault::EntryUnreadable)
            } else if items[i].2 {
                Err(ReadFault::NotAFile)
            } else {
                Ok(items[i].1->0)
            },
        },
    }
}

proof fn lemma_zip_place(
    items: Seq<(Option<Seq<char>>, Option<Option<Seq<u8>>>, Option<ZipStamp>)>,
    name: Seq<char>,
    n: int,
)
    requires
        0 <= n <= items.len(),
        zip_place(items.take(n), name) is Some,
    ensures
        zip_place(items, name) == zip_place(items.take(n), name),
    decreases items.len(),
{
    if n == items.len() {
        assert(items.take(n) =~= items);
    } else {
        assert(items.drop_last().take(n) =~= items.take(n));
        lemma_zip_place(items.drop_last(), name, n);
    }
}

proof fn lemma_seven_place(
    items: Seq<(Seq<char>, Option<Seq<u8>>, bool)>,
    name: Seq<char>,
    n: int,
)
    requires
        0 <= n <= items.len(),
        seven_place(items.take(n), name) is Some,
    ensures
        seven_place(items, name) == seven_place(items.take(n), name),
    decreases items.len(),
{
    if n == items.len() {
        assert(items.take(n) =~= items);
    } else {
        assert(items.drop_last().take(n) =~= items.take(n));
        lemma_seven_place(items.drop_last(), name, n);
    }
}

/// An entry whose name climbs, is absolute or names nothing is never unpacked, whatever
/// separator it is written with, and it keeps the whole archive from being read.
pub proof fn law_climbing_entries_are_never_unpacked(
    bytes: Seq<u8>,
    name: Seq<char>,
    items: Seq<(Seq<char>, Option<Seq<u8>>, bool)>,
    i: int,
)
    requires
        seven_contents(bytes) == Some(items),
        0 <= i < items.len(),
        ({
            let n = items[i].0;
            ||| items[i].1 is None
            ||| n.len() > 0 && (n[0] == '/' || n[0] == '\\')
            ||| text::split(slashed(n), '/').contains(seq!['.', '.'])
            ||| n.len() == 0 && !items[i].2
        }),
    ensures
        seven_entry(bytes, name) is Err,
{
    let n = items[i].0;
    let keep = |p: Seq<char>| p.len() > 0 && p != seq!['.'];
    crate::seqs::lemma_filter_members(text::split(slashed(n), '/'), keep);
    if text::split(slashed(n), '/').contains(seq!['.', '.']) {
        let up = seq!['.', '.'];
        assert(up.len() == 2 && seq!['.'].len() == 1);
        assert(keep(up));
        assert(steps(n).contains(up));
    }
    if n.len() == 0 {
        assert(slashed(n) =~= Seq::<char>::empty());
        text::lemma_first_index(slashed(n), '/');
        assert(text::split(slashed(n), '/') =~= seq![slashed(n)]);
        if steps(n).len() > 0 {
            let p = steps(n)[0];
            assert(steps(n).contains(p));
            assert(text::split(slashed(n), '/').contains(p));
            assert(p.len() > 0);
        }
    }
    let names = Seq::new(items.len(), |k: int| items[k].0);
    let dirs = Seq::new(items.len(), |k: int| items[k].2);
    if all_unpack(items) {
        assert(unpacks_below(names[i], dirs[i]));
        assert(items[i].1 is Some);
    }
}

/// The first entry with a name is the one that is read, from a ZIP archive as from a
/// 7z archive, and a name that no entry has is not found.
pub proof fn law_first_entry_of_a_name_is_read(
    zip: Seq<(Option<Seq<char>>, Option<Option<Seq<u8>>>, Option<ZipStamp>)>,
    seven: Seq<(Seq<char>, Option<Seq<u8>>, bool)>,
    name: Seq<char>,
)
    ensures
        zip_place(zip, name) matches Some(i) ==> 0 <= i < zip.len() && zip[i].0 == Some(name)
            && forall|j: int| 0 <= j < i ==> (#[trigger] zip[j]).0 != Some(name),
        zip_place(zip, name) is None ==> forall|j: int|
            0 <= j < zip.len() ==> (#[trigger] zip[j]).0 != Some(name),
        seven_place(seven, name) matches Some(i) ==> 0 <= i < seven.len() && seven[i].0 == name
            && forall|j: int| 0 <= j < i ==> (#[trigger] seven[j]).0 != name,
        seven_place(seven, name) is None ==> forall|j: int|
            0 <= j < seven.len() ==> (#[trigger] seven[j]).0 != name,
    decreases zip.len() + seven.len(),
{
    if zip.len() > 0 {
        let rest = zip.drop_last();
        law_first_entry_of_a_name_is_read(rest, seven, name);
        assert(forall|j: int| 0 <= j < rest.len() ==> rest[j] == #[trigger] zip[j]);
    } else if seven.len() > 0 {
        let rest = seven.drop_last();
        law_first_entry_of_a_name_is_read(zip, rest, name);
        assert(forall|j: int| 0 <= j < rest.len() ==> rest[j] == #[trigger] seven[j]);
    }
}

/// Reads an entry of a ZIP archive by name, comparing names as they are decoded.
pub fn read_zip_entry(bytes: Vec<u8>, name: &str) -> (r: Result<Vec<u8>, ReadFault>)
    ensures
        match r {
            Ok(data) => zip_entry(bytes@, name@) == Ok::<Seq<u8>, ReadFault>(data@),
            Err(fault) => zip_entry(bytes@, name@) == Err::<Seq<u8>, ReadFault>(fault),
        },
{
    let ghost all = bytes@;
    let mut a = match zip_open(bytes) {
        Ok(a) => a,
        Err(_) => {
            return Err(ReadFault::Unreadable);
        },
    };
    let ghost items = zip_items(a);
    let n = zip_len(&a);
    let mut i: usize = 0;
    while i < n
        invariant
            i <= n,
            n == items.len(),
            zip_items(a) == items,
            all == bytes@,
            zip_contents(all) == Some(items),
            zip_place(items.take(i as int), name@) is None,
        decreases n - i,
    {
        proof {
            assert(items.take(i + 1).drop_last() =~= items.take(i as int));
        }
        let found = match zip_name(&mut a, i) {
            Ok(entry_name) => text::str_eq(entry_name.as_str(), name),
            Err(_) => false,
        };
        if found {
            proof {
                lemma_zip_place(items, name@, i + 1);
            }
            return match zip_read(&mut a, i) {
                Ok(Some(data)) => Ok(data),
                Ok(None) => Err(ReadFault::Damaged),
                Err(_) => Err(ReadFault::EntryUnreadable),
            };
        }
        i = i + 1;
    }
    proof {
        assert(items.take(i as int) =~= items);
    }
    Err(ReadFault::NotFound)
}

/// A name with either separator written as `/`.
fn slash_string(name: &str) -> (r: String)
    ensures
        r@ == slashed(name@),
{
    let chars = text::chars_of(name);
    let mut r = String::new();
    let mut i: usize = 0;
    proof {
        assert(r@ =~= slashed(name@).take(0));
    }
    while i < chars.len()
        invariant
            i <= chars@.len(),
            chars@ == name@,
            r@ == slashed(name@).take(i as int),
        decreases chars@.len() - i,
    {
        let c = chars[i];
        r.push(
            if c == '\\' {
                '/'
            } else {
                c
            },
        );
        i = i + 1;
        proof {
            assert(r@ =~= slashed(name@).take(i as int));
        }
    }
    proof {
        assert(slashed(name@).take(i as int) =~= slashed(name@));
    }
    r
}

/// The components that a name leads through.
fn steps_of(name: &str) -> (r: Vec<String>)
    ensures
        r.deep_view() == steps(name@),
{
    let path = slash_string(name);
    let parts = text::split_string(path.as_str(), '/');
    let ghost all = parts.deep_view();
    let ghost keep = |p: Seq<char>| p.len() > 0 && p != seq!['.'];
    let mut r: Vec<String> = Vec::new();
    let mut i: usize = 0;
    proof {
        reveal(Seq::filter);
        assert(r.deep_view() =~= all.take(0).filter(keep));
    }
    while i < parts.len()
        invariant
            i <= parts@.len(),
            all == parts.deep_view(),
            keep == (|p: Seq<char>| p.len() > 0 && p != seq!['.']),
            r.deep_view() == all.take(i as int).filter(keep),
        decreases parts@.len() - i,
    {
        let chars = text::chars_of(parts[i].as_str());
        let ghost before = r.deep_view();
        proof {
            assert(all[i as int] == parts@[i as int]@);
            assert(all.take(i + 1).drop_last() =~= all.take(i as int));
            reveal(Seq::filter);
            if chars@.len() == 1 && chars@[0] == '.' {
                assert(all[i as int] =~= seq!['.']);
            }
            if all[i as int] == seq!['.'] {
                assert(chars@.len() == 1 && chars@[0] == '.');
            }
        }
        if chars.len() > 0 && !(chars.len() == 1 && chars[0] == '.') {
            r.push(parts[i].clone());
            proof {
                assert(r.deep_view() =~= before.push(all[i as int]));
            }
        }
        i = i + 1;
    }
    proof {
        assert(all.take(i as int) =~= all);
    }
    r
}

/// Whether a name leads to a place below wherever it is unpacked.
fn leads_below(name: &str, way: &Vec<String>, is_dir: bool) -> (r: bool)
    requires
        way.deep_view() == steps(name@),
    ensures
        r == unpacks_below(name@, is_dir),
{
    let path = slash_string(name);
    let chars = text::chars_of(path.as_str());
    if chars.len() > 0 && chars[0] == '/' {
        return false;
    }
    let mut i: usize = 0;
    while i < way.len()
        invariant
            i <= way@.len(),
            way.deep_view() == steps(name@),
            forall|j: int| 0 <= j < i ==> (#[trigger] way.deep_view()[j]) != seq!['.', '.'],
        decreases way@.len() - i,
    {
        let part = text::chars_of(way[i].as_str());
        proof {
            assert(way.deep_view()[i as int] == way@[i as int]@);
            if way.deep_view()[i as int] == seq!['.', '.'] {
                assert(part@.len() == 2 && part@[0] == '.' && part@[1] == '.');
            }
        }
        if part.len() == 2 && part[0] == '.' && part[1] == '.' {
            proof {
                assert(way.deep_view()[i as int] =~= seq!['.', '.']);
            }
            return false;
        }
        i = i + 1;
    }
    is_dir || way.len() > 0
}

/// Whether the way to `b` leads on from `a`.
fn goes_on(a: &Vec<String>, b: &Vec<String>) -> (r: bool)
    ensures
        r == leads_on(a.deep_view(), b.deep_view()),
{
    if a.len() >= b.len() {
        return false;
    }
    let ghost x = a.deep_view();
    let ghost y = b.deep_view().take(a@.len() as int);
    let mut i: usize = 0;
    while i < a.len()
        invariant
            i <= a@.len(),
            a@.len() < b@.len(),
            x == a.deep_view(),
            y == b.deep_view().take(a@.len() as int),
            forall|j: int| 0 <= j < i ==> x[j] == y[j],
        decreases a@.len() - i,
    {
        if !text::str_eq(a[i].as_str(), b[i].as_str()) {
            assert(x[i as int] != y[i as int]);
            return false;
        }
        i = i + 1;
    }
    assert(x =~= y);
    true
}

/// Whether the entries of a 7z archive all unpack below one place.
fn entries_unpack_below(a: &SevenZipInput) -> (r: bool)
    ensures
        r == all_unpack_below(
            Seq::new(seven_items(*a).len(), |i: int| seven_items(*a)[i].0),
            Seq::new(seven_items(*a).len(), |i: int| seven_items(*a)[i].2),
        ),
{
    let ghost items = seven_items(*a);
    let ghost names = Seq::new(items.len(), |i: int| items[i].0);
    let ghost kinds = Seq::new(items.len(), |i: int| items[i].2);
    let n = seven_len(a);
    let mut ways: Vec<Vec<String>> = Vec::new();
    let mut dirs: Vec<bool> = Vec::new();
    let mut i: usize = 0;
    while i < n
        invariant
            i <= n,
            n == items.len(),
            items == seven_items(*a),
            names == Seq::new(items.len(), |i: int| items[i].0),
            kinds == Seq::new(items.len(), |i: int| items[i].2),
            ways@.len() == i,
            dirs@.len() == i,
            forall|j: int|
                0 <= j < i ==> (#[trigger] ways@[j]).deep_view() == steps(names[j]),
            forall|j: int| 0 <= j < i ==> #[trigger] dirs@[j] == kinds[j],
            forall|j: int| 0 <= j < i ==> unpacks_below(#[trigger] names[j], kinds[j]),
        decreases n - i,
    {
        let name = seven_name(a, i);
        let is_dir = seven_is_dir(a, i);
        let way = steps_of(name.as_str());
        assert(names[i as int] == name@ && kinds[i as int] == is_dir);
        if !leads_below(name.as_str(), &way, is_dir) {
            return false;
        }
        ways.push(way);
        dirs.push(is_dir);
        i = i + 1;
    }
    let mut k: usize = 0;
    while k < n
        invariant
            k <= n,
            n == items.len(),
            names == Seq::new(items.len(), |i: int| items[i].0),
            kinds == Seq::new(items.len(), |i: int| items[i].2),
            items == seven_items(*a),
            ways@.len() == n,
            dirs@.len() == n,
            forall|j: int|
                0 <= j < n ==> (#[trigger] ways@[j]).deep_view() == steps(names[j]),
            forall|j: int| 0 <= j < n ==> #[trigger] dirs@[j] == kinds[j],
            forall|x: int, y: int|
                0 <= x < k && 0 <= y < names.len() && !kinds[x] ==> !leads_on(
                    steps(#[trigger] names[x]),
                    steps(#[trigger] names[y]),
                ),
        decreases n - k,
    {
        if !dirs[k] {
            let mut m: usize = 0;
            while m < n
                invariant
                    m <= n,
                    k < n,
                    n == items.len(),
                    names == Seq::new(items.len(), |i: int| items[i].0),
                    kinds == Seq::new(items.len(), |i: int| items[i].2),
                    items == seven_items(*a),
                    ways@.len() == n,
                    !kinds[k as int],
                    forall|j: int|
                        0 <= j < n ==> (#[trigger] ways@[j]).deep_view() == steps(names[j]),
                    forall|y: int|
                        0 <= y < m ==> !leads_on(steps(names[k as int]), steps(#[trigger] names[y])),
                decreases n - m,
            {
                if goes_on(&ways[k], &ways[m]) {
                    assert(leads_on(steps(names[k as int]), steps(names[m as int])));
                    return false;
                }
                m = m + 1;
            }
        }
        k = k + 1;
    }
    true
}

/// Whether a file is found under its name once it is unpacked.
fn stays_as_named(name: &str) -> (r: bool)
    ensures
        r == found_as_named(name@),
{
    let chars = text::chars_of(name);
    let n: usize = chars.len();
    !text::contains_char(name, '\\') && !(n > 0 && chars[n - 1] == '/') && !(n >= 2 && chars[n - 1]
        == '.' && chars[n - 2] == '/')
}

/// Unpacks every entry of a 7z archive, and gives the content of one.
fn unpack_7z(input: SevenZipInput, name: &str, at: usize) -> (r: Result<Vec<u8>, ReadFault>)
    requires
        at < seven_items(input).len(),
    ensures
        ({
            let items = seven_items(input);
            match r {
                Ok(data) => all_unpack(items) && found_as_named(name@) && !items[at as int].2
                    && items[at as int].1 == Some(data@),
                Err(ReadFault::Damaged) => !all_unpack(items),
                Err(ReadFault::EntryUnreadable) => all_unpack(items) && (name@.contains('\\') || (
                !items[at as int].2 && !found_as_named(name@))),
                Err(ReadFault::NotAFile) => all_unpack(items) && items[at as int].2
                    && !name@.contains('\\'),
                Err(_) => false,
            }
        }),
{
    let ghost items = seven_items(input);
    let mut a = input;
    let n = seven_len(&a);
    let mut wanted: Vec<u8> = Vec::new();
    let mut i: usize = 0;
    if !entries_unpack_below(&a) {
        return Err(ReadFault::Damaged);
    }
    while i < n
        invariant
            i <= n,
            n == items.len(),
            seven_items(a) == items,
            items == seven_items(input),
            forall|j: int| 0 <= j < i ==> (#[trigger] items[j]).1 is Some,
            at < i ==> items[at as int].1 == Some(wanted@),
        decreases n - i,
    {
        let entry_name = seven_name(&a, i);
        match seven_read(&mut a, entry_name.as_str()) {
            Ok(data) => {
                if i == at {
                    wanted = data;
                }
            },
            Err(_) => {
                assert(items[i as int].1 is None);
                return Err(ReadFault::Damaged);
            },
        }
        i = i + 1;
    }
    let is_dir = seven_is_dir(&a, at);
    if text::contains_char(name, '\\') || (!is_dir && !stays_as_named(name)) {
        Err(ReadFault::EntryUnreadable)
    } else if is_dir {
        Err(ReadFault::NotAFile)
    } else {
        Ok(wanted)
    }
}

/// Reads an entry of a 7z archive by name.
pub fn read_7z_entry(bytes: Vec<u8>, name: &str) -> (r: Result<Vec<u8>, ReadFault>)
    ensures
        match r {
            Ok(data) => seven_entry(bytes@, name@) == Ok::<Seq<u8>, ReadFault>(data@),
            Err(fault) => seven_entry(bytes@, name@) == Err::<Seq<u8>, ReadFault>(fault),
        },
{
    let ghost all = bytes@;
    let a = match seven_open(bytes) {
        Ok(a) => a,
        Err(_) => {
            return Err(ReadFault::Unreadable);
        },
    };
    let ghost items = seven_items(a);
    let n = seven_len(&a);
    let mut i: usize = 0;
    while i < n
        invariant
            i <= n,
            n == items.len(),
            seven_items(a) == items,
            all == bytes@,
            seven_contents(all) == Some(items),
            seven_place(items.take(i as int), name@) is None,
        decreases n - i,
    {
        proof {
            assert(items.take(i + 1).drop_last() =~= items.take(i as int));
        }
        let entry_name = seven_name(&a, i);
        if text::str_eq(entry_name.as_str(), name) {
            proof {
                lemma_seven_place(items, name@, i + 1);
            }
            return unpack_7z(a, name, i);
        }
        i = i + 1;
    }
    proof {
        assert(items.take(i as int) =~= items);
    }
    Err(ReadFault::NotFound)
}

/// What was written to a ZIP archive is read back from it, entry by entry.
pub proof fn law_zip_gives_back_what_it_holds(
    bytes: Seq<u8>,
    entries: Seq<EntryView>,
    stamp: ZipStamp,
    i: int,
)
    requires
        zip_holds(bytes, entries, stamp),
        names_distinct(entries),
        0 <= i < entries.len(),
    ensures
        zip_entry(bytes, entries[i].name) == Ok::<Seq<u8>, ReadFault>(entries[i].data),
{
    let items = zip_contents(bytes)->0;
    lemma_zip_unique(items, entries, i);
}

proof fn lemma_zip_unique(
    items: Seq<(Option<Seq<char>>, Option<Option<Seq<u8>>>, Option<ZipStamp>)>,
    entries: Seq<EntryView>,
    i: int,
)
    requires
        items.len() == entries.len(),
        names_distinct(entries),
        0 <= i < entries.len(),
        forall|j: int| 0 <= j < items.len() ==> (#[trigger] items[j]).0 == Some(entries[j].name),
    ensures
        zip_place(items, entries[i].name) == Some(i),
    decreases items.len(),
{
    let n = items.len() - 1;
    if i < n {
        assert forall|a: int, b: int| 0 <= a < b < n implies (#[trigger] entries.drop_last()[a]).name
            != (#[trigger] entries.drop_last()[b]).name by {
            assert(entries[a].name != entries[b].name);
        }
        lemma_zip_unique(items.drop_last(), entries.drop_last(), i);
    } else {
        lemma_zip_absent(items.drop_last(), entries[i].name, entries);
    }
}

proof fn lemma_zip_absent(
    items: Seq<(Option<Seq<char>>, Option<Option<Seq<u8>>>, Option<ZipStamp>)>,
    name: Seq<char>,
    entries: Seq<EntryView>,
)
    requires
        items.len() < entries.len(),
        names_distinct(entries),
        name == entries[items.len() as int].name || exists|k: int|
            items.len() < k < entries.len() && name == (#[trigger] entries[k]).name,
        forall|j: int| 0 <= j < items.len() ==> (#[trigger] items[j]).0 == Some(entries[j].name),
    ensures
        zip_place(items, name) is None,
    decreases items.len(),
{
    if items.len() > 0 {
        let n = items.len() - 1;
        if name == entries[n + 1].name {
            assert(entries[n].name != entries[n + 1].name);
            assert(n < n + 1 < entries.len() && name == entries[n + 1].name);
        } else {
            let k = choose|k: int|
                items.len() < k < entries.len() && name == (#[trigger] entries[k]).name;
            assert(entries[n].name != entries[k].name);
        }
        assert(items.last() == items[n]);
        lemma_zip_absent(items.drop_last(), name, entries);
    }
}

/// What was written to a 7z archive is read back from it, entry by entry, where
/// the names unpack below one place and the entry's is kept.
pub proof fn law_7z_gives_back_what_it_holds(bytes: Seq<u8>, entries: Seq<EntryView>, i: int)
    requires
        seven_holds(bytes, entries),
        names_distinct(entries),
        files_unpack_below(Seq::new(entries.len(), |k: int| entries[k].name)),
        0 <= i < entries.len(),
        found_as_named(entries[i].name),
    ensures
        seven_entry(bytes, entries[i].name) == Ok::<Seq<u8>, ReadFault>(entries[i].data),
{
    let items = seven_contents(bytes)->0;
    let as_zip = Seq::new(
        items.len(),
        |j: int| (Some(items[j].0), Some(items[j].1), None::<ZipStamp>),
    );
    lemma_zip_unique(as_zip, entries, i);
    lemma_places_agree(items, as_zip, entries[i].name);
    assert(Seq::new(items.len(), |k: int| items[k].0) =~= Seq::new(
        entries.len(),
        |k: int| entries[k].name,
    ));
    assert(Seq::new(items.len(), |k: int| items[k].2) =~= Seq::new(entries.len(), |k: int| false));
}

proof fn lemma_places_agree(
    items: Seq<(Seq<char>, Option<Seq<u8>>, bool)>,
    as_zip: Seq<(Option<Seq<char>>, Option<Option<Seq<u8>>>, Option<ZipStamp>)>,
    name: Seq<char>,
)
    requires
        items.len() == as_zip.len(),
        forall|j: int| 0 <= j < items.len() ==> (#[trigger] as_zip[j]).0 == Some(items[j].0),
    ensures
        seven_place(items, name) == zip_place(as_zip, name),
    decreases items.len(),
{
    if items.len() > 0 {
        lemma_places_agree(items.drop_last(), as_zip.drop_last(), name);
        assert(as_zip[items.len() - 1].0 == Some(items[items.len() - 1].0));
    }
}

} // verus!
