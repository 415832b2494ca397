//! The quarantine: files removed from their destinations but not yet deleted.

use crate::text;
use vstd::prelude::*;

verus! {

/// Reason why a file was quarantined.
#[derive(Clone, Copy, Debug, PartialEq, Eq, Structural)]
pub enum QuarantineReason {
    /// File exists in the old DAT but not the new one
    SetRemoved,
    /// File would be overwritten with different content
    ContentChanged,
    /// File is no longer needed at its current location
    PathChanged,
    /// Content is already held at its canonical destination by another copy
    Duplicate,
}

/// The stored form of a reason.
pub open spec fn reason_text(r: QuarantineReason) -> Seq<char> {
    match r {
        QuarantineReason::SetRemoved => "set_removed"@,
        QuarantineReason::ContentChanged => "content_changed"@,
        QuarantineReason::PathChanged => "path_changed"@,
        QuarantineReason::Duplicate => "duplicate"@,
    }
}

/// The reason that a stored text stands for.
pub open spec fn reason_of(s: Seq<char>) -> Option<QuarantineReason> {
    if s == "set_removed"@ {
        Some(QuarantineReason::SetRemoved)
    } else if s == "content_changed"@ {
        Some(QuarantineReason::ContentChanged)
    } else if s == "path_changed"@ {
        Some(QuarantineReason::PathChanged)
    } else if s == "duplicate"@ {
        Some(QuarantineReason::Duplicate)
    } else {
        None
    }
}

/// A stored reason reads back as itself, and only the stored forms read as one.
pub proof fn law_reason_round_trip(r: QuarantineReason, s: Seq<char>)
    ensures
        reason_of(reason_text(r)) == Some(r),
        reason_of(s) == Some(r) ==> s == reason_text(r),
{
    reveal_strlit("set_removed");
    reveal_strlit("content_changed");
    reveal_strlit("path_changed");
    reveal_strlit("duplicate");
    assert("set_removed"@.len() == 11 && "content_changed"@.len() == 15 && "path_changed"@.len()
        == 12 && "duplicate"@.len() == 9);
}

impl QuarantineReason {
    /// The text stored in the database.
    pub fn as_str(&self) -> (r: &'static str)
        ensures
            r@ == reason_text(*self),
    {
        match self {
            QuarantineReason::SetRemoved => "set_removed",
            QuarantineReason::ContentChanged => "content_changed",
            QuarantineReason::PathChanged => "path_changed",
            QuarantineReason::Duplicate => "duplicate",
        }
    }

    /// Parses a stored text.
    pub fn parse(s: &str) -> (r: Option<Self>)
        ensures
            r == reason_of(s@),
    {
        if text::str_eq(s, "set_removed") {
            Some(QuarantineReason::SetRemoved)
        } else if text::str_eq(s, "content_changed") {
            Some(QuarantineReason::ContentChanged)
        } else if text::str_eq(s, "path_changed") {
            Some(QuarantineReason::PathChanged)
        } else if text::str_eq(s, "duplicate") {
            Some(QuarantineReason::Duplicate)
        } else {
            None
        }
    }

    /// The reason of a record: that of its text, or a changed path where the
    /// text is unknown.
    pub fn parse_record(s: &str) -> (r: Self)
        ensures
            r == match reason_of(s@) {
                Some(reason) => reason,
                None => QuarantineReason::PathChanged,
            },
    {
        match QuarantineReason::parse(s) {
            Some(reason) => reason,
            None => QuarantineReason::PathChanged,
        }
    }

    /// The reason in words.
    pub fn description(&self) -> (r: &'static str)
        ensures
            r@ == match self {
                QuarantineReason::SetRemoved => "Set no longer in active DAT"@,
                QuarantineReason::ContentChanged => "Would be overwritten with different content"@,
                QuarantineReason::PathChanged => "No longer needed at original location"@,
                QuarantineReason::Duplicate => "Duplicate of a copy already in the library"@,
            },
    {
        match self {
            QuarantineReason::SetRemoved => "Set no longer in active DAT",
            QuarantineReason::ContentChanged => "Would be overwritten with different content",
            QuarantineReason::PathChanged => "No longer needed at original location",
            QuarantineReason::Duplicate => "Duplicate of a copy already in the library",
        }
    }
}

/// A quarantined file.
#[derive(Clone, Debug)]
pub struct QuarantineEntry {
    pub id: i64,
    pub sha1: String,
    pub original_path: String,
    pub quarantine_path: String,
    pub size: i64,
    pub reason: QuarantineReason,
    pub collection_name: Option<String>,
    pub quarantined_at: String,
}

/// A glob character as an SQL `LIKE` pattern has it.
pub open spec fn like_char(c: char) -> char {
    if c == '*' {
        '%'
    } else if c == '?' {
        '_'
    } else {
        c
    }
}

/// A star stands for `%` in a `LIKE` pattern and a question mark for `_`; every other
/// character stands for itself, at its place.
pub proof fn law_like_patterns_keep_the_glob(glob: Seq<char>, i: int)
    requires
        0 <= i < glob.len(),
    ensures
        ({
            let pattern = glob.map_values(|c: char| like_char(c));
            &&& pattern.len() == glob.len()
            &&& glob[i] == '*' ==> pattern[i] == '%'
            &&& glob[i] == '?' ==> pattern[i] == '_'
            &&& glob[i] != '*' && glob[i] != '?' ==> pattern[i] == glob[i]
        }),
{
}

/// A glob over collection names as an SQL `LIKE` pattern.
pub fn like_pattern(glob: &str) -> (r: String)
    ensures
        r@ == glob@.map_values(|c: char| like_char(c)),
{
    let mut r = String::new();
    for c in it: glob.chars()
        invariant
            it.seq() == glob@,
            r@ == glob@.take(it.index()).map_values(|c: char| like_char(c)),
    {
        if c == '*' {
            r.push('%');
        } else if c == '?' {
            r.push('_');
        } else {
            r.push(c);
        }
        proof {
            assert(glob@.take(it.index() + 1).map_values(|c: char| like_char(c)) =~= glob@.take(
                it.index(),
            ).map_values(|c: char| like_char(c)).push(like_char(c)));
        }
    }
    proof {
        assert(glob@.take(glob@.len() as int) =~= glob@);
    }
    r
}

} // verus!
