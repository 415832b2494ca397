//! The current time, as the compact UTC timestamps of journals and plans.

use crate::text;
use chrono::{Datelike, Timelike};
use vstd::prelude::*;
use vstd::string::StringExecFns;

verus! {

/// A moment in UTC, in whole seconds.
#[derive(Clone, Copy, Debug, PartialEq, Eq, Structural)]
pub struct Moment {
    pub year: u32,
    pub month: u32,
    pub day: u32,
    pub hour: u32,
    pub minute: u32,
    pub second: u32,
}

/// Whether the fields of a moment are those of a calendar date and a clock time.
pub open spec fn on_calendar(m: Moment) -> bool {
    &&& 1970 <= m.year
    &&& 1 <= m.month <= 12
    &&& 1 <= m.day <= 31
    &&& m.hour <= 23
    &&& m.minute <= 59
    &&& m.second <= 59
}

/// The text of a moment: `YYYYMMDDTHHMMSSZ`.
pub open spec fn stamp(m: Moment) -> Seq<char> {
    text::padded(m.year as nat, 4) + text::padded(m.month as nat, 2) + text::padded(
        m.day as nat,
        2,
    ) + "T"@ + text::padded(m.hour as nat, 2) + text::padded(m.minute as nat, 2) + text::padded(
        m.second as nat,
        2,
    ) + "Z"@
}

/// Whether a text is the stamp of some moment.
pub open spec fn is_stamp(s: Seq<char>) -> bool {
    exists|m: Moment| #[trigger] on_calendar(m) && s == stamp(m)
}

/// `chrono::Utc::now`, taken apart by `Datelike` and `Timelike`: the current
/// moment. It panics where the system clock stands before 1970, so the year is
/// never earlier; month, day, hour, minute and second have the ranges that the
/// accessors document. Which moment it is depends on the machine's clock.
#[verifier::external_body]
fn utc_now() -> (m: Moment)
    ensures
        on_calendar(m),
{
    let now = chrono::Utc::now();
    Moment {
        year: now.year() as u32,
        month: now.month(),
        day: now.day(),
        hour: now.hour(),
        minute: now.minute(),
        second: now.second(),
    }
}

/// A stamp has sixteen characters; its digits spell year, month, day, hour, minute
/// and second, in this order.
pub proof fn law_stamp_spells_its_moment(m: Moment)
    requires
        on_calendar(m),
        m.year <= 9999,
    ensures
        stamp(m).len() == 16,
        text::spelt(stamp(m).subrange(0, 4)) == m.year,
        text::spelt(stamp(m).subrange(4, 6)) == m.month,
        text::spelt(stamp(m).subrange(6, 8)) == m.day,
        stamp(m)[8] == 'T',
        text::spelt(stamp(m).subrange(9, 11)) == m.hour,
        text::spelt(stamp(m).subrange(11, 13)) == m.minute,
        text::spelt(stamp(m).subrange(13, 15)) == m.second,
        stamp(m)[15] == 'Z',
{
    reveal_strlit("T");
    reveal_strlit("Z");
    let s = stamp(m);
    text::law_padding_keeps_the_number(m.year as nat, 4);
    text::law_padding_keeps_the_number(m.month as nat, 2);
    text::law_padding_keeps_the_number(m.day as nat, 2);
    text::law_padding_keeps_the_number(m.hour as nat, 2);
    text::law_padding_keeps_the_number(m.minute as nat, 2);
    text::law_padding_keeps_the_number(m.second as nat, 2);
    text::lemma_decimal_len(m.year as nat);
    text::lemma_decimal_len(m.month as nat);
    text::lemma_decimal_len(m.day as nat);
    text::lemma_decimal_len(m.hour as nat);
    text::lemma_decimal_len(m.minute as nat);
    text::lemma_decimal_len(m.second as nat);
    assert(s.subrange(0, 4) =~= text::padded(m.year as nat, 4));
    assert(s.subrange(4, 6) =~= text::padded(m.month as nat, 2));
    assert(s.subrange(6, 8) =~= text::padded(m.day as nat, 2));
    assert(s.subrange(9, 11) =~= text::padded(m.hour as nat, 2));
    assert(s.subrange(11, 13) =~= text::padded(m.minute as nat, 2));
    assert(s.subrange(13, 15) =~= text::padded(m.second as nat, 2));
}

/// The text of a moment.
pub fn format_stamp(m: Moment) -> (s: String)
    ensures
        s@ == stamp(m),
{
    let mut s = text::padded_string(m.year as u64, 4);
    s.append(text::padded_string(m.month as u64, 2).as_str());
    s.append(text::padded_string(m.day as u64, 2).as_str());
    s.append("T");
    s.append(text::padded_string(m.hour as u64, 2).as_str());
    s.append(text::padded_string(m.minute as u64, 2).as_str());
    s.append(text::padded_string(m.second as u64, 2).as_str());
    s.append("Z");
    s
}

/// The stamp of the current moment.
pub fn chrono_now() -> (s: String)
    ensures
        is_stamp(s@),
{
    let m = utc_now();
    format_stamp(m)
}

} // verus!
