//! Time stamps on the playback timeline.

use vstd::prelude::*;

use crate::digits;
use crate::number;
use crate::number::Binary64;
use crate::text;

verus! {

/// A time that does not lie before the start of the timeline.
pub open spec fn from_start(seconds: Binary64) -> Binary64 {
    seconds.upper(number::zero())
}

/// A time in whole seconds.
pub open spec fn whole_seconds(seconds: Binary64) -> nat {
    from_start(seconds).whole()
}

/// A time in whole milliseconds.
pub open spec fn whole_milliseconds(seconds: Binary64) -> nat {
    from_start(seconds).product(number::natural(1000)).whole()
}

/// Hours, minutes and seconds, two digits each at least.
pub open spec fn stamp(total: nat) -> Seq<char> {
    digits::padded(digits::decimal(total / 3600), 2) + ":"@ + digits::padded(
        digits::decimal((total % 3600) / 60),
        2,
    ) + ":"@ + digits::padded(digits::decimal(total % 60), 2)
}

/// A number of milliseconds as hours, minutes, seconds and milliseconds.
pub open spec fn precise_stamp(total: nat, point: Seq<char>) -> Seq<char> {
    stamp(total / 1000) + point + digits::padded(digits::decimal(total % 1000), 3)
}

/// The time in whole seconds.
pub open spec fn timestamp(seconds: Binary64) -> Seq<char> {
    stamp(whole_seconds(seconds))
}

/// The time in milliseconds, with a point before them.
pub open spec fn precise(seconds: Binary64) -> Seq<char> {
    precise_stamp(whole_milliseconds(seconds), "."@)
}

/// The time in milliseconds, with a comma before them.
pub open spec fn subrip(seconds: Binary64) -> Seq<char> {
    precise_stamp(whole_milliseconds(seconds), ","@)
}

/// Holds a time at or after the start of the timeline.
pub fn at_start_or_later(seconds: Binary64) -> (r: Binary64)
    ensures
        r == from_start(seconds),
{
    seconds.max(Binary64 { bits: 0 })
}

fn stamp_text(total: u64) -> (r: String)
    ensures
        r@ == stamp(total as nat),
{
    let mut out: String = digits::padded_decimal(total / 3600, 2);
    out.append(":");
    out.append(digits::padded_decimal((total % 3600) / 60, 2).as_str());
    out.append(":");
    out.append(digits::padded_decimal(total % 60, 2).as_str());
    out
}

fn precise_stamp_text(total: u64, point: &str) -> (r: String)
    ensures
        r@ == precise_stamp(total as nat, point@),
{
    let mut out: String = stamp_text(total / 1000);
    out.append(point);
    out.append(digits::padded_decimal(total % 1000, 3).as_str());
    out
}

/// The whole milliseconds of a time.
pub fn milliseconds(seconds: Binary64) -> (r: u64)
    ensures
        r == whole_milliseconds(seconds),
{
    at_start_or_later(seconds).mul(Binary64::from_u64(1000)).round_u64()
}

/// Writes a time as hours, minutes and seconds.
pub fn format_timestamp(seconds: Binary64) -> (r: String)
    ensures
        r@ == timestamp(seconds),
{
    stamp_text(at_start_or_later(seconds).round_u64())
}

/// Writes a time as hours, minutes, seconds and milliseconds.
pub fn format_precise_timestamp(seconds: Binary64) -> (r: String)
    ensures
        r@ == precise(seconds),
{
    precise_stamp_text(milliseconds(seconds), ".")
}

/// Writes a time in the form of SubRip files.
pub fn srt_timestamp(seconds: Binary64) -> (r: String)
    ensures
        r@ == subrip(seconds),
{
    precise_stamp_text(milliseconds(seconds), ",")
}

/// The time that hours, minutes and seconds give.
pub open spec fn clock_sum(h: Binary64, m: Binary64, s: Binary64) -> Binary64 {
    h.product(number::natural(3600)).sum(m.product(number::natural(60))).sum(s)
}

/// The time that a stamp of three numbers writes, with a colon between them.
/// The numbers may use a comma for the point.
pub open spec fn stamp_value(s: Seq<char>) -> Option<Binary64> {
    let parts = text::pieces(text::replaced(text::trimmed(s), ","@, "."@), ":"@);
    if parts.len() != 3 {
        None
    } else {
        match (number::parsed(parts[0]), number::parsed(parts[1]), number::parsed(parts[2])) {
            (Some(h), Some(m), Some(s)) => Some(clock_sum(h, m, s)),
            _ => None,
        }
    }
}

/// Reads a stamp of hours, minutes and seconds.
pub fn parse_subtitle_timestamp(value: &str) -> (r: Option<Binary64>)
    ensures
        r == stamp_value(value@),
{
    proof {
        reveal_strlit(",");
        reveal_strlit(":");
    }
    let cleaned = text::replace(text::trim(value).as_str(), ",", ".");
    let parts = text::split(cleaned.as_str(), ":");
    proof {
        assert(text::views(parts@).len() == parts@.len());
    }
    if parts.len() != 3 {
        return None;
    }
    assert(text::views(parts@)[0] == parts@[0]@);
    assert(text::views(parts@)[1] == parts@[1]@);
    assert(text::views(parts@)[2] == parts@[2]@);
    let h = number::parse(parts[0].as_str());
    let m = number::parse(parts[1].as_str());
    let s = number::parse(parts[2].as_str());
    match (h, m, s) {
        (Some(h), Some(m), Some(s)) => Some(
            h.mul(Binary64::from_u64(3600)).add(m.mul(Binary64::from_u64(60))).add(s),
        ),
        _ => None,
    }
}

/// The bounds of a cue: both are numbers, and the end lies after the start,
/// which is held at or after the start of the timeline.
pub open spec fn cue_bounds(start: Binary64, end: Binary64) -> Result<(Binary64, Binary64), Seq<char>> {
    if !start.finite() || !end.finite() {
        Err("Enter valid subtitle start and end times."@)
    } else if end.le(from_start(start)) {
        Err("Subtitle end time must be after its start time."@)
    } else {
        Ok((from_start(start), end))
    }
}

/// The view of a result whose error is a message.
pub open spec fn said<T>(r: Result<T, String>) -> Result<T, Seq<char>> {
    match r {
        Ok(value) => Ok(value),
        Err(message) => Err(message@),
    }
}

/// Checks the bounds of a subtitle.
pub fn subtitle_timing(start_seconds: Binary64, end_seconds: Binary64) -> (r: Result<
    (Binary64, Binary64),
    String,
>)
    ensures
        said(r) == cue_bounds(start_seconds, end_seconds),
{
    if !start_seconds.is_finite() || !end_seconds.is_finite() {
        return Err("Enter valid subtitle start and end times.".to_owned());
    }
    let start: Binary64 = at_start_or_later(start_seconds);
    if end_seconds.at_most(start) {
        return Err("Subtitle end time must be after its start time.".to_owned());
    }
    Ok((start, end_seconds))
}

} // verus!
