//! Wording of time-of-day patterns in clusters of notes.

use vstd::prelude::*;
use vstd::string::StringExecFns;

verus! {

broadcast use vstd::string::group_string_axioms;

/// The part of the day an hour (0-23, as a whole number) falls in.
pub open spec fn time_of_day_text(hour: u32) -> Seq<char> {
    if hour <= 5 {
        "late at night"@
    } else if hour <= 9 {
        "in the morning"@
    } else if hour <= 12 {
        "around midday"@
    } else if hour <= 17 {
        "in the afternoon"@
    } else if hour <= 21 {
        "in the evening"@
    } else {
        "at night"@
    }
}

/// The part of the day an hour falls in, as [`time_of_day_text`] gives it.
pub fn time_of_day_label(hour: u32) -> (label: &'static str)
    ensures
        label@ == time_of_day_text(hour),
{
    if hour <= 5 {
        "late at night"
    } else if hour <= 9 {
        "in the morning"
    } else if hour <= 12 {
        "around midday"
    } else if hour <= 17 {
        "in the afternoon"
    } else if hour <= 21 {
        "in the evening"
    } else {
        "at night"
    }
}

/// The sentence describing a cluster whose notes concentrate around `hour`.
pub fn temporal_description(hour: u32) -> (d: String)
    ensures
        d@ == "You tend to write about this "@ + time_of_day_text(hour),
{
    let mut d = "You tend to write about this ".to_string();
    d.append(time_of_day_label(hour));
    d
}

} // verus!
