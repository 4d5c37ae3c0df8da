//! The part of the day by which the greeting above the timeline is
//! chosen.

use vstd::prelude::*;

verus! {

/// The part of the day a greeting is chosen by.
#[derive(Clone, Copy, Debug, PartialEq, Eq, Structural)]
pub enum DayPart {
    Dawn,
    Morning,
    Lunch,
    Afternoon,
    Evening,
    Night,
}

/// The part of the day of an hour on the clock: dawn from four, morning
/// from six, lunch from eleven, afternoon from one, evening from six and
/// night from ten until four. No part for a number that is no hour.
pub open spec fn day_part_spec(hour: u32) -> Option<DayPart> {
    if hour < 4 {
        Some(DayPart::Night)
    } else if hour < 6 {
        Some(DayPart::Dawn)
    } else if hour < 11 {
        Some(DayPart::Morning)
    } else if hour < 13 {
        Some(DayPart::Lunch)
    } else if hour < 18 {
        Some(DayPart::Afternoon)
    } else if hour < 22 {
        Some(DayPart::Evening)
    } else if hour < 24 {
        Some(DayPart::Night)
    } else {
        None
    }
}

/// Finds the part of the day of an hour on the clock.
pub fn day_part(hour: u32) -> (part: Option<DayPart>)
    ensures
        part == day_part_spec(hour),
{
    if hour < 4 {
        Some(DayPart::Night)
    } else if hour < 6 {
        Some(DayPart::Dawn)
    } else if hour < 11 {
        Some(DayPart::Morning)
    } else if hour < 13 {
        Some(DayPart::Lunch)
    } else if hour < 18 {
        Some(DayPart::Afternoon)
    } else if hour < 22 {
        Some(DayPart::Evening)
    } else if hour < 24 {
        Some(DayPart::Night)
    } else {
        None
    }
}

} // verus!
