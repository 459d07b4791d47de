//! The grid and the rings of the continuous object filters.

use crate::dsp::{aged_place, ring_place};
use vstd::prelude::*;

verus! {

/// How many samples a filter of the grid has.
pub const FILTER_LENGTH: usize = 64;

pub const AZIMUTH_COUNT: usize = 72;

pub const ELEVATION_COUNT: usize = 19;

/// How many samples make one that lies between two.
pub const FRACTIONAL_DELAY_TAPS: usize = 24;

/// How many of them are younger than the delay.
pub const FRACTIONAL_DELAY_PRE_SAMPLES: usize = 11;

/// The place of the filter of a direction in the grid.
pub open spec fn grid_place(elevation: nat, azimuth: nat) -> nat {
    elevation * AZIMUTH_COUNT as nat + azimuth
}

/// Finds the filter of a direction in the grid.
pub fn filter_place(elevation: usize, azimuth: usize) -> (r: usize)
    requires
        elevation < ELEVATION_COUNT,
        azimuth < AZIMUTH_COUNT,
    ensures
        r == grid_place(elevation as nat, azimuth as nat),
        r < ELEVATION_COUNT * AZIMUTH_COUNT,
{
    elevation * AZIMUTH_COUNT + azimuth
}

/// Different directions have different filters.
pub proof fn law_grid_places_are_distinct(
    elevation: nat,
    azimuth: nat,
    other_elevation: nat,
    other_azimuth: nat,
)
    requires
        azimuth < AZIMUTH_COUNT,
        other_azimuth < AZIMUTH_COUNT,
        grid_place(elevation, azimuth) == grid_place(other_elevation, other_azimuth),
    ensures
        elevation == other_elevation,
        azimuth == other_azimuth,
{
}

/// The four filters around a direction, by the grid line below it.
#[derive(Clone, Copy, Debug, PartialEq, Eq, Structural)]
pub struct GridCell {
    pub lower_left: usize,
    pub lower_right: usize,
    pub upper_left: usize,
    pub upper_right: usize,
}

/// The next azimuth, around the circle.
pub open spec fn next_azimuth(azimuth: nat) -> nat {
    (azimuth + 1) % AZIMUTH_COUNT as nat
}

/// The next elevation, up to the pole.
pub open spec fn next_elevation(elevation: nat) -> nat {
    if elevation + 1 < ELEVATION_COUNT {
        elevation + 1
    } else {
        (ELEVATION_COUNT - 1) as nat
    }
}

impl GridCell {
    /// The cell above an elevation and beside an azimuth, which counts around the
    /// circle.
    pub fn new(elevation: usize, azimuth: usize) -> (r: Self)
        requires
            elevation < ELEVATION_COUNT,
        ensures
            ({
                let left = azimuth as nat % AZIMUTH_COUNT as nat;
                let right = next_azimuth(left);
                let upper = next_elevation(elevation as nat);
                &&& r.lower_left == grid_place(elevation as nat, left)
                &&& r.lower_right == grid_place(elevation as nat, right)
                &&& r.upper_left == grid_place(upper, left)
                &&& r.upper_right == grid_place(upper, right)
            }),
    {
        let left: usize = azimuth % AZIMUTH_COUNT;
        let right: usize = (left + 1) % AZIMUTH_COUNT;
        let upper: usize = if elevation + 1 < ELEVATION_COUNT {
            elevation + 1
        } else {
            ELEVATION_COUNT - 1
        };
        GridCell {
            lower_left: filter_place(elevation, left),
            lower_right: filter_place(elevation, right),
            upper_left: filter_place(upper, left),
            upper_right: filter_place(upper, right),
        }
    }
}

/// How long a continuous filter rings on after its input.
pub open spec fn continuous_tail(common_delay: nat, interaural: nat) -> nat {
    let whole = FILTER_LENGTH as nat + common_delay + interaural + FRACTIONAL_DELAY_TAPS as nat + 4;
    if whole > usize::MAX {
        usize::MAX as nat
    } else {
        whole
    }
}

/// How long a continuous filter rings on after its input.
pub fn maximum_tail_frames(common_delay: usize, interaural: usize) -> (r: usize)
    ensures
        r == continuous_tail(common_delay as nat, interaural as nat),
{
    FILTER_LENGTH.saturating_add(common_delay).saturating_add(interaural).saturating_add(
        FRACTIONAL_DELAY_TAPS,
    ).saturating_add(4)
}

/// The cursor of the doubled history moves back by one sample.
pub fn previous_cursor(cursor: usize) -> (r: usize)
    requires
        cursor < FILTER_LENGTH,
    ensures
        r < FILTER_LENGTH,
        (r + 1) % FILTER_LENGTH as int == cursor,
{
    (cursor + FILTER_LENGTH - 1) % FILTER_LENGTH
}

/// The age of the sample under a tap of a delay of so many whole samples.
pub open spec fn tap_age(whole: int, tap: int) -> int {
    whole + tap - FRACTIONAL_DELAY_PRE_SAMPLES
}

/// Finds the sample under a tap in a delay line.
pub fn tap_place(length: usize, cursor: usize, whole: usize, tap: usize) -> (r: usize)
    requires
        cursor < length,
        tap < FRACTIONAL_DELAY_TAPS,
        FRACTIONAL_DELAY_PRE_SAMPLES <= whole,
        whole + FRACTIONAL_DELAY_TAPS - FRACTIONAL_DELAY_PRE_SAMPLES <= length,
    ensures
        r < length,
        r == aged_place(cursor as nat, length as nat, tap_age(whole as int, tap as int) as nat),
{
    let age: usize = if tap < FRACTIONAL_DELAY_PRE_SAMPLES {
        whole - (FRACTIONAL_DELAY_PRE_SAMPLES - tap)
    } else {
        whole + (tap - FRACTIONAL_DELAY_PRE_SAMPLES)
    };
    ring_place(cursor, length, age)
}

/// A delay that the guards allow reads only samples that the line still holds.
pub proof fn law_taps_stay_in_the_line(length: int, whole: int, tap: int)
    requires
        0 <= tap < FRACTIONAL_DELAY_TAPS,
        FRACTIONAL_DELAY_PRE_SAMPLES <= whole,
        whole + FRACTIONAL_DELAY_TAPS - FRACTIONAL_DELAY_PRE_SAMPLES <= length,
    ensures
        0 <= tap_age(whole, tap) < length,
{
}

/// The grid goes once round the listener in steps of five degrees, and from straight below
/// to straight above in steps of ten.
pub proof fn law_the_grid_covers_all_directions()
    ensures
        5 * AZIMUTH_COUNT == 360,
        10 * (ELEVATION_COUNT - 1) == 180,
{
}

/// The next azimuth is one step further; behind the last comes the first, so that as many
/// steps as there are lead back.
pub proof fn law_azimuths_close_a_circle(azimuth: nat)
    requires
        azimuth < AZIMUTH_COUNT,
    ensures
        next_azimuth(azimuth) < AZIMUTH_COUNT,
        next_azimuth(azimuth) == azimuth + 1 || (next_azimuth(azimuth) == 0 && azimuth
            == AZIMUTH_COUNT - 1),
{
}

/// The next elevation is one step higher; the highest is its own next.
pub proof fn law_elevations_end_at_the_top(elevation: nat)
    requires
        elevation < ELEVATION_COUNT,
    ensures
        elevation <= next_elevation(elevation) < ELEVATION_COUNT,
        next_elevation(elevation) == elevation <==> elevation == ELEVATION_COUNT - 1,
        next_elevation(elevation) <= elevation + 1,
{
}

/// The filters of neighbouring azimuths stand next to one another, and those of
/// neighbouring elevations a full circle apart; the first direction has the first filter.
pub proof fn law_grid_places_follow_the_directions(elevation: nat, azimuth: nat)
    ensures
        grid_place(0, 0) == 0,
        grid_place(elevation, azimuth + 1) == grid_place(elevation, azimuth) + 1,
        grid_place(elevation + 1, azimuth) == grid_place(elevation, azimuth) + AZIMUTH_COUNT,
{
}

/// A continuous filter rings for as long as its samples, its delays and the taps that lie
/// between two samples take together, and four samples more, as far as can be counted.
pub proof fn law_delays_lengthen_the_tail(common_delay: nat, interaural: nat, more: nat)
    requires
        common_delay + interaural + more + 92 <= usize::MAX,
    ensures
        continuous_tail(0, 0) == 64 + 24 + 4,
        continuous_tail(common_delay + more, interaural) == continuous_tail(
            common_delay,
            interaural,
        ) + more,
        continuous_tail(common_delay, interaural + more) == continuous_tail(
            common_delay,
            interaural,
        ) + more,
{
}

/// Each tap is a sample older than the one before; as many of them are younger than the
/// delay as are meant to be, which is one fewer than are older.
pub proof fn law_taps_surround_the_delay(whole: int, tap: int)
    ensures
        tap_age(whole, tap + 1) == tap_age(whole, tap) + 1,
        tap_age(whole + 1, tap) == tap_age(whole, tap) + 1,
        tap_age(whole, tap) < whole <==> tap < FRACTIONAL_DELAY_PRE_SAMPLES,
        FRACTIONAL_DELAY_TAPS == 2 * (FRACTIONAL_DELAY_PRE_SAMPLES + 1),
{
}

} // verus!
