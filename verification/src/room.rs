//! Room correction for the finished stereo signal.

use crate::error::{AppError, Reason};
use crate::hrir::{invalid_hrir, HrirFault, WaveData};
use crate::text::text_pair;
use vstd::prelude::*;

verus! {

/// The impulse responses of both channels, as bit patterns of singles.
#[derive(Clone, Debug)]
pub struct RoomCorrection {
    pub sample_rate: u32,
    pub left: Vec<u32>,
    pub right: Vec<u32>,
}

/// What keeps two waves from making a correction.
pub open spec fn correction_fault(left: WaveData, right: WaveData, expected: u32) -> Option<
    HrirFault,
> {
    if left.channels@.len() != 1 || right.channels@.len() != 1 {
        Some(HrirFault::MonoCorrection)
    } else if left.sample_rate != right.sample_rate {
        Some(HrirFault::CorrectionRates)
    } else if left.sample_rate != expected {
        Some(HrirFault::CorrectionRate { rate: left.sample_rate, hrir: expected })
    } else {
        None
    }
}

fn invalid<T>(fault: HrirFault) -> (r: Result<T, AppError>)
    ensures
        r == invalid_hrir::<T>(fault),
{
    Err(AppError::InvalidHrir(Reason::Hrir(fault)))
}

impl RoomCorrection {
    /// Makes a correction of two waves of one channel each, at the rate of the
    /// profile.
    pub fn from_waves(left: WaveData, right: WaveData, expected: u32) -> (r: Result<Self, AppError>)
        ensures
            match correction_fault(left, right, expected) {
                Some(fault) => r == invalid_hrir::<RoomCorrection>(fault),
                None => {
                    &&& r is Ok
                    &&& r->Ok_0.sample_rate == expected
                    &&& r->Ok_0.left@ == left.channels@[0]@
                    &&& r->Ok_0.right@ == right.channels@[0]@
                },
            },
    {
        if left.channels.len() != 1 || right.channels.len() != 1 {
            return invalid(HrirFault::MonoCorrection);
        }
        if left.sample_rate != right.sample_rate {
            return invalid(HrirFault::CorrectionRates);
        }
        if left.sample_rate != expected {
            return invalid(
                HrirFault::CorrectionRate { rate: left.sample_rate, hrir: expected },
            );
        }
        let mut first = left.channels;
        let mut second = right.channels;
        let left = first.swap_remove(0);
        let right = second.swap_remove(0);
        Ok(RoomCorrection { sample_rate: expected, left, right })
    }
}

/// What is added to the name of a correction to name the file of a channel, by
/// its letters or by its number.
pub fn correction_suffix(channel: &str, number: &str, by_letters: bool) -> (r: String)
    ensures
        r@ == " "@ + (if by_letters {
            channel@
        } else {
            number@
        }) + ".wav"@,
{
    let mut suffix = if by_letters {
        text_pair(" ", channel)
    } else {
        text_pair(" ", number)
    };
    suffix.append(".wav");
    suffix
}

/// Chooses the file of a channel: the one named by its letters, or else the one
/// named by its number. Tells whether it is the first.
pub fn choose_correction(
    lettered_exists: bool,
    numbered_exists: bool,
    channel: &str,
    root: &str,
) -> (r: Result<bool, AppError>)
    ensures
        lettered_exists ==> r == Ok::<bool, AppError>(true),
        !lettered_exists && numbered_exists ==> r == Ok::<bool, AppError>(false),
        !lettered_exists && !numbered_exists ==> r is Err && r->Err_0 is InvalidHrir
            && r->Err_0.text() == "room-correction impulse for "@ + channel@
            + " was not found beside "@ + root@,
{
    if lettered_exists {
        return Ok(true);
    }
    if numbered_exists {
        return Ok(false);
    }
    let mut message = text_pair("room-correction impulse for ", channel);
    message.append(" was not found beside ");
    message.append(root);
    Err(AppError::InvalidHrir(Reason::Note(message)))
}

/// Refuses a block that is not stereo or too long. Gives its number of frames.
pub fn check_block(samples: usize, block_size: usize) -> (r: Result<usize, AppError>)
    ensures
        samples % 2 == 0 && samples / 2 <= block_size ==> r == Ok::<usize, AppError>(samples / 2),
        samples % 2 != 0 || samples / 2 > block_size ==> r is Err && r->Err_0 is Render
            && r->Err_0.text() == "room-correction block has an invalid length"@,
{
    if samples % 2 != 0 || samples / 2 > block_size {
        return Err(
            AppError::Render(
                Reason::Note(String::from_str("room-correction block has an invalid length")),
            ),
        );
    }
    Ok(samples / 2)
}

/// Two waves make a correction exactly where each has one channel and both have the rate of
/// the profile; what keeps them from it is first their channels, then their own rates, and
/// last the rate of the profile.
pub proof fn law_corrections_are_two_mono_waves_of_one_rate(
    left: WaveData,
    right: WaveData,
    expected: u32,
)
    ensures
        ({
            let fault = correction_fault(left, right, expected);
            let mono = left.channels@.len() == 1 && right.channels@.len() == 1;
            &&& fault is None <==> mono && left.sample_rate == expected && right.sample_rate
                == expected
            &&& fault == Some(HrirFault::MonoCorrection) <==> !mono
            &&& fault == Some(HrirFault::CorrectionRates) <==> mono && left.sample_rate
                != right.sample_rate
            &&& fault is Some && mono && left.sample_rate == right.sample_rate ==> fault == Some(
                HrirFault::CorrectionRate { rate: right.sample_rate, hrir: expected },
            )
            &&& fault is None <==> correction_fault(right, left, expected) is None
        }),
{
}

} // verus!
