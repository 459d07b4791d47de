//! What object reconstruction asks of its inputs.

use crate::error::{AppError, Reason};
use crate::joc::{JocFrame, QMF_SUBBANDS};
use crate::text::{decimal, digits, text_around};
use vstd::prelude::*;

verus! {

/// Causal delay of the analysis and synthesis pair, in samples.
pub const RECONSTRUCTION_DELAY: usize = 577;

/// The filters that a reconstructor holds.
#[derive(Clone, Copy, Debug, PartialEq, Eq, Structural)]
pub struct FilterCounts {
    pub analysis: usize,
    pub synthesis: usize,
}

/// The first channel from one on with another number of samples.
pub open spec fn uneven(lengths: Seq<usize>, expected: nat, start: nat) -> Option<nat>
    decreases lengths.len() - start,
{
    if start >= lengths.len() {
        None
    } else if lengths[start as int] != expected {
        Some(start)
    } else {
        uneven(lengths, expected, start + 1)
    }
}

/// What is wrong with the decoded channels for a frame of matrices.
pub open spec fn input_fault(lengths: Seq<usize>, channels: nat, timeslots: nat) -> Option<Seq<char>> {
    let expected = timeslots * QMF_SUBBANDS as nat;
    if lengths.len() != channels {
        Some(
            "invalid JOC reconstruction input: JOC requires "@ + digits(channels)
                + " downmix channels, received "@ + digits(lengths.len()),
        )
    } else {
        match uneven(lengths, expected, 0) {
            None => None,
            Some(place) => Some(
                "invalid JOC reconstruction input: JOC channel "@ + digits(place) + " has "@
                    + digits(lengths[place as int] as nat) + " samples, expected "@ + digits(
                    expected,
                ),
            ),
        }
    }
}

fn uneven_text(place: usize, length: usize, expected: usize) -> (r: String)
    ensures
        r@ == "invalid JOC reconstruction input: JOC channel "@ + digits(place as nat) + " has "@
            + digits(length as nat) + " samples, expected "@ + digits(expected as nat),
{
    let mut message = text_around(
        "invalid JOC reconstruction input: JOC channel ",
        place as u64,
        " has ",
    );
    message.append(decimal(length as u64).as_str());
    message.append(" samples, expected ");
    message.append(decimal(expected as u64).as_str());
    message
}

/// Checks the decoded channels for a frame of matrices, and gives the number of
/// samples of each.
pub fn check_input(lengths: &[usize], joc: &JocFrame) -> (r: Result<usize, AppError>)
    requires
        joc.timeslots * QMF_SUBBANDS <= usize::MAX,
    ensures
        match input_fault(lengths@, joc.input_channels as nat, joc.timeslots as nat) {
            None => r is Ok && r->Ok_0 == joc.timeslots * QMF_SUBBANDS,
            Some(text) => r is Err && r->Err_0 is Render && r->Err_0.text() == text,
        },
{
    let expected: usize = joc.timeslots * QMF_SUBBANDS;
    if lengths.len() != joc.input_channels {
        let mut message = text_around(
            "invalid JOC reconstruction input: JOC requires ",
            joc.input_channels as u64,
            " downmix channels, received ",
        );
        message.append(decimal(lengths.len() as u64).as_str());
        return Err(AppError::Render(Reason::Note(message)));
    }
    let mut i: usize = 0;
    while i < lengths.len()
        invariant
            i <= lengths@.len(),
            expected == joc.timeslots * QMF_SUBBANDS,
            lengths@.len() == joc.input_channels,
            uneven(lengths@, expected as nat, 0) == uneven(lengths@, expected as nat, i as nat),
        decreases lengths@.len() - i,
    {
        if lengths[i] != expected {
            return Err(AppError::Render(Reason::Note(uneven_text(i, lengths[i], expected))));
        }
        i = i + 1;
    }
    Ok(expected)
}

impl FilterCounts {
    pub fn new() -> (r: Self)
        ensures
            r == (FilterCounts { analysis: 0, synthesis: 0 }),
    {
        FilterCounts { analysis: 0, synthesis: 0 }
    }

    /// Prepares for a frame, and tells whether all filters begin anew.
    pub fn prepare(&mut self, joc: &JocFrame) -> (r: bool)
        ensures
            final(self).analysis == joc.input_channels,
            final(self).synthesis == joc.object_count,
            r == (*final(self) != *old(self)),
    {
        let changed = self.analysis != joc.input_channels || self.synthesis != joc.object_count;
        self.analysis = joc.input_channels;
        self.synthesis = joc.object_count;
        changed
    }
}

impl Default for FilterCounts {
    fn default() -> (r: Self)
        ensures
            r == (FilterCounts { analysis: 0, synthesis: 0 }),
    {
        FilterCounts::new()
    }
}

/// Decoded channels fit a frame of matrices exactly where there are as many as it mixes
/// and each has a sample for every band of every timeslot.
pub proof fn law_inputs_have_a_sample_for_every_band(
    lengths: Seq<usize>,
    channels: nat,
    timeslots: nat,
)
    ensures
        input_fault(lengths, channels, timeslots) is None <==> lengths.len() == channels
            && forall|i: int| 0 <= i < lengths.len() ==> #[trigger] lengths[i] == 64 * timeslots,
{
    lemma_uneven(lengths, timeslots * QMF_SUBBANDS as nat, 0);
}

proof fn lemma_uneven(lengths: Seq<usize>, expected: nat, start: nat)
    ensures
        match uneven(lengths, expected, start) {
            None => forall|i: int| start <= i < lengths.len() ==> #[trigger] lengths[i] == expected,
            Some(place) => {
                &&& start <= place < lengths.len()
                &&& lengths[place as int] != expected
                &&& forall|i: int| start <= i < place ==> #[trigger] lengths[i] == expected
            },
        },
    decreases lengths.len() - start,
{
    if start < lengths.len() && lengths[start as int] == expected {
        lemma_uneven(lengths, expected, start + 1);
    }
}

/// The channel that is named as uneven is the first whose length is another, and there is
/// one exactly where some length is another.
pub proof fn law_the_first_uneven_channel_is_named(lengths: Seq<usize>, expected: nat)
    ensures
        match uneven(lengths, expected, 0) {
            None => forall|i: int| 0 <= i < lengths.len() ==> #[trigger] lengths[i] == expected,
            Some(place) => {
                &&& place < lengths.len()
                &&& lengths[place as int] != expected
                &&& forall|i: int| 0 <= i < place ==> #[trigger] lengths[i] == expected
            },
        },
{
    lemma_uneven(lengths, expected, 0);
}

/// The filters of analysis and synthesis together lag by nine times their bands and one
/// sample.
pub proof fn law_filters_lag_by_nine_times_their_bands()
    ensures
        RECONSTRUCTION_DELAY == 9 * QMF_SUBBANDS + 1,
{
}

} // verus!
