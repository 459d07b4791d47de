//! The shape of the parametric model of a profile.
//!
//! Samples are bit patterns of singles; without their sign they order as
//! integers.

use crate::dsp::power_of_two;
use crate::hrir::magnitude;
use vstd::arithmetic::power2::pow2;
use vstd::prelude::*;
use vstd::relations::{sorted_by, total_ordering};

verus! {

/// The least length of a transform.
pub const LEAST_TRANSFORM: usize = 2048;

/// The lengths of the transforms and of the responses of a model.
#[derive(Clone, Copy, Debug, PartialEq, Eq, Structural)]
pub struct ModelShape {
    pub fft_len: usize,
    pub output_len: usize,
    pub bins: usize,
}

/// Whether a number is the least power of two that reaches another.
pub open spec fn least_power(power: nat, n: nat) -> bool {
    &&& power_of_two(power)
    &&& power >= n
    &&& forall|k: nat| #[trigger] pow2(k) >= n ==> pow2(k) >= power
}

fn next_power(n: usize) -> (r: usize)
    requires
        n <= usize::MAX / 2 + 1,
    ensures
        least_power(r as nat, n as nat),
{
    let mut power: usize = 1;
    let ghost mut exponent: nat = 0;
    proof {
        vstd::arithmetic::power2::lemma2_to64();
    }
    while power < n
        invariant
            n <= usize::MAX / 2 + 1,
            power == pow2(exponent),
            power >= 1,
            forall|k: nat| k < exponent ==> #[trigger] pow2(k) < n,
        decreases 2 * n - power,
    {
        proof {
            vstd::arithmetic::power2::lemma_pow2_unfold(exponent + 1);
            exponent = exponent + 1;
        }
        power = power * 2;
    }
    proof {
        assert forall|k: nat| #[trigger] pow2(k) >= n implies pow2(k) >= power by {
            if k > exponent {
                vstd::arithmetic::power2::lemma_pow2_strictly_increases(exponent, k);
            }
        }
    }
    power
}

/// The longest of some responses.
pub open spec fn longest_of(lengths: Seq<usize>) -> nat
    decreases lengths.len(),
{
    if lengths.len() == 0 {
        0
    } else {
        let before = longest_of(lengths.drop_last());
        if lengths.last() > before {
            lengths.last() as nat
        } else {
            before
        }
    }
}

/// A length held between two bounds.
pub open spec fn held_between(n: nat, least: nat, most: nat) -> nat {
    if n < least {
        least
    } else if n > most {
        most
    } else {
        n
    }
}

impl ModelShape {
    /// The shape for responses of some lengths, or none where there are none.
    pub fn new(lengths: &[usize]) -> (r: Option<Self>)
        requires
            4 * longest_of(lengths@) <= usize::MAX / 2 + 1,
        ensures
            r is Some == (lengths@.len() > 0),
            r is Some ==> {
                let longest = longest_of(lengths@);
                let shape = r->0;
                &&& shape.bins == shape.fft_len / 2 + 1
                &&& shape.output_len == held_between(longest, 256, 512)
                &&& shape.fft_len >= LEAST_TRANSFORM
                &&& shape.fft_len > LEAST_TRANSFORM ==> least_power(
                    shape.fft_len as nat,
                    4 * longest,
                )
                &&& shape.fft_len == LEAST_TRANSFORM ==> 4 * longest <= LEAST_TRANSFORM
            },
    {
        if lengths.len() == 0 {
            return None;
        }
        let mut longest: usize = 0;
        let mut i: usize = 0;
        while i < lengths.len()
            invariant
                i <= lengths@.len(),
                longest == longest_of(lengths@.take(i as int)),
            decreases lengths@.len() - i,
        {
            assert(lengths@.take(i + 1).drop_last() =~= lengths@.take(i as int));
            if lengths[i] > longest {
                longest = lengths[i];
            }
            i = i + 1;
        }
        assert(lengths@.take(lengths@.len() as int) =~= lengths@);
        let power: usize = next_power(longest * 4);
        let fft_len: usize = if power < LEAST_TRANSFORM {
            LEAST_TRANSFORM
        } else {
            power
        };
        let output_len: usize = if longest < 256 {
            256
        } else if longest > 512 {
            512
        } else {
            longest
        };
        Some(ModelShape { fft_len, output_len, bins: fft_len / 2 + 1 })
    }
}

/// Every transform has room for four times the longest response.
pub proof fn law_transforms_have_room(shape: ModelShape, longest: nat)
    requires
        shape.fft_len >= LEAST_TRANSFORM,
        shape.fft_len > LEAST_TRANSFORM ==> least_power(shape.fft_len as nat, 4 * longest),
        shape.fft_len == LEAST_TRANSFORM ==> 4 * longest <= LEAST_TRANSFORM,
    ensures
        shape.fft_len >= 4 * longest,
{
}

/// The last place of the largest magnitude among the first samples.
pub open spec fn peak_place(samples: Seq<u32>, count: nat) -> nat
    decreases count,
{
    if count <= 1 {
        0
    } else {
        let before = peak_place(samples, (count - 1) as nat);
        if magnitude(samples[count - 1]) >= magnitude(samples[before as int]) {
            (count - 1) as nat
        } else {
            before
        }
    }
}

/// Finds the last place of the largest magnitude.
pub fn peak_index(samples: &[u32]) -> (r: usize)
    ensures
        r == peak_place(samples@, samples@.len()),
{
    if samples.len() == 0 {
        return 0;
    }
    let mut best: usize = 0;
    let mut i: usize = 1;
    while i < samples.len()
        invariant
            1 <= i <= samples@.len(),
            best < i,
            best == peak_place(samples@, i as nat),
        decreases samples@.len() - i,
    {
        if samples[i] % 0x8000_0000 >= samples[best] % 0x8000_0000 {
            best = i;
        }
        i = i + 1;
    }
    best
}

/// No sample is larger than that at the peak.
pub proof fn law_nothing_exceeds_the_peak(samples: Seq<u32>, count: nat, place: int)
    requires
        count <= samples.len(),
        0 <= place < count,
    ensures
        peak_place(samples, count) < count,
        magnitude(samples[place]) <= magnitude(samples[peak_place(samples, count) as int]),
    decreases count,
{
    if count > 1 {
        if place < count - 1 {
            law_nothing_exceeds_the_peak(samples, (count - 1) as nat, place);
        } else {
            law_nothing_exceeds_the_peak(samples, (count - 1) as nat, 0);
        }
    }
}

/// The order of numbers.
pub open spec fn ascending() -> spec_fn(usize, usize) -> bool {
    |a: usize, b: usize| a <= b
}

/// The upper middle of some peaks, or zero where there are none.
pub open spec fn middle(peaks: Seq<usize>) -> usize {
    if peaks.len() == 0 {
        0
    } else {
        peaks.sort_by(ascending())[(peaks.len() / 2) as int]
    }
}

proof fn lemma_sorts_agree(first: Seq<usize>, second: Seq<usize>)
    requires
        sorted_by(first, ascending()),
        sorted_by(second, ascending()),
        first.to_multiset() == second.to_multiset(),
    ensures
        first == second,
{
    assert(total_ordering(ascending()));
    vstd::seq_lib::lemma_sorted_unique(first, second, ascending());
}

/// Finds the delay common to the responses of a profile: the upper middle of
/// their peaks.
pub fn profile_delay(peaks: &[usize]) -> (r: usize)
    ensures
        r == middle(peaks@),
{
    if peaks.len() == 0 {
        return 0;
    }
    let mut sorted: Vec<usize> = Vec::new();
    let mut i: usize = 0;
    assert(sorted@ =~= peaks@.take(0));
    while i < peaks.len()
        invariant
            i <= peaks@.len(),
            sorted@.len() == i,
            sorted_by(sorted@, ascending()),
            sorted@.to_multiset() =~= peaks@.take(i as int).to_multiset(),
        decreases peaks@.len() - i,
    {
        let peak: usize = peaks[i];
        let ghost before = sorted@;
        let mut place: usize = sorted.len();
        while place > 0 && sorted[place - 1] > peak
            invariant
                place <= sorted@.len(),
                sorted@ == before,
                sorted_by(before, ascending()),
                forall|k: int| place <= k < before.len() ==> #[trigger] before[k] > peak,
            decreases place,
        {
            place = place - 1;
        }
        sorted.insert(place, peak);
        proof {
            let now = sorted@;
            assert forall|a: int, b: int| 0 <= a < b < now.len() implies #[trigger] (ascending())(
                now[a],
                now[b],
            ) by {
                let first = if a < place {
                    before[a]
                } else if a == place {
                    peak
                } else {
                    before[a - 1]
                };
                let second = if b < place {
                    before[b]
                } else if b == place {
                    peak
                } else {
                    before[b - 1]
                };
                assert(now[a] == first && now[b] == second);
                if a < place {
                    if place - 1 > a {
                        assert((ascending())(before[a], before[place - 1]));
                    }
                    if b > place {
                        assert((ascending())(before[a], before[b - 1]));
                    } else if b < place {
                        assert((ascending())(before[a], before[b]));
                    }
                } else if a > place {
                    assert((ascending())(before[a - 1], before[b - 1]));
                }
            }
            vstd::seq_lib::to_multiset_insert(before, place as int, peak);
            assert(peaks@.take(i + 1) =~= peaks@.take(i as int).push(peak));
            vstd::seq_lib::to_multiset_build(peaks@.take(i as int), peak);
        }
        i = i + 1;
    }
    proof {
        assert(peaks@.take(peaks@.len() as int) =~= peaks@);
        assert(total_ordering(ascending()));
        peaks@.lemma_sort_by_ensures(ascending());
        lemma_sorts_agree(sorted@, peaks@.sort_by(ascending()));
    }
    sorted[peaks.len() / 2]
}

/// The longest of some lengths is one of them, and none of them is longer; of none it is
/// zero.
pub proof fn law_the_longest_is_among_them(lengths: Seq<usize>)
    ensures
        forall|i: int| 0 <= i < lengths.len() ==> #[trigger] lengths[i] <= longest_of(lengths),
        lengths.len() > 0 ==> exists|i: int|
            0 <= i < lengths.len() && #[trigger] lengths[i] == longest_of(lengths),
        lengths.len() == 0 ==> longest_of(lengths) == 0,
    decreases lengths.len(),
{
    if lengths.len() > 0 {
        let before = lengths.drop_last();
        law_the_longest_is_among_them(before);
        let whole = longest_of(lengths);
        assert forall|i: int| 0 <= i < lengths.len() implies #[trigger] lengths[i] <= whole by {
            if i < before.len() {
                assert(before[i] == lengths[i]);
            }
        }
        if lengths.last() > longest_of(before) {
            assert(lengths[lengths.len() - 1] == whole);
        } else if before.len() > 0 {
            let i = choose|i: int| 0 <= i < before.len() && #[trigger] before[i] == whole;
            assert(lengths[i] == whole);
        } else {
            assert(lengths[0] == whole);
        }
    }
}

/// A number that is held between two others is the nearest to it that lies between them.
pub proof fn law_held_numbers_are_the_nearest(n: nat, least: nat, most: nat, other: nat)
    requires
        least <= other <= most,
    ensures
        least <= held_between(n, least, most) <= most,
        n <= other ==> n <= held_between(n, least, most) <= other || held_between(n, least, most)
            == n,
        n >= other ==> other <= held_between(n, least, most) <= n,
        least <= n <= most ==> held_between(n, least, most) == n,
{
}

/// The place of the peak is that of the last sample that none exceeds: all behind it are
/// smaller.
pub proof fn law_the_last_peak_counts(samples: Seq<u32>, count: nat, place: int)
    requires
        count <= samples.len(),
        peak_place(samples, count) < place < count,
    ensures
        magnitude(samples[place]) < magnitude(samples[peak_place(samples, count) as int]),
    decreases count,
{
    if count > 1 && place < count - 1 {
        law_the_last_peak_counts(samples, (count - 1) as nat, place);
    }
}

/// The middle of peaks in ascending order is the one in the middle, the later of two; and
/// the order in which the peaks come makes no difference to it.
pub proof fn law_the_middle_is_that_of_the_order(peaks: Seq<usize>, other: Seq<usize>)
    requires
        peaks.to_multiset() == other.to_multiset(),
        forall|i: int, j: int| 0 <= i < j < other.len() ==> other[i] <= other[j],
        other.len() > 0,
    ensures
        peaks.len() == other.len(),
        middle(peaks) == other[(other.len() / 2) as int],
{
    broadcast use vstd::seq_lib::group_to_multiset_ensures;

    assert(total_ordering(ascending()));
    peaks.lemma_sort_by_ensures(ascending());
    assert(sorted_by(other, ascending()));
    vstd::seq_lib::lemma_sorted_unique(peaks.sort_by(ascending()), other, ascending());
    assert(peaks.len() == peaks.to_multiset().len());
    assert(other.len() == other.to_multiset().len());
}

} // verus!
