//! The bookkeeping of convolution, limiting and dither.
//!
//! Peaks stand as the bit patterns of IEEE 754 singles without their sign, whose
//! order is that of the integers.

use crate::error::{AppError, Reason};
use crate::text::{decimal, digits, text_around};
use std::collections::VecDeque;
use vstd::arithmetic::power2::pow2;
use vstd::prelude::*;

verus! {

/// How many frames are convolved at a time.
pub const DEFAULT_CONVOLUTION_BLOCK: usize = 1024;

/// Frames by which the detector of peaks between samples lags.
pub const TRUE_PEAK_LATENCY: usize = 12;

/// Whether a number is a power of two.
pub open spec fn power_of_two(n: nat) -> bool {
    exists|k: nat| #[trigger] pow2(k) == n
}

fn is_power_of_two(n: usize) -> (r: bool)
    ensures
        r == power_of_two(n as nat),
{
    if n == 0 {
        proof {
            assert forall|k: nat| #[trigger] pow2(k) != 0 by {
                vstd::arithmetic::power2::lemma_pow2_pos(k);
            }
        }
        return false;
    }
    let mut rest: usize = n;
    let ghost mut halvings: nat = 0;
    assert(pow2(0) == 1) by {
        vstd::arithmetic::power2::lemma2_to64();
    }
    assert(rest * 1 == rest);
    while rest % 2 == 0
        invariant
            rest > 0,
            n == rest * pow2(halvings),
            power_of_two(n as nat) == power_of_two(rest as nat),
        decreases rest,
    {
        proof {
            let half = (rest / 2) as nat;
            lemma_double_power(half);
            vstd::arithmetic::power2::lemma_pow2_unfold(halvings + 1);
            assert(half * 2 == rest);
            assert(half * (2 * pow2(halvings)) == (half * 2) * pow2(halvings)) by (nonlinear_arith);
            halvings = halvings + 1;
        }
        rest = rest / 2;
    }
    proof {
        if rest == 1 {
            assert(pow2(0) == rest) by {
                vstd::arithmetic::power2::lemma2_to64();
            }
        } else if power_of_two(rest as nat) {
            let k = choose|k: nat| #[trigger] pow2(k) == rest;
            if k > 0 {
                vstd::arithmetic::power2::lemma_pow2_unfold(k);
            } else {
                vstd::arithmetic::power2::lemma2_to64();
            }
        }
    }
    rest == 1
}

proof fn lemma_double_power(half: nat)
    requires
        half > 0,
    ensures
        power_of_two(2 * half) == power_of_two(half),
{
    if power_of_two(half) {
        let k = choose|k: nat| #[trigger] pow2(k) == half;
        vstd::arithmetic::power2::lemma_pow2_unfold(k + 1);
        assert(pow2(k + 1) == 2 * half);
    }
    if power_of_two(2 * half) {
        let k = choose|k: nat| #[trigger] pow2(k) == 2 * half;
        if k == 0 {
            vstd::arithmetic::power2::lemma2_to64();
        } else {
            vstd::arithmetic::power2::lemma_pow2_unfold(k);
            assert(pow2((k - 1) as nat) == half);
        }
    }
}

fn invalid<T>(message: &str) -> (r: Result<T, AppError>)
    ensures
        r is Err,
        r->Err_0 is InvalidHrir,
        r->Err_0.text() == message@,
{
    Err(AppError::InvalidHrir(Reason::Note(String::from_str(message))))
}

/// The parts of a partitioned convolution filter.
#[derive(Clone, Copy, Debug, PartialEq, Eq, Structural)]
pub struct FilterShape {
    pub block_size: usize,
    pub fft_size: usize,
    pub partitions: usize,
    pub bins: usize,
}

/// How many blocks a number of samples fills, the last perhaps in part.
pub open spec fn blocks_of(samples: nat, block: nat) -> nat {
    ((samples + block - 1) / block as int) as nat
}

/// Counts the blocks that a number of samples fills.
pub fn count_blocks(samples: usize, block: usize) -> (r: usize)
    requires
        block > 0,
    ensures
        r == blocks_of(samples as nat, block as nat),
{
    let whole: usize = samples / block;
    let rest: usize = samples % block;
    proof {
        lemma_blocks(samples as nat, block as nat);
    }
    if rest == 0 {
        whole
    } else {
        assert(whole < samples || block == 1) by (nonlinear_arith)
            requires
                whole == samples / block,
                rest == samples % block,
                rest > 0,
                block > 0,
        ;
        whole + 1
    }
}

proof fn lemma_blocks(samples: nat, block: nat)
    requires
        block > 0,
    ensures
        blocks_of(samples, block) == samples / block + (if samples % block == 0 {
            0int
        } else {
            1int
        }),
{
    let whole = samples / block;
    let rest = samples % block;
    assert(samples == whole * block + rest && rest < block) by (nonlinear_arith)
        requires
            whole == samples / block,
            rest == samples % block,
            block > 0,
    ;
    let total = samples + block - 1;
    if rest == 0 {
        assert(total / block as int == whole) by (nonlinear_arith)
            requires
                total == whole * block + block - 1,
                block > 0,
        ;
    } else {
        assert(total / block as int == whole + 1) by (nonlinear_arith)
            requires
                total == whole * block + rest + block - 1,
                0 < rest < block,
        ;
    }
}

/// What keeps two impulse responses from being convolved in blocks.
pub open spec fn filter_fault(left: nat, right: nat, block: nat) -> Option<Seq<char>> {
    if left == 0 || right == 0 {
        Some("HRIR impulses must not be empty"@)
    } else if !power_of_two(block) {
        Some("convolution block size must be a non-zero power of two"@)
    } else {
        None
    }
}

impl FilterShape {
    /// Plans a filter for two impulse responses of these lengths.
    pub fn new(left: usize, right: usize, block_size: usize) -> (r: Result<Self, AppError>)
        requires
            2 * block_size <= usize::MAX,
        ensures
            match filter_fault(left as nat, right as nat, block_size as nat) {
                Some(text) => r is Err && r->Err_0 is InvalidHrir && r->Err_0.text() == text,
                None => {
                    &&& r is Ok
                    &&& r->Ok_0.block_size == block_size
                    &&& r->Ok_0.fft_size == 2 * block_size
                    &&& r->Ok_0.bins == block_size + 1
                    &&& r->Ok_0.partitions == blocks_of(
                        (if left < right {
                            right
                        } else {
                            left
                        }) as nat,
                        block_size as nat,
                    )
                },
            },
    {
        if left == 0 || right == 0 {
            return invalid("HRIR impulses must not be empty");
        }
        if !is_power_of_two(block_size) {
            return invalid("convolution block size must be a non-zero power of two");
        }
        proof {
            assert forall|k: nat| #[trigger] pow2(k) != 0 by {
                vstd::arithmetic::power2::lemma_pow2_pos(k);
            }
        }
        let longest: usize = if left < right {
            right
        } else {
            left
        };
        Ok(
            FilterShape {
                block_size,
                fft_size: 2 * block_size,
                partitions: count_blocks(longest, block_size),
                bins: block_size + 1,
            },
        )
    }

    /// Checks the sizes of an input block and of the two output blocks.
    pub fn check_sizes(&self, samples: usize, left: usize, right: usize) -> (r: Result<
        (),
        AppError,
    >)
        ensures
            samples > self.block_size ==> r is Err && r->Err_0.text()
                == "convolution input has "@ + digits(samples as nat)
                + " samples; block size is "@ + digits(self.block_size as nat),
            samples <= self.block_size && (left != self.block_size || right != self.block_size)
                ==> r is Err && r->Err_0.text()
                == "convolution output buffers do not match the block size"@,
            r is Err ==> r->Err_0 is Render,
            samples <= self.block_size && left == self.block_size && right == self.block_size
                ==> r is Ok,
    {
        if samples > self.block_size {
            let mut message = text_around(
                "convolution input has ",
                samples as u64,
                " samples; block size is ",
            );
            message.append(decimal(self.block_size as u64).as_str());
            return Err(AppError::Render(Reason::Note(message)));
        }
        if left != self.block_size || right != self.block_size {
            return Err(
                AppError::Render(
                    Reason::Note(
                        String::from_str("convolution output buffers do not match the block size"),
                    ),
                ),
            );
        }
        Ok(())
    }
}

/// The filters of a bank, one for each bus.
pub struct BankShape {
    pub block_size: usize,
    pub partitions: Vec<usize>,
}

/// What keeps pairs of impulse responses from being convolved together.
pub open spec fn bank_fault(filters: Seq<(usize, usize)>, block: nat) -> Option<Seq<char>> {
    if !power_of_two(block) {
        Some("convolution block size must be a non-zero power of two"@)
    } else if exists|i: int|
        0 <= i < filters.len() && ((#[trigger] filters[i]).0 == 0 || filters[i].1 == 0) {
        Some("HRIR impulses must not be empty"@)
    } else if filters.len() == 0 {
        Some("binaural convolver bank has no filters"@)
    } else {
        None
    }
}

/// The longer of the two responses of a bus, in blocks.
pub open spec fn bus_partitions(filter: (usize, usize), block: nat) -> nat {
    blocks_of(
        (if filter.0 < filter.1 {
            filter.1
        } else {
            filter.0
        }) as nat,
        block,
    )
}

impl BankShape {
    /// Plans a bank for pairs of responses of these lengths.
    pub fn new(filters: &[(usize, usize)], block_size: usize) -> (r: Result<Self, AppError>)
        requires
            2 * block_size <= usize::MAX,
        ensures
            match bank_fault(filters@, block_size as nat) {
                Some(text) => r is Err && r->Err_0 is InvalidHrir && r->Err_0.text() == text,
                None => {
                    &&& r is Ok
                    &&& r->Ok_0.block_size == block_size
                    &&& r->Ok_0.partitions@.len() == filters@.len()
                    &&& forall|i: int|
                        0 <= i < filters@.len() ==> #[trigger] r->Ok_0.partitions@[i]
                            == bus_partitions(filters@[i], block_size as nat)
                },
            },
    {
        if !is_power_of_two(block_size) {
            return invalid("convolution block size must be a non-zero power of two");
        }
        proof {
            assert forall|k: nat| #[trigger] pow2(k) != 0 by {
                vstd::arithmetic::power2::lemma_pow2_pos(k);
            }
        }
        let mut partitions: Vec<usize> = Vec::new();
        let mut i: usize = 0;
        while i < filters.len()
            invariant
                i <= filters@.len(),
                block_size > 0,
                power_of_two(block_size as nat),
                partitions@.len() == i,
                forall|j: int|
                    0 <= j < i ==> (#[trigger] filters@[j]).0 != 0 && filters@[j].1 != 0,
                forall|j: int|
                    0 <= j < i ==> #[trigger] partitions@[j] == bus_partitions(
                        filters@[j],
                        block_size as nat,
                    ),
            decreases filters@.len() - i,
        {
            let filter: (usize, usize) = filters[i];
            if filter.0 == 0 || filter.1 == 0 {
                assert(filters@[i as int].0 == 0 || filters@[i as int].1 == 0);
                return invalid("HRIR impulses must not be empty");
            }
            let longest: usize = if filter.0 < filter.1 {
                filter.1
            } else {
                filter.0
            };
            partitions.push(count_blocks(longest, block_size));
            i = i + 1;
        }
        if filters.len() == 0 {
            return invalid("binaural convolver bank has no filters");
        }
        Ok(BankShape { block_size, partitions })
    }

    /// Checks the sizes of one block of every bus and of the two output blocks.
    pub fn check_sizes(&self, inputs: &[usize], enabled: usize, left: usize, right: usize) -> (r:
        Result<(), AppError>)
        ensures
            r is Ok == {
                &&& inputs@.len() == self.partitions@.len()
                &&& enabled == self.partitions@.len()
                &&& forall|i: int| 0 <= i < inputs@.len() ==> #[trigger] inputs@[i] == self.block_size
                &&& left == self.block_size
                &&& right == self.block_size
            },
            r is Err ==> r->Err_0 is Render && r->Err_0.text()
                == "binaural convolver bank dimensions do not match"@,
    {
        let buses: usize = self.partitions.len();
        let mut even = inputs.len() == buses && enabled == buses && left == self.block_size
            && right == self.block_size;
        let mut i: usize = 0;
        while i < inputs.len()
            invariant
                i <= inputs@.len(),
                even == {
                    &&& inputs@.len() == self.partitions@.len()
                    &&& enabled == self.partitions@.len()
                    &&& left == self.block_size
                    &&& right == self.block_size
                    &&& forall|j: int| 0 <= j < i ==> #[trigger] inputs@[j] == self.block_size
                },
            decreases inputs@.len() - i,
        {
            if inputs[i] != self.block_size {
                even = false;
            }
            i = i + 1;
        }
        if !even {
            return Err(
                AppError::Render(
                    Reason::Note(
                        String::from_str("binaural convolver bank dimensions do not match"),
                    ),
                ),
            );
        }
        Ok(())
    }
}

/// The place in a ring of the entry of some age, where the head is the newest.
pub open spec fn aged_place(head: nat, length: nat, age: nat) -> nat {
    ((head + length - age) % length as int) as nat
}

/// Finds the place in a ring of the entry of some age.
pub fn ring_place(head: usize, length: usize, age: usize) -> (r: usize)
    requires
        head < length,
        age <= length,
    ensures
        r == aged_place(head as nat, length as nat, age as nat),
        r < length,
{
    proof {
        lemma_aged_place(head as nat, length as nat, age as nat);
    }
    if age <= head {
        head - age
    } else {
        length - (age - head)
    }
}

proof fn lemma_aged_place(head: nat, length: nat, age: nat)
    requires
        head < length,
        age <= length,
    ensures
        aged_place(head, length, age) == (if age <= head {
            head - age
        } else {
            head + length - age
        }),
{
    if age <= head {
        let place = (head - age) as nat;
        assert((place + length) % length == place) by (nonlinear_arith)
            requires
                place < length,
        ;
    } else {
        let place = (head + length - age) as nat;
        assert(place % length == place) by (nonlinear_arith)
            requires
                place < length,
        ;
    }
}

/// The next head of a ring.
pub fn next_head(head: usize, length: usize) -> (r: usize)
    requires
        head < length,
    ensures
        r == (head + 1) % length as int,
        r < length,
{
    if head + 1 == length {
        assert((head + 1) % length as int == 0) by (nonlinear_arith)
            requires
                head + 1 == length,
                length > 0,
        ;
        0
    } else {
        assert((head + 1) % length as int == head + 1) by (nonlinear_arith)
            requires
                head + 1 < length,
        ;
        head + 1
    }
}

/// Entries of different ages stand at different places of a ring.
pub proof fn law_ring_ages_are_distinct(head: nat, length: nat, first: nat, second: nat)
    requires
        head < length,
        first < second < length,
    ensures
        aged_place(head, length, first) != aged_place(head, length, second),
        aged_place(head, length, 0) == head,
{
    lemma_aged_place(head, length, first);
    lemma_aged_place(head, length, second);
    lemma_aged_place(head, length, 0);
}

/// Once the head has moved on, every entry is one block older.
pub proof fn law_a_block_ages_every_entry(head: nat, length: nat, age: nat)
    requires
        head < length,
        age < length,
    ensures
        aged_place(head, length, age) == aged_place((head + 1) % length, length, age + 1),
{
    lemma_aged_place(head, length, age);
    let next = (head + 1) % length;
    if head + 1 == length {
        assert(next == 0) by (nonlinear_arith)
            requires
                next == (head + 1) % length,
                head + 1 == length,
                length > 0,
        ;
    } else {
        assert(next == head + 1) by (nonlinear_arith)
            requires
                next == (head + 1) % length,
                head + 1 < length,
        ;
    }
    lemma_aged_place(next, length, age + 1);
}

/// How many frames the limiter looks ahead at a sample rate: five milliseconds,
/// and the lag of the peak detector.
pub open spec fn lookahead(rate: nat) -> nat {
    let envelope = blocks_of(rate, 200);
    (if envelope == 0 {
        1
    } else {
        envelope
    }) + TRUE_PEAK_LATENCY as nat
}

/// How many frames the limiter looks ahead.
pub fn lookahead_frames(sample_rate: u32) -> (r: usize)
    ensures
        r == lookahead(sample_rate as nat),
{
    let envelope: usize = count_blocks(sample_rate as usize, 200);
    assert(envelope <= 0x0200_0000) by {
        lemma_blocks(sample_rate as nat, 200);
    }
    if envelope == 0 {
        1 + TRUE_PEAK_LATENCY
    } else {
        envelope + TRUE_PEAK_LATENCY
    }
}

/// The largest of the peaks from one place to another.
pub open spec fn largest_peak(peaks: Seq<u32>, start: nat, end: nat) -> nat
    decreases end - start,
{
    if start >= end {
        0
    } else {
        let before = largest_peak(peaks, start, (end - 1) as nat);
        let last = peaks[end - 1] as nat;
        if last > before {
            last
        } else {
            before
        }
    }
}

/// The largest peak among the latest frames. Only those are kept that no later
/// one exceeds.
pub struct PeakWindow {
    pub lookahead: usize,
    pub frame_index: u64,
    /// Frames with their peaks.
    pub window: VecDeque<(u64, u32)>,
    /// All peaks so far.
    pub history: Ghost<Seq<u32>>,
}

impl PeakWindow {
    /// The first frame that still counts.
    pub open spec fn oldest(self) -> nat {
        let seen = self.history@.len();
        if seen > self.lookahead + 1 {
            (seen - self.lookahead - 1) as nat
        } else {
            0
        }
    }

    pub open spec fn wf(self) -> bool {
        let list = self.window@;
        let peaks = self.history@;
        &&& self.frame_index == peaks.len()
        &&& forall|i: int|
            0 <= i < list.len() ==> self.oldest() <= (#[trigger] list[i]).0 < peaks.len()
                && list[i].1 == peaks[list[i].0 as int]
        &&& forall|i: int, j: int|
            0 <= i < j < list.len() ==> (#[trigger] list[i]).0 < (#[trigger] list[j]).0
        &&& peaks.len() > 0 ==> list.len() > 0 && list[list.len() - 1].0 == peaks.len() - 1
        &&& forall|f: int|
            self.oldest() <= f < peaks.len() ==> #[trigger] covered(list, f, peaks[f])
        &&& forall|i: int, j: int|
            0 <= i < j < list.len() ==> (#[trigger] list[i]).1 > (#[trigger] list[j]).1
    }

    pub fn new(lookahead: usize) -> (r: Self)
        ensures
            r.wf(),
            r.lookahead == lookahead,
            r.history@ == Seq::<u32>::empty(),
    {
        PeakWindow {
            lookahead,
            frame_index: 0,
            window: VecDeque::new(),
            history: Ghost(Seq::empty()),
        }
    }

    /// Takes the peak of the next frame, and gives the largest among the latest.
    pub fn push(&mut self, peak: u32) -> (r: u32)
        requires
            old(self).wf(),
            old(self).frame_index < u64::MAX,
            old(self).lookahead < usize::MAX,
        ensures
            final(self).wf(),
            final(self).lookahead == old(self).lookahead,
            final(self).history@ == old(self).history@.push(peak),
            r == largest_peak(
                final(self).history@,
                final(self).oldest(),
                final(self).history@.len(),
            ),
    {
        let ghost start = *self;
        let ghost peaks = self.history@;
        let ghost grown = peaks.push(peak);
        let index: u64 = self.frame_index;
        let mut popping: bool = true;
        while popping
            invariant
                start.wf(),
                peaks == start.history@,
                self.lookahead == start.lookahead,
                self.frame_index == start.frame_index,
                self.history == start.history,
                self.window@.len() <= start.window@.len(),
                self.window@ =~= start.window@.take(self.window@.len() as int),
                forall|i: int|
                    self.window@.len() <= i < start.window@.len() ==> (#[trigger] start.window@[i]).1
                        <= peak,
                !popping ==> self.window@.len() == 0 || self.window@[self.window@.len() - 1].1
                    > peak,
            decreases self.window@.len(), if popping {
                1int
            } else {
                0int
            },
        {
            let count: usize = self.window.len();
            if count == 0 {
                popping = false;
            } else {
                let last: (u64, u32) = self.window[count - 1];
                if last.1 <= peak {
                    let _ = self.window.pop_back();
                    assert(self.window@ =~= start.window@.take(self.window@.len() as int));
                } else {
                    popping = false;
                }
            }
        }
        let ghost kept = self.window@;
        self.window.push_back((index, peak));
        let ghost pushed = self.window@;
        let ahead: u64 = self.lookahead as u64;
        let oldest: u64 = if index > ahead {
            index - ahead
        } else {
            0
        };
        let ghost first = if grown.len() > start.lookahead + 1 {
            (grown.len() - start.lookahead - 1) as nat
        } else {
            0
        };
        assert(oldest == first);
        let ghost mut cut: int = 0;
        let mut dropping: bool = true;
        while dropping
            invariant
                self.lookahead == start.lookahead,
                self.frame_index == start.frame_index,
                self.history == start.history,
                0 <= cut < pushed.len(),
                self.window@ =~= pushed.skip(cut),
                forall|i: int| 0 <= i < cut ==> (#[trigger] pushed[i]).0 < oldest,
                pushed[pushed.len() - 1].0 >= oldest,
                !dropping ==> self.window@[0].0 >= oldest,
            decreases self.window@.len(), if dropping {
                1int
            } else {
                0int
            },
        {
            let head: (u64, u32) = self.window[0];
            assert(head == pushed[cut]);
            if head.0 < oldest {
                let _ = self.window.pop_front();
                proof {
                    cut = cut + 1;
                }
                assert(self.window@ =~= pushed.skip(cut));
            } else {
                dropping = false;
            }
        }
        let largest: u32 = self.window[0].1;
        self.frame_index = index + 1;
        self.history = Ghost(grown);
        proof {
            lemma_window_step(start, peak, kept, pushed, cut, first);
            assert(self.window@ =~= pushed.skip(cut));
            assert(self.oldest() == first);
            lemma_window_maximum(self.window@, grown, first, grown.len());
        }
        largest
    }
}

/// Whether some kept entry at or behind a frame is at least as large.
pub open spec fn covered(list: Seq<(u64, u32)>, frame: int, peak: u32) -> bool {
    exists|i: int|
        0 <= i < list.len() && (#[trigger] list[i]).0 >= frame && list[i].1 >= peak
}

proof fn lemma_window_step(
    start: PeakWindow,
    peak: u32,
    kept: Seq<(u64, u32)>,
    pushed: Seq<(u64, u32)>,
    cut: int,
    first: nat,
)
    requires
        start.wf(),
        start.frame_index < u64::MAX,
        kept.len() <= start.window@.len(),
        kept == start.window@.take(kept.len() as int),
        forall|i: int|
            kept.len() <= i < start.window@.len() ==> (#[trigger] start.window@[i]).1 <= peak,
        kept.len() == 0 || kept[kept.len() - 1].1 > peak,
        pushed == kept.push((start.frame_index, peak)),
        0 <= cut < pushed.len(),
        forall|i: int| 0 <= i < cut ==> (#[trigger] pushed[i]).0 < first,
        pushed[cut].0 >= first,
        first >= start.oldest(),
        first <= start.history@.len(),
    ensures
        ({
            let list = pushed.skip(cut);
            let grown = start.history@.push(peak);
            &&& list.len() > 0 && list[list.len() - 1].0 == grown.len() - 1
            &&& forall|i: int|
                0 <= i < list.len() ==> first <= (#[trigger] list[i]).0 < grown.len() && list[i].1
                    == grown[list[i].0 as int]
            &&& forall|i: int, j: int|
                0 <= i < j < list.len() ==> (#[trigger] list[i]).0 < (#[trigger] list[j]).0
            &&& forall|i: int, j: int|
                0 <= i < j < list.len() ==> (#[trigger] list[i]).1 > (#[trigger] list[j]).1
            &&& forall|f: int| first <= f < grown.len() ==> #[trigger] covered(list, f, grown[f])
        }),
{
    let list = pushed.skip(cut);
    let grown = start.history@.push(peak);
    let last = list.len() - 1;
    assert(list[last] == pushed[pushed.len() - 1]);
    assert forall|i: int| 0 <= i < list.len() implies first <= (#[trigger] list[i]).0
        < grown.len() && list[i].1 == grown[list[i].0 as int] by {
        assert(list[i] == pushed[cut + i]);
        if cut + i < kept.len() {
            assert(pushed[cut + i] == start.window@[cut + i]);
            if i > 0 {
                assert(pushed[cut] == start.window@[cut]);
                assert(start.window@[cut].0 < start.window@[cut + i].0);
            }
        }
    }
    assert forall|i: int, j: int| 0 <= i < j < list.len() implies (#[trigger] list[i]).0 < (
    #[trigger] list[j]).0 by {
        assert(list[i] == pushed[cut + i]);
        assert(list[j] == pushed[cut + j]);
        assert(pushed[cut + i] == start.window@[cut + i]);
        if cut + j < kept.len() {
            assert(pushed[cut + j] == start.window@[cut + j]);
        }
    }
    assert forall|i: int, j: int| 0 <= i < j < list.len() implies (#[trigger] list[i]).1 > (
    #[trigger] list[j]).1 by {
        assert(list[i] == pushed[cut + i]);
        assert(list[j] == pushed[cut + j]);
        assert(pushed[cut + i] == start.window@[cut + i]);
        if cut + j < kept.len() {
            assert(pushed[cut + j] == start.window@[cut + j]);
        } else {
            assert(kept[kept.len() - 1] == start.window@[kept.len() - 1]);
            if cut + i < kept.len() - 1 {
                assert(start.window@[cut + i].1 > start.window@[kept.len() - 1].1);
            }
        }
    }
    assert forall|f: int| first <= f < grown.len() implies #[trigger] covered(list, f, grown[f]) by {
        if f == grown.len() - 1 {
            assert(list[last].0 >= f && list[last].1 >= grown[f]);
        } else {
            assert(covered(start.window@, f, start.history@[f]));
            let i = choose|i: int|
                0 <= i < start.window@.len() && (#[trigger] start.window@[i]).0 >= f
                    && start.window@[i].1 >= start.history@[f];
            if i < kept.len() {
                assert(pushed[i] == start.window@[i]);
                assert(i >= cut) by {
                    if i < cut {
                        assert(pushed[i].0 < first);
                    }
                }
                assert(list[i - cut] == pushed[i]);
            } else {
                assert(start.window@[i].1 <= peak);
                assert(list[last].0 >= f && list[last].1 >= grown[f]);
            }
        }
    }
}

proof fn lemma_window_maximum(list: Seq<(u64, u32)>, peaks: Seq<u32>, start: nat, end: nat)
    requires
        end <= peaks.len(),
        list.len() > 0,
        start < end,
        start <= list[0].0 < end,
        list[0].1 == peaks[list[0].0 as int],
        forall|i: int, j: int|
            0 <= i < j < list.len() ==> (#[trigger] list[i]).1 > (#[trigger] list[j]).1,
        forall|f: int| start <= f < end ==> #[trigger] covered(list, f, peaks[f]),
    ensures
        list[0].1 == largest_peak(peaks, start, end),
{
    assert forall|f: int| start <= f < end implies peaks[f] <= list[0].1 by {
        assert(covered(list, f, peaks[f]));
        let i = choose|i: int|
            0 <= i < list.len() && (#[trigger] list[i]).0 >= f && list[i].1 >= peaks[f];
        if i > 0 {
            assert(list[0].1 > list[i].1);
        }
    }
    lemma_largest(peaks, start, end, list[0].0 as nat);
}

proof fn lemma_largest(peaks: Seq<u32>, start: nat, end: nat, place: nat)
    requires
        start <= place < end <= peaks.len(),
        forall|f: int| start <= f < end ==> peaks[f] <= peaks[place as int],
    ensures
        largest_peak(peaks, start, end) == peaks[place as int],
    decreases end - start,
{
    if place == end - 1 {
        lemma_below(peaks, start, (end - 1) as nat, peaks[place as int] as nat);
    } else {
        lemma_largest(peaks, start, (end - 1) as nat, place);
    }
}

proof fn lemma_below(peaks: Seq<u32>, start: nat, end: nat, bound: nat)
    requires
        end <= peaks.len(),
        forall|f: int| start <= f < end ==> peaks[f] <= bound,
    ensures
        largest_peak(peaks, start, end) <= bound,
    decreases end - start,
{
    if start < end {
        lemma_below(peaks, start, (end - 1) as nat, bound);
    }
}

/// Holds frames back for the limiter.
pub struct Lookahead {
    pub size: usize,
    pub frames: VecDeque<(u32, u32)>,
}

impl Lookahead {
    pub open spec fn wf(self) -> bool {
        self.frames@.len() <= self.size < usize::MAX
    }

    pub fn new(size: usize) -> (r: Self)
        requires
            size < usize::MAX,
        ensures
            r.wf(),
            r.size == size,
            r.frames@ == Seq::<(u32, u32)>::empty(),
    {
        Lookahead { size, frames: VecDeque::new() }
    }

    /// Takes a frame, and gives the one that has waited long enough.
    pub fn push(&mut self, frame: (u32, u32)) -> (r: Option<(u32, u32)>)
        requires
            old(self).wf(),
        ensures
            final(self).wf(),
            final(self).size == old(self).size,
            old(self).frames@.len() < old(self).size ==> r is None && final(self).frames@ == old(self).frames@.push(frame),
            old(self).frames@.len() == old(self).size ==> r == Some(
                old(self).frames@.push(frame)[0],
            ) && final(self).frames@ == old(self).frames@.push(frame).skip(1),
    {
        let ghost before = self.frames@;
        self.frames.push_back(frame);
        if self.frames.len() > self.size {
            let due = self.frames.pop_front();
            assert(self.frames@ =~= before.push(frame).skip(1));
            due
        } else {
            None
        }
    }
}

/// The frames that come out while others go in, and those that then wait.
pub open spec fn passed_through(waiting: Seq<(u32, u32)>, size: nat, added: Seq<(u32, u32)>, count: nat) -> (
    Seq<(u32, u32)>,
    Seq<(u32, u32)>,
)
    decreases count,
{
    if count == 0 {
        (seq![], waiting)
    } else {
        let (out, held) = passed_through(waiting, size, added, (count - 1) as nat);
        let grown = held.push(added[count - 1]);
        if grown.len() > size {
            (out.push(grown[0]), grown.skip(1))
        } else {
            (out, grown)
        }
    }
}

/// Frames come out in the order in which they went in: what came out and what
/// waits is what waited and what went in.
pub proof fn law_lookahead_keeps_the_order(
    waiting: Seq<(u32, u32)>,
    size: nat,
    added: Seq<(u32, u32)>,
    count: nat,
)
    requires
        waiting.len() <= size,
        count <= added.len(),
    ensures
        ({
            let (out, held) = passed_through(waiting, size, added, count);
            &&& out + held == waiting + added.take(count as int)
            &&& waiting.len() + count >= size ==> held.len() == size
            &&& waiting.len() + count < size ==> held.len() == waiting.len() + count
        }),
    decreases count,
{
    if count == 0 {
        assert(Seq::<(u32, u32)>::empty() + waiting =~= waiting + added.take(0));
    } else {
        law_lookahead_keeps_the_order(waiting, size, added, (count - 1) as nat);
        let (out, held) = passed_through(waiting, size, added, (count - 1) as nat);
        let grown = held.push(added[count - 1]);
        let whole = waiting + added.take(count as int);
        assert(whole =~= (waiting + added.take(count - 1)).push(added[count - 1]));
        assert(out + grown =~= whole);
        if grown.len() > size {
            assert(out.push(grown[0]) + grown.skip(1) =~= whole);
        }
    }
}

/// As many further frames as are held back bring out everything that waited.
pub proof fn law_draining_brings_everything_out(
    waiting: Seq<(u32, u32)>,
    silence: Seq<(u32, u32)>,
)
    ensures
        passed_through(waiting, waiting.len(), silence, silence.len()).0.len() == silence.len(),
        silence.len() == waiting.len() ==> passed_through(
            waiting,
            waiting.len(),
            silence,
            silence.len(),
        ).0 == waiting,
{
    let size = waiting.len();
    law_lookahead_keeps_the_order(waiting, size, silence, silence.len());
    let (out, held) = passed_through(waiting, size, silence, silence.len());
    assert(silence.take(silence.len() as int) =~= silence);
    assert((out + held).len() == waiting.len() + silence.len());
    if silence.len() == waiting.len() {
        assert((out + held).take(size as int) =~= out);
        assert((waiting + silence).take(size as int) =~= waiting);
    }
}

/// A source of triangular noise that always gives the same numbers.
#[derive(Clone, Copy, Debug, PartialEq, Eq, Structural)]
pub struct TpdfDither {
    pub state: u64,
}

impl Default for TpdfDither {
    fn default() -> (r: Self)
        ensures
            r.state == 0x6a09_e667_f3bc_c909,
    {
        TpdfDither { state: 0x6a09_e667_f3bc_c909 }
    }
}

/// The state behind another.
pub open spec fn stirred(state: u64) -> u64 {
    let first = state ^ (state << 13);
    let second = first ^ (first >> 7);
    second ^ (second << 17)
}

impl TpdfDither {
    /// The next number below two to the power of 24.
    pub fn uniform(&mut self) -> (r: u32)
        ensures
            final(self).state == stirred(old(self).state),
            r == (stirred(old(self).state) >> 40),
            r < 0x100_0000,
    {
        let first: u64 = self.state ^ (self.state << 13);
        let second: u64 = first ^ (first >> 7);
        let third: u64 = second ^ (second << 17);
        self.state = third;
        assert(third >> 40 < 0x100_0000) by (bit_vector);
        (third >> 40) as u32
    }

    /// The difference of two numbers: noise of a triangular distribution, in
    /// units of two to the power of minus 24.
    pub fn noise(&mut self) -> (r: i32)
        ensures
            final(self).state == stirred(stirred(old(self).state)),
            r == (stirred(old(self).state) >> 40) - (stirred(stirred(old(self).state)) >> 40),
            -0x100_0000 < r < 0x100_0000,
    {
        let first: u32 = self.uniform();
        let second: u32 = self.uniform();
        first as i32 - second as i32
    }
}

/// The source of noise never runs dry.
pub proof fn law_dither_never_stops(state: u64)
    requires
        state != 0,
    ensures
        stirred(state) != 0,
{
    let first = state ^ (state << 13);
    let second = first ^ (first >> 7);
    assert(state != 0 ==> (state ^ (state << 13)) != 0) by (bit_vector);
    assert(first != 0 ==> (first ^ (first >> 7)) != 0) by (bit_vector);
    assert(second != 0 ==> (second ^ (second << 17)) != 0) by (bit_vector);
}

/// Blocks hold all samples, and the last of them is not empty.
pub proof fn law_blocks_hold_all_samples(samples: nat, block: nat)
    requires
        block > 0,
    ensures
        samples <= blocks_of(samples, block) * block < samples + block,
{
    let whole = samples + block - 1;
    let count = whole / block as int;
    assert(0 <= count && samples <= count * block < samples + block) by (nonlinear_arith)
        requires
            whole == samples + block - 1,
            count == whole / block as int,
            block > 0,
            samples >= 0,
    ;
}

/// A pair of responses can be convolved exactly where neither is empty and the block is a
/// power of two; a bank of filters exactly where it has one and each of them can.
pub proof fn law_filters_have_two_ears_and_a_round_block(filters: Seq<(usize, usize)>, block: nat)
    ensures
        forall|left: nat, right: nat| #[trigger]
            filter_fault(left, right, block) is None <==> left > 0 && right > 0 && power_of_two(
                block,
            ),
        bank_fault(filters, block) is None <==> filters.len() > 0 && forall|i: int|
            0 <= i < filters.len() ==> filter_fault(
                (#[trigger] filters[i]).0 as nat,
                filters[i].1 as nat,
                block,
            ) is None,
{
    if bank_fault(filters, block) is None {
        assert forall|i: int| 0 <= i < filters.len() implies filter_fault(
            (#[trigger] filters[i]).0 as nat,
            filters[i].1 as nat,
            block,
        ) is None by {
            assert(!(filters[i].0 == 0 || filters[i].1 == 0));
        }
    }
    if filters.len() > 0 && forall|i: int|
        0 <= i < filters.len() ==> filter_fault(
            (#[trigger] filters[i]).0 as nat,
            filters[i].1 as nat,
            block,
        ) is None {
        assert(filter_fault(filters[0].0 as nat, filters[0].1 as nat, block) is None);
        assert(!exists|i: int|
            0 <= i < filters.len() && ((#[trigger] filters[i]).0 == 0 || filters[i].1 == 0)) by {
            if exists|i: int|
                0 <= i < filters.len() && ((#[trigger] filters[i]).0 == 0 || filters[i].1 == 0) {
                let i = choose|i: int|
                    0 <= i < filters.len() && ((#[trigger] filters[i]).0 == 0 || filters[i].1
                        == 0);
                assert(filter_fault(filters[i].0 as nat, filters[i].1 as nat, block) is None);
            }
        }
    }
}

/// The partitions of a bus hold the responses of both ears, and without the last of them
/// one ear would not have room; the ears count alike.
pub proof fn law_partitions_hold_the_longer_ear(left: usize, right: usize, block: nat)
    requires
        block > 0,
    ensures
        ({
            let parts = bus_partitions((left, right), block);
            &&& left <= parts * block && right <= parts * block
            &&& parts > 0 ==> left > (parts - 1) * block || right > (parts - 1) * block
            &&& parts == bus_partitions((right, left), block)
        }),
{
    law_blocks_hold_all_samples(left as nat, block);
    law_blocks_hold_all_samples(right as nat, block);
    let parts = bus_partitions((left, right), block) as int;
    assert((parts - 1) * block == parts * block - block) by (nonlinear_arith);
}

/// The limiter looks ahead by five milliseconds, rounded up to whole frames and one at
/// least, and by as many frames more as its detector lags.
pub proof fn law_the_limiter_looks_five_milliseconds_ahead(rate: nat)
    ensures
        rate > 0 ==> rate <= 200 * (lookahead(rate) - TRUE_PEAK_LATENCY) < rate + 200,
        lookahead(rate) >= TRUE_PEAK_LATENCY + 1,
        lookahead(rate + 200) == lookahead(rate) + 1 || rate == 0,
{
}

/// The largest of some peaks is one of them, and none of them is larger; of none it is
/// zero.
pub proof fn law_the_largest_peak_is_among_them(peaks: Seq<u32>, start: nat, end: nat)
    requires
        end <= peaks.len(),
    ensures
        forall|i: int| start <= i < end ==> #[trigger] peaks[i] <= largest_peak(peaks, start, end),
        start < end ==> exists|i: int|
            start <= i < end && #[trigger] peaks[i] == largest_peak(peaks, start, end),
        start >= end ==> largest_peak(peaks, start, end) == 0,
    decreases end,
{
    if start < end {
        law_the_largest_peak_is_among_them(peaks, start, (end - 1) as nat);
        let whole = largest_peak(peaks, start, end);
        assert(whole >= peaks[end - 1]);
        if whole != peaks[end - 1] {
            let i = choose|i: int|
                start <= i < end - 1 && #[trigger] peaks[i] == largest_peak(
                    peaks,
                    start,
                    (end - 1) as nat,
                );
            assert(peaks[i] == whole);
        } else {
            assert(peaks[end - 1] == whole);
        }
    }
}

/// A stir of the dither mixes a number with its 2^13-fold, what comes of it with its
/// quotient by 2^7, and that with its 2^17-fold, all within sixty-four bits.
pub proof fn law_dither_mixes_multiples(state: u64)
    ensures
        ({
            let first = state ^ ((state as u128 * 8192) % 0x1_0000_0000_0000_0000) as u64;
            let second = first ^ (first / 128);
            stirred(state) == second ^ ((second as u128 * 131072) % 0x1_0000_0000_0000_0000) as u64
        }),
{
    let first = state ^ (state << 13);
    let second = first ^ (first >> 7);
    assert(state << 13 == ((state as u128 * 8192) % 0x1_0000_0000_0000_0000) as u64)
        by (bit_vector);
    assert(first >> 7 == first / 128) by (bit_vector);
    assert(second << 17 == ((second as u128 * 131072) % 0x1_0000_0000_0000_0000) as u64)
        by (bit_vector);
}

} // verus!
