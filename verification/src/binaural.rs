//! The virtual-speaker buses of the binaural renderer, and its accounts of frames.

use crate::dsp::{blocks_of, count_blocks, DEFAULT_CONVOLUTION_BLOCK};
use crate::error::{AppError, Reason};
use crate::hrir::{serving_place, HrirSet};
use crate::object_render::{longest, longest_tail};
use crate::room::RoomCorrection;
use crate::speaker::{holds, Speaker};
use crate::text::{around, decimal, digits, text_around, text_pair};
use vstd::prelude::*;

verus! {

fn render_fault<T>(message: String) -> (r: Result<T, AppError>)
    ensures
        r is Err,
        r->Err_0 is Render,
        r->Err_0.text() == message@,
{
    Err(AppError::Render(Reason::Note(message)))
}

/// The speakers of a list, each where it first occurs.
pub open spec fn distinct(list: Seq<Speaker>) -> Seq<Speaker>
    decreases list.len(),
{
    if list.len() == 0 {
        seq![]
    } else {
        let before = distinct(list.drop_last());
        if before.contains(list.last()) {
            before
        } else {
            before.push(list.last())
        }
    }
}

/// The buses for some speakers: each once, and one for low-frequency effects.
pub open spec fn bus_speakers(list: Seq<Speaker>) -> Seq<Speaker> {
    let once = distinct(list);
    if once.contains(Speaker::Lfe) {
        once
    } else {
        once.push(Speaker::Lfe)
    }
}

/// Lists the buses for some speakers.
pub fn virtual_speakers(list: &[Speaker]) -> (r: Result<Vec<Speaker>, AppError>)
    ensures
        list@.len() > 0 ==> r is Ok && r->Ok_0@ == bus_speakers(list@),
        list@.len() == 0 ==> r is Err && r->Err_0 is Render && r->Err_0.text()
            == "binaural renderer has no virtual speaker buses"@,
{
    if list.len() == 0 {
        return render_fault(String::from_str("binaural renderer has no virtual speaker buses"));
    }
    let mut once: Vec<Speaker> = Vec::new();
    let mut i: usize = 0;
    while i < list.len()
        invariant
            i <= list@.len(),
            once@ == distinct(list@.take(i as int)),
        decreases list@.len() - i,
    {
        assert(list@.take(i + 1).drop_last() =~= list@.take(i as int));
        if !holds(once.as_slice(), list[i]) {
            once.push(list[i]);
        }
        i = i + 1;
    }
    assert(list@.take(list@.len() as int) =~= list@);
    if !holds(once.as_slice(), Speaker::Lfe) {
        once.push(Speaker::Lfe);
    }
    Ok(once)
}

proof fn lemma_distinct(list: Seq<Speaker>)
    ensures
        distinct(list).no_duplicates(),
        forall|s: Speaker| distinct(list).contains(s) == #[trigger] list.contains(s),
    decreases list.len(),
{
    if list.len() > 0 {
        let front = list.drop_last();
        let before = distinct(front);
        lemma_distinct(front);
        assert(list =~= front.push(list.last()));
        assert forall|s: Speaker| distinct(list).contains(s) == #[trigger] list.contains(s) by {
            lemma_push_contains(front, list.last(), s);
            lemma_push_contains(before, list.last(), s);
            assert(before.contains(s) == front.contains(s));
        }
    }
}

proof fn lemma_push_contains(list: Seq<Speaker>, item: Speaker, wanted: Speaker)
    ensures
        list.push(item).contains(wanted) == (list.contains(wanted) || item == wanted),
{
    let grown = list.push(item);
    if list.contains(wanted) {
        let i = choose|i: int| 0 <= i < list.len() && list[i] == wanted;
        assert(grown[i] == wanted);
    }
    if item == wanted {
        assert(grown[list.len() as int] == wanted);
    }
    if grown.contains(wanted) && item != wanted {
        let i = choose|i: int| 0 <= i < grown.len() && grown[i] == wanted;
        assert(list[i] == wanted);
    }
}

/// Every speaker asked for has exactly one bus, and so have the low-frequency
/// effects.
pub proof fn law_every_speaker_has_one_bus(list: Seq<Speaker>, speaker: Speaker)
    ensures
        bus_speakers(list).no_duplicates(),
        bus_speakers(list).contains(speaker) == (list.contains(speaker) || speaker == Speaker::Lfe),
{
    lemma_distinct(list);
    let once = distinct(list);
    assert(once.contains(speaker) == list.contains(speaker));
    assert(once.contains(Speaker::Lfe) == list.contains(Speaker::Lfe));
    if !once.contains(Speaker::Lfe) {
        lemma_push_contains(once, Speaker::Lfe, speaker);
        let grown = once.push(Speaker::Lfe);
        assert forall|i: int, j: int| 0 <= i < grown.len() && 0 <= j < grown.len() && i
            != j implies grown[i] != grown[j] by {
            if i < once.len() && j == once.len() {
                assert(once.contains(grown[i]));
            }
            if j < once.len() && i == once.len() {
                assert(once.contains(grown[j]));
            }
        }
    }
}

/// What a bus plays, for an object that is panned to it.
#[derive(Clone, Copy, Debug, PartialEq, Eq, Structural)]
pub enum RouteSource {
    Speaker { speaker: Speaker },
    /// A further direction of the profile.
    Direction { place: usize },
}

/// A bus that objects can be panned to.
#[derive(Clone, Copy, Debug, PartialEq, Eq, Structural)]
pub struct PlannedRoute {
    pub index: usize,
    pub source: RouteSource,
}

/// The longer of two impulse responses.
pub open spec fn longer(left: nat, right: nat) -> nat {
    if left < right {
        right
    } else {
        left
    }
}

fn longer_of(left: usize, right: usize) -> (r: usize)
    ensures
        r == longer(left as nat, right as nat),
{
    if left < right {
        right
    } else {
        left
    }
}

/// The length of the impulse response of a bus for a speaker.
pub open spec fn speaker_impulse(hrir: HrirSet, speaker: Speaker) -> Option<nat> {
    if speaker == Speaker::Lfe {
        Some(1)
    } else {
        match serving_place(hrir.channels@, speaker) {
            None => None,
            Some(place) => {
                let channel = hrir.channels@[place as int];
                Some(longer(channel.left@.len(), channel.right@.len()))
            },
        }
    }
}

/// The length of the impulse response of a further direction.
pub open spec fn direction_impulse(hrir: HrirSet, place: nat) -> nat {
    let direction = hrir.directional@[place as int];
    longer(direction.left@.len(), direction.right@.len())
}

/// The first speaker from one on that the profile cannot serve.
pub open spec fn unserved(hrir: HrirSet, speakers: Seq<Speaker>, start: nat) -> Option<Speaker>
    decreases speakers.len() - start,
{
    if start >= speakers.len() {
        None
    } else if speaker_impulse(hrir, speakers[start as int]) is None {
        Some(speakers[start as int])
    } else {
        unserved(hrir, speakers, start + 1)
    }
}

/// The length of the impulse response of each bus: first the speakers, then the
/// further directions.
pub open spec fn impulse_lengths(hrir: HrirSet, speakers: Seq<Speaker>) -> Seq<nat> {
    Seq::new(
        speakers.len() + hrir.directional@.len(),
        |i: int|
            if i < speakers.len() {
                speaker_impulse(hrir, speakers[i])->0
            } else {
                direction_impulse(hrir, (i - speakers.len()) as nat)
            },
    )
}

/// The longest of some impulse responses, and at least one sample.
pub open spec fn longest_impulse(lengths: Seq<nat>) -> nat
    decreases lengths.len(),
{
    if lengths.len() == 0 {
        1
    } else {
        longer(longest_impulse(lengths.drop_last()), lengths.last())
    }
}

/// How many blocks a bus rings on after its last input.
pub open spec fn tail_blocks_of(length: nat) -> nat {
    blocks_of(
        if length == 0 {
            0
        } else {
            (length - 1) as nat
        },
        DEFAULT_CONVOLUTION_BLOCK as nat,
    )
}

/// How many blocks a bus rings on after its last input.
pub fn convolution_tail_blocks(impulse_length: usize) -> (r: usize)
    ensures
        r == tail_blocks_of(impulse_length as nat),
{
    if impulse_length == 0 {
        return count_blocks(0, DEFAULT_CONVOLUTION_BLOCK);
    }
    count_blocks(impulse_length - 1, DEFAULT_CONVOLUTION_BLOCK)
}

/// The routes among the first buses.
pub open spec fn planned_routes(speakers: Seq<Speaker>, count: nat) -> Seq<PlannedRoute>
    decreases count,
{
    if count == 0 {
        seq![]
    } else {
        let before = planned_routes(speakers, (count - 1) as nat);
        let index = count - 1;
        if index >= speakers.len() {
            before.push(
                PlannedRoute {
                    index: index as usize,
                    source: RouteSource::Direction { place: (index - speakers.len()) as usize },
                },
            )
        } else if speakers[index] == Speaker::Lfe {
            before
        } else {
            before.push(
                PlannedRoute {
                    index: index as usize,
                    source: RouteSource::Speaker { speaker: speakers[index] },
                },
            )
        }
    }
}

/// The buses of a renderer.
pub struct BusLayout {
    pub lengths: Vec<usize>,
    pub tail_blocks: Vec<usize>,
    pub routes: Vec<PlannedRoute>,
    pub maximum_impulse: usize,
}

/// The numbers of a list.
pub open spec fn numbers(list: Seq<usize>) -> Seq<nat> {
    list.map_values(|n: usize| n as nat)
}

impl BusLayout {
    /// The tails and the longest response are those of the lengths.
    pub open spec fn wf(self) -> bool {
        &&& self.tail_blocks@.len() == self.lengths@.len()
        &&& forall|i: int|
            0 <= i < self.lengths@.len() ==> #[trigger] self.tail_blocks@[i] == tail_blocks_of(
                self.lengths@[i] as nat,
            )
        &&& self.maximum_impulse >= longest_impulse(numbers(self.lengths@))
    }

    /// Plans the buses for some speakers and the further directions.
    pub fn new(hrir: &HrirSet, speakers: &[Speaker]) -> (r: Result<Self, AppError>)
        requires
            speakers@.len() + hrir.directional@.len() <= usize::MAX,
        ensures
            match unserved(*hrir, speakers@, 0) {
                Some(speaker) => r is Err && r->Err_0 is InvalidHrir && r->Err_0.text()
                    == "HRIR has no usable response for "@ + speaker.label(),
                None => {
                    &&& r is Ok
                    &&& r->Ok_0.wf()
                    &&& numbers(r->Ok_0.lengths@) == impulse_lengths(*hrir, speakers@)
                    &&& r->Ok_0.maximum_impulse == longest_impulse(
                        impulse_lengths(*hrir, speakers@),
                    )
                    &&& r->Ok_0.routes@ == planned_routes(
                        speakers@,
                        speakers@.len() + hrir.directional@.len(),
                    )
                },
            },
    {
        let mut lengths: Vec<usize> = Vec::new();
        let mut routes: Vec<PlannedRoute> = Vec::new();
        let ghost wanted = impulse_lengths(*hrir, speakers@);
        let mut i: usize = 0;
        while i < speakers.len()
            invariant
                i <= speakers@.len(),
                speakers@.len() + hrir.directional@.len() <= usize::MAX,
                wanted == impulse_lengths(*hrir, speakers@),
                lengths@.len() == i,
                numbers(lengths@) =~= wanted.take(i as int),
                routes@ == planned_routes(speakers@, i as nat),
                unserved(*hrir, speakers@, 0) == unserved(*hrir, speakers@, i as nat),
            decreases speakers@.len() - i,
        {
            let speaker: Speaker = speakers[i];
            let length: usize = if speaker == Speaker::Lfe {
                1
            } else {
                match hrir.channel(speaker) {
                    None => {
                        return Err(
                            AppError::InvalidHrir(
                                Reason::Note(
                                    text_pair("HRIR has no usable response for ", speaker.name()),
                                ),
                            ),
                        );
                    },
                    Some(channel) => longer_of(channel.left.len(), channel.right.len()),
                }
            };
            assert(speaker_impulse(*hrir, speaker) == Some(length as nat));
            if speaker != Speaker::Lfe {
                routes.push(PlannedRoute { index: i, source: RouteSource::Speaker { speaker } });
            }
            let ghost before = lengths@;
            lengths.push(length);
            assert(numbers(lengths@) =~= numbers(before).push(length as nat));
            i = i + 1;
        }
        let mut place: usize = 0;
        while place < hrir.directional.len()
            invariant
                place <= hrir.directional@.len(),
                speakers@.len() + hrir.directional@.len() <= usize::MAX,
                wanted == impulse_lengths(*hrir, speakers@),
                lengths@.len() == speakers@.len() + place,
                numbers(lengths@) =~= wanted.take(speakers@.len() + place),
                routes@ == planned_routes(speakers@, speakers@.len() + place as nat),
            decreases hrir.directional@.len() - place,
        {
            let index: usize = lengths.len();
            let length: usize = longer_of(
                hrir.directional[place].left.len(),
                hrir.directional[place].right.len(),
            );
            routes.push(PlannedRoute { index, source: RouteSource::Direction { place } });
            let ghost before = lengths@;
            lengths.push(length);
            assert(numbers(lengths@) =~= numbers(before).push(length as nat));
            place = place + 1;
            assert(planned_routes(speakers@, speakers@.len() + place as nat) == planned_routes(
                speakers@,
                (speakers@.len() + place - 1) as nat,
            ).push(PlannedRoute { index, source: RouteSource::Direction { place: (place - 1) as usize } }));
        }
        assert(wanted.take(wanted.len() as int) =~= wanted);
        let (tail_blocks, maximum_impulse) = measure(lengths.as_slice(), 1);
        proof {
            lemma_longest_impulse(numbers(lengths@));
        }
        Ok(BusLayout { lengths, tail_blocks, routes, maximum_impulse })
    }

    /// Takes over the lengths of responses that have been reshaped. The longest
    /// response before counts too.
    pub fn reshape(&mut self, lengths: Vec<usize>)
        requires
            old(self).wf(),
            lengths@.len() == old(self).lengths@.len(),
        ensures
            final(self).wf(),
            final(self).lengths@ == lengths@,
            final(self).routes@ == old(self).routes@,
            final(self).maximum_impulse == longer(
                old(self).maximum_impulse as nat,
                longest_impulse(numbers(lengths@)),
            ),
    {
        proof {
            lemma_longest_impulse(numbers(self.lengths@));
            lemma_longest_impulse(numbers(lengths@));
        }
        let (tail_blocks, maximum) = measure(lengths.as_slice(), self.maximum_impulse);
        self.tail_blocks = tail_blocks;
        self.maximum_impulse = maximum;
        self.lengths = lengths;
    }

    /// How many frames the output goes on after the input, with the correction
    /// of a room.
    pub fn tail_frames(&self, correction: &Option<RoomCorrection>) -> (r: u64)
        ensures
            r == tail_of(
                self.maximum_impulse as nat,
                match *correction {
                    None => 0,
                    Some(c) => longer(c.left@.len(), c.right@.len()),
                },
            ),
    {
        let first: usize = self.maximum_impulse.saturating_sub(1);
        let second: usize = match correction {
            None => 0,
            Some(correction) => longer_of(correction.left.len(), correction.right.len())
                .saturating_sub(1),
        };
        first.saturating_add(second) as u64
    }
}

/// The tail of two filters behind each other.
pub open spec fn tail_of(impulse: nat, correction: nat) -> nat {
    let first = if impulse == 0 {
        0
    } else {
        (impulse - 1) as nat
    };
    let second = if correction == 0 {
        0
    } else {
        (correction - 1) as nat
    };
    if first + second > usize::MAX {
        usize::MAX as nat
    } else {
        first + second
    }
}

proof fn lemma_longest_impulse(lengths: Seq<nat>)
    ensures
        longest_impulse(lengths) >= 1,
    decreases lengths.len(),
{
    if lengths.len() > 0 {
        lemma_longest_impulse(lengths.drop_last());
    }
}

fn measure(lengths: &[usize], floor: usize) -> (r: (Vec<usize>, usize))
    requires
        floor >= 1,
    ensures
        r.0@.len() == lengths@.len(),
        forall|i: int|
            0 <= i < lengths@.len() ==> #[trigger] r.0@[i] == tail_blocks_of(lengths@[i] as nat),
        r.1 == longer(floor as nat, longest_impulse(numbers(lengths@))),
{
    let mut tails: Vec<usize> = Vec::new();
    let mut maximum: usize = floor;
    let mut i: usize = 0;
    assert(numbers(lengths@.take(0)) =~= Seq::<nat>::empty());
    while i < lengths.len()
        invariant
            i <= lengths@.len(),
            floor >= 1,
            tails@.len() == i,
            forall|j: int|
                0 <= j < i ==> #[trigger] tails@[j] == tail_blocks_of(lengths@[j] as nat),
            maximum == longer(floor as nat, longest_impulse(numbers(lengths@.take(i as int)))),
        decreases lengths@.len() - i,
    {
        tails.push(convolution_tail_blocks(lengths[i]));
        proof {
            let next = numbers(lengths@.take(i + 1));
            assert(next.drop_last() =~= numbers(lengths@.take(i as int)));
            assert(next.last() == lengths@[i as int] as nat);
        }
        maximum = longer_of(maximum, lengths[i]);
        i = i + 1;
    }
    assert(lengths@.take(lengths@.len() as int) =~= lengths@);
    (tails, maximum)
}

/// No bus rings on longer than the longest response.
pub proof fn law_no_tail_outlasts_the_longest_response(lengths: Seq<nat>, bus: int)
    requires
        0 <= bus < lengths.len(),
    ensures
        lengths[bus] <= longest_impulse(lengths),
        tail_blocks_of(lengths[bus]) <= tail_blocks_of(longest_impulse(lengths)),
    decreases lengths.len(),
{
    if bus == lengths.len() - 1 {
        lemma_longest_impulse(lengths.drop_last());
        lemma_tail_grows(lengths[bus], longest_impulse(lengths));
    } else {
        law_no_tail_outlasts_the_longest_response(lengths.drop_last(), bus);
        assert(lengths.drop_last()[bus] == lengths[bus]);
        lemma_tail_grows(lengths[bus], longest_impulse(lengths));
    }
}

proof fn lemma_tail_grows(short: nat, long: nat)
    requires
        short <= long,
    ensures
        tail_blocks_of(short) <= tail_blocks_of(long),
{
}

/// Which buses have input, and how long each rings on.
pub struct BusActivity {
    pub tail_blocks: Vec<usize>,
    pub tail_remaining: Vec<usize>,
    pub has_input: Vec<bool>,
}

/// The blocks that a bus still rings after a block.
pub open spec fn ringing(has_input: bool, tail: nat, remaining: nat) -> nat {
    if has_input {
        tail
    } else if remaining > 0 {
        (remaining - 1) as nat
    } else {
        0
    }
}

impl BusActivity {
    pub open spec fn wf(self) -> bool {
        self.tail_remaining@.len() == self.tail_blocks@.len() && self.has_input@.len()
            == self.tail_blocks@.len()
    }

    pub fn new(tail_blocks: Vec<usize>) -> (r: Self)
        ensures
            r.wf(),
            r.tail_blocks@ == tail_blocks@,
            r.tail_remaining@ == Seq::new(tail_blocks@.len(), |i: int| 0usize),
            r.has_input@ == Seq::new(tail_blocks@.len(), |i: int| false),
    {
        let mut tail_remaining: Vec<usize> = Vec::new();
        let mut has_input: Vec<bool> = Vec::new();
        let mut i: usize = 0;
        while i < tail_blocks.len()
            invariant
                i <= tail_blocks@.len(),
                tail_remaining@ =~= Seq::new(i as nat, |i: int| 0usize),
                has_input@ =~= Seq::new(i as nat, |i: int| false),
            decreases tail_blocks@.len() - i,
        {
            tail_remaining.push(0);
            has_input.push(false);
            i = i + 1;
        }
        BusActivity { tail_blocks, tail_remaining, has_input }
    }

    /// Takes note of input on a bus.
    pub fn mark(&mut self, bus: usize) -> (r: Result<(), AppError>)
        requires
            old(self).wf(),
        ensures
            final(self).wf(),
            final(self).tail_blocks@ == old(self).tail_blocks@,
            final(self).tail_remaining@ == old(self).tail_remaining@,
            bus < old(self).has_input@.len() ==> r is Ok && final(self).has_input@ == old(self).has_input@.update(bus as int, true),
            bus >= old(self).has_input@.len() ==> r is Err && r->Err_0 is Render
                && r->Err_0.text() == around(
                "virtual-speaker bus "@,
                bus as nat,
                " does not exist"@,
            ) && final(self).has_input@ == old(self).has_input@,
    {
        if bus >= self.has_input.len() {
            return render_fault(
                text_around("virtual-speaker bus ", bus as u64, " does not exist"),
            );
        }
        self.has_input.set(bus, true);
        Ok(())
    }

    /// Ends a block, and tells which buses have anything to convolve in it.
    pub fn end_block(&mut self) -> (r: Vec<bool>)
        requires
            old(self).wf(),
        ensures
            final(self).wf(),
            final(self).tail_blocks@ == old(self).tail_blocks@,
            r@.len() == old(self).tail_blocks@.len(),
            forall|i: int|
                0 <= i < old(self).tail_blocks@.len() ==> #[trigger] r@[i] == (old(self).has_input@[i] || old(self).tail_remaining@[i] != 0),
            forall|i: int|
                0 <= i < old(self).tail_blocks@.len() ==> #[trigger] final(self).tail_remaining@[i]
                    == ringing(
                    old(self).has_input@[i],
                    old(self).tail_blocks@[i] as nat,
                    old(self).tail_remaining@[i] as nat,
                ),
            forall|i: int|
                0 <= i < old(self).tail_blocks@.len() ==> !(#[trigger] final(self).has_input@[i]),
    {
        let mut enabled: Vec<bool> = Vec::new();
        let mut remaining: Vec<usize> = Vec::new();
        let mut quiet: Vec<bool> = Vec::new();
        let total: usize = self.tail_blocks.len();
        let mut bus: usize = 0;
        while bus < total
            invariant
                bus <= total == self.tail_blocks@.len(),
                *self == *old(self),
                self.wf(),
                enabled@.len() == bus,
                remaining@.len() == bus,
                quiet@.len() == bus,
                forall|i: int|
                    0 <= i < bus ==> #[trigger] enabled@[i] == (self.has_input@[i]
                        || self.tail_remaining@[i] != 0),
                forall|i: int|
                    0 <= i < bus ==> #[trigger] remaining@[i] == ringing(
                        self.has_input@[i],
                        self.tail_blocks@[i] as nat,
                        self.tail_remaining@[i] as nat,
                    ),
                forall|i: int| 0 <= i < bus ==> !(#[trigger] quiet@[i]),
            decreases total - bus,
        {
            let has_input = self.has_input[bus];
            let left: usize = self.tail_remaining[bus];
            enabled.push(has_input || left != 0);
            remaining.push(
                if has_input {
                    self.tail_blocks[bus]
                } else if left != 0 {
                    left - 1
                } else {
                    0
                },
            );
            quiet.push(false);
            bus = bus + 1;
        }
        self.tail_remaining = remaining;
        self.has_input = quiet;
        enabled
    }
}

/// The blocks that a bus still rings after so many without input.
pub open spec fn ringing_after(remaining: nat, silent: nat) -> nat
    decreases silent,
{
    if silent == 0 {
        remaining
    } else {
        ringing(false, 0, ringing_after(remaining, (silent - 1) as nat))
    }
}

/// After its last input a bus is convolved for exactly its tail.
pub proof fn law_a_bus_rings_for_its_tail(tail: nat, remaining: nat, silent: nat)
    ensures
        ringing_after(ringing(true, tail, remaining), silent) != 0 <==> silent < tail,
    decreases silent,
{
    lemma_ringing(tail, silent);
}

proof fn lemma_ringing(tail: nat, silent: nat)
    ensures
        ringing_after(tail, silent) == (if silent < tail {
            tail - silent
        } else {
            0
        }),
    decreases silent,
{
    if silent > 0 {
        lemma_ringing(tail, (silent - 1) as nat);
    }
}

/// The frames that went in, were processed and came out.
#[derive(Clone, Copy, Debug, PartialEq, Eq, Structural)]
pub struct FrameAccount {
    pub input: u64,
    pub processed: u64,
    pub written: u64,
    /// Frames of the block that is being filled.
    pub filled: usize,
    /// Frames that the output goes on after the input.
    pub tail: u64,
}

impl FrameAccount {
    pub open spec fn wf(self) -> bool {
        self.filled < DEFAULT_CONVOLUTION_BLOCK
    }

    pub fn new(tail: u64) -> (r: Self)
        ensures
            r.wf(),
            r == (FrameAccount { input: 0, processed: 0, written: 0, filled: 0, tail }),
    {
        FrameAccount { input: 0, processed: 0, written: 0, filled: 0, tail }
    }

    /// Takes a frame into the block, and tells whether the block is full.
    pub fn commit(&mut self) -> (r: bool)
        requires
            old(self).wf(),
        ensures
            r == (old(self).filled + 1 == DEFAULT_CONVOLUTION_BLOCK),
            *final(self) == (FrameAccount { filled: (old(self).filled + 1) as usize, ..*old(self) }),
    {
        self.filled = self.filled + 1;
        self.filled == DEFAULT_CONVOLUTION_BLOCK
    }

    /// Takes a frame of input into the block, and tells whether the block is full.
    pub fn end_frame(&mut self) -> (r: Result<bool, AppError>)
        requires
            old(self).wf(),
        ensures
            old(self).input < u64::MAX ==> r == Ok::<bool, AppError>(
                old(self).filled + 1 == DEFAULT_CONVOLUTION_BLOCK,
            ) && *final(self) == (FrameAccount {
                filled: (old(self).filled + 1) as usize,
                input: (old(self).input + 1) as u64,
                ..*old(self)
            }),
            old(self).input == u64::MAX ==> r is Err && r->Err_0 is Render && r->Err_0.text()
                == "rendered frame count overflowed"@ && *final(self) == (FrameAccount {
                filled: (old(self).filled + 1) as usize,
                ..*old(self)
            }),
    {
        let full = self.commit();
        if self.input == u64::MAX {
            return render_fault(String::from_str("rendered frame count overflowed"));
        }
        self.input = self.input + 1;
        Ok(full)
    }

    /// Closes a block of which some frames go to the output.
    pub fn end_block(&mut self, frames: usize) -> (r: Result<(), AppError>)
        ensures
            old(self).processed + frames <= u64::MAX ==> r is Ok && *final(self)
                == (FrameAccount {
                processed: (old(self).processed + frames) as u64,
                filled: 0,
                ..*old(self)
            }),
            old(self).processed + frames > u64::MAX ==> r is Err && r->Err_0 is Render
                && r->Err_0.text() == "rendered frame count overflowed"@ && *final(self) == *old(self),
    {
        match self.processed.checked_add(frames as u64) {
            None => render_fault(String::from_str("rendered frame count overflowed")),
            Some(processed) => {
                self.processed = processed;
                self.filled = 0;
                Ok(())
            },
        }
    }

    /// Counts frames that came out.
    pub fn count_written(&mut self, frames: usize) -> (r: Result<(), AppError>)
        ensures
            old(self).written + frames <= u64::MAX ==> r is Ok && *final(self) == (FrameAccount {
                written: (old(self).written + frames) as u64,
                ..*old(self)
            }),
            old(self).written + frames > u64::MAX ==> r is Err && r->Err_0 is Render
                && r->Err_0.text() == "rendered frame count overflowed"@ && *final(self) == *old(self),
    {
        match self.written.checked_add(frames as u64) {
            None => render_fault(String::from_str("rendered frame count overflowed")),
            Some(written) => {
                self.written = written;
                Ok(())
            },
        }
    }

    /// How many frames the output will have, with the tail of the reflections.
    pub fn target(&self, reflection_tail: usize) -> (r: Result<u64, AppError>)
        ensures
            self.input == 0 ==> r is Err && r->Err_0.text()
                == "selected stream decoded to zero audio frames"@,
            self.input > 0 && self.input + reflection_tail + self.tail > u64::MAX ==> r is Err
                && r->Err_0.text() == "rendered duration overflowed"@,
            self.input > 0 && self.input + reflection_tail + self.tail <= u64::MAX ==> r is Ok
                && r->Ok_0 == self.input + reflection_tail + self.tail,
            r is Err ==> r->Err_0 is Render,
    {
        if self.input == 0 {
            return render_fault(String::from_str("selected stream decoded to zero audio frames"));
        }
        match self.input.checked_add(reflection_tail as u64) {
            None => render_fault(String::from_str("rendered duration overflowed")),
            Some(sounding) => match sounding.checked_add(self.tail) {
                None => render_fault(String::from_str("rendered duration overflowed")),
                Some(target) => Ok(target),
            },
        }
    }

    /// How many frames of the next block go to the output, unless all did.
    pub fn next_block(&self, target: u64) -> (r: Option<usize>)
        ensures
            self.processed >= target ==> r is None,
            self.processed < target ==> r is Some && r->0 == last_block(self.processed, target),
    {
        if self.processed >= target {
            return None;
        }
        let remaining: u64 = target - self.processed;
        if remaining < DEFAULT_CONVOLUTION_BLOCK as u64 {
            Some(remaining as usize)
        } else {
            Some(DEFAULT_CONVOLUTION_BLOCK)
        }
    }

    /// Refuses an output of the wrong length.
    pub fn check_written(&self, target: u64) -> (r: Result<(), AppError>)
        ensures
            self.written == target ==> r is Ok,
            self.written != target ==> r is Err && r->Err_0 is Render && r->Err_0.text()
                == "output limiter produced "@ + digits(self.written as nat)
                + " frames; expected "@ + digits(target as nat),
    {
        if self.written != target {
            let mut message = text_around(
                "output limiter produced ",
                self.written,
                " frames; expected ",
            );
            message.append(decimal(target).as_str());
            return render_fault(message);
        }
        Ok(())
    }
}

/// How many frames of a block go to the output when so many have been processed.
pub open spec fn last_block(processed: u64, target: u64) -> nat {
    if target - processed < DEFAULT_CONVOLUTION_BLOCK {
        (target - processed) as nat
    } else {
        DEFAULT_CONVOLUTION_BLOCK as nat
    }
}

/// The blocks at the end of a stream never cut off a frame that was committed.
pub proof fn law_no_frame_is_cut(account: FrameAccount, reflection_tail: nat, target: u64)
    requires
        account.wf(),
        account.processed + account.filled == account.input + reflection_tail,
        target == account.input + reflection_tail + account.tail,
        account.processed < target,
    ensures
        last_block(account.processed, target) >= account.filled,
{
}

/// The blocks at the end of a stream stop exactly at its target.
pub proof fn law_the_last_block_meets_the_target(processed: u64, target: u64)
    requires
        processed < target,
    ensures
        processed < processed + last_block(processed, target) <= target,
        processed + DEFAULT_CONVOLUTION_BLOCK >= target ==> processed + last_block(
            processed,
            target,
        ) == target,
{
}

/// Which sources of early reflections still sound.
pub struct ReflectionActivity {
    /// The frames left to each bus, or nothing where the bus has no reflections.
    pub remaining: Vec<Option<usize>>,
    /// The buses that sound, in the order in which they began.
    pub active: Vec<usize>,
    pub maximum_tail: usize,
}

/// Whether a bus sounds.
pub open spec fn sounds(remaining: Seq<Option<usize>>, bus: int) -> bool {
    0 <= bus < remaining.len() && remaining[bus] is Some && remaining[bus]->0 > 0
}

/// The buses among the first of a list that sound one frame later.
pub open spec fn still_sounding(remaining: Seq<Option<usize>>, active: Seq<usize>) -> Seq<usize>
    decreases active.len(),
{
    if active.len() == 0 {
        seq![]
    } else {
        let before = still_sounding(remaining, active.drop_last());
        let left = remaining[active.last() as int];
        if left->0 > 1 {
            before.push(active.last())
        } else {
            before
        }
    }
}

/// How long the reflections of a source go on.
pub open spec fn reflection_tail_of(maximum_delay: nat, rate: nat) -> nat {
    let whole = maximum_delay + (rate + 999) / 1000;
    if whole > usize::MAX {
        usize::MAX as nat
    } else {
        whole
    }
}

/// How long the reflections of a source go on.
pub fn reflection_tail(maximum_delay: usize, sample_rate: u32) -> (r: usize)
    ensures
        r == reflection_tail_of(maximum_delay as nat, sample_rate as nat),
{
    let wide: u64 = sample_rate as u64 + 999;
    maximum_delay.saturating_add((wide / 1000) as usize)
}

impl ReflectionActivity {
    pub open spec fn wf(self) -> bool {
        &&& self.maximum_tail < usize::MAX
        &&& self.active@.no_duplicates()
        &&& forall|i: int|
            0 <= i < self.active@.len() ==> sounds(
                self.remaining@,
                (#[trigger] self.active@[i]) as int,
            )
        &&& forall|bus: int|
            #![trigger self.remaining@[bus]]
            sounds(self.remaining@, bus) ==> self.active@.contains(bus as usize)
    }

    /// No bus sounds yet. Those with a route have reflections.
    pub fn new(bus_count: usize, routes: &[PlannedRoute], maximum_tail: usize) -> (r: Self)
        requires
            maximum_tail < usize::MAX,
            forall|i: int| 0 <= i < routes@.len() ==> (#[trigger] routes@[i]).index < bus_count,
        ensures
            r.wf(),
            r.maximum_tail == maximum_tail,
            r.active@ == Seq::<usize>::empty(),
            r.remaining@.len() == bus_count,
            forall|bus: int|
                0 <= bus < bus_count ==> #[trigger] r.remaining@[bus] == (if exists|i: int|
                    0 <= i < routes@.len() && (#[trigger] routes@[i]).index == bus {
                    Some(0usize)
                } else {
                    None
                }),
    {
        let mut remaining: Vec<Option<usize>> = Vec::new();
        let mut bus: usize = 0;
        while bus < bus_count
            invariant
                bus <= bus_count,
                remaining@.len() == bus,
                forall|i: int| 0 <= i < bus ==> (#[trigger] remaining@[i]) is None,
            decreases bus_count - bus,
        {
            remaining.push(None);
            bus = bus + 1;
        }
        let mut i: usize = 0;
        while i < routes.len()
            invariant
                i <= routes@.len(),
                remaining@.len() == bus_count,
                forall|k: int| 0 <= k < routes@.len() ==> (#[trigger] routes@[k]).index < bus_count,
                forall|b: int|
                    0 <= b < bus_count ==> #[trigger] remaining@[b] == (if exists|k: int|
                        0 <= k < i && (#[trigger] routes@[k]).index == b {
                        Some(0usize)
                    } else {
                        None
                    }),
            decreases routes@.len() - i,
        {
            let ghost before = remaining@;
            let index: usize = routes[i].index;
            remaining.set(index, Some(0));
            proof {
                assert forall|b: int| 0 <= b < bus_count implies #[trigger] remaining@[b] == (
                if exists|k: int| 0 <= k < i + 1 && (#[trigger] routes@[k]).index == b {
                    Some(0usize)
                } else {
                    None
                }) by {
                    if b == index {
                        assert(routes@[i as int].index == b);
                    } else {
                        assert(remaining@[b] == before[b]);
                        if exists|k: int| 0 <= k < i + 1 && (#[trigger] routes@[k]).index == b {
                            let k = choose|k: int|
                                0 <= k < i + 1 && (#[trigger] routes@[k]).index == b;
                            assert(0 <= k < i && routes@[k].index == b);
                        }
                        if exists|k: int| 0 <= k < i && (#[trigger] routes@[k]).index == b {
                            let k = choose|k: int| 0 <= k < i && (#[trigger] routes@[k]).index == b;
                            assert(0 <= k < i + 1 && routes@[k].index == b);
                        }
                    }
                }
            }
            i = i + 1;
        }
        ReflectionActivity { remaining, active: Vec::new(), maximum_tail }
    }

    /// Feeds a bus, and tells whether it has reflections.
    pub fn feed(&mut self, bus: usize, sounding: bool) -> (r: Result<bool, AppError>)
        requires
            old(self).wf(),
        ensures
            final(self).wf(),
            final(self).maximum_tail == old(self).maximum_tail,
            bus >= old(self).remaining@.len() ==> r is Err && r->Err_0 is Render
                && r->Err_0.text() == around(
                "early-reflection source bus "@,
                bus as nat,
                " does not exist"@,
            ) && *final(self) == *old(self),
            bus < old(self).remaining@.len() ==> r == Ok::<bool, AppError>(
                old(self).remaining@[bus as int] is Some,
            ),
            bus < old(self).remaining@.len() && !(old(self).remaining@[bus as int] is Some
                && sounding) ==> *final(self) == *old(self),
            bus < old(self).remaining@.len() && old(self).remaining@[bus as int] is Some
                && sounding ==> final(self).remaining@ == old(self).remaining@.update(
                bus as int,
                Some((old(self).maximum_tail + 1) as usize),
            ) && final(self).active@ == (if sounds(old(self).remaining@, bus as int) {
                old(self).active@
            } else {
                old(self).active@.push(bus)
            }),
    {
        if bus >= self.remaining.len() {
            return render_fault(
                text_around("early-reflection source bus ", bus as u64, " does not exist"),
            );
        }
        match self.remaining[bus] {
            None => Ok(false),
            Some(left) => {
                if sounding {
                    let ghost remaining = self.remaining@;
                    let ghost active = self.active@;
                    if left == 0 {
                        self.active.push(bus);
                    }
                    self.remaining.set(bus, Some(self.maximum_tail + 1));
                    proof {
                        let now = self.active@;
                        assert forall|i: int| 0 <= i < now.len() implies sounds(
                            self.remaining@,
                            (#[trigger] now[i]) as int,
                        ) by {
                            if i < active.len() {
                                assert(now[i] == active[i]);
                                assert(sounds(remaining, active[i] as int));
                            }
                        }
                        if left == 0 {
                            assert forall|i: int, j: int| 0 <= i < now.len() && 0 <= j < now.len()
                                && i != j implies now[i] != now[j] by {
                                if i < active.len() {
                                    assert(sounds(remaining, active[i] as int));
                                }
                                if j < active.len() {
                                    assert(sounds(remaining, active[j] as int));
                                }
                            }
                        }
                        assert forall|b: int| sounds(self.remaining@, b) implies now.contains(
                            b as usize,
                        ) by {
                            if b == bus {
                                if left == 0 {
                                    assert(now[active.len() as int] == bus);
                                } else {
                                    assert(sounds(remaining, b));
                                    assert(remaining[b] is Some);
                                }
                            } else {
                                assert(self.remaining@[b] == remaining[b]);
                                assert(sounds(remaining, b));
                                assert(active.contains(b as usize));
                                let i = choose|i: int|
                                    0 <= i < active.len() && active[i] == b as usize;
                                assert(now[i] == b as usize);
                            }
                        }
                    }
                }
                Ok(true)
            },
        }
    }

    /// Moves on by one frame. The buses to render are those that sounded, and
    /// those that no longer sound have their filters cleared.
    pub fn advance(&mut self) -> (r: Vec<(usize, bool)>)
        requires
            old(self).wf(),
        ensures
            final(self).wf(),
            final(self).maximum_tail == old(self).maximum_tail,
            r@.len() == old(self).active@.len(),
            forall|i: int|
                0 <= i < r@.len() ==> #[trigger] r@[i] == (
                    old(self).active@[i],
                    old(self).remaining@[old(self).active@[i] as int]->0 == 1,
                ),
            final(self).active@ == still_sounding(old(self).remaining@, old(self).active@),
            final(self).remaining@.len() == old(self).remaining@.len(),
            forall|bus: int|
                0 <= bus < old(self).remaining@.len() ==> #[trigger] final(self).remaining@[bus]
                    == (if sounds(old(self).remaining@, bus) {
                    Some((old(self).remaining@[bus]->0 - 1) as usize)
                } else {
                    old(self).remaining@[bus]
                }),
    {
        let ghost remaining = self.remaining@;
        let ghost active = self.active@;
        let total: usize = self.remaining.len();
        let mut rendered: Vec<(usize, bool)> = Vec::new();
        let mut kept: Vec<usize> = Vec::new();
        let mut i: usize = 0;
        while i < self.active.len()
            invariant
                old(self).wf(),
                remaining == old(self).remaining@,
                active == old(self).active@,
                remaining.len() == total,
                self.active@ == active,
                self.maximum_tail == old(self).maximum_tail,
                i <= active.len(),
                rendered@.len() == i,
                forall|j: int|
                    0 <= j < i ==> #[trigger] rendered@[j] == (
                        active[j],
                        remaining[active[j] as int]->0 == 1,
                    ),
                kept@ == still_sounding(remaining, active.take(i as int)),
                self.remaining@.len() == remaining.len(),
                forall|bus: int|
                    0 <= bus < remaining.len() ==> #[trigger] self.remaining@[bus] == (
                    if active.take(i as int).contains(bus as usize) {
                        Some((remaining[bus]->0 - 1) as usize)
                    } else {
                        remaining[bus]
                    }),
            decreases active.len() - i,
        {
            let bus: usize = self.active[i];
            proof {
                assert(sounds(remaining, active[i as int] as int));
                assert(!active.take(i as int).contains(bus)) by {
                    if active.take(i as int).contains(bus) {
                        let k = choose|k: int|
                            0 <= k < active.take(i as int).len() && active.take(i as int)[k] == bus;
                        assert(active[k] == active[i as int]);
                    }
                }
                assert(self.remaining@[bus as int] == remaining[bus as int]);
                assert(active.take(i + 1).drop_last() =~= active.take(i as int));
            }
            let left: usize = match self.remaining[bus] {
                Some(left) => left,
                None => 0,
            };
            let ghost before = self.remaining@;
            self.remaining.set(bus, Some(left - 1));
            rendered.push((bus, left == 1));
            if left > 1 {
                kept.push(bus);
            }
            proof {
                assert forall|b: int| 0 <= b < remaining.len() implies #[trigger] self.remaining@[b]
                    == (if active.take(i + 1).contains(b as usize) {
                    Some((remaining[b]->0 - 1) as usize)
                } else {
                    remaining[b]
                }) by {
                    let short = active.take(i as int);
                    let long = active.take(i + 1);
                    assert(long =~= short.push(bus));
                    if b == bus {
                        assert(long[i as int] == bus);
                    } else {
                        assert(self.remaining@[b] == before[b]);
                        if long.contains(b as usize) {
                            let k = choose|k: int| 0 <= k < long.len() && long[k] == b as usize;
                            assert(short[k] == b as usize);
                        }
                        if short.contains(b as usize) {
                            let k = choose|k: int| 0 <= k < short.len() && short[k] == b as usize;
                            assert(long[k] == b as usize);
                        }
                    }
                }
            }
            i = i + 1;
        }
        assert(active.take(active.len() as int) =~= active);
        self.active = kept;
        proof {
            lemma_still_sounding(remaining, active);
            let now = self.active@;
            assert forall|bus: int| 0 <= bus < remaining.len() implies #[trigger] sounds(
                remaining,
                bus,
            ) == active.contains(bus as usize) by {
                if active.contains(bus as usize) {
                    let k = choose|k: int| 0 <= k < active.len() && active[k] == bus as usize;
                    assert(sounds(remaining, active[k] as int));
                }
                assert(remaining[bus] == remaining[bus]);
            }
            assert forall|k: int| 0 <= k < now.len() implies sounds(
                self.remaining@,
                (#[trigger] now[k]) as int,
            ) by {
                assert(now.contains(now[k]));
                assert(active.contains(now[k]));
                let j = choose|j: int| 0 <= j < active.len() && active[j] == now[k];
                assert(sounds(remaining, active[j] as int));
                assert(sounds(remaining, now[k] as int));
            }
            assert forall|bus: int|
                #![trigger self.remaining@[bus]]
                sounds(self.remaining@, bus) implies now.contains(bus as usize) by {
                assert(sounds(remaining, bus) == active.contains(bus as usize));
                assert(active.contains(bus as usize));
            }
        }
        rendered
    }

    /// How many frames the reflections still go on.
    pub fn tail_frames(&self) -> (r: usize)
        requires
            self.wf(),
        ensures
            r == longest_tail(
                Seq::new(
                    self.active@.len(),
                    |i: int| self.remaining@[self.active@[i] as int]->0,
                ),
            ),
    {
        let mut left: Vec<usize> = Vec::new();
        let mut i: usize = 0;
        while i < self.active.len()
            invariant
                self.wf(),
                i <= self.active@.len(),
                left@ =~= Seq::new(
                    i as nat,
                    |k: int| self.remaining@[self.active@[k] as int]->0,
                ),
            decreases self.active@.len() - i,
        {
            assert(sounds(self.remaining@, self.active@[i as int] as int));
            let bus: usize = self.active[i];
            match self.remaining[bus] {
                Some(frames) => left.push(frames),
                None => left.push(0),
            }
            i = i + 1;
        }
        assert(left@ =~= Seq::new(
            self.active@.len(),
            |i: int| self.remaining@[self.active@[i] as int]->0,
        ));
        longest(left.as_slice())
    }
}

proof fn lemma_still_sounding(remaining: Seq<Option<usize>>, active: Seq<usize>)
    requires
        active.no_duplicates(),
    ensures
        still_sounding(remaining, active).no_duplicates(),
        forall|b: usize| #[trigger]
            still_sounding(remaining, active).contains(b) == (active.contains(b)
                && remaining[b as int]->0 > 1),
    decreases active.len(),
{
    if active.len() > 0 {
        let front = active.drop_last();
        let last = active.last();
        let before = still_sounding(remaining, front);
        lemma_still_sounding(remaining, front);
        assert(active =~= front.push(last));
        assert(!front.contains(last)) by {
            if front.contains(last) {
                let k = choose|k: int| 0 <= k < front.len() && front[k] == last;
                assert(active[k] == active[active.len() - 1]);
            }
        }
        let now = still_sounding(remaining, active);
        assert forall|b: usize| #[trigger] now.contains(b) == (active.contains(b)
            && remaining[b as int]->0 > 1) by {
            assert(before.contains(b) == (front.contains(b) && remaining[b as int]->0 > 1));
            if front.contains(b) {
                let k = choose|k: int| 0 <= k < front.len() && front[k] == b;
                assert(active[k] == b);
            }
            if active.contains(b) && b != last {
                let k = choose|k: int| 0 <= k < active.len() && active[k] == b;
                assert(front[k] == b);
            }
            if b == last {
                assert(active[active.len() - 1] == b);
            }
            if remaining[last as int]->0 > 1 {
                assert(now == before.push(last));
                if before.contains(b) {
                    let k = choose|k: int| 0 <= k < before.len() && before[k] == b;
                    assert(now[k] == b);
                }
                if b == last {
                    assert(now[before.len() as int] == b);
                }
                if now.contains(b) && b != last {
                    let k = choose|k: int| 0 <= k < now.len() && now[k] == b;
                    assert(before[k] == b);
                }
            }
        }
        if remaining[last as int]->0 > 1 {
            assert(now == before.push(last));
            assert(!before.contains(last));
            assert forall|i: int, j: int| 0 <= i < now.len() && 0 <= j < now.len() && i
                != j implies now[i] != now[j] by {
                if i < before.len() {
                    assert(before.contains(now[i]));
                }
                if j < before.len() {
                    assert(before.contains(now[j]));
                }
            }
        }
    }
}

/// Speakers stand on the buses in the order in which they first come, and the bus for
/// low-frequency effects last where none of them asks for it.
pub proof fn law_buses_keep_the_order_of_the_speakers(list: Seq<Speaker>)
    ensures
        distinct(list).len() <= list.len(),
        distinct(list).no_duplicates(),
        forall|i: int| 0 <= i < list.len() ==> distinct(list).contains(#[trigger] list[i]),
        forall|i: int| 0 <= i < distinct(list).len() ==> list.contains(#[trigger] distinct(list)[i]),
        list.no_duplicates() ==> distinct(list) == list,
        !list.contains(Speaker::Lfe) ==> bus_speakers(list) == distinct(list).push(Speaker::Lfe),
        list.contains(Speaker::Lfe) ==> bus_speakers(list) == distinct(list),
        list.len() > 0 ==> distinct(list)[0] == list[0],
    decreases list.len(),
{
    if list.len() > 0 {
        let front = list.drop_last();
        let before = distinct(front);
        let all = distinct(list);
        law_buses_keep_the_order_of_the_speakers(front);
        assert forall|i: int| 0 <= i < list.len() implies all.contains(#[trigger] list[i]) by {
            if i < front.len() {
                assert(front[i] == list[i]);
                let k = choose|k: int| 0 <= k < before.len() && before[k] == list[i];
                assert(all[k] == list[i]);
            } else if !before.contains(list.last()) {
                assert(all.last() == list.last());
            }
        }
        assert forall|i: int| 0 <= i < all.len() implies list.contains(#[trigger] all[i]) by {
            if i < before.len() {
                assert(all[i] == before[i]);
                let k = choose|k: int| 0 <= k < front.len() && front[k] == before[i];
                assert(list[k] == all[i]);
            } else {
                assert(list[list.len() - 1] == all[i]);
            }
        }
        if list.no_duplicates() {
            assert(front.no_duplicates());
            if before.contains(list.last()) {
                let k = choose|k: int| 0 <= k < front.len() && front[k] == list.last();
                assert(list[k] == list[list.len() - 1]);
            }
            assert(all =~= list);
        }
    }
    if list.contains(Speaker::Lfe) {
        let k = choose|k: int| 0 <= k < list.len() && list[k] == Speaker::Lfe;
        assert(distinct(list).contains(list[k]));
    }
    if distinct(list).contains(Speaker::Lfe) {
        let k = choose|k: int| 0 <= k < distinct(list).len() && distinct(list)[k] == Speaker::Lfe;
        assert(list.contains(distinct(list)[k]));
    }
}

/// The response of a bus is as long as the longer ear of the channel that serves it,
/// and a single sample for low-frequency effects. No response is longer than the
/// longest, which is one of them or a single sample.
pub proof fn law_no_response_is_longer_than_the_longest(lengths: Seq<nat>, i: int)
    ensures
        0 <= i < lengths.len() ==> lengths[i] <= longest_impulse(lengths),
        longest_impulse(lengths) == 1 || lengths.contains(longest_impulse(lengths)),
        longest_impulse(lengths) >= 1,
    decreases lengths.len(),
{
    if lengths.len() > 0 {
        let front = lengths.drop_last();
        law_no_response_is_longer_than_the_longest(front, i);
        if longest_impulse(lengths) == lengths.last() {
            assert(lengths[lengths.len() - 1] == longest_impulse(lengths));
        } else if longest_impulse(front) != 1 {
            let k = choose|k: int| 0 <= k < front.len() && front[k] == longest_impulse(front);
            assert(lengths[k] == longest_impulse(lengths));
        }
    }
}

/// A response is as long as its longer ear.
pub proof fn law_responses_are_as_long_as_their_longer_ear(hrir: HrirSet, speaker: Speaker)
    ensures
        speaker is Lfe ==> speaker_impulse(hrir, speaker) == Some(1nat),
        !(speaker is Lfe) ==> (speaker_impulse(hrir, speaker) is Some <==> serving_place(
            hrir.channels@,
            speaker,
        ) is Some),
        !(speaker is Lfe) && serving_place(hrir.channels@, speaker) is Some ==> {
            let channel = hrir.channels@[serving_place(hrir.channels@, speaker)->0 as int];
            let length = speaker_impulse(hrir, speaker)->0;
            &&& length >= channel.left@.len() && length >= channel.right@.len()
            &&& length == channel.left@.len() || length == channel.right@.len()
        },
{
}

/// A tail is all that a response and a correction ring on behind the last frame: one
/// sample less than each of them.
pub proof fn law_tails_are_what_rings_on(impulse: nat, correction: nat)
    requires
        impulse + correction <= usize::MAX,
    ensures
        impulse > 0 && correction > 0 ==> tail_of(impulse, correction) + 2 == impulse + correction,
        correction == 0 && impulse > 0 ==> tail_of(impulse, correction) + 1 == impulse,
        tail_of(0, 0) == 0,
        tail_of(1, 1) == 0,
{
}

/// A bus rings on for as many blocks as hold its response but the first sample.
pub proof fn law_bus_tails_hold_the_response(length: nat)
    requires
        length > 0,
    ensures
        tail_blocks_of(length) * DEFAULT_CONVOLUTION_BLOCK >= length - 1,
        tail_blocks_of(length) > 0 ==> (tail_blocks_of(length) - 1) * DEFAULT_CONVOLUTION_BLOCK
            < length - 1,
        tail_blocks_of(1) == 0,
{
    let block = DEFAULT_CONVOLUTION_BLOCK as nat;
    let total = (length - 1) + block - 1;
    vstd::arithmetic::div_mod::lemma_fundamental_div_mod(total as int, block as int);
}

/// The speaker that is said to be unserved is the first for which the profile has no
/// response; none is said to be exactly where every speaker has one.
pub proof fn law_the_first_unserved_speaker_is_named(
    hrir: HrirSet,
    speakers: Seq<Speaker>,
    start: nat,
)
    ensures
        match unserved(hrir, speakers, start) {
            None => forall|i: int|
                start <= i < speakers.len() ==> speaker_impulse(hrir, #[trigger] speakers[i])
                    is Some,
            Some(speaker) => exists|place: int|
                {
                    &&& start <= place < speakers.len()
                    &&& #[trigger] speakers[place] == speaker
                    &&& speaker_impulse(hrir, speaker) is None
                    &&& forall|i: int|
                        start <= i < place ==> speaker_impulse(hrir, #[trigger] speakers[i])
                            is Some
                },
        },
    decreases speakers.len() - start,
{
    if start < speakers.len() && speaker_impulse(hrir, speakers[start as int]) is Some {
        law_the_first_unserved_speaker_is_named(hrir, speakers, start + 1);
        match unserved(hrir, speakers, start) {
            None => {
                assert forall|i: int| start <= i < speakers.len() implies speaker_impulse(
                    hrir,
                    #[trigger] speakers[i],
                ) is Some by {
                    if i > start {
                        assert(start + 1 <= i);
                    }
                }
            },
            Some(speaker) => {
                let place = choose|place: int|
                    {
                        &&& start + 1 <= place < speakers.len()
                        &&& #[trigger] speakers[place] == speaker
                        &&& speaker_impulse(hrir, speaker) is None
                        &&& forall|i: int|
                            start + 1 <= i < place ==> speaker_impulse(hrir, #[trigger] speakers[i])
                                is Some
                    };
                assert forall|i: int| start <= i < place implies speaker_impulse(
                    hrir,
                    #[trigger] speakers[i],
                ) is Some by {
                    if i > start {
                        assert(start + 1 <= i);
                    }
                }
                assert(speakers[place] == speaker);
            },
        }
    } else if start < speakers.len() {
        assert(speakers[start as int] == unserved(hrir, speakers, start)->0);
    }
}

/// The responses of a profile are those of its speakers, in their order, and behind them
/// those of its further directions, each as long as its longer ear.
pub proof fn law_responses_stand_in_the_order_of_the_buses(
    hrir: HrirSet,
    speakers: Seq<Speaker>,
    i: int,
)
    requires
        0 <= i < impulse_lengths(hrir, speakers).len(),
    ensures
        impulse_lengths(hrir, speakers).len() == speakers.len() + hrir.directional@.len(),
        i < speakers.len() && speaker_impulse(hrir, speakers[i]) is Some ==> Some(
            impulse_lengths(hrir, speakers)[i],
        ) == speaker_impulse(hrir, speakers[i]),
        i >= speakers.len() ==> ({
            let direction = hrir.directional@[i - speakers.len()];
            let length = impulse_lengths(hrir, speakers)[i];
            &&& direction.left@.len() <= length && direction.right@.len() <= length
            &&& length == direction.left@.len() || length == direction.right@.len()
        }),
{
}

/// Objects can be panned to every bus but that of the low-frequency speaker: the buses of
/// the speakers and behind them those of the further directions, each by its own source.
pub proof fn law_every_bus_but_the_low_one_has_a_route(
    speakers: Seq<Speaker>,
    count: nat,
    bus: nat,
)
    requires
        bus < count,
        count <= usize::MAX,
    ensures
        ({
            let routes = planned_routes(speakers, count);
            let low = bus < speakers.len() && speakers[bus as int] == Speaker::Lfe;
            &&& !low <==> exists|k: int|
                0 <= k < routes.len() && (#[trigger] routes[k]).index == bus
            &&& forall|k: int|
                0 <= k < routes.len() && (#[trigger] routes[k]).index == bus ==> routes[k].source
                    == (if bus < speakers.len() {
                    RouteSource::Speaker { speaker: speakers[bus as int] }
                } else {
                    RouteSource::Direction { place: (bus - speakers.len()) as usize }
                })
            &&& forall|k: int| 0 <= k < routes.len() ==> (#[trigger] routes[k]).index < count
            &&& forall|j: int, k: int|
                0 <= j < k < routes.len() ==> (#[trigger] routes[j]).index < (
                #[trigger] routes[k]).index
        }),
    decreases count,
{
    let routes = planned_routes(speakers, count);
    let less = (count - 1) as nat;
    let before = planned_routes(speakers, less);
    if less > 0 {
        if bus < less {
            law_every_bus_but_the_low_one_has_a_route(speakers, less, bus);
        } else {
            law_every_bus_but_the_low_one_has_a_route(speakers, less, 0);
        }
    }
    assert(forall|k: int| 0 <= k < before.len() ==> routes[k] == before[k]);
    let low = bus < speakers.len() && speakers[bus as int] == Speaker::Lfe;
    if bus < less {
        if !low {
            let k = choose|k: int| 0 <= k < before.len() && (#[trigger] before[k]).index == bus;
            assert(routes[k].index == bus);
        } else if exists|k: int| 0 <= k < routes.len() && (#[trigger] routes[k]).index == bus {
            let k = choose|k: int| 0 <= k < routes.len() && (#[trigger] routes[k]).index == bus;
            assert(before[k].index == bus);
        }
    } else {
        if !low {
            assert(routes[before.len() as int].index == bus);
        } else if exists|k: int| 0 <= k < routes.len() && (#[trigger] routes[k]).index == bus {
            let k = choose|k: int| 0 <= k < routes.len() && (#[trigger] routes[k]).index == bus;
            assert(before[k].index == bus);
        }
    }
}

/// The buses that go on sounding are, in their order, those of the active ones that have
/// more than one frame left.
pub proof fn law_buses_sound_to_their_last_frame(
    remaining: Seq<Option<usize>>,
    active: Seq<usize>,
)
    ensures
        still_sounding(remaining, active) == active.filter(
            |bus: usize| remaining[bus as int]->0 > 1,
        ),
    decreases active.len(),
{
    reveal(Seq::filter);
    if active.len() > 0 {
        law_buses_sound_to_their_last_frame(remaining, active.drop_last());
    }
}

/// Reflections ring for their longest delay and a millisecond more, rounded up to whole
/// frames.
pub proof fn law_reflections_ring_a_millisecond_longer(maximum_delay: nat, rate: nat)
    requires
        maximum_delay + rate + 1 <= usize::MAX,
    ensures
        rate <= 1000 * (reflection_tail_of(maximum_delay, rate) - maximum_delay) < rate + 1000,
{
}

} // verus!
