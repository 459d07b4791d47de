//! Scheduling of object metadata and the roles that channels play over time.

use crate::binaural::{bus_speakers, law_every_speaker_has_one_bus};
use crate::cli::{DistanceRendererMode, ObjectRendererMode};
use crate::error::{AppError, Reason};
use crate::hrir::{lemma_serving_place_in_range, serving_place, HrirChannel, HrirSet};
use crate::isf::{
    isf_size, mids_among, output_routes, richest_layout, table_place, tops_among, IsfConfig,
    IsfFault, IsfRenderer, IsfTable, RowPlan,
};
use crate::object::{Gain, IsfState, ObjectState, ObjectTrim, SpatialUpdate};
use crate::spatial::{direct_route, direct_stereo_route, trim_configuration_of, DirectRoute};
use crate::speaker::{find_speaker, lemma_listed_has_place, speaker_place, Speaker};
use crate::text::{decimal, digits, text_around, text_pair};
use std::collections::HashSet;
use vstd::prelude::*;

verus! {

broadcast use vstd::std_specs::hash::group_hash_axioms;

/// How many frames an object moves along a straight line of gains.
pub const SPATIAL_CONTROL_INTERVAL: usize = 64;

/// The switches of the object renderer.
#[derive(Clone, Copy, Debug)]
pub struct ObjectRenderOptions {
    pub surround_swap: bool,
    pub mute_bed: bool,
    pub mute_ground: bool,
    pub speaker_virtualizer: bool,
    pub object_renderer: ObjectRendererMode,
    pub distance_renderer: DistanceRendererMode,
}

fn render_fault<T>(message: &str) -> (r: Result<T, AppError>)
    ensures
        r is Err,
        r->Err_0 is Render,
        r->Err_0.text() == message@,
{
    Err(AppError::Render(Reason::Note(String::from_str(message))))
}

fn unsupported_fault<T>(message: &str) -> (r: Result<T, AppError>)
    ensures
        r is Err,
        r->Err_0 is UnsupportedInput,
        r->Err_0.text() == message@,
{
    Err(AppError::UnsupportedInput(Reason::Note(String::from_str(message))))
}

/// An update with the sample at which it takes effect.
pub struct ScheduledUpdate {
    pub at: u64,
    pub update: SpatialUpdate,
}

/// Whether updates stand in the order of their times.
pub open spec fn in_order(list: Seq<ScheduledUpdate>) -> bool {
    forall|i: int, j: int|
        0 <= i <= j < list.len() ==> (#[trigger] list[i]).at <= (#[trigger] list[j]).at
}

/// The place behind all updates that are due no later than a time.
pub open spec fn place_behind(list: Seq<ScheduledUpdate>, at: u64) -> nat
    decreases list.len(),
{
    if list.len() == 0 {
        0
    } else if list.last().at <= at {
        list.len()
    } else {
        place_behind(list.drop_last(), at)
    }
}

/// A list with an update put behind all that are due no later.
pub open spec fn placed(list: Seq<ScheduledUpdate>, item: ScheduledUpdate) -> Seq<ScheduledUpdate> {
    list.insert(place_behind(list, item.at) as int, item)
}

/// A list put in the order of its times. Updates of one time stay in their order.
pub open spec fn ordered(list: Seq<ScheduledUpdate>) -> Seq<ScheduledUpdate>
    decreases list.len(),
{
    if list.len() == 0 {
        list
    } else {
        placed(ordered(list.drop_last()), list.last())
    }
}

/// The first updates of a frame with their times.
pub open spec fn stamped(frame_start: u64, updates: Seq<SpatialUpdate>, count: nat) -> Seq<
    ScheduledUpdate,
> {
    Seq::new(
        count,
        |i: int|
            ScheduledUpdate {
                at: (frame_start + updates[i].sample_offset) as u64,
                update: updates[i],
            },
    )
}

/// How many updates of a frame, from one on, come before one whose time cannot be
/// counted.
pub open spec fn countable(frame_start: u64, updates: Seq<SpatialUpdate>, start: nat) -> nat
    decreases updates.len() - start,
{
    if start >= updates.len() || frame_start + updates[start as int].sample_offset > u64::MAX {
        start
    } else {
        countable(frame_start, updates, start + 1)
    }
}

proof fn lemma_place_behind(list: Seq<ScheduledUpdate>, at: u64)
    requires
        in_order(list),
    ensures
        place_behind(list, at) <= list.len(),
        forall|i: int| 0 <= i < place_behind(list, at) ==> (#[trigger] list[i]).at <= at,
        forall|i: int| place_behind(list, at) <= i < list.len() ==> (#[trigger] list[i]).at > at,
    decreases list.len(),
{
    if list.len() > 0 && list.last().at > at {
        let front = list.drop_last();
        assert(in_order(front)) by {
            assert forall|i: int, j: int| 0 <= i <= j < front.len() implies (#[trigger] front[i]).at
                <= (#[trigger] front[j]).at by {
                assert(list[i].at <= list[j].at);
            }
        }
        lemma_place_behind(front, at);
        assert forall|i: int| 0 <= i < place_behind(list, at) implies (#[trigger] list[i]).at
            <= at by {
            assert(front[i] == list[i]);
        }
        assert forall|i: int| place_behind(list, at) <= i < list.len() implies (
        #[trigger] list[i]).at > at by {
            if i < front.len() {
                assert(front[i] == list[i]);
            }
        }
    }
}

proof fn lemma_placed(list: Seq<ScheduledUpdate>, item: ScheduledUpdate)
    requires
        in_order(list),
    ensures
        in_order(placed(list, item)),
        placed(list, item).len() == list.len() + 1,
{
    lemma_place_behind(list, item.at);
    let grown = placed(list, item);
    let place = place_behind(list, item.at) as int;
    assert forall|i: int, j: int| 0 <= i <= j < grown.len() implies (#[trigger] grown[i]).at <= (
    #[trigger] grown[j]).at by {
        if i < place {
            assert(grown[i] == list[i]);
        } else if i > place {
            assert(grown[i] == list[i - 1]);
        }
        if j < place {
            assert(grown[j] == list[j]);
        } else if j > place {
            assert(grown[j] == list[j - 1]);
        }
    }
}

/// The updates of one time, in their order.
pub open spec fn due_at(list: Seq<ScheduledUpdate>, at: u64) -> Seq<ScheduledUpdate>
    decreases list.len(),
{
    if list.len() == 0 {
        seq![]
    } else {
        let before = due_at(list.drop_last(), at);
        if list.last().at == at {
            before.push(list.last())
        } else {
            before
        }
    }
}

proof fn lemma_due_at_join(first: Seq<ScheduledUpdate>, second: Seq<ScheduledUpdate>, at: u64)
    ensures
        due_at(first + second, at) == due_at(first, at) + due_at(second, at),
    decreases second.len(),
{
    let whole = first + second;
    if second.len() == 0 {
        assert(whole =~= first);
        assert(due_at(first, at) + due_at(second, at) =~= due_at(first, at));
    } else {
        assert(whole.drop_last() =~= first + second.drop_last());
        assert(whole.last() == second.last());
        lemma_due_at_join(first, second.drop_last(), at);
        assert(due_at(whole, at) =~= due_at(first, at) + due_at(second, at));
    }
}

proof fn lemma_due_at_none(list: Seq<ScheduledUpdate>, at: u64)
    requires
        forall|i: int| 0 <= i < list.len() ==> (#[trigger] list[i]).at != at,
    ensures
        due_at(list, at) == Seq::<ScheduledUpdate>::empty(),
    decreases list.len(),
{
    if list.len() > 0 {
        assert forall|i: int| 0 <= i < list.drop_last().len() implies (
        #[trigger] list.drop_last()[i]).at != at by {
            assert(list.drop_last()[i] == list[i]);
        }
        lemma_due_at_none(list.drop_last(), at);
    }
}

/// Putting an update in its place keeps the order of the times, drops nothing,
/// and puts it last among those of its own time.
pub proof fn law_updates_of_one_time_keep_their_order(
    list: Seq<ScheduledUpdate>,
    item: ScheduledUpdate,
    at: u64,
)
    requires
        in_order(list),
    ensures
        in_order(placed(list, item)),
        due_at(placed(list, item), at) == (if item.at == at {
            due_at(list, at).push(item)
        } else {
            due_at(list, at)
        }),
{
    lemma_placed(list, item);
    lemma_place_behind(list, item.at);
    let place = place_behind(list, item.at) as int;
    let front = list.take(place);
    let rest = list.skip(place);
    assert(list =~= front + rest);
    assert(placed(list, item) =~= front + seq![item] + rest);
    lemma_due_at_join(front, rest, at);
    lemma_due_at_join(front + seq![item], rest, at);
    lemma_due_at_join(front, seq![item], at);
    assert(seq![item].drop_last() =~= Seq::<ScheduledUpdate>::empty());
    assert(due_at(Seq::<ScheduledUpdate>::empty(), at) =~= Seq::<ScheduledUpdate>::empty());
    if item.at == at {
        lemma_due_at_none(rest, at);
        assert(due_at(seq![item], at) =~= seq![item]);
        assert(due_at(placed(list, item), at) =~= due_at(list, at).push(item));
    } else {
        assert(due_at(seq![item], at) =~= Seq::<ScheduledUpdate>::empty());
        assert(due_at(placed(list, item), at) =~= due_at(list, at));
    }
}

proof fn lemma_ordered(list: Seq<ScheduledUpdate>)
    ensures
        in_order(ordered(list)),
        ordered(list).len() == list.len(),
    decreases list.len(),
{
    if list.len() > 0 {
        lemma_ordered(list.drop_last());
        lemma_placed(ordered(list.drop_last()), list.last());
    }
}

/// Putting a list in order drops nothing, and keeps the order of the updates of
/// any one time.
pub proof fn law_ordering_keeps_every_update(list: Seq<ScheduledUpdate>, at: u64)
    ensures
        in_order(ordered(list)),
        ordered(list).len() == list.len(),
        due_at(ordered(list), at) == due_at(list, at),
    decreases list.len(),
{
    lemma_ordered(list);
    if list.len() > 0 {
        law_ordering_keeps_every_update(list.drop_last(), at);
        law_updates_of_one_time_keep_their_order(ordered(list.drop_last()), list.last(), at);
    }
}

/// Puts an update in its place.
fn place(list: &mut Vec<ScheduledUpdate>, item: ScheduledUpdate)
    ensures
        final(list)@ == placed(old(list)@, item),
{
    let ghost before = list@;
    let mut end: usize = list.len();
    assert(before.take(end as int) =~= before);
    while end > 0 && list[end - 1].at > item.at
        invariant
            end <= before.len(),
            list@ == before,
            place_behind(before, item.at) == place_behind(before.take(end as int), item.at),
        decreases end,
    {
        let ghost longer = before.take(end as int);
        assert(longer.drop_last() =~= before.take(end - 1));
        end = end - 1;
    }
    list.insert(end, item);
}

/// Puts a list in the order of its times.
fn put_in_order(list: Vec<ScheduledUpdate>) -> (r: Vec<ScheduledUpdate>)
    ensures
        r@ == ordered(list@),
{
    let ghost all = list@;
    let total: usize = list.len();
    let mut rest = list;
    let mut sorted: Vec<ScheduledUpdate> = Vec::new();
    let mut taken: usize = 0;
    assert(all.take(0) =~= Seq::<ScheduledUpdate>::empty());
    while taken < total
        invariant
            taken <= total == all.len(),
            rest@ =~= all.skip(taken as int),
            sorted@ == ordered(all.take(taken as int)),
        decreases total - taken,
    {
        assert(rest@[0] == all[taken as int]);
        assert(all.take(taken + 1).drop_last() =~= all.take(taken as int));
        let item = rest.remove(0);
        place(&mut sorted, item);
        taken = taken + 1;
        assert(rest@ =~= all.skip(taken as int));
    }
    assert(all.take(taken as int) =~= all);
    sorted
}

/// Where the stream stands, and the updates to come.
pub struct ObjectSchedule {
    pub pending: Vec<ScheduledUpdate>,
    pub position: u64,
}

/// The place behind the updates that are due, from one on.
pub open spec fn due_from(list: Seq<ScheduledUpdate>, position: u64, start: nat) -> nat
    decreases list.len() - start,
{
    if start >= list.len() || list[start as int].at > position {
        start
    } else {
        due_from(list, position, start + 1)
    }
}

/// How many updates at the head of a list are due.
pub open spec fn due_count(list: Seq<ScheduledUpdate>, position: u64) -> nat {
    due_from(list, position, 0)
}

proof fn lemma_due_from(list: Seq<ScheduledUpdate>, position: u64, start: nat)
    requires
        start <= list.len(),
    ensures
        start <= due_from(list, position, start) <= list.len(),
        forall|i: int|
            start <= i < due_from(list, position, start) ==> (#[trigger] list[i]).at <= position,
        due_from(list, position, start) < list.len() ==> list[due_from(
            list,
            position,
            start,
        ) as int].at > position,
    decreases list.len() - start,
{
    if start < list.len() && list[start as int].at <= position {
        lemma_due_from(list, position, start + 1);
    }
}

impl ObjectSchedule {
    pub fn new() -> (r: Self)
        ensures
            r.position == 0,
            r.pending@ == Seq::<ScheduledUpdate>::empty(),
    {
        ObjectSchedule { pending: Vec::new(), position: 0 }
    }

    /// Adds the updates of a frame that starts at some sample, and puts all in
    /// order. Where a time cannot be counted, the updates before it wait behind
    /// the others until the next frame is added.
    pub fn schedule_at(&mut self, frame_start: u64, updates: Vec<SpatialUpdate>) -> (r: Result<
        (),
        AppError,
    >)
        ensures
            final(self).position == old(self).position,
            ({
                let count = countable(frame_start, updates@, 0);
                let grown = old(self).pending@ + stamped(frame_start, updates@, count);
                &&& count == updates@.len() ==> r is Ok && final(self).pending@ == ordered(grown)
                    && in_order(final(self).pending@)
                &&& count < updates@.len() ==> r is Err && final(self).pending@ == grown
                    && r->Err_0 is Render && r->Err_0.text()
                    == "object metadata timeline overflowed"@
                &&& count <= updates@.len()
            }),
    {
        let ghost all = updates@;
        let ghost first = self.pending@;
        let total: usize = updates.len();
        let mut rest = updates;
        let mut taken: usize = 0;
        assert(first + stamped(frame_start, all, 0) =~= first);
        while taken < total
            invariant
                taken <= total == all.len(),
                rest@ =~= all.skip(taken as int),
                countable(frame_start, all, 0) == countable(frame_start, all, taken as nat),
                self.pending@ == first + stamped(frame_start, all, taken as nat),
                self.position == old(self).position,
                first == old(self).pending@,
                all == updates@,
            decreases total - taken,
        {
            assert(rest@[0] == all[taken as int]);
            let update = rest.remove(0);
            if update.sample_offset as u64 > u64::MAX - frame_start {
                return render_fault("object metadata timeline overflowed");
            }
            let at: u64 = frame_start + update.sample_offset as u64;
            self.pending.push(ScheduledUpdate { at, update });
            taken = taken + 1;
            assert(rest@ =~= all.skip(taken as int));
            assert(self.pending@ =~= first + stamped(frame_start, all, taken as nat));
        }
        let mut waiting: Vec<ScheduledUpdate> = Vec::new();
        waiting.append(&mut self.pending);
        let ghost grown = waiting@;
        assert(grown =~= first + stamped(frame_start, all, total as nat));
        proof {
            lemma_ordered(grown);
        }
        self.pending = put_in_order(waiting);
        Ok(())
    }

    /// Takes out the updates that are due.
    pub fn take_due(&mut self) -> (r: Vec<SpatialUpdate>)
        ensures
            final(self).position == old(self).position,
            ({
                let due = due_count(old(self).pending@, old(self).position);
                &&& due <= old(self).pending@.len()
                &&& r@ == Seq::new(due, |i: int| old(self).pending@[i].update)
                &&& final(self).pending@ == old(self).pending@.skip(due as int)
            }),
    {
        let ghost list = self.pending@;
        let mut taken: Vec<SpatialUpdate> = Vec::new();
        while self.pending.len() > 0 && self.pending[0].at <= self.position
            invariant
                self.position == old(self).position,
                list == old(self).pending@,
                taken@.len() <= list.len(),
                due_count(list, self.position) == due_from(list, self.position, taken@.len()),
                self.pending@ =~= list.skip(taken@.len() as int),
                taken@ =~= Seq::new(taken@.len(), |i: int| list[i].update),
            decreases self.pending@.len(),
        {
            assert(self.pending@[0] == list[taken@.len() as int]);
            let head = self.pending.remove(0);
            taken.push(head.update);
            assert(self.pending@ =~= list.skip(taken@.len() as int));
        }
        proof {
            if taken@.len() < list.len() {
                assert(self.pending@[0] == list[taken@.len() as int]);
            }
        }
        taken
    }

    /// Moves on by one sample.
    pub fn advance(&mut self) -> (r: Result<(), AppError>)
        ensures
            final(self).pending@ == old(self).pending@,
            old(self).position < u64::MAX ==> r is Ok && final(self).position == old(self).position
                + 1,
            old(self).position == u64::MAX ==> r is Err && final(self).position == old(self).position && r->Err_0 is Render && r->Err_0.text()
                == "object sample timeline overflowed"@,
    {
        if self.position == u64::MAX {
            return render_fault("object sample timeline overflowed");
        }
        self.position = self.position + 1;
        Ok(())
    }
}

impl Default for ObjectSchedule {
    fn default() -> (r: Self)
        ensures
            r.position == 0,
            r.pending@ == Seq::<ScheduledUpdate>::empty(),
    {
        ObjectSchedule::new()
    }
}

/// The updates that are taken are due, and with those that are left they are all
/// there were. Of a list in order none that is left is due.
pub proof fn law_no_update_is_lost(list: Seq<ScheduledUpdate>, position: u64)
    ensures
        ({
            let due = due_count(list, position) as int;
            &&& due <= list.len()
            &&& list.take(due) + list.skip(due) == list
            &&& forall|i: int|
                0 <= i < list.take(due).len() ==> (#[trigger] list.take(due)[i]).at <= position
            &&& in_order(list) ==> forall|i: int|
                0 <= i < list.skip(due).len() ==> (#[trigger] list.skip(due)[i]).at > position
        }),
{
    lemma_due_from(list, position, 0);
    let due = due_count(list, position) as int;
    assert(list.take(due) + list.skip(due) =~= list);
    if in_order(list) {
        assert forall|i: int| 0 <= i < list.skip(due).len() implies (#[trigger] list.skip(due)[i]).at
            > position by {
            assert(list.skip(due)[i] == list[due + i]);
            assert(list[due].at <= list[due + i].at);
        }
    }
}

/// What is wrong with the shape of a frame of samples.
pub enum FrameFault {
    Rate { rate: u32, hrir: u32 },
    RateChange,
    Overflow,
    Dimensions,
}

impl FrameFault {
    pub open spec fn text(self) -> Seq<char> {
        match self {
            FrameFault::Rate { rate, hrir } => "object-audio sample rate "@ + digits(rate as nat)
                + " does not match the prepared HRIR rate "@ + digits(hrir as nat),
            FrameFault::RateChange => "object-audio sample rate changes within the stream"@,
            FrameFault::Overflow => "object-audio PCM frame dimensions overflowed"@,
            FrameFault::Dimensions => "object-audio PCM frame has inconsistent dimensions"@,
        }
    }

    /// Whether the stream, and not its handling, is at fault.
    pub open spec fn of_the_stream(self) -> bool {
        self is Rate || self is RateChange
    }
}

/// What is wrong with a frame, first things first.
pub open spec fn frame_fault(
    known: Option<u32>,
    hrir: u32,
    rate: u32,
    samples: nat,
    channels: nat,
    held: nat,
    speakers: nat,
) -> Option<FrameFault> {
    if rate != hrir {
        Some(FrameFault::Rate { rate, hrir })
    } else if known is Some && known->0 != rate {
        Some(FrameFault::RateChange)
    } else if samples * channels > usize::MAX {
        Some(FrameFault::Overflow)
    } else if channels == 0 || held != samples * channels || speakers != channels {
        Some(FrameFault::Dimensions)
    } else {
        None
    }
}

/// Checks the shape of a frame, and notes its rate. A rate other than that of
/// the profile is not noted.
pub fn validate_dimensions(
    known: &mut Option<u32>,
    hrir_rate: u32,
    sample_rate: u32,
    sample_count: usize,
    channel_count: usize,
    held: usize,
    speakers: usize,
) -> (r: Result<(), AppError>)
    ensures
        *final(known) == (if sample_rate == hrir_rate {
            Some(sample_rate)
        } else {
            *old(known)
        }),
        match frame_fault(
            *old(known),
            hrir_rate,
            sample_rate,
            sample_count as nat,
            channel_count as nat,
            held as nat,
            speakers as nat,
        ) {
            None => r is Ok,
            Some(fault) => {
                &&& r is Err
                &&& r->Err_0.text() == fault.text()
                &&& fault.of_the_stream() ==> r->Err_0 is UnsupportedInput
                &&& !fault.of_the_stream() ==> r->Err_0 is Render
            },
        },
{
    if sample_rate != hrir_rate {
        let mut message = text_around(
            "object-audio sample rate ",
            sample_rate as u64,
            " does not match the prepared HRIR rate ",
        );
        message.append(decimal(hrir_rate as u64).as_str());
        return Err(AppError::UnsupportedInput(Reason::Note(message)));
    }
    let previous = *known;
    *known = Some(sample_rate);
    if let Some(rate) = previous {
        if rate != sample_rate {
            return unsupported_fault("object-audio sample rate changes within the stream");
        }
    }
    match sample_count.checked_mul(channel_count) {
        None => render_fault("object-audio PCM frame dimensions overflowed"),
        Some(expected) => {
            if channel_count == 0 || held != expected || speakers != channel_count {
                return render_fault("object-audio PCM frame has inconsistent dimensions");
            }
            Ok(())
        },
    }
}

/// Which channels carry objects, which carry the intermediate spatial format,
/// and which beds must stay away from.
pub struct ObjectRouting {
    pub isf: Option<IsfRenderer>,
    pub objects: HashSet<usize>,
    pub claimed: HashSet<usize>,
}

/// A new state of one signal of the intermediate spatial format.
#[derive(Clone, Copy, Debug, PartialEq, Eq)]
pub struct IsfChange {
    pub channel: usize,
    pub plan: RowPlan,
    pub gain: Gain,
    pub trim: ObjectTrim,
}

/// What an update asks of the sources.
pub struct RoutingChange {
    /// Channels whose objects end.
    pub retired: Vec<usize>,
    pub isf: Vec<IsfChange>,
    /// Whether each object of the update begins, or else moves.
    pub begins: Vec<bool>,
}

/// What a channel carries.
#[derive(Clone, Copy, Debug, PartialEq, Eq, Structural)]
pub enum ChannelRole {
    Object,
    Isf,
    Bed { speaker: Speaker },
    Nothing,
}

/// Whether a renderer has rows for a channel.
pub open spec fn isf_channel(isf: Option<IsfRenderer>, channel: nat) -> bool {
    isf is Some && isf->0.config.start_channel <= channel < isf->0.config.start_channel
        + isf->0.config.channel_count
}

/// Whether some object of an update uses a channel.
pub open spec fn mentioned(states: Seq<ObjectState>, channel: nat, count: nat) -> bool {
    exists|i: int| 0 <= i < count && (#[trigger] states[i]).source_channel == channel
}

/// Whether an update gives a channel back to the bed.
pub open spec fn released(update: SpatialUpdate, channel: nat) -> bool {
    channel < update.bed_speakers@.len() && !mentioned(
        update.objects@,
        channel,
        update.objects@.len(),
    )
}

/// The channels below some number whose objects an update ends.
pub open spec fn ended(objects: Set<usize>, update: SpatialUpdate, count: nat) -> Seq<usize>
    decreases count,
{
    if count == 0 {
        seq![]
    } else {
        let before = ended(objects, update, (count - 1) as nat);
        if released(update, (count - 1) as nat) && objects.contains((count - 1) as usize) {
            before.push((count - 1) as usize)
        } else {
            before
        }
    }
}

/// The channels of a range that carry objects.
pub open spec fn objects_within(objects: Set<usize>, start: nat, end: nat) -> Seq<usize>
    decreases end - start,
{
    if start >= end {
        seq![]
    } else {
        let before = objects_within(objects, start, (end - 1) as nat);
        if objects.contains((end - 1) as usize) {
            before.push((end - 1) as usize)
        } else {
            before
        }
    }
}

/// The new state of one signal.
pub open spec fn isf_change(isf: Option<IsfRenderer>, state: IsfState) -> Option<IsfChange> {
    if !isf_channel(isf, state.source_channel as nat) {
        None
    } else {
        Some(
            IsfChange {
                channel: state.source_channel,
                plan: if !state.active || isf->0.muted {
                    RowPlan::Silent
                } else {
                    RowPlan::Row {
                        start: ((state.source_channel - isf->0.config.start_channel)
                            * isf->0.outputs@.len()) as usize,
                    }
                },
                gain: state.gain,
                trim: state.trim,
            },
        )
    }
}

/// The first signal state from one on that no row serves.
pub open spec fn misplaced(isf: Option<IsfRenderer>, states: Seq<IsfState>, start: nat) -> Option<nat>
    decreases states.len() - start,
{
    if start >= states.len() {
        None
    } else if !isf_channel(isf, states[start as int].source_channel as nat) {
        Some(start)
    } else {
        misplaced(isf, states, start + 1)
    }
}

/// Whether a channel carries an object once an update has been applied.
pub open spec fn carries_object(objects: Set<usize>, update: SpatialUpdate, channel: usize) -> bool {
    mentioned(update.objects@, channel as nat, update.objects@.len()) || (objects.contains(channel)
        && !released(update, channel as nat))
}

/// What stands in the way of a run of signals, before its routes are looked at.
pub open spec fn range_fault(config: IsfConfig, channels: nat) -> Option<Seq<char>> {
    let end = config.start_channel + config.channel_count;
    if end > usize::MAX {
        Some("ISF channel range overflowed"@)
    } else if end > channels {
        Some(
            "ISF channel range "@ + digits(config.start_channel as nat) + ".."@ + digits(end as nat)
                + " exceeds "@ + digits(channels) + " decoded channels"@,
        )
    } else {
        None
    }
}

fn range_text(start: usize, end: usize, channels: usize) -> (r: String)
    ensures
        r@ == "ISF channel range "@ + digits(start as nat) + ".."@ + digits(end as nat)
            + " exceeds "@ + digits(channels as nat) + " decoded channels"@,
{
    let mut message = text_around("ISF channel range ", start as u64, "..");
    message.append(text_around("", end as u64, " exceeds ").as_str());
    message.append(text_around("", channels as u64, " decoded channels").as_str());
    proof {
        reveal_strlit("");
        assert(message@ =~= "ISF channel range "@ + digits(start as nat) + ".."@ + digits(
            end as nat,
        ) + " exceeds "@ + digits(channels as nat) + " decoded channels"@);
    }
    message
}

/// What a channel carries: an object, a signal of a run, or else its bed channel,
/// unless metadata has claimed it.
pub open spec fn channel_role(
    isf: Option<IsfRenderer>,
    objects: Set<usize>,
    claimed: Set<usize>,
    channel: usize,
    speaker: Option<Speaker>,
    mute_bed: bool,
) -> ChannelRole {
    if objects.contains(channel) {
        ChannelRole::Object
    } else if isf_channel(isf, channel as nat) {
        ChannelRole::Isf
    } else if !claimed.contains(channel) && !mute_bed && speaker is Some {
        ChannelRole::Bed { speaker: speaker->0 }
    } else {
        ChannelRole::Nothing
    }
}

impl ObjectRouting {
    pub open spec fn wf(self) -> bool {
        &&& forall|c: usize| self.objects@.contains(c) ==> #[trigger] self.claimed@.contains(c)
        &&& forall|c: usize|
            isf_channel(self.isf, c as nat) ==> #[trigger] self.claimed@.contains(c)
        &&& self.isf is Some ==> self.isf->0.config.channel_count <= 30
            && self.isf->0.outputs@.len() <= 13
    }

    pub fn new() -> (r: Self)
        ensures
            r.wf(),
            r.isf is None,
            r.objects@ == Set::<usize>::empty(),
            r.claimed@ == Set::<usize>::empty(),
    {
        ObjectRouting { isf: None, objects: HashSet::new(), claimed: HashSet::new() }
    }

    /// Takes note of the run of signals of a frame. Its renderer is prepared when
    /// it first appears, and must stay the same from there on. Objects within
    /// the run end.
    pub fn configure_isf(
        &mut self,
        config: Option<IsfConfig>,
        channel_count: usize,
        hrir: &HrirSet,
        tables: &[IsfTable],
        buses: &[Speaker],
        options: ObjectRenderOptions,
    ) -> (r: Result<Vec<usize>, AppError>)
        requires
            old(self).wf(),
            config is Some ==> isf_size(config->0.channel_count as nat),
        ensures
            final(self).wf(),
            r is Err ==> *final(self) == *old(self),
            config is None ==> r is Ok && r->Ok_0@.len() == 0 && *final(self) == *old(self),
            config is Some ==> match range_fault(config->0, channel_count as nat) {
                Some(text) => r is Err && r->Err_0 is Render && r->Err_0.text() == text,
                None => match old(self).isf {
                    Some(renderer) => if renderer.config == config->0 {
                        r is Ok && r->Ok_0@.len() == 0 && *final(self) == *old(self)
                    } else {
                        r is Err && r->Err_0 is UnsupportedInput && r->Err_0.text()
                            == "ISF configuration changes within the stream"@
                    },
                    None => match richest_layout(hrir.channels@) {
                        None => r == Err::<Vec<usize>, AppError>(
                            AppError::InvalidHrir(Reason::Isf(IsfFault::NoLayout)),
                        ),
                        Some(layout) => match table_place(
                            tables@,
                            config->0.channel_count,
                            layout,
                            0,
                        ) {
                            None => r == Err::<Vec<usize>, AppError>(
                                AppError::UnsupportedInput(
                                    Reason::Isf(
                                        IsfFault::NoMatrix {
                                            inputs: config->0.channel_count,
                                            speakers: layout.listed().len() as usize,
                                        },
                                    ),
                                ),
                            ),
                            Some(place) => match output_routes(
                                layout.listed(),
                                *hrir,
                                buses@,
                                options.surround_swap,
                                options.mute_ground,
                                0,
                            ) {
                                Err(e) => r == Err::<Vec<usize>, AppError>(e),
                                Ok(routes) => {
                                    let first = config->0.start_channel;
                                    let end = first + config->0.channel_count;
                                    &&& r is Ok
                                    &&& r->Ok_0@ == objects_within(
                                        old(self).objects@,
                                        first as nat,
                                        end as nat,
                                    )
                                    &&& final(self).isf is Some
                                    &&& final(self).isf->0.config == config->0
                                    &&& final(self).isf->0.layout == layout
                                    &&& final(self).isf->0.table == place
                                    &&& final(self).isf->0.outputs@ == routes
                                    &&& final(self).isf->0.trim_configuration
                                        == trim_configuration_of(
                                        mids_among(layout.listed(), layout.listed().len()),
                                        tops_among(layout.listed(), layout.listed().len()),
                                    )
                                    &&& final(self).isf->0.muted == options.mute_bed
                                    &&& forall|c: usize| #[trigger]
                                        final(self).objects@.contains(c) == (old(self).objects@.contains(c) && !(first <= c < end))
                                    &&& forall|c: usize| #[trigger]
                                        final(self).claimed@.contains(c) == (old(self).claimed@.contains(c) || first <= c < end)
                                },
                            },
                        },
                    },
                },
            },
    {
        let config = match config {
            None => return Ok(Vec::new()),
            Some(config) => config,
        };
        let first: usize = config.start_channel;
        let end: usize = match first.checked_add(config.channel_count) {
            None => return render_fault("ISF channel range overflowed"),
            Some(end) => end,
        };
        if end > channel_count {
            return Err(AppError::Render(Reason::Note(range_text(first, end, channel_count))));
        }
        if let Some(renderer) = &self.isf {
            if renderer.config != config {
                return unsupported_fault("ISF configuration changes within the stream");
            }
            return Ok(Vec::new());
        }
        let renderer = match IsfRenderer::new(
            config,
            hrir,
            tables,
            buses,
            options.surround_swap,
            options.mute_bed,
            options.mute_ground,
        ) {
            Err(e) => return Err(e),
            Ok(renderer) => renderer,
        };
        let ghost objects = self.objects@;
        let ghost claimed = self.claimed@;
        let mut retired: Vec<usize> = Vec::new();
        let mut channel: usize = first;
        while channel < end
            invariant
                first <= channel <= end,
                self.isf == old(self).isf,
                objects == old(self).objects@,
                claimed == old(self).claimed@,
                retired@ == objects_within(objects, first as nat, channel as nat),
                forall|c: usize| #[trigger]
                    self.objects@.contains(c) == (objects.contains(c) && !(first <= c < channel)),
                forall|c: usize| #[trigger]
                    self.claimed@.contains(c) == (claimed.contains(c) || first <= c < channel),
            decreases end - channel,
        {
            if self.objects.remove(&channel) {
                retired.push(channel);
            }
            let _ = self.claimed.insert(channel);
            channel = channel + 1;
        }
        self.isf = Some(renderer);
        Ok(retired)
    }

    /// Applies an update: it gives channels back to the bed, then tells of signals,
    /// then claims channels for objects. Where a signal is out of place the
    /// channels given back stay so.
    pub fn apply_update(&mut self, update: &SpatialUpdate) -> (r: Result<RoutingChange, AppError>)
        requires
            old(self).wf(),
        ensures
            final(self).wf(),
            final(self).isf == old(self).isf,
            match misplaced(old(self).isf, update.isf@, 0) {
                Some(place) => {
                    &&& forall|c: usize| #[trigger]
                        final(self).objects@.contains(c) == (old(self).objects@.contains(c)
                            && !released(*update, c as nat))
                    &&& forall|c: usize| #[trigger]
                        final(self).claimed@.contains(c) == (old(self).claimed@.contains(c) && !(
                        released(*update, c as nat) && !isf_channel(old(self).isf, c as nat)))
                    &&& r is Err
                    &&& r->Err_0 is Render
                    &&& old(self).isf is None ==> r->Err_0.text()
                        == "received ISF metadata before an ISF program assignment"@
                    &&& old(self).isf is Some ==> r->Err_0.text() == (IsfFault::OutsideRange {
                        channel: update.isf@[place as int].source_channel,
                    }).text()
                },
                None => {
                    &&& r is Ok
                    &&& r->Ok_0.retired@ == ended(
                        old(self).objects@,
                        *update,
                        update.bed_speakers@.len(),
                    )
                    &&& r->Ok_0.isf@.len() == update.isf@.len()
                    &&& forall|i: int|
                        0 <= i < update.isf@.len() ==> Some(#[trigger] r->Ok_0.isf@[i])
                            == isf_change(old(self).isf, update.isf@[i])
                    &&& r->Ok_0.begins@.len() == update.objects@.len()
                    &&& forall|i: int|
                        0 <= i < update.objects@.len() ==> #[trigger] r->Ok_0.begins@[i] == !(old(self).objects@.contains(update.objects@[i].source_channel) || mentioned(
                            update.objects@,
                            update.objects@[i].source_channel as nat,
                            i as nat,
                        ))
                    &&& forall|c: usize| #[trigger]
                        final(self).objects@.contains(c) == carries_object(
                            old(self).objects@,
                            *update,
                            c,
                        )
                    &&& forall|c: usize| #[trigger]
                        final(self).claimed@.contains(c) == (mentioned(
                            update.objects@,
                            c as nat,
                            update.objects@.len(),
                        ) || (old(self).claimed@.contains(c) && !(released(*update, c as nat)
                            && !isf_channel(old(self).isf, c as nat))))
                },
            },
    {
        let retired = self.release_beds(update);
        let isf = match self.plan_isf(update.isf.as_slice()) {
            Err(e) => return Err(e),
            Ok(isf) => isf,
        };
        let begins = self.claim_objects(update, Ghost(old(self).objects@));
        Ok(RoutingChange { retired, isf, begins })
    }

    fn plan_isf(&self, states: &[IsfState]) -> (r: Result<Vec<IsfChange>, AppError>)
        requires
            self.wf(),
        ensures
            match misplaced(self.isf, states@, 0) {
                Some(place) => {
                    &&& r is Err
                    &&& r->Err_0 is Render
                    &&& self.isf is None ==> r->Err_0.text()
                        == "received ISF metadata before an ISF program assignment"@
                    &&& self.isf is Some ==> r->Err_0.text() == (IsfFault::OutsideRange {
                        channel: states@[place as int].source_channel,
                    }).text()
                },
                None => {
                    &&& r is Ok
                    &&& r->Ok_0@.len() == states@.len()
                    &&& forall|i: int|
                        0 <= i < states@.len() ==> Some(#[trigger] r->Ok_0@[i]) == isf_change(
                            self.isf,
                            states@[i],
                        )
                },
            },
    {
        let mut planned: Vec<IsfChange> = Vec::new();
        let mut i: usize = 0;
        while i < states.len()
            invariant
                i <= states@.len(),
                self.wf(),
                planned@.len() == i,
                misplaced(self.isf, states@, 0) == misplaced(self.isf, states@, i as nat),
                forall|j: int|
                    0 <= j < i ==> Some(#[trigger] planned@[j]) == isf_change(
                        self.isf,
                        states@[j],
                    ),
            decreases states@.len() - i,
        {
            let state: IsfState = states[i];
            match &self.isf {
                None => {
                    return render_fault("received ISF metadata before an ISF program assignment");
                },
                Some(renderer) => match renderer.row_plan(state.source_channel, state.active) {
                    Err(e) => {
                        return Err(e);
                    },
                    Ok(plan) => {
                        let ghost before = planned@;
                        planned.push(
                            IsfChange {
                                channel: state.source_channel,
                                plan,
                                gain: state.gain,
                                trim: state.trim,
                            },
                        );
                        proof {
                            let first = renderer.config.start_channel;
                            let row = state.source_channel - first;
                            let width = renderer.outputs@.len();
                            assert(row * width <= 30 * 13) by (nonlinear_arith)
                                requires
                                    0 <= row < 30,
                                    0 <= width <= 13,
                            ;
                            assert forall|j: int| 0 <= j < i + 1 implies Some(
                                #[trigger] planned@[j],
                            ) == isf_change(self.isf, states@[j]) by {
                                if j < i {
                                    assert(planned@[j] == before[j]);
                                }
                            }
                        }
                    },
                },
            }
            i = i + 1;
        }
        Ok(planned)
    }

    fn release_beds(&mut self, update: &SpatialUpdate) -> (r: Vec<usize>)
        ensures
            final(self).isf == old(self).isf,
            r@ == ended(old(self).objects@, *update, update.bed_speakers@.len()),
            forall|c: usize| #[trigger]
                final(self).objects@.contains(c) == (old(self).objects@.contains(c) && !released(
                    *update,
                    c as nat,
                )),
            forall|c: usize| #[trigger]
                final(self).claimed@.contains(c) == (old(self).claimed@.contains(c) && !(released(
                    *update,
                    c as nat,
                ) && !isf_channel(old(self).isf, c as nat))),
    {
        let ghost objects = self.objects@;
        let ghost claimed = self.claimed@;
        let mut retired: Vec<usize> = Vec::new();
        let mut channel: usize = 0;
        let total: usize = update.bed_speakers.len();
        while channel < total
            invariant
                channel <= total == update.bed_speakers@.len(),
                self.isf == old(self).isf,
                objects == old(self).objects@,
                claimed == old(self).claimed@,
                retired@ == ended(objects, *update, channel as nat),
                forall|c: usize| #[trigger]
                    self.objects@.contains(c) == (objects.contains(c) && !(c < channel && released(
                        *update,
                        c as nat,
                    ))),
                forall|c: usize| #[trigger]
                    self.claimed@.contains(c) == (claimed.contains(c) && !(c < channel && released(
                        *update,
                        c as nat,
                    ) && !isf_channel(self.isf, c as nat))),
            decreases total - channel,
        {
            if !uses_channel(update.objects.as_slice(), channel) {
                if self.objects.remove(&channel) {
                    retired.push(channel);
                }
                if !self.serves(channel) {
                    let _ = self.claimed.remove(&channel);
                }
            }
            channel = channel + 1;
        }
        retired
    }

    fn serves(&self, channel: usize) -> (r: bool)
        ensures
            r == isf_channel(self.isf, channel as nat),
    {
        match &self.isf {
            None => false,
            Some(renderer) => match renderer.config.row(channel) {
                None => false,
                Some(_) => true,
            },
        }
    }

    fn claim_objects(
        &mut self,
        update: &SpatialUpdate,
        Ghost(objects): Ghost<Set<usize>>,
    ) -> (r: Vec<bool>)
        requires
            forall|c: usize| #[trigger]
                old(self).objects@.contains(c) == (objects.contains(c) && !released(
                    *update,
                    c as nat,
                )),
        ensures
            final(self).isf == old(self).isf,
            r@.len() == update.objects@.len(),
            forall|i: int|
                0 <= i < update.objects@.len() ==> #[trigger] r@[i] == !(objects.contains(
                    update.objects@[i].source_channel,
                ) || mentioned(
                    update.objects@,
                    update.objects@[i].source_channel as nat,
                    i as nat,
                )),
            forall|c: usize| #[trigger]
                final(self).objects@.contains(c) == (old(self).objects@.contains(c) || mentioned(
                    update.objects@,
                    c as nat,
                    update.objects@.len(),
                )),
            forall|c: usize| #[trigger]
                final(self).claimed@.contains(c) == (old(self).claimed@.contains(c) || mentioned(
                    update.objects@,
                    c as nat,
                    update.objects@.len(),
                )),
    {
        let mut begins: Vec<bool> = Vec::new();
        let mut i: usize = 0;
        let total: usize = update.objects.len();
        let ghost states = update.objects@;
        while i < total
            invariant
                i <= total == states.len(),
                states == update.objects@,
                self.isf == old(self).isf,
                begins@.len() == i,
                forall|c: usize| #[trigger]
                    old(self).objects@.contains(c) == (objects.contains(c) && !released(
                        *update,
                        c as nat,
                    )),
                forall|j: int|
                    0 <= j < i ==> #[trigger] begins@[j] == !(objects.contains(
                        states[j].source_channel,
                    ) || mentioned(states, states[j].source_channel as nat, j as nat)),
                forall|c: usize| #[trigger]
                    self.objects@.contains(c) == (old(self).objects@.contains(c) || mentioned(
                        states,
                        c as nat,
                        i as nat,
                    )),
                forall|c: usize| #[trigger]
                    self.claimed@.contains(c) == (old(self).claimed@.contains(c) || mentioned(
                        states,
                        c as nat,
                        i as nat,
                    )),
            decreases total - i,
        {
            let channel: usize = update.objects[i].source_channel;
            let _ = self.claimed.insert(channel);
            let fresh = self.objects.insert(channel);
            proof {
                assert(mentioned(states, channel as nat, states.len())) by {
                    assert(states[i as int].source_channel == channel);
                }
                assert forall|c: nat| #[trigger]
                    mentioned(states, c, (i + 1) as nat) == (mentioned(states, c, i as nat) || c
                        == channel) by {
                    if c == channel {
                        assert(states[i as int].source_channel == c);
                    }
                    if mentioned(states, c, i as nat) {
                        let k = choose|k: int|
                            0 <= k < i && (#[trigger] states[k]).source_channel == c;
                        assert(states[k].source_channel == c && 0 <= k < i + 1);
                    }
                    if mentioned(states, c, (i + 1) as nat) && c != channel {
                        let k = choose|k: int|
                            0 <= k < i + 1 && (#[trigger] states[k]).source_channel == c;
                        assert(0 <= k < i && states[k].source_channel == c);
                    }
                }
            }
            begins.push(fresh);
            i = i + 1;
        }
        begins
    }

    /// What a channel carries now.
    pub fn role(&self, channel: usize, speaker: Option<Speaker>, mute_bed: bool) -> (r: ChannelRole)
        requires
            self.wf(),
        ensures
            r == channel_role(
                self.isf,
                self.objects@,
                self.claimed@,
                channel,
                speaker,
                mute_bed,
            ),
    {
        if self.objects.contains(&channel) {
            return ChannelRole::Object;
        }
        if self.serves(channel) {
            return ChannelRole::Isf;
        }
        if self.claimed.contains(&channel) || mute_bed {
            return ChannelRole::Nothing;
        }
        match speaker {
            Some(speaker) => ChannelRole::Bed { speaker },
            None => ChannelRole::Nothing,
        }
    }
}

impl Default for ObjectRouting {
    fn default() -> (r: Self)
        ensures
            r.wf(),
            r.isf is None,
            r.objects@ == Set::<usize>::empty(),
            r.claimed@ == Set::<usize>::empty(),
    {
        ObjectRouting::new()
    }
}

fn uses_channel(states: &[ObjectState], channel: usize) -> (r: bool)
    ensures
        r == mentioned(states@, channel as nat, states@.len()),
{
    let mut i: usize = 0;
    while i < states.len()
        invariant
            i <= states@.len(),
            forall|j: int| 0 <= j < i ==> (#[trigger] states@[j]).source_channel != channel,
        decreases states@.len() - i,
    {
        if states[i].source_channel == channel {
            assert(states@[i as int].source_channel == channel);
            return true;
        }
        i = i + 1;
    }
    false
}

/// A channel that an update gives back to the bed carries no object, and unless
/// it carries a signal of the intermediate spatial format it sounds as the bed
/// again.
pub proof fn law_released_channels_sound_as_bed(
    before: ObjectRouting,
    after: ObjectRouting,
    update: SpatialUpdate,
    channel: usize,
)
    requires
        before.wf(),
        released(update, channel as nat),
        after.isf == before.isf,
        forall|c: usize| #[trigger]
            after.objects@.contains(c) == carries_object(before.objects@, update, c),
        forall|c: usize| #[trigger]
            after.claimed@.contains(c) == (mentioned(
                update.objects@,
                c as nat,
                update.objects@.len(),
            ) || (before.claimed@.contains(c) && !(released(update, c as nat) && !isf_channel(
                before.isf,
                c as nat,
            )))),
    ensures
        !after.objects@.contains(channel),
        !isf_channel(before.isf, channel as nat) ==> !after.claimed@.contains(channel),
{
}

/// Where a sample of a bed channel goes.
#[derive(Clone, Copy, Debug, PartialEq, Eq, Structural)]
pub enum BedRoute {
    Muted,
    LowFrequency { bus: usize },
    Direct { route: DirectRoute },
    Bus { bus: usize },
}

/// Where the bed channel of a speaker goes.
pub open spec fn bed_route(
    speaker: Speaker,
    options: ObjectRenderOptions,
    hrir: HrirSet,
    buses: Seq<Speaker>,
) -> Result<BedRoute, (bool, Seq<char>)> {
    let speaker = if options.surround_swap {
        speaker.swapped()
    } else {
        speaker
    };
    if options.mute_ground && !speaker.overhead() {
        Ok(BedRoute::Muted)
    } else if speaker == Speaker::Lfe {
        match speaker_place(buses, Speaker::Lfe, 0) {
            None => Err((false, "missing calibrated binaural LFE bus"@)),
            Some(bus) => Ok(BedRoute::LowFrequency { bus: bus as usize }),
        }
    } else if options.speaker_virtualizer && !speaker.overhead() {
        Ok(BedRoute::Direct { route: direct_route(speaker) })
    } else {
        match serving_place(hrir.channels@, speaker) {
            None => Err((true, "HRIR has no route for bed channel "@ + speaker.label())),
            Some(place) => {
                let resolved = hrir.channels@[place as int].speaker;
                match speaker_place(buses, resolved, 0) {
                    None => Err((false, "missing virtual-speaker bus for "@ + resolved.label())),
                    Some(bus) => Ok(BedRoute::Bus { bus: bus as usize }),
                }
            },
        }
    }
}

/// Finds where a bed channel goes.
pub fn route_bed(
    speaker: Speaker,
    options: ObjectRenderOptions,
    hrir: &HrirSet,
    buses: &[Speaker],
) -> (r: Result<BedRoute, AppError>)
    ensures
        match bed_route(speaker, options, *hrir, buses@) {
            Ok(route) => r == Ok::<BedRoute, AppError>(route),
            Err((of_profile, text)) => {
                &&& r is Err
                &&& of_profile ==> r->Err_0 is InvalidHrir
                &&& !of_profile ==> r->Err_0 is Render
                &&& r->Err_0.text() == text
            },
        },
{
    let speaker = if options.surround_swap {
        speaker.surround_swapped()
    } else {
        speaker
    };
    if options.mute_ground && !speaker.is_height() {
        return Ok(BedRoute::Muted);
    }
    if speaker == Speaker::Lfe {
        return match find_speaker(buses, Speaker::Lfe) {
            None => render_fault("missing calibrated binaural LFE bus"),
            Some(bus) => Ok(BedRoute::LowFrequency { bus }),
        };
    }
    if options.speaker_virtualizer && !speaker.is_height() {
        return Ok(BedRoute::Direct { route: direct_stereo_route(speaker) });
    }
    match hrir.resolved_speaker(speaker) {
        None => Err(
            AppError::InvalidHrir(
                Reason::Note(text_pair("HRIR has no route for bed channel ", speaker.name())),
            ),
        ),
        Some(resolved) => match find_speaker(buses, resolved) {
            None => Err(
                AppError::Render(
                    Reason::Note(text_pair("missing virtual-speaker bus for ", resolved.name())),
                ),
            ),
            Some(bus) => Ok(BedRoute::Bus { bus }),
        },
    }
}

/// How an object is rendered, apart from its numbers.
#[derive(Clone, Copy, Debug, PartialEq, Eq, Structural)]
pub struct ObjectPlan {
    pub audible: bool,
    /// Whether its distance is told by image sources.
    pub image_distance: bool,
    /// Whether it feeds the fixed early reflections.
    pub reflects: bool,
    /// Whether it may have continuous filters of its own.
    pub continuous: bool,
}

impl ObjectPlan {
    pub open spec fn of(state: ObjectState, options: ObjectRenderOptions, grounded: bool) -> ObjectPlan {
        let low_frequency = state.bed_speaker == Some(Speaker::Lfe);
        let image = options.distance_renderer == DistanceRendererMode::ImageSource
            && state.distance is Some && !low_frequency;
        ObjectPlan {
            audible: state.active && !(state.bed_speaker is Some && options.mute_bed) && !(
            options.mute_ground && grounded),
            image_distance: image,
            reflects: !low_frequency && !image,
            continuous: options.object_renderer == ObjectRendererMode::Continuous
                && state.bed_speaker is None,
        }
    }

    /// Plans an object that stands at or below the listener, or above.
    pub fn new(state: &ObjectState, options: ObjectRenderOptions, grounded: bool) -> (r: Self)
        ensures
            r == ObjectPlan::of(*state, options, grounded),
    {
        let low_frequency = match state.bed_speaker {
            Some(speaker) => speaker == Speaker::Lfe,
            None => false,
        };
        let image = options.distance_renderer == DistanceRendererMode::ImageSource
            && state.distance.is_some() && !low_frequency;
        ObjectPlan {
            audible: state.active && !(state.bed_speaker.is_some() && options.mute_bed) && !(
            options.mute_ground && grounded),
            image_distance: image,
            reflects: !low_frequency && !image,
            continuous: options.object_renderer == ObjectRendererMode::Continuous
                && state.bed_speaker.is_none(),
        }
    }
}

/// What happens to a moving object at a frame.
#[derive(Clone, Copy, Debug, PartialEq, Eq, Structural)]
pub enum RampStep {
    /// It stands still.
    Idle,
    /// It moves on along the line of gains.
    Move,
    /// It takes its target exactly.
    Arrive,
    /// A line of gains of so many frames begins.
    Segment { frames: usize },
}

/// Counts the frames of a movement.
#[derive(Clone, Copy, Debug, PartialEq, Eq, Structural)]
pub struct RampClock {
    /// Frames until the target.
    pub remaining: usize,
    /// Frames until the end of the line of gains.
    pub segment: usize,
}

/// The length of the line of gains that begins so many frames before the target.
pub open spec fn segment_frames(remaining: nat) -> nat {
    if remaining < SPATIAL_CONTROL_INTERVAL {
        remaining
    } else {
        SPATIAL_CONTROL_INTERVAL as nat
    }
}

impl RampClock {
    pub open spec fn wf(self) -> bool {
        self.segment <= self.remaining && (self.remaining > 0 ==> self.segment > 0)
    }

    pub fn new() -> (r: Self)
        ensures
            r.wf(),
            r == (RampClock { remaining: 0, segment: 0 }),
    {
        RampClock { remaining: 0, segment: 0 }
    }

    /// Sets out for a new target that is to be reached after some frames.
    pub fn begin(&mut self, frames: usize) -> (r: RampStep)
        ensures
            final(self).wf(),
            final(self).remaining == frames,
            final(self).segment == segment_frames(frames as nat),
            frames == 0 ==> r is Arrive,
            frames > 0 ==> r is Segment && r->frames == segment_frames(frames as nat),
    {
        self.remaining = frames;
        self.segment = if frames < SPATIAL_CONTROL_INTERVAL {
            frames
        } else {
            SPATIAL_CONTROL_INTERVAL
        };
        if frames == 0 {
            RampStep::Arrive
        } else {
            RampStep::Segment { frames: self.segment }
        }
    }

    /// Moves on by one frame.
    pub fn advance(&mut self) -> (r: RampStep)
        requires
            old(self).wf(),
        ensures
            final(self).wf(),
            *final(self) == old(self).next(),
            r == old(self).step(),
    {
        if self.remaining == 0 {
            return RampStep::Idle;
        }
        self.remaining = self.remaining - 1;
        self.segment = self.segment - 1;
        if self.remaining == 0 {
            self.segment = 0;
            return RampStep::Arrive;
        }
        if self.segment == 0 {
            self.segment = if self.remaining < SPATIAL_CONTROL_INTERVAL {
                self.remaining
            } else {
                SPATIAL_CONTROL_INTERVAL
            };
            return RampStep::Segment { frames: self.segment };
        }
        RampStep::Move
    }

    /// What the next frame brings.
    pub open spec fn step(self) -> RampStep {
        if self.remaining == 0 {
            RampStep::Idle
        } else if self.remaining == 1 {
            RampStep::Arrive
        } else if self.segment == 1 {
            RampStep::Segment { frames: segment_frames((self.remaining - 1) as nat) as usize }
        } else {
            RampStep::Move
        }
    }

    /// The clock one frame later.
    pub open spec fn next(self) -> RampClock {
        if self.remaining == 0 {
            self
        } else if self.remaining == 1 {
            RampClock { remaining: 0, segment: 0 }
        } else if self.segment == 1 {
            RampClock {
                remaining: (self.remaining - 1) as usize,
                segment: segment_frames((self.remaining - 1) as nat) as usize,
            }
        } else {
            RampClock {
                remaining: (self.remaining - 1) as usize,
                segment: (self.segment - 1) as usize,
            }
        }
    }

    /// The clock some frames later.
    pub open spec fn later(self, frames: nat) -> RampClock
        decreases frames,
    {
        if frames == 0 {
            self
        } else {
            self.later((frames - 1) as nat).next()
        }
    }
}

impl Default for RampClock {
    fn default() -> (r: Self)
        ensures
            r.wf(),
            r.remaining == 0,
    {
        RampClock::new()
    }
}

/// A movement arrives after exactly as many frames as it was given, and not
/// before.
pub proof fn law_a_ramp_arrives_on_time(clock: RampClock, frames: nat)
    requires
        clock.wf(),
        frames <= clock.remaining,
    ensures
        clock.later(frames).wf(),
        clock.later(frames).remaining == clock.remaining - frames,
        clock.later(frames).step() is Arrive == (frames + 1 == clock.remaining),
    decreases frames,
{
    if frames > 0 {
        law_a_ramp_arrives_on_time(clock, (frames - 1) as nat);
    }
}

/// How long a source keeps sounding once its input has fallen silent.
#[derive(Clone, Copy, Debug, PartialEq, Eq, Structural)]
pub struct TailClock {
    pub longest: usize,
    pub remaining: usize,
}

/// How long a reflection filter rings at a sample rate.
pub open spec fn filter_tail(rate: nat) -> nat {
    let millisecond = (rate + 999) / 1000;
    if millisecond < 64 {
        64
    } else {
        millisecond
    }
}

impl TailClock {
    pub open spec fn wf(self) -> bool {
        self.remaining <= self.longest
    }

    /// A source with a delay line of some length and reflection filters.
    pub fn new(sample_rate: u32, delay_line: usize) -> (r: Self)
        ensures
            r.wf(),
            r.remaining == 0,
            r.longest == (if delay_line + filter_tail(sample_rate as nat) > usize::MAX {
                usize::MAX as int
            } else {
                delay_line + filter_tail(sample_rate as nat)
            }),
    {
        let wide: u64 = sample_rate as u64 + 999;
        let millisecond: usize = (wide / 1000) as usize;
        let filter: usize = if millisecond < 64 {
            64
        } else {
            millisecond
        };
        TailClock { longest: delay_line.saturating_add(filter), remaining: 0 }
    }

    /// Takes note of a frame, and tells whether there is anything to compute.
    pub fn observe(&mut self, sounding: bool) -> (r: bool)
        requires
            old(self).wf(),
        ensures
            final(self).wf(),
            final(self).longest == old(self).longest,
            r == (sounding || old(self).remaining > 0),
            sounding ==> final(self).remaining == old(self).longest,
            !sounding && old(self).remaining > 0 ==> final(self).remaining == old(self).remaining
                - 1,
            !sounding && old(self).remaining == 0 ==> final(self).remaining == 0,
    {
        if sounding {
            self.remaining = self.longest;
            return true;
        }
        if self.remaining == 0 {
            return false;
        }
        self.remaining = self.remaining - 1;
        true
    }
}

/// The objects that have ended but still sound, by the frames left to each.
pub struct Retirement {
    pub remaining: Vec<usize>,
}

/// What is left of a list of tails one frame later.
pub open spec fn shorter_tails(list: Seq<usize>) -> Seq<usize>
    decreases list.len(),
{
    if list.len() == 0 {
        seq![]
    } else {
        let before = shorter_tails(list.drop_last());
        if list.last() > 1 {
            before.push((list.last() - 1) as usize)
        } else {
            before
        }
    }
}

/// The longest of some tails.
pub open spec fn longest_tail(list: Seq<usize>) -> nat
    decreases list.len(),
{
    if list.len() == 0 {
        0
    } else {
        let before = longest_tail(list.drop_last());
        if list.last() > before {
            list.last() as nat
        } else {
            before
        }
    }
}

/// Finds the longest of some tails.
pub fn longest(list: &[usize]) -> (r: usize)
    ensures
        r == longest_tail(list@),
{
    let mut most: usize = 0;
    let mut i: usize = 0;
    while i < list.len()
        invariant
            i <= list@.len(),
            most == longest_tail(list@.take(i as int)),
        decreases list@.len() - i,
    {
        assert(list@.take(i + 1).drop_last() =~= list@.take(i as int));
        if list[i] > most {
            most = list[i];
        }
        i = i + 1;
    }
    assert(list@.take(list@.len() as int) =~= list@);
    most
}

impl Retirement {
    pub open spec fn wf(self) -> bool {
        forall|i: int| 0 <= i < self.remaining@.len() ==> #[trigger] self.remaining@[i] > 0
    }

    pub fn new() -> (r: Self)
        ensures
            r.wf(),
            r.remaining@ == Seq::<usize>::empty(),
    {
        Retirement { remaining: Vec::new() }
    }

    /// Takes in an object that has ended, unless it has fallen silent too.
    pub fn retire(&mut self, tail: usize) -> (r: bool)
        requires
            old(self).wf(),
        ensures
            final(self).wf(),
            r == (tail != 0),
            r ==> final(self).remaining@ == old(self).remaining@.push(tail),
            !r ==> final(self).remaining@ == old(self).remaining@,
    {
        if tail == 0 {
            return false;
        }
        self.remaining.push(tail);
        true
    }

    /// Moves on by one frame, and tells which objects still sound.
    pub fn advance(&mut self) -> (r: Vec<bool>)
        requires
            old(self).wf(),
        ensures
            final(self).wf(),
            final(self).remaining@ == shorter_tails(old(self).remaining@),
            r@ == old(self).remaining@.map_values(|left: usize| left > 1),
    {
        let ghost list = self.remaining@;
        let mut kept: Vec<usize> = Vec::new();
        let mut sounding: Vec<bool> = Vec::new();
        let mut i: usize = 0;
        while i < self.remaining.len()
            invariant
                i <= list.len(),
                self.remaining@ == list,
                kept@ == shorter_tails(list.take(i as int)),
                sounding@ =~= list.take(i as int).map_values(|left: usize| left > 1),
                forall|j: int| 0 <= j < kept@.len() ==> #[trigger] kept@[j] > 0,
            decreases list.len() - i,
        {
            assert(list.take(i + 1).drop_last() =~= list.take(i as int));
            let left: usize = self.remaining[i];
            if left > 1 {
                kept.push(left - 1);
            }
            sounding.push(left > 1);
            i = i + 1;
        }
        assert(list.take(list.len() as int) =~= list);
        self.remaining = kept;
        sounding
    }

    /// How many frames remain until all have fallen silent.
    pub fn tail_frames(&self) -> (r: usize)
        ensures
            r == longest_tail(self.remaining@),
    {
        longest(self.remaining.as_slice())
    }
}

impl Default for Retirement {
    fn default() -> (r: Self)
        ensures
            r.wf(),
            r.remaining@ == Seq::<usize>::empty(),
    {
        Retirement::new()
    }
}

/// One frame shortens the longest tail by one.
pub proof fn law_tails_end_in_time(list: Seq<usize>)
    ensures
        longest_tail(shorter_tails(list)) == (if longest_tail(list) == 0 {
            0int
        } else {
            longest_tail(list) - 1
        }),
    decreases list.len(),
{
    if list.len() > 0 {
        let front = list.drop_last();
        law_tails_end_in_time(front);
        let before = shorter_tails(front);
        if list.last() > 1 {
            let grown = before.push((list.last() - 1) as usize);
            assert(grown.drop_last() =~= before);
        }
    }
}

/// With the beds muted, no channel and no object sounds as a bed.
pub proof fn law_muted_beds_are_silent(
    state: ObjectState,
    options: ObjectRenderOptions,
    grounded: bool,
    isf: Option<IsfRenderer>,
    objects: Set<usize>,
    claimed: Set<usize>,
    channel: usize,
    speaker: Option<Speaker>,
)
    requires
        options.mute_bed,
    ensures
        state.bed_speaker is Some ==> !ObjectPlan::of(state, options, grounded).audible,
        !(channel_role(isf, objects, claimed, channel, speaker, options.mute_bed) is Bed),
{
}

/// With the ground muted, nothing at or below the listener sounds.
pub proof fn law_muted_ground_is_silent(
    state: ObjectState,
    options: ObjectRenderOptions,
    speaker: Speaker,
    hrir: HrirSet,
    buses: Seq<Speaker>,
)
    requires
        options.mute_ground,
    ensures
        !ObjectPlan::of(state, options, true).audible,
        !(if options.surround_swap {
            speaker.swapped()
        } else {
            speaker
        }).overhead() ==> bed_route(speaker, options, hrir, buses) == Ok::<
            BedRoute,
            (bool, Seq<char>),
        >(BedRoute::Muted),
{
}

/// A bed channel always finds its bus among those of a profile, unless nothing of
/// the profile serves its speaker.
pub proof fn law_served_beds_find_a_bus(
    speaker: Speaker,
    options: ObjectRenderOptions,
    hrir: HrirSet,
)
    ensures
        ({
            let buses = bus_speakers(hrir.channels@.map_values(|c: HrirChannel| c.speaker));
            let routed = if options.surround_swap {
                speaker.swapped()
            } else {
                speaker
            };
            bed_route(speaker, options, hrir, buses) is Err ==> serving_place(
                hrir.channels@,
                routed,
            ) is None
        }),
{
    let channels = hrir.channels@;
    let list = channels.map_values(|c: HrirChannel| c.speaker);
    let buses = bus_speakers(list);
    let routed = if options.surround_swap {
        speaker.swapped()
    } else {
        speaker
    };
    law_every_speaker_has_one_bus(list, Speaker::Lfe);
    lemma_listed_has_place(buses, Speaker::Lfe, 0);
    if serving_place(channels, routed) is Some {
        lemma_serving_place_in_range(channels, routed);
        let place = serving_place(channels, routed)->0 as int;
        let resolved = channels[place].speaker;
        assert(list[place] == resolved);
        law_every_speaker_has_one_bus(list, resolved);
        lemma_listed_has_place(buses, resolved, 0);
    }
}

/// Every channel has one role. One that carries an object is that object's, whatever
/// else; of the others a signal of the format is the format's; and the rest sound as
/// the bed, where they have a speaker, nothing has claimed them, and beds sound.
pub proof fn law_channels_have_one_role(
    isf: Option<IsfRenderer>,
    objects: Set<usize>,
    claimed: Set<usize>,
    channel: usize,
    speaker: Option<Speaker>,
    mute_bed: bool,
)
    ensures
        ({
            let role = channel_role(isf, objects, claimed, channel, speaker, mute_bed);
            let signal = isf matches Some(run) && run.config.start_channel <= channel
                < run.config.start_channel + run.config.channel_count;
            &&& role is Object <==> objects.contains(channel)
            &&& role is Isf <==> !objects.contains(channel) && signal
            &&& role is Bed <==> !objects.contains(channel) && !signal && !claimed.contains(channel)
                && speaker is Some && !mute_bed
            &&& role is Bed ==> Some(role->speaker) == speaker
        }),
{
}

/// A bed channel is muted exactly where the ground is and its speaker stands on it.
/// The low-frequency channel has a bus of its own; with the virtualizer what stands on
/// the plane is heard directly; and all else goes to the bus of the channel that
/// serves its speaker, or the one exchanged for it.
pub proof fn law_beds_go_to_the_serving_bus(
    speaker: Speaker,
    options: ObjectRenderOptions,
    hrir: HrirSet,
    buses: Seq<Speaker>,
)
    requires
        buses.len() <= usize::MAX,
        bed_route(speaker, options, hrir, buses) is Ok,
    ensures
        ({
            let route = bed_route(speaker, options, hrir, buses)->Ok_0;
            let routed = if options.surround_swap { speaker.swapped() } else { speaker };
            &&& route is Muted <==> options.mute_ground && !speaker.overhead()
            &&& route is LowFrequency <==> speaker is Lfe && !options.mute_ground
            &&& route matches BedRoute::LowFrequency { bus } ==> bus < buses.len()
                && buses[bus as int] is Lfe
            &&& route is Direct <==> options.speaker_virtualizer && !speaker.overhead()
                && !options.mute_ground && !(speaker is Lfe)
            &&& route matches BedRoute::Direct { route: direct } ==> direct == direct_route(speaker)
            &&& route matches BedRoute::Bus { bus } ==> bus < buses.len() && (serving_place(
                hrir.channels@,
                routed,
            ) matches Some(place) && buses[bus as int] == hrir.channels@[place as int].speaker)
        }),
{
    let routed = if options.surround_swap { speaker.swapped() } else { speaker };
    crate::speaker::lemma_place_in_range(buses, Speaker::Lfe, 0);
    if let Some(place) = serving_place(hrir.channels@, routed) {
        crate::speaker::lemma_place_in_range(buses, hrir.channels@[place as int].speaker, 0);
    }
}

/// An object is heard where it is active and nothing mutes it: neither its bed nor the
/// ground that it stands on. Only a distant object has images, where they are wanted,
/// and the others reflect; the low-frequency channel does neither. Objects that move
/// are rendered continuously where that is wanted, and beds never.
pub proof fn law_objects_follow_the_switches(
    state: ObjectState,
    options: ObjectRenderOptions,
    grounded: bool,
)
    ensures
        ({
            let plan = ObjectPlan::of(state, options, grounded);
            let low = state.bed_speaker == Some(Speaker::Lfe);
            &&& !state.active ==> !plan.audible
            &&& state.active && !options.mute_bed && !options.mute_ground ==> plan.audible
            &&& state.active && state.bed_speaker is None && !grounded ==> plan.audible
            &&& options.mute_ground && grounded ==> !plan.audible
            &&& plan.image_distance ==> state.distance is Some && !low
                && options.distance_renderer is ImageSource
            &&& state.distance is Some && !low && options.distance_renderer is ImageSource
                ==> plan.image_distance
            &&& plan.reflects <==> !low && !plan.image_distance
            &&& plan.continuous <==> options.object_renderer is Continuous
                && state.bed_speaker is None
        }),
{
}

/// A frame is accepted exactly where its rate is that of the profile and of the frames
/// before, and its samples and speakers are as many as its channels ask for.
pub proof fn law_frames_are_refused_for_a_reason(
    known: Option<u32>,
    hrir: u32,
    rate: u32,
    samples: nat,
    channels: nat,
    held: nat,
    speakers: nat,
)
    ensures
        frame_fault(known, hrir, rate, samples, channels, held, speakers) is None <==> rate == hrir
            && (known matches Some(before) ==> before == rate) && channels > 0 && held == samples
            * channels && speakers == channels && samples * channels <= usize::MAX,
        frame_fault(known, hrir, rate, samples, channels, held, speakers) matches Some(fault) ==> (
        fault.of_the_stream() <==> rate != hrir || (known matches Some(before) && before != rate)),
{
}

/// A signal that is heard takes the row of its place in the run; one that is not
/// active, or muted, takes none. Its level and trim are kept.
pub proof fn law_signals_take_the_row_of_their_place(isf: IsfRenderer, state: IsfState)
    requires
        isf.config.channel_count <= 30,
        isf.outputs@.len() <= 13,
    ensures
        ({
            let first = isf.config.start_channel;
            let inside = first <= state.source_channel < first + isf.config.channel_count;
            &&& isf_change(Some(isf), state) is Some <==> inside
            &&& isf_change(None, state) is None
            &&& isf_change(Some(isf), state) matches Some(change) ==> {
                &&& change.channel == state.source_channel
                &&& change.gain == state.gain
                &&& change.trim == state.trim
                &&& change.plan is Silent <==> !state.active || isf.muted
                &&& change.plan matches RowPlan::Row { start } ==> start == (state.source_channel
                    - first) * isf.outputs@.len()
            }
        }),
{
    let row = state.source_channel - isf.config.start_channel;
    if 0 <= row < isf.config.channel_count {
        assert(0 <= row * isf.outputs@.len() <= 30 * 13) by (nonlinear_arith)
            requires
                0 <= row < 30,
                0 <= isf.outputs@.len() <= 13,
        ;
    }
}

/// A channel that an update does not mention goes back to the bed where it is one of
/// the bed's, and keeps its object where it is not; one that is mentioned carries one.
pub proof fn law_updates_say_which_channels_carry_objects(
    objects: Set<usize>,
    update: SpatialUpdate,
    channel: usize,
    i: int,
)
    ensures
        0 <= i < update.objects@.len() && update.objects@[i].source_channel == channel
            ==> carries_object(objects, update, channel),
        (forall|k: int|
            0 <= k < update.objects@.len() ==> (#[trigger] update.objects@[k]).source_channel
                != channel) ==> {
            &&& channel < update.bed_speakers@.len() ==> !carries_object(objects, update, channel)
            &&& channel >= update.bed_speakers@.len() ==> carries_object(objects, update, channel)
                == objects.contains(channel)
        },
{
}

/// The channels whose objects end are those that had one and were given back, each
/// once and in order.
pub proof fn law_objects_end_where_channels_are_given_back(
    objects: Set<usize>,
    update: SpatialUpdate,
    count: nat,
    channel: usize,
)
    requires
        channel < count <= usize::MAX,
    ensures
        ({
            let list = ended(objects, update, count);
            &&& list.contains(channel) <==> objects.contains(channel) && released(
                update,
                channel as nat,
            )
            &&& forall|i: int, j: int| 0 <= i < j < list.len() ==> list[i] < list[j]
            &&& forall|i: int| 0 <= i < list.len() ==> #[trigger] list[i] < count
        }),
    decreases count,
{
    let before = ended(objects, update, (count - 1) as nat);
    let list = ended(objects, update, count);
    if count > 1 {
        law_objects_end_where_channels_are_given_back(
            objects,
            update,
            (count - 1) as nat,
            if channel < count - 1 { channel } else { 0 },
        );
    } else {
        reveal_with_fuel(ended, 2);
    }
    if channel < count - 1 {
        if before.contains(channel) {
            let i = choose|i: int| 0 <= i < before.len() && before[i] == channel;
            assert(list[i] == channel);
        }
    } else if released(update, channel as nat) && objects.contains(channel) {
        assert(list.last() == channel);
    }
}

/// A run of signals ends the objects within it, and no others.
pub proof fn law_a_run_ends_the_objects_within(objects: Set<usize>, start: nat, end: nat, channel: usize)
    requires
        end <= usize::MAX,
    ensures
        objects_within(objects, start, end).contains(channel) <==> objects.contains(channel)
            && start <= channel < end,
    decreases end - start,
{
    if start < end {
        let before = objects_within(objects, start, (end - 1) as nat);
        let list = objects_within(objects, start, end);
        law_a_run_ends_the_objects_within(objects, start, (end - 1) as nat, channel);
        if before.contains(channel) {
            let i = choose|i: int| 0 <= i < before.len() && before[i] == channel;
            assert(list[i] == channel);
        }
        if objects.contains((end - 1) as usize) {
            assert(list.last() == (end - 1) as usize);
        }
    }
}

/// An update takes effect as many samples behind the start of its frame as it says.
pub proof fn law_updates_take_effect_behind_their_frame(
    frame_start: u64,
    updates: Seq<SpatialUpdate>,
    i: int,
)
    requires
        0 <= i < countable(frame_start, updates, 0),
    ensures
        i < updates.len(),
        ({
            let list = stamped(frame_start, updates, countable(frame_start, updates, 0));
            &&& list[i].update == updates[i]
            &&& list[i].at - frame_start == updates[i].sample_offset
        }),
{
    lemma_countable(frame_start, updates, 0);
}

proof fn lemma_countable(frame_start: u64, updates: Seq<SpatialUpdate>, start: nat)
    requires
        start <= updates.len(),
    ensures
        start <= countable(frame_start, updates, start) <= updates.len(),
        forall|i: int|
            start <= i < countable(frame_start, updates, start) ==> frame_start + (
            #[trigger] updates[i]).sample_offset <= u64::MAX,
    decreases updates.len() - start,
{
    if start < updates.len() && frame_start + updates[start as int].sample_offset <= u64::MAX {
        lemma_countable(frame_start, updates, start + 1);
    }
}

/// A reflection filter rings for a millisecond, counted up, and at least 64 samples.
pub proof fn law_filters_ring_for_a_millisecond(rate: nat)
    ensures
        filter_tail(rate) >= 64,
        1000 * filter_tail(rate) >= rate,
        filter_tail(rate) > 64 ==> 1000 * (filter_tail(rate) - 1) < rate,
{
}

/// A movement goes on in segments of 64 frames, and of what is left at its end.
pub proof fn law_movements_go_on_in_segments(remaining: nat)
    ensures
        segment_frames(remaining) <= remaining,
        segment_frames(remaining) <= 64,
        segment_frames(remaining) == remaining || segment_frames(remaining) == 64,
{
}

/// The signal that is said to be misplaced is the first whose channel is none of the
/// intermediate format's; none is said to be exactly where all are.
pub proof fn law_the_first_misplaced_signal_is_named(
    isf: Option<IsfRenderer>,
    states: Seq<IsfState>,
    start: nat,
)
    ensures
        match misplaced(isf, states, start) {
            None => forall|i: int|
                start <= i < states.len() ==> isf_channel(
                    isf,
                    (#[trigger] states[i]).source_channel as nat,
                ),
            Some(place) => {
                &&& start <= place < states.len()
                &&& !isf_channel(isf, states[place as int].source_channel as nat)
                &&& forall|i: int|
                    start <= i < place ==> isf_channel(
                        isf,
                        (#[trigger] states[i]).source_channel as nat,
                    )
            },
        },
    decreases states.len() - start,
{
    if start < states.len() && isf_channel(isf, states[start as int].source_channel as nat) {
        law_the_first_misplaced_signal_is_named(isf, states, start + 1);
        match misplaced(isf, states, start) {
            None => {
                assert forall|i: int| start <= i < states.len() implies isf_channel(
                    isf,
                    (#[trigger] states[i]).source_channel as nat,
                ) by {
                    if i > start {
                        assert(start + 1 <= i);
                    }
                }
            },
            Some(place) => {
                assert forall|i: int| start <= i < place implies isf_channel(
                    isf,
                    (#[trigger] states[i]).source_channel as nat,
                ) by {
                    if i > start {
                        assert(start + 1 <= i);
                    }
                }
            },
        }
    }
}

/// The channels of an intermediate format are as many as it has, from its first on, and they
/// are accepted exactly where all of them are decoded.
pub proof fn law_formats_have_their_channels(
    isf: IsfRenderer,
    decoded: nat,
    channel: nat,
)
    requires
        decoded <= usize::MAX,
    ensures
        !isf_channel(None, channel),
        isf_channel(Some(isf), channel) <==> exists|k: nat|
            k < isf.config.channel_count && channel == #[trigger] (isf.config.start_channel + k),
        range_fault(isf.config, decoded) is None <==> isf.config.channel_count <= decoded
            - isf.config.start_channel,
        isf.config.channel_count > 0 ==> (range_fault(isf.config, decoded) is None <==> forall|k: nat|
            #[trigger] isf_channel(Some(isf), k) ==> k < decoded),
{
    let start = isf.config.start_channel as nat;
    let count = isf.config.channel_count as nat;
    if isf_channel(Some(isf), channel) {
        let k = (channel - start) as nat;
        assert(channel == start + k && k < count);
    }
    if range_fault(isf.config, decoded) is Some {
        if count > 0 {
            assert(isf_channel(Some(isf), (start + count - 1) as nat));
        }
    }
}

} // verus!
