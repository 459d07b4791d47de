//! How decoded channels are spread over more speakers.

use crate::error::{AppError, Reason};
use crate::hrir::{serving_place, HrirSet};
use crate::spatial::{direct_route, direct_stereo_route, DirectRoute};
use crate::speaker::{find_speaker, speaker_place, Speaker};
use crate::text::text_pair;
use vstd::prelude::*;

verus! {

/// A share of a decoded channel. Gains count quarters.
#[derive(Clone, Copy, Debug, PartialEq, Eq, Structural)]
pub struct MixTerm {
    pub source: usize,
    pub quarters: i8,
}

/// A channel of the plan and what it is mixed from.
#[derive(Clone, Debug)]
pub struct PlannedChannel {
    pub speaker: Speaker,
    pub terms: Vec<MixTerm>,
}

/// What a planned channel holds.
pub struct PlannedView {
    pub speaker: Speaker,
    pub terms: Seq<MixTerm>,
}

impl View for PlannedChannel {
    type V = PlannedView;

    open spec fn view(&self) -> PlannedView {
        PlannedView { speaker: self.speaker, terms: self.terms@ }
    }
}

/// The views of a list of channels.
pub open spec fn planned_views(channels: Seq<PlannedChannel>) -> Seq<PlannedView> {
    channels.map_values(|channel: PlannedChannel| channel@)
}

/// The decoded channels as they are.
pub open spec fn as_decoded(source: Seq<Speaker>) -> Seq<PlannedView> {
    Seq::new(
        source.len(),
        |i: int|
            PlannedView {
                speaker: source[i],
                terms: seq![MixTerm { source: i as usize, quarters: 4 }],
            },
    )
}

/// Whether a plan has a channel for a speaker.
pub open spec fn planned(channels: Seq<PlannedView>, speaker: Speaker) -> bool {
    planned_place(channels, speaker, 0) is Some
}

/// The place of the channel of a speaker, from a place on.
pub open spec fn planned_place(channels: Seq<PlannedView>, speaker: Speaker, start: nat) -> Option<
    nat,
>
    decreases channels.len() - start,
{
    if start >= channels.len() {
        None
    } else if channels[start as int].speaker == speaker {
        Some(start)
    } else {
        planned_place(channels, speaker, start + 1)
    }
}

/// A plan with one more channel, mixed from the front channels, unless the
/// speaker has one.
pub open spec fn with_mixed(
    channels: Seq<PlannedView>,
    speaker: Speaker,
    left: usize,
    left_quarters: i8,
    right: usize,
    right_quarters: i8,
) -> Seq<PlannedView> {
    if planned(channels, speaker) {
        channels
    } else {
        channels.push(
            PlannedView {
                speaker,
                terms: seq![
                    MixTerm { source: left, quarters: left_quarters },
                    MixTerm { source: right, quarters: right_quarters },
                ],
            },
        )
    }
}

/// Shares at half their gain.
pub open spec fn halved_terms(terms: Seq<MixTerm>) -> Seq<MixTerm> {
    terms.map_values(
        |term: MixTerm|
            MixTerm {
                source: term.source,
                quarters: if term.quarters >= 0 {
                    (term.quarters / 2) as i8
                } else {
                    -((-term.quarters) / 2) as i8
                },
            },
    )
}

/// A plan in which a side channel gives half of itself to the rear.
pub open spec fn with_rear(channels: Seq<PlannedView>, side: Speaker, rear: Speaker) -> Seq<
    PlannedView,
> {
    match planned_place(channels, side, 0) {
        None => channels,
        Some(place) => {
            let terms = halved_terms(channels[place as int].terms);
            channels.update(place as int, PlannedView { speaker: side, terms }).push(
                PlannedView { speaker: rear, terms },
            )
        },
    }
}

/// Whether a profile has both rear channels.
pub open spec fn rear_pair(hrir: HrirSet) -> bool {
    crate::isf::own_channel(hrir.channels@, Speaker::RearLeft) && crate::isf::own_channel(
        hrir.channels@,
        Speaker::RearRight,
    )
}

/// A plan with a centre and sides of its own.
pub open spec fn with_center_and_sides(source: Seq<Speaker>, left: usize, right: usize) -> Seq<
    PlannedView,
> {
    let center = with_mixed(as_decoded(source), Speaker::FrontCenter, left, 2, right, 2);
    let side = with_mixed(center, Speaker::SideLeft, left, 2, right, (-2) as i8);
    with_mixed(side, Speaker::SideRight, left, (-2) as i8, right, 2)
}

/// The channels that are rendered from decoded ones.
pub open spec fn matrix_plan(source: Seq<Speaker>, hrir: HrirSet, enabled: bool) -> Seq<
    PlannedView,
> {
    let left = speaker_place(source, Speaker::FrontLeft, 0);
    let right = speaker_place(source, Speaker::FrontRight, 0);
    if !enabled || left is None || right is None {
        as_decoded(source)
    } else {
        let grown = with_center_and_sides(source, left->0 as usize, right->0 as usize);
        if rear_pair(hrir) && !planned(grown, Speaker::RearLeft) && !planned(
            grown,
            Speaker::RearRight,
        ) {
            with_rear(
                with_rear(grown, Speaker::SideLeft, Speaker::RearLeft),
                Speaker::SideRight,
                Speaker::RearRight,
            )
        } else {
            grown
        }
    }
}

fn find_planned(channels: &Vec<PlannedChannel>, speaker: Speaker) -> (r: Option<usize>)
    ensures
        match planned_place(planned_views(channels@), speaker, 0) {
            None => r is None,
            Some(place) => r is Some && r->0 == place && r->0 < channels@.len(),
        },
{
    let ghost views = planned_views(channels@);
    let mut i: usize = 0;
    while i < channels.len()
        invariant
            i <= channels@.len(),
            views == planned_views(channels@),
            planned_place(views, speaker, 0) == planned_place(views, speaker, i as nat),
        decreases channels@.len() - i,
    {
        assert(views[i as int] == channels@[i as int]@);
        if channels[i].speaker == speaker {
            return Some(i);
        }
        i = i + 1;
    }
    None
}

fn list_decoded(source: &[Speaker]) -> (r: Vec<PlannedChannel>)
    ensures
        planned_views(r@) == as_decoded(source@),
{
    let ghost wanted = as_decoded(source@);
    let mut channels: Vec<PlannedChannel> = Vec::new();
    let mut i: usize = 0;
    while i < source.len()
        invariant
            i <= source@.len(),
            wanted == as_decoded(source@),
            planned_views(channels@) =~= wanted.take(i as int),
        decreases source@.len() - i,
    {
        let ghost known = channels@;
        let mut terms: Vec<MixTerm> = Vec::new();
        terms.push(MixTerm { source: i, quarters: 4 });
        let channel = PlannedChannel { speaker: source[i], terms };
        assert(channel@.terms =~= seq![MixTerm { source: i, quarters: 4 }]);
        channels.push(channel);
        assert(planned_views(channels@) =~= planned_views(known).push(channel@));
        i = i + 1;
    }
    assert(wanted.take(i as int) =~= wanted);
    channels
}

fn add_mixed(
    channels: &mut Vec<PlannedChannel>,
    speaker: Speaker,
    left: usize,
    left_quarters: i8,
    right: usize,
    right_quarters: i8,
)
    ensures
        planned_views(final(channels)@) == with_mixed(
            planned_views(old(channels)@),
            speaker,
            left,
            left_quarters,
            right,
            right_quarters,
        ),
{
    let ghost before = channels@;
    if find_planned(channels, speaker).is_some() {
        return ;
    }
    let mut terms: Vec<MixTerm> = Vec::new();
    terms.push(MixTerm { source: left, quarters: left_quarters });
    terms.push(MixTerm { source: right, quarters: right_quarters });
    let channel = PlannedChannel { speaker, terms };
    assert(channel@.terms =~= seq![
        MixTerm { source: left, quarters: left_quarters },
        MixTerm { source: right, quarters: right_quarters },
    ]);
    channels.push(channel);
    assert(planned_views(channels@) =~= planned_views(before).push(channel@));
}

fn halve(terms: &Vec<MixTerm>) -> (r: Vec<MixTerm>)
    requires
        forall|i: int| 0 <= i < terms@.len() ==> (#[trigger] terms@[i]).quarters > -128,
    ensures
        r@ == halved_terms(terms@),
{
    let ghost wanted = halved_terms(terms@);
    let mut list: Vec<MixTerm> = Vec::new();
    let mut i: usize = 0;
    while i < terms.len()
        invariant
            i <= terms@.len(),
            forall|k: int| 0 <= k < terms@.len() ==> (#[trigger] terms@[k]).quarters > -128,
            wanted == halved_terms(terms@),
            list@ =~= wanted.take(i as int),
        decreases terms@.len() - i,
    {
        let term: MixTerm = terms[i];
        let quarters: i8 = if term.quarters >= 0 {
            (term.quarters as u8 / 2) as i8
        } else {
            -(((-term.quarters) as u8 / 2) as i8)
        };
        list.push(MixTerm { source: term.source, quarters });
        i = i + 1;
    }
    assert(wanted.take(i as int) =~= wanted);
    list
}

fn copy_terms(terms: &Vec<MixTerm>) -> (r: Vec<MixTerm>)
    ensures
        r@ == terms@,
{
    let mut list: Vec<MixTerm> = Vec::new();
    let mut i: usize = 0;
    while i < terms.len()
        invariant
            i <= terms@.len(),
            list@ =~= terms@.take(i as int),
        decreases terms@.len() - i,
    {
        list.push(terms[i]);
        i = i + 1;
    }
    assert(terms@.take(i as int) =~= terms@);
    list
}

/// Whether all gains can be turned around.
pub open spec fn moderate(channels: Seq<PlannedView>) -> bool {
    forall|i: int, k: int|
        0 <= i < channels.len() && 0 <= k < (#[trigger] channels[i]).terms.len() ==> (
        #[trigger] channels[i].terms[k]).quarters > -128
}

fn add_rear(channels: &mut Vec<PlannedChannel>, side: Speaker, rear: Speaker)
    requires
        moderate(planned_views(old(channels)@)),
    ensures
        planned_views(final(channels)@) == with_rear(planned_views(old(channels)@), side, rear),
        moderate(planned_views(final(channels)@)),
{
    let ghost before = channels@;
    let ghost views = planned_views(before);
    match find_planned(channels, side) {
        None => {},
        Some(place) => {
            assert(views[place as int] == before[place as int]@);
            assert forall|k: int| 0 <= k < before[place as int].terms@.len() implies (
            #[trigger] before[place as int].terms@[k]).quarters > -128 by {
                assert(views[place as int].terms[k].quarters > -128);
            }
            let terms = halve(&channels[place].terms);
            let copy = copy_terms(&terms);
            proof {
                lemma_planned_has_speaker(views, side, 0);
            }
            channels.set(place, PlannedChannel { speaker: side, terms });
            channels.push(PlannedChannel { speaker: rear, terms: copy });
            let ghost changed = PlannedView { speaker: side, terms: terms@ };
            let ghost added = PlannedView { speaker: rear, terms: copy@ };
            assert(planned_views(channels@) =~= views.update(place as int, changed).push(added));
            assert(moderate(planned_views(channels@))) by {
                let all = planned_views(channels@);
                assert forall|i: int, k: int|
                    0 <= i < all.len() && 0 <= k < (#[trigger] all[i]).terms.len() implies (
                #[trigger] all[i].terms[k]).quarters > -128 by {
                    if i == place || i == views.len() {
                        assert(all[i].terms == terms@);
                    } else {
                        assert(all[i] == views[i]);
                    }
                }
            }
        },
    }
}

proof fn lemma_planned_has_speaker(channels: Seq<PlannedView>, speaker: Speaker, start: nat)
    requires
        planned_place(channels, speaker, start) is Some,
    ensures
        start <= planned_place(channels, speaker, start)->0 < channels.len(),
        channels[planned_place(channels, speaker, start)->0 as int].speaker == speaker,
    decreases channels.len() - start,
{
    if channels[start as int].speaker != speaker {
        lemma_planned_has_speaker(channels, speaker, start + 1);
    }
}

/// How decoded channels become rendered ones.
#[derive(Clone, Debug)]
pub struct MatrixPlan {
    pub channels: Vec<PlannedChannel>,
}

impl MatrixPlan {
    /// Plans the channels that are rendered. With the matrix switched on, a
    /// layout with both front channels gets a centre from their sum and sides
    /// from their difference, where it has none; and where the profile has both
    /// rear channels and the layout has none, the sides give half of themselves
    /// to the rear.
    pub fn new(source: &[Speaker], hrir: &HrirSet, enabled: bool) -> (r: Result<Self, AppError>)
        ensures
            source@.len() == 0 ==> r is Err && r->Err_0 is UnsupportedInput && r->Err_0.text()
                == "cannot process an empty channel layout"@,
            source@.len() > 0 ==> r is Ok && planned_views(r->Ok_0.channels@) == matrix_plan(
                source@,
                *hrir,
                enabled,
            ),
    {
        if source.len() == 0 {
            return Err(
                AppError::UnsupportedInput(
                    Reason::Note(String::from_str("cannot process an empty channel layout")),
                ),
            );
        }
        let mut channels = list_decoded(source);
        if !enabled {
            return Ok(MatrixPlan { channels });
        }
        let (left, right): (usize, usize) = match (
            find_speaker(source, Speaker::FrontLeft),
            find_speaker(source, Speaker::FrontRight),
        ) {
            (Some(left), Some(right)) => (left, right),
            _ => return Ok(MatrixPlan { channels }),
        };
        add_mixed(&mut channels, Speaker::FrontCenter, left, 2, right, 2);
        add_mixed(&mut channels, Speaker::SideLeft, left, 2, right, -2);
        add_mixed(&mut channels, Speaker::SideRight, left, -2, right, 2);
        proof {
            lemma_moderate(source@, left, right);
        }
        let pair: bool = hrir.has_exact(Speaker::RearLeft) && hrir.has_exact(Speaker::RearRight);
        if pair && find_planned(&channels, Speaker::RearLeft).is_none() && find_planned(
            &channels,
            Speaker::RearRight,
        ).is_none() {
            add_rear(&mut channels, Speaker::SideLeft, Speaker::RearLeft);
            add_rear(&mut channels, Speaker::SideRight, Speaker::RearRight);
        }
        Ok(MatrixPlan { channels })
    }
}

proof fn lemma_moderate(source: Seq<Speaker>, left: usize, right: usize)
    ensures
        moderate(with_center_and_sides(source, left, right)),
{
    let first = as_decoded(source);
    let center = with_mixed(first, Speaker::FrontCenter, left, 2, right, 2);
    let side = with_mixed(center, Speaker::SideLeft, left, 2, right, (-2) as i8);
    assert(moderate(first));
    assert(moderate(center));
    assert(moderate(side));
}

/// The first channels of a plan stand for the decoded ones, in their order.
pub proof fn law_decoded_channels_come_first(
    source: Seq<Speaker>,
    hrir: HrirSet,
    enabled: bool,
    index: int,
)
    requires
        0 <= index < source.len(),
    ensures
        index < matrix_plan(source, hrir, enabled).len(),
        matrix_plan(source, hrir, enabled)[index].speaker == source[index],
{
    let left = speaker_place(source, Speaker::FrontLeft, 0);
    let right = speaker_place(source, Speaker::FrontRight, 0);
    if enabled && left is Some && right is Some {
        let grown = with_center_and_sides(source, left->0 as usize, right->0 as usize);
        assert(index < grown.len() && grown[index].speaker == source[index]);
        if planned_place(grown, Speaker::SideLeft, 0) is Some {
            lemma_planned_has_speaker(grown, Speaker::SideLeft, 0);
        }
        let once = with_rear(grown, Speaker::SideLeft, Speaker::RearLeft);
        assert(index < once.len() && once[index].speaker == source[index]);
        if planned_place(once, Speaker::SideRight, 0) is Some {
            lemma_planned_has_speaker(once, Speaker::SideRight, 0);
        }
    }
}

/// Where a rendered channel goes.
#[derive(Clone, Copy, Debug, PartialEq, Eq, Structural)]
pub struct ChannelRoute {
    pub speaker: Speaker,
    pub bus: usize,
    /// Whether a part of it is lifted above the listener.
    pub lifted: bool,
}

/// The route of a rendered channel.
pub open spec fn channel_route(
    speaker: Speaker,
    hrir: HrirSet,
    buses: Seq<Speaker>,
    surround_swap: bool,
    upconvert: bool,
) -> Option<ChannelRoute> {
    let routed = if surround_swap {
        speaker.swapped()
    } else {
        speaker
    };
    let bus = if routed == Speaker::Lfe {
        speaker_place(buses, Speaker::Lfe, 0)
    } else {
        match serving_place(hrir.channels@, routed) {
            None => None,
            Some(place) => speaker_place(buses, hrir.channels@[place as int].speaker, 0),
        }
    };
    match bus {
        None => None,
        Some(bus) => Some(
            ChannelRoute {
                speaker: routed,
                bus: bus as usize,
                lifted: upconvert && !routed.overhead() && !(routed is Lfe)
                    && !(routed is FrontCenter),
            },
        ),
    }
}

/// Finds where a rendered channel goes. The low-frequency channel has a bus of
/// its own; all others go to the channel that serves them.
pub fn route_channel(
    speaker: Speaker,
    hrir: &HrirSet,
    buses: &[Speaker],
    surround_swap: bool,
    upconvert: bool,
) -> (r: Result<ChannelRoute, AppError>)
    ensures
        match channel_route(speaker, *hrir, buses@, surround_swap, upconvert) {
            Some(route) => r == Ok::<ChannelRoute, AppError>(route) && route.bus < buses@.len(),
            None => r is Err && r->Err_0 is InvalidHrir && r->Err_0.text()
                == "HRIR has no route for processed channel "@ + (if surround_swap {
                speaker.swapped()
            } else {
                speaker
            }).label(),
        },
{
    let routed: Speaker = if surround_swap {
        speaker.surround_swapped()
    } else {
        speaker
    };
    let bus: Option<usize> = if routed == Speaker::Lfe {
        find_speaker(buses, Speaker::Lfe)
    } else {
        match hrir.resolved_speaker(routed) {
            None => None,
            Some(resolved) => find_speaker(buses, resolved),
        }
    };
    match bus {
        None => Err(
            AppError::InvalidHrir(
                Reason::Note(
                    text_pair("HRIR has no route for processed channel ", routed.name()),
                ),
            ),
        ),
        Some(bus) => {
            let lifted: bool = upconvert && !routed.is_height() && !matches!(
                routed,
                Speaker::Lfe | Speaker::FrontCenter
            );
            Ok(ChannelRoute { speaker: routed, bus, lifted })
        },
    }
}

/// Whether all shares of a plan come from decoded channels.
pub open spec fn well_fed(channels: Seq<PlannedView>, sources: nat) -> bool {
    forall|i: int, k: int|
        #![trigger channels[i].terms[k]]
        0 <= i < channels.len() && 0 <= k < channels[i].terms.len()
            ==> channels[i].terms[k].source < sources
}

proof fn lemma_rear_is_well_fed(channels: Seq<PlannedView>, side: Speaker, rear: Speaker, sources: nat)
    requires
        well_fed(channels, sources),
    ensures
        well_fed(with_rear(channels, side, rear), sources),
{
    if planned_place(channels, side, 0) is Some {
        lemma_planned_has_speaker(channels, side, 0);
        let place = planned_place(channels, side, 0)->0 as int;
        let terms = channels[place].terms;
        assert forall|k: int| 0 <= k < terms.len() implies (#[trigger] halved_terms(
            terms,
        )[k]).source < sources by {
            assert(channels[place].terms[k].source < sources);
        }
        let grown = with_rear(channels, side, rear);
        assert forall|i: int, k: int|
            #![trigger grown[i].terms[k]]
            0 <= i < grown.len() && 0 <= k < grown[i].terms.len() implies grown[i].terms[k].source
            < sources by {
            if i < channels.len() && i != place {
                assert(grown[i] == channels[i]);
                assert(channels[i].terms[k].source < sources);
            }
        }
    }
}

/// Every share of a rendered channel comes from a decoded channel.
pub proof fn law_shares_come_from_decoded_channels(
    source: Seq<Speaker>,
    hrir: HrirSet,
    enabled: bool,
)
    requires
        source.len() <= usize::MAX,
    ensures
        well_fed(matrix_plan(source, hrir, enabled), source.len()),
{
    let left = speaker_place(source, Speaker::FrontLeft, 0);
    let right = speaker_place(source, Speaker::FrontRight, 0);
    assert(well_fed(as_decoded(source), source.len()));
    if enabled && left is Some && right is Some {
        crate::speaker::lemma_place_in_range(source, Speaker::FrontLeft, 0);
        crate::speaker::lemma_place_in_range(source, Speaker::FrontRight, 0);
        let l = left->0 as usize;
        let r = right->0 as usize;
        let center = with_mixed(as_decoded(source), Speaker::FrontCenter, l, 2, r, 2);
        assert(well_fed(center, source.len()));
        let side = with_mixed(center, Speaker::SideLeft, l, 2, r, (-2) as i8);
        assert(well_fed(side, source.len()));
        let grown = with_mixed(side, Speaker::SideRight, l, (-2) as i8, r, 2);
        assert(well_fed(grown, source.len()));
        lemma_rear_is_well_fed(grown, Speaker::SideLeft, Speaker::RearLeft, source.len());
        lemma_rear_is_well_fed(
            with_rear(grown, Speaker::SideLeft, Speaker::RearLeft),
            Speaker::SideRight,
            Speaker::RearRight,
            source.len(),
        );
    }
}

/// The switches that decide on where a channel sounds.
#[derive(Clone, Copy, Debug, PartialEq, Eq, Structural)]
pub struct ChannelSwitches {
    pub mute_bed: bool,
    pub mute_ground: bool,
    pub speaker_virtualizer: bool,
}

/// Where the part of a channel goes that stays at its speaker.
#[derive(Clone, Copy, Debug, PartialEq, Eq, Structural)]
pub enum GroundRoute {
    Muted,
    Direct { route: DirectRoute },
    Bus { bus: usize },
}

/// Where the part of a channel goes that stays at its speaker: nowhere with the bed
/// muted, or with the ground muted unless the speaker is overhead; past the
/// impulse responses with a speaker virtualizer; and else to its bus. Where they
/// sound, the low-frequency channel and the channels overhead keep their bus.
pub open spec fn grounded(speaker: Speaker, bus: usize, switches: ChannelSwitches) -> GroundRoute {
    if switches.mute_bed || (switches.mute_ground && !speaker.overhead()) {
        GroundRoute::Muted
    } else if switches.speaker_virtualizer && speaker != Speaker::Lfe && !speaker.overhead() {
        GroundRoute::Direct { route: direct_route(speaker) }
    } else {
        GroundRoute::Bus { bus }
    }
}

/// Routes the part of a channel that stays at its speaker.
pub fn ground_route(speaker: Speaker, bus: usize, switches: ChannelSwitches) -> (r: GroundRoute)
    ensures
        r == grounded(speaker, bus, switches),
{
    if switches.mute_bed || (switches.mute_ground && !speaker.is_height()) {
        GroundRoute::Muted
    } else if switches.speaker_virtualizer && speaker != Speaker::Lfe && !speaker.is_height() {
        GroundRoute::Direct { route: direct_stereo_route(speaker) }
    } else {
        GroundRoute::Bus { bus }
    }
}

/// Frames between two estimates of the height of a channel.
pub const HEIGHT_ANALYSIS_FRAMES: usize = 64;

/// Tells when the height of a channel is estimated.
#[derive(Clone, Copy, Debug, PartialEq, Eq, Structural)]
pub struct AnalysisClock {
    pub position: usize,
}

impl AnalysisClock {
    pub open spec fn wf(self) -> bool {
        self.position < HEIGHT_ANALYSIS_FRAMES
    }

    pub fn new() -> (r: Self)
        ensures
            r.wf(),
            r.position == 0,
    {
        AnalysisClock { position: 0 }
    }

    /// Counts a frame. Tells whether the height is due.
    pub fn advance(&mut self) -> (r: bool)
        requires
            old(self).wf(),
        ensures
            final(self).wf(),
            final(self).position == (old(self).position + 1) % HEIGHT_ANALYSIS_FRAMES as int,
            r == (final(self).position == 0),
    {
        self.position = self.position + 1;
        if self.position == HEIGHT_ANALYSIS_FRAMES {
            self.position = 0;
            true
        } else {
            false
        }
    }
}

impl Default for AnalysisClock {
    fn default() -> (r: Self)
        ensures
            r.wf(),
            r.position == 0,
    {
        AnalysisClock::new()
    }
}

/// A plan that is switched off, or of channels without a front pair, leaves every
/// channel as it is: at its speaker, in full, and nothing else.
pub proof fn law_an_idle_plan_changes_nothing(source: Seq<Speaker>, hrir: HrirSet, enabled: bool, i: int)
    requires
        !enabled || !source.contains(Speaker::FrontLeft) || !source.contains(Speaker::FrontRight),
        0 <= i < source.len() <= usize::MAX,
    ensures
        matrix_plan(source, hrir, enabled).len() == source.len(),
        matrix_plan(source, hrir, enabled)[i].speaker == source[i],
        matrix_plan(source, hrir, enabled)[i].terms.len() == 1,
        matrix_plan(source, hrir, enabled)[i].terms[0].source == i,
        matrix_plan(source, hrir, enabled)[i].terms[0].quarters == 4,
{
    crate::speaker::lemma_place_in_range(source, Speaker::FrontLeft, 0);
    crate::speaker::lemma_place_in_range(source, Speaker::FrontRight, 0);
}

/// A front pair alone gets a centre of half of each, and sides of half of their
/// difference, one the other way round than the other: what both have in common goes
/// to the centre and cancels at the sides. The pair itself stays in full.
pub proof fn law_a_pair_gets_a_centre_and_sides(hrir: HrirSet)
    requires
        !rear_pair(hrir),
    ensures
        ({
            let plan = matrix_plan(seq![Speaker::FrontLeft, Speaker::FrontRight], hrir, true);
            &&& plan.len() == 5
            &&& plan[0].speaker is FrontLeft && plan[1].speaker is FrontRight
            &&& plan[0].terms == seq![MixTerm { source: 0, quarters: 4 }]
            &&& plan[1].terms == seq![MixTerm { source: 1, quarters: 4 }]
            &&& plan[2].speaker is FrontCenter && plan[3].speaker is SideLeft
                && plan[4].speaker is SideRight
            &&& forall|k: int|
                2 <= k < 5 ==> (#[trigger] plan[k]).terms.len() == 2 && plan[k].terms[0].source == 0
                    && plan[k].terms[1].source == 1
            &&& 2 * plan[2].terms[0].quarters == 4 && plan[2].terms[1].quarters
                == plan[2].terms[0].quarters
            &&& plan[3].terms[0].quarters + plan[3].terms[1].quarters == 0
            &&& plan[3].terms[0].quarters == plan[2].terms[0].quarters
            &&& plan[4].terms[0].quarters == plan[3].terms[1].quarters && plan[4].terms[1].quarters
                == plan[3].terms[0].quarters
        }),
{
    let source = seq![Speaker::FrontLeft, Speaker::FrontRight];
    reveal_with_fuel(speaker_place, 4);
    reveal_with_fuel(planned_place, 6);
}

/// A speaker that has a channel keeps it: a mix is added only where there is none, and
/// what was there stays.
pub proof fn law_mixes_are_added_only_where_missing(
    channels: Seq<PlannedView>,
    speaker: Speaker,
    left: usize,
    left_quarters: i8,
    right: usize,
    right_quarters: i8,
    i: int,
)
    ensures
        ({
            let after = with_mixed(channels, speaker, left, left_quarters, right, right_quarters);
            &&& 0 <= i < channels.len() ==> after[i] == channels[i]
            &&& 0 <= i < channels.len() && channels[i].speaker == speaker ==> after == channels
            &&& (forall|k: int| 0 <= k < channels.len() ==> (#[trigger] channels[k]).speaker != speaker)
                ==> after.len() == channels.len() + 1 && after.last().speaker == speaker
                && after.last().terms.len() == 2 && after.last().terms[0].source == left
                && after.last().terms[0].quarters == left_quarters && after.last().terms[1].source
                == right && after.last().terms[1].quarters == right_quarters
        }),
{
    if planned_place(channels, speaker, 0) is Some {
        lemma_planned_has_speaker(channels, speaker, 0);
    }
    if 0 <= i < channels.len() && channels[i].speaker == speaker {
        lemma_planned_is_found(channels, speaker, 0, i);
    }
}

proof fn lemma_planned_is_found(channels: Seq<PlannedView>, speaker: Speaker, start: nat, i: int)
    requires
        start <= i < channels.len(),
        channels[i].speaker == speaker,
    ensures
        planned_place(channels, speaker, start) is Some,
    decreases channels.len() - start,
{
    if channels[start as int].speaker != speaker {
        lemma_planned_is_found(channels, speaker, start + 1, i);
    }
}

/// A side that shares with the rear gives it exactly half: both have the same terms,
/// and together what the side had, where that can be halved. The rest of the plan
/// stays.
pub proof fn law_the_rear_takes_half_of_the_side(
    channels: Seq<PlannedView>,
    side: Speaker,
    rear: Speaker,
    k: int,
)
    requires
        planned_place(channels, side, 0) is Some,
    ensures
        ({
            let place = planned_place(channels, side, 0)->0 as int;
            let after = with_rear(channels, side, rear);
            &&& after.len() == channels.len() + 1
            &&& after[place].speaker == side && channels[place].speaker == side
            &&& after.last().speaker == rear
            &&& after.last().terms == after[place].terms
            &&& after[place].terms.len() == channels[place].terms.len()
            &&& 0 <= k < channels[place].terms.len() ==> after[place].terms[k].source
                == channels[place].terms[k].source
            &&& 0 <= k < channels[place].terms.len() && channels[place].terms[k].quarters > -128
                && channels[place].terms[k].quarters as int % 2 == 0
                ==> after[place].terms[k].quarters + after.last().terms[k].quarters
                == channels[place].terms[k].quarters
            &&& 0 <= k < channels.len() && k != place ==> after[k] == channels[k]
        }),
{
    lemma_planned_has_speaker(channels, side, 0);
}

/// A channel goes to the bus of the speaker that serves it, or of the one exchanged for
/// it; the low-frequency channel has a bus of its own. Only channels of the plane are
/// lifted, and of them neither the centre nor the low-frequency channel.
pub proof fn law_channels_go_to_the_serving_bus(
    speaker: Speaker,
    hrir: HrirSet,
    buses: Seq<Speaker>,
    surround_swap: bool,
    upconvert: bool,
)
    requires
        buses.len() <= usize::MAX,
        channel_route(speaker, hrir, buses, surround_swap, upconvert) is Some,
    ensures
        ({
            let route = channel_route(speaker, hrir, buses, surround_swap, upconvert)->0;
            &&& surround_swap ==> route.speaker.swapped() == speaker
            &&& !surround_swap ==> route.speaker == speaker
            &&& route.bus < buses.len()
            &&& route.speaker is Lfe ==> buses[route.bus as int] is Lfe
            &&& !(route.speaker is Lfe) ==> (serving_place(hrir.channels@, route.speaker) matches Some(
                place,
            ) && buses[route.bus as int] == hrir.channels@[place as int].speaker)
            &&& route.lifted ==> upconvert
            &&& upconvert ==> (route.lifted <==> speaker is FrontLeft || speaker is FrontRight
                || speaker is SideLeft || speaker is SideRight || speaker is RearLeft
                || speaker is RearRight || speaker is RearCenter || speaker is WideLeft
                || speaker is WideRight)
        }),
{
    let routed = if surround_swap { speaker.swapped() } else { speaker };
    crate::speaker::lemma_place_in_range(buses, Speaker::Lfe, 0);
    if let Some(place) = serving_place(hrir.channels@, routed) {
        crate::speaker::lemma_place_in_range(buses, hrir.channels@[place as int].speaker, 0);
    }
}

/// A muted bed silences every channel, and a muted ground all but those overhead. The
/// virtualizer passes the responses by for what sounds on the plane, but for the
/// low-frequency channel; all else goes to its bus.
pub proof fn law_the_ground_follows_its_switches(speaker: Speaker, bus: usize, switches: ChannelSwitches)
    ensures
        ({
            let route = grounded(speaker, bus, switches);
            &&& switches.mute_bed ==> route is Muted
            &&& switches.mute_ground && !speaker.overhead() ==> route is Muted
            &&& !switches.mute_bed && speaker.overhead() ==> route == (GroundRoute::Bus { bus })
            &&& !switches.mute_bed && !switches.mute_ground ==> {
                &&& speaker is Lfe || !switches.speaker_virtualizer ==> route == (GroundRoute::Bus {
                    bus,
                })
                &&& switches.speaker_virtualizer && !speaker.overhead() && !(speaker is Lfe)
                    ==> route == (GroundRoute::Direct { route: direct_route(speaker) })
            }
        }),
{
}

} // verus!
