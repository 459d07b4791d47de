//! Which virtual speakers an object may use.

use crate::error::{AppError, Reason};
use crate::object::ObjectZone;
use crate::speaker::Speaker;
use vstd::prelude::*;

verus! {

/// How a speaker is heard without an impulse response.
#[derive(Clone, Copy, Debug, PartialEq, Eq, Structural)]
pub enum DirectRoute {
    Left,
    Right,
    /// Both ears at equal power.
    Center,
    /// Both ears at half the amplitude.
    Half,
}

/// How a speaker is heard without an impulse response.
pub open spec fn direct_route(speaker: Speaker) -> DirectRoute {
    match speaker {
        Speaker::Lfe => DirectRoute::Half,
        Speaker::FrontLeft
        | Speaker::RearLeft
        | Speaker::SideLeft
        | Speaker::WideLeft
        | Speaker::TopFrontLeft
        | Speaker::TopSideLeft
        | Speaker::TopRearLeft => DirectRoute::Left,
        Speaker::FrontRight
        | Speaker::RearRight
        | Speaker::SideRight
        | Speaker::WideRight
        | Speaker::TopFrontRight
        | Speaker::TopSideRight
        | Speaker::TopRearRight => DirectRoute::Right,
        Speaker::FrontCenter
        | Speaker::RearCenter
        | Speaker::TopFrontCenter
        | Speaker::TopRearCenter => DirectRoute::Center,
    }
}

/// How a speaker is heard without an impulse response.
pub fn direct_stereo_route(speaker: Speaker) -> (r: DirectRoute)
    ensures
        r == direct_route(speaker),
{
    match speaker {
        Speaker::Lfe => DirectRoute::Half,
        Speaker::FrontLeft
        | Speaker::RearLeft
        | Speaker::SideLeft
        | Speaker::WideLeft
        | Speaker::TopFrontLeft
        | Speaker::TopSideLeft
        | Speaker::TopRearLeft => DirectRoute::Left,
        Speaker::FrontRight
        | Speaker::RearRight
        | Speaker::SideRight
        | Speaker::WideRight
        | Speaker::TopFrontRight
        | Speaker::TopSideRight
        | Speaker::TopRearRight => DirectRoute::Right,
        Speaker::FrontCenter
        | Speaker::RearCenter
        | Speaker::TopFrontCenter
        | Speaker::TopRearCenter => DirectRoute::Center,
    }
}

/// A speaker behind the listener.
pub open spec fn rear(speaker: Speaker) -> bool {
    speaker is RearLeft || speaker is RearRight || speaker is RearCenter
}

/// A speaker beside the listener.
pub open spec fn beside(speaker: Speaker) -> bool {
    speaker is SideLeft || speaker is SideRight
}

/// A speaker between the front and the sides.
pub open spec fn wide(speaker: Speaker) -> bool {
    speaker is WideLeft || speaker is WideRight
}

/// A speaker in front of the listener.
pub open spec fn screen(speaker: Speaker) -> bool {
    speaker is FrontLeft || speaker is FrontRight || speaker is FrontCenter
}

/// A surround on the plane of the listener.
pub open spec fn mid(speaker: Speaker) -> bool {
    beside(speaker) || rear(speaker) || wide(speaker)
}

/// Whether a zone lets an object use a speaker. Side surrounds count as sides
/// only where there are rear surrounds, and as the back only where there are
/// none.
pub open spec fn permitted(
    speaker: Speaker,
    zone: ObjectZone,
    elevation: bool,
    has_rear: bool,
) -> bool {
    if speaker.overhead() {
        elevation
    } else {
        match zone {
            ObjectZone::All => true,
            ObjectZone::NoBack => !rear(speaker),
            ObjectZone::NoSide => !(wide(speaker) || (has_rear && beside(speaker))),
            ObjectZone::CentreAndBack => speaker is FrontCenter || rear(speaker) || (!has_rear
                && beside(speaker)),
            ObjectZone::Screen => screen(speaker),
            ObjectZone::Surround => beside(speaker) || rear(speaker),
        }
    }
}

fn is_rear(speaker: Speaker) -> (r: bool)
    ensures
        r == rear(speaker),
{
    matches!(speaker, Speaker::RearLeft | Speaker::RearRight | Speaker::RearCenter)
}

fn is_beside(speaker: Speaker) -> (r: bool)
    ensures
        r == beside(speaker),
{
    matches!(speaker, Speaker::SideLeft | Speaker::SideRight)
}

fn is_wide(speaker: Speaker) -> (r: bool)
    ensures
        r == wide(speaker),
{
    matches!(speaker, Speaker::WideLeft | Speaker::WideRight)
}

fn is_screen(speaker: Speaker) -> (r: bool)
    ensures
        r == screen(speaker),
{
    matches!(speaker, Speaker::FrontLeft | Speaker::FrontRight | Speaker::FrontCenter)
}

/// Whether a speaker is a surround on the plane of the listener.
pub fn is_mid(speaker: Speaker) -> (r: bool)
    ensures
        r == mid(speaker),
{
    is_beside(speaker) || is_rear(speaker) || is_wide(speaker)
}

/// Whether a zone lets an object use a speaker.
pub fn bus_permitted(speaker: Speaker, zone: ObjectZone, elevation: bool, has_rear: bool) -> (r:
    bool)
    ensures
        r == permitted(speaker, zone, elevation, has_rear),
{
    if speaker.is_height() {
        return elevation;
    }
    match zone {
        ObjectZone::All => true,
        ObjectZone::NoBack => !is_rear(speaker),
        ObjectZone::NoSide => !(is_wide(speaker) || (has_rear && is_beside(speaker))),
        ObjectZone::CentreAndBack => matches!(speaker, Speaker::FrontCenter) || is_rear(speaker)
            || (!has_rear && is_beside(speaker)),
        ObjectZone::Screen => is_screen(speaker),
        ObjectZone::Surround => is_beside(speaker) || is_rear(speaker),
    }
}

/// A virtual speaker that objects can be panned to.
#[derive(Clone, Copy, Debug, PartialEq, Eq, Structural)]
pub struct PanningBus {
    pub index: usize,
    /// The speaker itself, or the closest to its direction.
    pub speaker: Speaker,
    /// Whether it stands on the plane of the listener.
    pub level: bool,
    /// Whether it is a speaker of the layout, and not only a direction.
    pub named: bool,
}

/// Whether a zone lets an object use a virtual speaker.
pub open spec fn bus_open(bus: PanningBus, zone: ObjectZone, elevation: bool, has_rear: bool) -> bool {
    if bus.level {
        permitted(bus.speaker, zone, elevation, has_rear)
    } else {
        elevation
    }
}

/// Whether a layout has a speaker behind the listener.
pub open spec fn layout_has_rear(buses: Seq<PanningBus>) -> bool {
    exists|i: int| 0 <= i < buses.len() && (#[trigger] buses[i]).named && rear(buses[i].speaker)
}

/// How far the choice of virtual speakers had to be widened.
#[derive(Clone, Copy, Debug, PartialEq, Eq, Structural)]
pub enum Choice {
    /// What the zone permits.
    Zone,
    /// What the elevation flag permits.
    Elevation,
    /// Everything.
    All,
}

/// Whether a virtual speaker is chosen.
pub open spec fn chosen(
    bus: PanningBus,
    choice: Choice,
    zone: ObjectZone,
    elevation: bool,
    has_rear: bool,
) -> bool {
    match choice {
        Choice::Zone => bus_open(bus, zone, elevation, has_rear),
        Choice::Elevation => elevation || bus.level,
        Choice::All => true,
    }
}

/// The places of the virtual speakers that are chosen, among the first.
pub open spec fn chosen_places(
    buses: Seq<PanningBus>,
    choice: Choice,
    zone: ObjectZone,
    elevation: bool,
    has_rear: bool,
    count: nat,
) -> Seq<usize>
    decreases count,
{
    if count == 0 {
        seq![]
    } else {
        let before = chosen_places(
            buses,
            choice,
            zone,
            elevation,
            has_rear,
            (count - 1) as nat,
        );
        if chosen(buses[count - 1], choice, zone, elevation, has_rear) {
            before.push((count - 1) as usize)
        } else {
            before
        }
    }
}

/// The places of the virtual speakers that an object is panned to: what its zone
/// permits, or else what its elevation permits, or else all.
pub open spec fn panned_places(buses: Seq<PanningBus>, zone: ObjectZone, elevation: bool) -> Seq<
    usize,
> {
    let has_rear = layout_has_rear(buses);
    let strict = chosen_places(buses, Choice::Zone, zone, elevation, has_rear, buses.len());
    let loose = chosen_places(buses, Choice::Elevation, zone, elevation, has_rear, buses.len());
    if strict.len() > 0 {
        strict
    } else if loose.len() > 0 {
        loose
    } else {
        chosen_places(buses, Choice::All, zone, elevation, has_rear, buses.len())
    }
}

fn has_rear_bus(buses: &[PanningBus]) -> (r: bool)
    ensures
        r == layout_has_rear(buses@),
{
    let mut i: usize = 0;
    while i < buses.len()
        invariant
            i <= buses@.len(),
            forall|k: int|
                0 <= k < i ==> !((#[trigger] buses@[k]).named && rear(buses@[k].speaker)),
        decreases buses@.len() - i,
    {
        if buses[i].named && is_rear(buses[i].speaker) {
            assert(buses@[i as int].named && rear(buses@[i as int].speaker));
            return true;
        }
        i = i + 1;
    }
    false
}

fn choose_places(
    buses: &[PanningBus],
    choice: Choice,
    zone: ObjectZone,
    elevation: bool,
    has_rear: bool,
) -> (r: Vec<usize>)
    ensures
        r@ == chosen_places(buses@, choice, zone, elevation, has_rear, buses@.len()),
{
    let mut list: Vec<usize> = Vec::new();
    let mut i: usize = 0;
    while i < buses.len()
        invariant
            i <= buses@.len(),
            list@ == chosen_places(buses@, choice, zone, elevation, has_rear, i as nat),
        decreases buses@.len() - i,
    {
        let bus: PanningBus = buses[i];
        let taken: bool = match choice {
            Choice::Zone => if bus.level {
                bus_permitted(bus.speaker, zone, elevation, has_rear)
            } else {
                elevation
            },
            Choice::Elevation => elevation || bus.level,
            Choice::All => true,
        };
        if taken {
            list.push(i);
        }
        i = i + 1;
    }
    list
}

/// The category of a number of surrounds: none, some, many.
pub open spec fn mid_category(count: nat) -> nat {
    if count == 0 {
        0
    } else if count <= 3 {
        1
    } else {
        2
    }
}

/// The category of a number of overhead speakers: none, some, many.
pub open spec fn top_category(count: nat) -> nat {
    if count == 0 {
        0
    } else if count <= 2 {
        1
    } else {
        2
    }
}

/// The trim configuration of a layout with these numbers of speakers.
pub open spec fn trim_configuration_of(mids: nat, tops: nat) -> nat {
    mid_category(mids) + 3 * top_category(tops)
}

/// The trim configuration of a layout with these numbers of speakers.
pub fn trim_configuration(mids: usize, tops: usize) -> (r: usize)
    ensures
        r == trim_configuration_of(mids as nat, tops as nat),
        r < 9,
{
    let first: usize = if mids == 0 {
        0
    } else if mids <= 3 {
        1
    } else {
        2
    };
    let second: usize = if tops == 0 {
        0
    } else if tops <= 2 {
        1
    } else {
        2
    };
    first + 3 * second
}

/// How many of the first chosen virtual speakers are named surrounds.
pub open spec fn mid_count(buses: Seq<PanningBus>, places: Seq<usize>, count: nat) -> nat
    decreases count,
{
    if count == 0 {
        0
    } else {
        let bus = buses[places[count - 1] as int];
        mid_count(buses, places, (count - 1) as nat) + if bus.named && mid(bus.speaker) {
            1nat
        } else {
            0nat
        }
    }
}

/// How many of the first chosen virtual speakers are named and overhead.
pub open spec fn top_count(buses: Seq<PanningBus>, places: Seq<usize>, count: nat) -> nat
    decreases count,
{
    if count == 0 {
        0
    } else {
        let bus = buses[places[count - 1] as int];
        top_count(buses, places, (count - 1) as nat) + if bus.named && bus.speaker.overhead() {
            1nat
        } else {
            0nat
        }
    }
}

/// Where an object is panned to, and which trim applies to it.
#[derive(Clone, Debug)]
pub struct PanPlan {
    /// Places in the list of virtual speakers.
    pub places: Vec<usize>,
    pub mids: usize,
    pub tops: usize,
    pub trim_configuration: usize,
}

proof fn lemma_places_in_range(
    buses: Seq<PanningBus>,
    choice: Choice,
    zone: ObjectZone,
    elevation: bool,
    has_rear: bool,
    count: nat,
)
    requires
        count <= buses.len() <= usize::MAX,
    ensures
        ({
            let list = chosen_places(buses, choice, zone, elevation, has_rear, count);
            &&& list.len() <= count
            &&& forall|i: int| 0 <= i < list.len() ==> (#[trigger] list[i]) < count
            &&& forall|i: int|
                0 <= i < list.len() ==> chosen(
                    buses[(#[trigger] list[i]) as int],
                    choice,
                    zone,
                    elevation,
                    has_rear,
                )
        }),
    decreases count,
{
    if count > 0 {
        lemma_places_in_range(buses, choice, zone, elevation, has_rear, (count - 1) as nat);
    }
}

proof fn lemma_everything_is_chosen(
    buses: Seq<PanningBus>,
    zone: ObjectZone,
    elevation: bool,
    has_rear: bool,
    count: nat,
)
    requires
        count <= buses.len(),
    ensures
        chosen_places(buses, Choice::All, zone, elevation, has_rear, count).len() == count,
    decreases count,
{
    if count > 0 {
        lemma_everything_is_chosen(buses, zone, elevation, has_rear, (count - 1) as nat);
    }
}

/// An object always has a virtual speaker to go to, whatever its zone, as long
/// as there is one at all.
pub proof fn law_every_object_can_be_panned(
    buses: Seq<PanningBus>,
    zone: ObjectZone,
    elevation: bool,
)
    requires
        0 < buses.len(),
    ensures
        panned_places(buses, zone, elevation).len() > 0,
{
    lemma_everything_is_chosen(buses, zone, elevation, layout_has_rear(buses), buses.len());
}

/// Without elevation no overhead speaker on its own is chosen, unless there is
/// nothing else.
pub proof fn law_grounded_objects_stay_on_the_plane(
    buses: Seq<PanningBus>,
    zone: ObjectZone,
    index: int,
)
    requires
        buses.len() <= usize::MAX,
        exists|i: int| 0 <= i < buses.len() && (#[trigger] buses[i]).level,
        0 <= index < panned_places(buses, zone, false).len(),
    ensures
        buses[panned_places(buses, zone, false)[index] as int].level,
{
    let has_rear = layout_has_rear(buses);
    let found = choose|i: int| 0 <= i < buses.len() && (#[trigger] buses[i]).level;
    lemma_level_is_chosen(buses, zone, has_rear, buses.len(), found as nat);
    lemma_places_in_range(buses, Choice::Zone, zone, false, has_rear, buses.len());
    lemma_places_in_range(buses, Choice::Elevation, zone, false, has_rear, buses.len());
}

proof fn lemma_level_is_chosen(
    buses: Seq<PanningBus>,
    zone: ObjectZone,
    has_rear: bool,
    count: nat,
    place: nat,
)
    requires
        place < count <= buses.len(),
        buses[place as int].level,
    ensures
        chosen_places(buses, Choice::Elevation, zone, false, has_rear, count).len() > 0,
    decreases count,
{
    if place < count - 1 {
        lemma_level_is_chosen(buses, zone, has_rear, (count - 1) as nat, place);
    }
}

fn count_mids(buses: &[PanningBus], places: &[usize]) -> (r: usize)
    requires
        forall|i: int| 0 <= i < places@.len() ==> (#[trigger] places@[i]) < buses@.len(),
    ensures
        r == mid_count(buses@, places@, places@.len()),
{
    let mut count: usize = 0;
    let mut i: usize = 0;
    while i < places.len()
        invariant
            i <= places@.len(),
            count <= i,
            forall|k: int| 0 <= k < places@.len() ==> (#[trigger] places@[k]) < buses@.len(),
            count == mid_count(buses@, places@, i as nat),
        decreases places@.len() - i,
    {
        let bus: PanningBus = buses[places[i]];
        if bus.named && is_mid(bus.speaker) {
            count = count + 1;
        }
        i = i + 1;
    }
    count
}

fn count_tops(buses: &[PanningBus], places: &[usize]) -> (r: usize)
    requires
        forall|i: int| 0 <= i < places@.len() ==> (#[trigger] places@[i]) < buses@.len(),
    ensures
        r == top_count(buses@, places@, places@.len()),
{
    let mut count: usize = 0;
    let mut i: usize = 0;
    while i < places.len()
        invariant
            i <= places@.len(),
            count <= i,
            forall|k: int| 0 <= k < places@.len() ==> (#[trigger] places@[k]) < buses@.len(),
            count == top_count(buses@, places@, i as nat),
        decreases places@.len() - i,
    {
        let bus: PanningBus = buses[places[i]];
        if bus.named && bus.speaker.is_height() {
            count = count + 1;
        }
        i = i + 1;
    }
    count
}

/// The virtual speakers of a layout.
#[derive(Clone, Debug)]
pub struct SpatialPanner {
    pub buses: Vec<PanningBus>,
    /// Whether the layout has neither surrounds nor overhead speakers.
    pub stereo_trim_configuration: bool,
}

/// Whether a layout has neither named surrounds nor named overhead speakers.
pub open spec fn bare_stereo(buses: Seq<PanningBus>) -> bool {
    forall|i: int|
        0 <= i < buses.len() ==> !((#[trigger] buses[i]).named && (mid(buses[i].speaker)
            || buses[i].speaker.overhead()))
}

impl SpatialPanner {
    /// Takes the virtual speakers of a layout, of which there must be one.
    pub fn new(buses: Vec<PanningBus>) -> (r: Result<Self, AppError>)
        ensures
            buses@.len() == 0 ==> r is Err && r->Err_0 is InvalidHrir && r->Err_0.text()
                == "HRIR has no directional channels for spatial rendering"@,
            buses@.len() > 0 ==> r is Ok && r->Ok_0.buses == buses
                && r->Ok_0.stereo_trim_configuration == bare_stereo(buses@),
    {
        if buses.len() == 0 {
            return Err(
                AppError::InvalidHrir(
                    Reason::Note(
                        String::from_str("HRIR has no directional channels for spatial rendering"),
                    ),
                ),
            );
        }
        let mut bare: bool = true;
        let mut i: usize = 0;
        while i < buses.len()
            invariant
                i <= buses@.len(),
                bare == (forall|k: int|
                    0 <= k < i ==> !((#[trigger] buses@[k]).named && (mid(buses@[k].speaker)
                        || buses@[k].speaker.overhead()))),
            decreases buses@.len() - i,
        {
            let bus: PanningBus = buses[i];
            if bus.named && (is_mid(bus.speaker) || bus.speaker.is_height()) {
                bare = false;
                assert(buses@[i as int].named && (mid(buses@[i as int].speaker)
                    || buses@[i as int].speaker.overhead()));
            }
            i = i + 1;
        }
        Ok(SpatialPanner { buses, stereo_trim_configuration: bare })
    }

    /// Chooses where an object is panned to, and the trim that goes with it.
    pub fn plan(&self, zone: ObjectZone, elevation: bool) -> (r: PanPlan)
        ensures
            r.places@ == panned_places(self.buses@, zone, elevation),
            forall|i: int|
                0 <= i < r.places@.len() ==> (#[trigger] r.places@[i]) < self.buses@.len(),
            r.mids == mid_count(self.buses@, r.places@, r.places@.len()),
            r.tops == top_count(self.buses@, r.places@, r.places@.len()),
            r.trim_configuration == trim_configuration_of(r.mids as nat, r.tops as nat),
    {
        let buses: &[PanningBus] = self.buses.as_slice();
        assert(self.buses.len() <= usize::MAX);
        let has_rear: bool = has_rear_bus(buses);
        proof {
            lemma_places_in_range(
                buses@,
                Choice::Zone,
                zone,
                elevation,
                has_rear,
                buses@.len(),
            );
            lemma_places_in_range(
                buses@,
                Choice::Elevation,
                zone,
                elevation,
                has_rear,
                buses@.len(),
            );
            lemma_places_in_range(
                buses@,
                Choice::All,
                zone,
                elevation,
                has_rear,
                buses@.len(),
            );
        }
        let mut places = choose_places(buses, Choice::Zone, zone, elevation, has_rear);
        if places.len() == 0 {
            places = choose_places(buses, Choice::Elevation, zone, elevation, has_rear);
        }
        if places.len() == 0 {
            places = choose_places(buses, Choice::All, zone, elevation, has_rear);
        }
        let mids: usize = count_mids(buses, places.as_slice());
        let tops: usize = count_tops(buses, places.as_slice());
        PanPlan { places, mids, tops, trim_configuration: trim_configuration(mids, tops) }
    }
}

/// The part of a room that a snap location belongs to.
#[derive(Clone, Copy, Debug, PartialEq, Eq, Structural)]
pub enum SnapZone {
    Front,
    Center,
    Side,
    Back,
    Wide,
    Elevated,
}

/// A place that an object can snap to, in ten-thousandths of the room.
#[derive(Clone, Copy, Debug, PartialEq, Eq, Structural)]
pub struct SnapTarget {
    pub x: i32,
    pub y: i32,
    pub z: i32,
    pub zone: SnapZone,
}

/// The places of a layout of 22 speakers.
pub open spec fn snap_targets() -> Seq<SnapTarget> {
    seq![
        SnapTarget { x: 5000, y: 0, z: 0, zone: SnapZone::Center },
        SnapTarget { x: 5000, y: 0, z: (-10_000) as i32, zone: SnapZone::Elevated },
        SnapTarget { x: 2500, y: 7500, z: 10_000, zone: SnapZone::Elevated },
        SnapTarget { x: 5000, y: 7500, z: 10_000, zone: SnapZone::Elevated },
        SnapTarget { x: 7500, y: 7500, z: 10_000, zone: SnapZone::Elevated },
        SnapTarget { x: 2500, y: 5000, z: 10_000, zone: SnapZone::Elevated },
        SnapTarget { x: 5000, y: 5000, z: 10_000, zone: SnapZone::Elevated },
        SnapTarget { x: 7500, y: 5000, z: 10_000, zone: SnapZone::Elevated },
        SnapTarget { x: 2500, y: 2500, z: 10_000, zone: SnapZone::Elevated },
        SnapTarget { x: 5000, y: 2500, z: 10_000, zone: SnapZone::Elevated },
        SnapTarget { x: 7500, y: 2500, z: 10_000, zone: SnapZone::Elevated },
        SnapTarget { x: 0, y: 10_000, z: 0, zone: SnapZone::Back },
        SnapTarget { x: 5000, y: 10_000, z: 0, zone: SnapZone::Back },
        SnapTarget { x: 10_000, y: 10_000, z: 0, zone: SnapZone::Back },
        SnapTarget { x: 0, y: 5000, z: 0, zone: SnapZone::Side },
        SnapTarget { x: 10_000, y: 5000, z: 0, zone: SnapZone::Side },
        SnapTarget { x: 0, y: 2929, z: 0, zone: SnapZone::Wide },
        SnapTarget { x: 10_000, y: 2929, z: 0, zone: SnapZone::Wide },
        SnapTarget { x: 0, y: 0, z: 0, zone: SnapZone::Front },
        SnapTarget { x: 10_000, y: 0, z: 0, zone: SnapZone::Front },
        SnapTarget { x: 0, y: 0, z: (-10_000) as i32, zone: SnapZone::Elevated },
        SnapTarget { x: 10_000, y: 0, z: (-10_000) as i32, zone: SnapZone::Elevated },
    ]
}

/// Whether a zone lets an object snap to a part of the room.
pub open spec fn snap_open(kind: SnapZone, zone: ObjectZone, elevation: bool) -> bool {
    match kind {
        SnapZone::Elevated => elevation,
        SnapZone::Front => zone is All || zone is NoBack || zone is NoSide || zone is Screen,
        SnapZone::Center => !(zone is Surround),
        SnapZone::Side => zone is All || zone is NoBack || zone is Surround,
        SnapZone::Back => zone is All || zone is NoSide || zone is CentreAndBack
            || zone is Surround,
        SnapZone::Wide => zone is All || zone is NoBack,
    }
}

/// Whether a zone lets an object snap to a part of the room.
pub fn snap_target_permitted(kind: SnapZone, zone: ObjectZone, elevation: bool) -> (r: bool)
    ensures
        r == snap_open(kind, zone, elevation),
{
    match kind {
        SnapZone::Elevated => elevation,
        SnapZone::Front => matches!(
            zone,
            ObjectZone::All | ObjectZone::NoBack | ObjectZone::NoSide | ObjectZone::Screen
        ),
        SnapZone::Center => !matches!(zone, ObjectZone::Surround),
        SnapZone::Side => matches!(
            zone,
            ObjectZone::All | ObjectZone::NoBack | ObjectZone::Surround
        ),
        SnapZone::Back => matches!(
            zone,
            ObjectZone::All | ObjectZone::NoSide | ObjectZone::CentreAndBack | ObjectZone::Surround
        ),
        SnapZone::Wide => matches!(zone, ObjectZone::All | ObjectZone::NoBack),
    }
}

/// The places that a zone leaves, among the first.
pub open spec fn open_targets(zone: ObjectZone, elevation: bool, count: nat) -> Seq<SnapTarget>
    decreases count,
{
    if count == 0 {
        seq![]
    } else {
        let before = open_targets(zone, elevation, (count - 1) as nat);
        let target = snap_targets()[count - 1];
        if snap_open(target.zone, zone, elevation) {
            before.push(target)
        } else {
            before
        }
    }
}

/// The places that an object of a zone can snap to.
pub fn permitted_targets(zone: ObjectZone, elevation: bool) -> (r: Vec<SnapTarget>)
    ensures
        r@ == open_targets(zone, elevation, snap_targets().len()),
{
    let targets: [SnapTarget; 22] = [
        SnapTarget { x: 5000, y: 0, z: 0, zone: SnapZone::Center },
        SnapTarget { x: 5000, y: 0, z: -10_000, zone: SnapZone::Elevated },
        SnapTarget { x: 2500, y: 7500, z: 10_000, zone: SnapZone::Elevated },
        SnapTarget { x: 5000, y: 7500, z: 10_000, zone: SnapZone::Elevated },
        SnapTarget { x: 7500, y: 7500, z: 10_000, zone: SnapZone::Elevated },
        SnapTarget { x: 2500, y: 5000, z: 10_000, zone: SnapZone::Elevated },
        SnapTarget { x: 5000, y: 5000, z: 10_000, zone: SnapZone::Elevated },
        SnapTarget { x: 7500, y: 5000, z: 10_000, zone: SnapZone::Elevated },
        SnapTarget { x: 2500, y: 2500, z: 10_000, zone: SnapZone::Elevated },
        SnapTarget { x: 5000, y: 2500, z: 10_000, zone: SnapZone::Elevated },
        SnapTarget { x: 7500, y: 2500, z: 10_000, zone: SnapZone::Elevated },
        SnapTarget { x: 0, y: 10_000, z: 0, zone: SnapZone::Back },
        SnapTarget { x: 5000, y: 10_000, z: 0, zone: SnapZone::Back },
        SnapTarget { x: 10_000, y: 10_000, z: 0, zone: SnapZone::Back },
        SnapTarget { x: 0, y: 5000, z: 0, zone: SnapZone::Side },
        SnapTarget { x: 10_000, y: 5000, z: 0, zone: SnapZone::Side },
        SnapTarget { x: 0, y: 2929, z: 0, zone: SnapZone::Wide },
        SnapTarget { x: 10_000, y: 2929, z: 0, zone: SnapZone::Wide },
        SnapTarget { x: 0, y: 0, z: 0, zone: SnapZone::Front },
        SnapTarget { x: 10_000, y: 0, z: 0, zone: SnapZone::Front },
        SnapTarget { x: 0, y: 0, z: -10_000, zone: SnapZone::Elevated },
        SnapTarget { x: 10_000, y: 0, z: -10_000, zone: SnapZone::Elevated },
    ];
    assert(targets@ =~= snap_targets());
    let mut list: Vec<SnapTarget> = Vec::new();
    let mut i: usize = 0;
    while i < 22
        invariant
            i <= 22,
            targets@ == snap_targets(),
            targets@.len() == 22,
            list@ == open_targets(zone, elevation, i as nat),
        decreases 22 - i,
    {
        let target: SnapTarget = targets[i];
        if snap_target_permitted(target.zone, zone, elevation) {
            list.push(target);
        }
        i = i + 1;
    }
    list
}

proof fn lemma_open_target_is_listed(zone: ObjectZone, elevation: bool, count: nat, place: nat)
    requires
        place < count,
        snap_open(snap_targets()[place as int].zone, zone, elevation),
    ensures
        open_targets(zone, elevation, count).len() > 0,
    decreases count,
{
    if place < count - 1 {
        lemma_open_target_is_listed(zone, elevation, (count - 1) as nat, place);
    }
}

/// Every zone leaves a place to snap to.
pub proof fn law_every_zone_retains_a_snap_target(zone: ObjectZone, elevation: bool)
    ensures
        open_targets(zone, elevation, snap_targets().len()).len() > 0,
{
    if zone is Surround {
        assert(snap_targets()[11].zone == SnapZone::Back);
        lemma_open_target_is_listed(zone, elevation, 22, 11);
    } else {
        assert(snap_targets()[0].zone == SnapZone::Center);
        lemma_open_target_is_listed(zone, elevation, 22, 0);
    }
}

/// Every layout has one of the trim configurations.
pub proof fn law_every_layout_has_a_trim(mids: nat, tops: nat)
    ensures
        trim_configuration_of(mids, tops) < crate::object::TRIM_CONFIGURATIONS,
{
}

/// Left speakers are heard on the left and right ones on the right, those in the
/// middle in both ears, and the low-frequency channel at half the amplitude.
pub proof fn law_speakers_are_heard_on_their_hand(speaker: Speaker)
    ensures
        direct_route(speaker) is Half <==> speaker is Lfe,
        direct_route(speaker) is Center <==> speaker.mirrored() == speaker && !(speaker is Lfe),
        direct_route(speaker) is Left <==> direct_route(speaker.mirrored()) is Right,
        direct_route(speaker) is Left <==> speaker is FrontLeft || speaker is SideLeft
            || speaker is RearLeft || speaker is WideLeft || speaker is TopFrontLeft
            || speaker is TopSideLeft || speaker is TopRearLeft,
{
}

/// Which zones leave a speaker to an object. Overhead speakers go by the elevation
/// alone. The centre is closed to surround objects only, and the other screen
/// speakers also to those of centre and back; the rear is closed to those without
/// back and those of the screen; the sides always serve all, no back and surround,
/// and stand in for the rear where there is none; and the wides serve all and no
/// back. Both hands are treated alike.
pub proof fn law_zones_open_their_speakers(
    speaker: Speaker,
    zone: ObjectZone,
    elevation: bool,
    has_rear: bool,
)
    ensures
        permitted(speaker, zone, elevation, has_rear) == permitted(
            speaker.mirrored(),
            zone,
            elevation,
            has_rear,
        ),
        speaker.overhead() ==> permitted(speaker, zone, elevation, has_rear) == elevation,
        speaker is FrontCenter ==> permitted(speaker, zone, elevation, has_rear) == !(
        zone is Surround),
        speaker is FrontLeft ==> permitted(speaker, zone, elevation, has_rear) == !(
        zone is Surround || zone is CentreAndBack),
        speaker is RearLeft || speaker is RearCenter ==> permitted(
            speaker,
            zone,
            elevation,
            has_rear,
        ) == !(zone is NoBack || zone is Screen),
        speaker is SideLeft ==> permitted(speaker, zone, elevation, has_rear) == (zone is All
            || zone is NoBack || zone is Surround || !has_rear && (zone is NoSide
            || zone is CentreAndBack)),
        speaker is WideLeft ==> permitted(speaker, zone, elevation, has_rear) == (zone is All
            || zone is NoBack),
        speaker is Lfe ==> permitted(speaker, zone, elevation, has_rear) == (zone is All
            || zone is NoBack || zone is NoSide),
{
}

/// A zone lets an object snap to a part of the room exactly where it lets it use the
/// speaker that stands there, in a layout that has a rear.
pub proof fn law_snapping_goes_by_the_speakers(zone: ObjectZone, elevation: bool)
    ensures
        snap_open(SnapZone::Front, zone, elevation) == permitted(
            Speaker::FrontLeft,
            zone,
            elevation,
            true,
        ),
        snap_open(SnapZone::Center, zone, elevation) == permitted(
            Speaker::FrontCenter,
            zone,
            elevation,
            true,
        ),
        snap_open(SnapZone::Side, zone, elevation) == permitted(
            Speaker::SideLeft,
            zone,
            elevation,
            true,
        ),
        snap_open(SnapZone::Back, zone, elevation) == permitted(
            Speaker::RearLeft,
            zone,
            elevation,
            true,
        ),
        snap_open(SnapZone::Wide, zone, elevation) == permitted(
            Speaker::WideLeft,
            zone,
            elevation,
            true,
        ),
        snap_open(SnapZone::Elevated, zone, elevation) == permitted(
            Speaker::TopSideLeft,
            zone,
            elevation,
            true,
        ),
{
}

/// Where the snap targets of a room are. Off the plane they are elevated: nine above
/// the listener, a quarter of the room apart, and three below the screen. On the
/// plane those at the front wall are the screen, with the centre in its middle,
/// those at the rear wall the back, those halfway the sides, and those between the
/// screen and the sides the wides. All stand at a side wall or in the middle but for
/// those above, and no two at one place.
pub proof fn law_snap_targets_stand_in_their_zone(i: int, j: int)
    requires
        0 <= i < j < snap_targets().len(),
    ensures
        snap_targets().len() == 22,
        ({
            let t = snap_targets()[i];
            let u = snap_targets()[j];
            &&& t.zone is Elevated <==> t.z != 0
            &&& t.zone is Center <==> t.z == 0 && t.y == 0 && t.x == 5000
            &&& t.zone is Front <==> t.z == 0 && t.y == 0 && t.x != 5000
            &&& t.zone is Back <==> t.z == 0 && t.y == 10_000
            &&& t.zone is Side <==> t.z == 0 && t.y == 5000
            &&& t.zone is Wide <==> t.z == 0 && t.y == 2929
            &&& t.z == 0 || t.z == 10_000 || t.z == -10_000
            &&& t.z == 10_000 ==> (t.x == 2500 || t.x == 5000 || t.x == 7500) && (t.y == 2500
                || t.y == 5000 || t.y == 7500)
            &&& t.z == -10_000 ==> t.y == 0
            &&& t.z != 10_000 ==> t.x == 0 || t.x == 5000 || t.x == 10_000
            &&& t.zone is Side || t.zone is Wide ==> t.x != 5000
            &&& (t.x, t.y, t.z) != (u.x, u.y, u.z)
        }),
{
}

/// Every snap target has its counterpart on the other hand.
pub proof fn law_snap_targets_are_mirrored(i: int)
    requires
        0 <= i < snap_targets().len(),
    ensures
        exists|j: int|
            0 <= j < snap_targets().len() && (#[trigger] snap_targets()[j]).x + snap_targets()[i].x
                == 10_000 && snap_targets()[j].y == snap_targets()[i].y && snap_targets()[j].z
                == snap_targets()[i].z && snap_targets()[j].zone == snap_targets()[i].zone,
{
    let s = snap_targets();
    assert(s[0] == s[0] && s[1] == s[1] && s[2] == s[2] && s[3] == s[3] && s[4] == s[4]);
    assert(s[0].x == 5000 && s[1].x == 5000 && s[3].x == 5000 && s[6].x == 5000 && s[9].x == 5000
        && s[12].x == 5000);
    assert(s[2].x + s[4].x == 10_000 && s[5].x + s[7].x == 10_000 && s[8].x + s[10].x == 10_000);
    assert(s[11].x + s[13].x == 10_000 && s[14].x + s[15].x == 10_000 && s[16].x + s[17].x
        == 10_000 && s[18].x + s[19].x == 10_000 && s[20].x + s[21].x == 10_000);
}

/// A target is offered exactly where the zone is open to it.
pub proof fn law_open_targets_are_offered(zone: ObjectZone, elevation: bool, count: nat, i: int)
    requires
        0 <= i < count <= snap_targets().len(),
        snap_open(snap_targets()[i].zone, zone, elevation),
    ensures
        open_targets(zone, elevation, count).contains(snap_targets()[i]),
        forall|k: int|
            0 <= k < open_targets(zone, elevation, count).len() ==> snap_open(
                (#[trigger] open_targets(zone, elevation, count)[k]).zone,
                zone,
                elevation,
            ),
    decreases count,
{
    lemma_offered_are_open(zone, elevation, count);
    let before = open_targets(zone, elevation, (count - 1) as nat);
    let all = open_targets(zone, elevation, count);
    if i < count - 1 {
        law_open_targets_are_offered(zone, elevation, (count - 1) as nat, i);
        let k = choose|k: int| 0 <= k < before.len() && before[k] == snap_targets()[i];
        assert(all[k] == before[k]);
    } else {
        assert(all.last() == snap_targets()[i]);
    }
}

proof fn lemma_offered_are_open(zone: ObjectZone, elevation: bool, count: nat)
    ensures
        forall|k: int|
            0 <= k < open_targets(zone, elevation, count).len() ==> snap_open(
                (#[trigger] open_targets(zone, elevation, count)[k]).zone,
                zone,
                elevation,
            ),
    decreases count,
{
    if count > 0 {
        lemma_offered_are_open(zone, elevation, (count - 1) as nat);
        let before = open_targets(zone, elevation, (count - 1) as nat);
        let all = open_targets(zone, elevation, count);
        assert forall|k: int| 0 <= k < all.len() implies snap_open(
            (#[trigger] all[k]).zone,
            zone,
            elevation,
        ) by {
            if k < before.len() {
                assert(all[k] == before[k]);
            }
        }
    }
}

/// A virtual speaker is chosen exactly where the choice holds of it, and the places
/// keep their order. On the plane of the listener the zone decides, and above it the
/// elevation.
pub proof fn law_chosen_places_are_those_that_are_open(
    buses: Seq<PanningBus>,
    choice: Choice,
    zone: ObjectZone,
    elevation: bool,
    has_rear: bool,
    count: nat,
    i: int,
)
    requires
        0 <= i < count <= buses.len() <= usize::MAX,
    ensures
        ({
            let places = chosen_places(buses, choice, zone, elevation, has_rear, count);
            let wanted = match choice {
                Choice::Zone => if buses[i].level {
                    permitted(buses[i].speaker, zone, elevation, has_rear)
                } else {
                    elevation
                },
                Choice::Elevation => elevation || buses[i].level,
                Choice::All => true,
            };
            &&& wanted <==> places.contains(i as usize)
            &&& forall|a: int, b: int| 0 <= a < b < places.len() ==> places[a] < places[b]
            &&& forall|a: int| 0 <= a < places.len() ==> #[trigger] places[a] < count
        }),
    decreases count,
{
    let before = chosen_places(buses, choice, zone, elevation, has_rear, (count - 1) as nat);
    let places = chosen_places(buses, choice, zone, elevation, has_rear, count);
    if count > 1 {
        law_chosen_places_are_those_that_are_open(
            buses,
            choice,
            zone,
            elevation,
            has_rear,
            (count - 1) as nat,
            if i < count - 1 { i } else { 0 },
        );
    } else {
        reveal_with_fuel(chosen_places, 2);
    }
    if i < count - 1 {
        if before.contains(i as usize) {
            let k = choose|k: int| 0 <= k < before.len() && before[k] == i as usize;
            assert(places[k] == i as usize);
        }
    } else if chosen(buses[i], choice, zone, elevation, has_rear) {
        assert(places.last() == i as usize);
    }
}

/// An object goes to what its zone permits; only where that is nothing, to what its
/// elevation permits; and only where that is nothing too, to everything.
pub proof fn law_choices_widen_only_where_nothing_is_left(
    buses: Seq<PanningBus>,
    zone: ObjectZone,
    elevation: bool,
    open: int,
)
    requires
        buses.len() <= usize::MAX,
        0 <= open < buses.len(),
        buses[open].level,
        permitted(buses[open].speaker, zone, elevation, layout_has_rear(buses)),
    ensures
        panned_places(buses, zone, elevation) == chosen_places(
            buses,
            Choice::Zone,
            zone,
            elevation,
            layout_has_rear(buses),
            buses.len(),
        ),
        panned_places(buses, zone, elevation).contains(open as usize),
{
    law_chosen_places_are_those_that_are_open(
        buses,
        Choice::Zone,
        zone,
        elevation,
        layout_has_rear(buses),
        buses.len(),
        open,
    );
}

/// A trim configuration tells both counts: its rest by three is none, up to three or
/// more surrounds, and its third is none, up to two or more overhead speakers.
pub proof fn law_trim_configurations_tell_the_layout(mids: nat, tops: nat)
    ensures
        ({
            let configuration = trim_configuration_of(mids, tops);
            &&& mids == 0 <==> configuration % 3 == 0
            &&& mids > 3 <==> configuration % 3 == 2
            &&& tops == 0 <==> configuration / 3 == 0
            &&& tops > 2 <==> configuration / 3 == 2
        }),
{
}

/// Surrounds of the plane are the sides, the rear and the wides.
pub proof fn law_surrounds_of_the_plane(speaker: Speaker)
    ensures
        mid(speaker) <==> speaker is SideLeft || speaker is SideRight || speaker is RearLeft
            || speaker is RearRight || speaker is RearCenter || speaker is WideLeft
            || speaker is WideRight,
        mid(speaker) == mid(speaker.mirrored()),
        mid(speaker) ==> !speaker.overhead() && !screen(speaker),
        rear(speaker) <==> speaker is RearLeft || speaker is RearRight || speaker is RearCenter,
{
}

/// A layout has as many speakers in the middle of its plane, and as many above it, as there
/// are buses with the name of one.
pub proof fn law_speakers_are_counted_by_their_names(
    buses: Seq<PanningBus>,
    places: Seq<usize>,
    count: nat,
)
    requires
        count <= places.len(),
    ensures
        mid_count(buses, places, count) == places.take(count as int).filter(
            |place: usize|
                buses[place as int].named && (buses[place as int].speaker is SideLeft
                    || buses[place as int].speaker is SideRight || rear(
                    buses[place as int].speaker,
                ) || buses[place as int].speaker is WideLeft
                    || buses[place as int].speaker is WideRight),
        ).len(),
        top_count(buses, places, count) == places.take(count as int).filter(
            |place: usize| buses[place as int].named && buses[place as int].speaker.overhead(),
        ).len(),
    decreases count,
{
    reveal(Seq::filter);
    if count > 0 {
        law_speakers_are_counted_by_their_names(buses, places, (count - 1) as nat);
        assert(places.take(count as int).drop_last() =~= places.take(count - 1));
        assert(places.take(count as int).last() == places[count - 1]);
    }
}

/// A layout is bare stereo exactly where none of its buses is counted, whichever are taken.
pub proof fn law_bare_stereo_counts_nothing(
    buses: Seq<PanningBus>,
    places: Seq<usize>,
    count: nat,
)
    requires
        count <= places.len(),
        forall|i: int| 0 <= i < places.len() ==> #[trigger] places[i] < buses.len(),
        bare_stereo(buses),
    ensures
        mid_count(buses, places, count) == 0,
        top_count(buses, places, count) == 0,
    decreases count,
{
    if count > 0 {
        law_bare_stereo_counts_nothing(buses, places, (count - 1) as nat);
        assert(places[count - 1] < buses.len());
    }
}

} // verus!
