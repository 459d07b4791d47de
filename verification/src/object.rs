//! Object metadata as plain values.
//!
//! Coordinates, factors and levels are kept exactly: as a ratio of integers where
//! the bitstream codes them, or as the bit pattern of a double where an outside
//! decoder hands one over.

use crate::speaker::Speaker;
use vstd::prelude::*;

verus! {

/// A real number, kept exactly.
#[derive(Clone, Copy, Debug, PartialEq, Eq, Structural)]
pub enum Scalar {
    /// A quotient of integers.
    Ratio { numerator: i32, denominator: u32 },
    /// The bit pattern of an IEEE 754 double.
    Double { bits: u64 },
}

/// Zero as a quotient.
pub open spec fn zero_scalar() -> Scalar {
    Scalar::Ratio { numerator: 0, denominator: 1 }
}

impl Scalar {
    pub fn zero() -> (r: Self)
        ensures
            r == zero_scalar(),
    {
        Scalar::Ratio { numerator: 0, denominator: 1 }
    }
}

/// A point of the virtual room: left/right, rear/front, down/up.
#[derive(Clone, Copy, Debug, PartialEq, Eq, Structural)]
pub struct Point {
    pub x: Scalar,
    pub y: Scalar,
    pub z: Scalar,
}

/// Apparent width, depth and height in room units.
#[derive(Clone, Copy, Debug, PartialEq, Eq, Structural)]
pub struct Extent {
    pub width: Scalar,
    pub depth: Scalar,
    pub height: Scalar,
}

pub open spec fn zero_extent() -> Extent {
    Extent { width: zero_scalar(), depth: zero_scalar(), height: zero_scalar() }
}

/// A level: silence, or whole decibels.
#[derive(Clone, Copy, Debug, PartialEq, Eq, Structural)]
pub enum Gain {
    Silent,
    Decibels { db: i8 },
}

/// How far beyond the room boundary an object lies.
#[derive(Clone, Copy, Debug, PartialEq, Eq, Structural)]
pub enum Distance {
    /// In tenths of the distance to the boundary.
    Tenths { value: u16 },
    Infinite,
}

/// The coded distance factors, in tenths.
pub open spec fn distance_tenths(index: nat) -> u16 {
    if index == 0 { 11 } else if index == 1 { 13 } else if index == 2 { 16 }
    else if index == 3 { 20 } else if index == 4 { 25 } else if index == 5 { 32 }
    else if index == 6 { 40 } else if index == 7 { 50 } else if index == 8 { 63 }
    else if index == 9 { 79 } else if index == 10 { 100 } else if index == 11 { 126 }
    else if index == 12 { 158 } else if index == 13 { 200 } else if index == 14 { 251 }
    else { 501 }
}

/// Looks up a coded distance factor.
pub fn coded_distance(index: usize) -> (r: u16)
    requires
        index < 16,
    ensures
        r == distance_tenths(index as nat),
{
    let table: [u16; 16] = [
        11, 13, 16, 20, 25, 32, 40, 50, 63, 79, 100, 126, 158, 200, 251, 501,
    ];
    table[index]
}

/// How a screen-anchored object follows the screen.
#[derive(Clone, Copy, Debug, PartialEq, Eq, Structural)]
pub struct ScreenAnchor {
    pub factor: Scalar,
    pub depth: Scalar,
}

/// Horizontal speaker-zone constraint carried by object metadata.
#[derive(Clone, Copy, Debug, PartialEq, Eq, Structural)]
pub enum ObjectZone {
    All,
    NoBack,
    NoSide,
    CentreAndBack,
    Screen,
    Surround,
}

impl Default for ObjectZone {
    fn default() -> (r: Self)
        ensures
            r == ObjectZone::All,
    {
        ObjectZone::All
    }
}

impl ObjectZone {
    /// The zone with a coded index, where the index is defined.
    pub open spec fn coded(index: nat) -> Option<ObjectZone> {
        if index == 0 {
            Some(ObjectZone::All)
        } else if index == 1 {
            Some(ObjectZone::NoBack)
        } else if index == 2 {
            Some(ObjectZone::NoSide)
        } else if index == 3 {
            Some(ObjectZone::CentreAndBack)
        } else if index == 4 {
            Some(ObjectZone::Screen)
        } else if index == 5 {
            Some(ObjectZone::Surround)
        } else {
            None
        }
    }

    pub fn from_index(index: u8) -> (r: Option<Self>)
        ensures
            r == ObjectZone::coded(index as nat),
    {
        match index {
            0 => Some(ObjectZone::All),
            1 => Some(ObjectZone::NoBack),
            2 => Some(ObjectZone::NoSide),
            3 => Some(ObjectZone::CentreAndBack),
            4 => Some(ObjectZone::Screen),
            5 => Some(ObjectZone::Surround),
            _ => None,
        }
    }
}

/// Object-trim algorithm selected for a virtual-speaker layout.
#[derive(Clone, Copy, Debug, PartialEq, Eq, Structural)]
pub enum ObjectTrimMode {
    Disabled,
    Default,
    Custom,
}

impl Default for ObjectTrimMode {
    fn default() -> (r: Self)
        ensures
            r == ObjectTrimMode::Disabled,
    {
        ObjectTrimMode::Disabled
    }
}

/// Trim and balance parameters for one virtual-speaker configuration.
#[derive(Clone, Copy, Debug, PartialEq, Eq, Structural)]
pub struct ObjectTrimSettings {
    pub mode: ObjectTrimMode,
    pub center_db: Scalar,
    pub surround_db: Scalar,
    pub height_db: Scalar,
    pub top_bottom_balance: Scalar,
    pub listener_balance: Scalar,
}

/// Settings of a mode without levels of their own.
pub open spec fn plain_settings(mode: ObjectTrimMode) -> ObjectTrimSettings {
    ObjectTrimSettings {
        mode,
        center_db: zero_scalar(),
        surround_db: zero_scalar(),
        height_db: zero_scalar(),
        top_bottom_balance: zero_scalar(),
        listener_balance: zero_scalar(),
    }
}

impl ObjectTrimSettings {
    pub fn plain(mode: ObjectTrimMode) -> (r: Self)
        ensures
            r == plain_settings(mode),
    {
        ObjectTrimSettings {
            mode,
            center_db: Scalar::zero(),
            surround_db: Scalar::zero(),
            height_db: Scalar::zero(),
            top_bottom_balance: Scalar::zero(),
            listener_balance: Scalar::zero(),
        }
    }
}

impl Default for ObjectTrimSettings {
    fn default() -> (r: Self)
        ensures
            r == plain_settings(ObjectTrimMode::Disabled),
    {
        ObjectTrimSettings::plain(ObjectTrimMode::Disabled)
    }
}

/// How many speaker configurations carry trim settings: none, some or many
/// listener-plane surrounds, times none, some or many overhead speakers.
pub const TRIM_CONFIGURATIONS: usize = 9;

/// The settings of every configuration. The fields are named for the number of
/// listener-plane surrounds and of overhead speakers.
#[derive(Clone, Copy, Debug, PartialEq, Eq, Structural)]
pub struct TrimTable {
    pub bare: ObjectTrimSettings,
    pub some_mid: ObjectTrimSettings,
    pub many_mid: ObjectTrimSettings,
    pub some_top: ObjectTrimSettings,
    pub some_mid_some_top: ObjectTrimSettings,
    pub many_mid_some_top: ObjectTrimSettings,
    pub many_top: ObjectTrimSettings,
    pub some_mid_many_top: ObjectTrimSettings,
    pub many_mid_many_top: ObjectTrimSettings,
}

impl TrimTable {
    /// The table that lists the configurations in their coded order.
    pub open spec fn of(settings: Seq<ObjectTrimSettings>) -> TrimTable {
        TrimTable {
            bare: settings[0],
            some_mid: settings[1],
            many_mid: settings[2],
            some_top: settings[3],
            some_mid_some_top: settings[4],
            many_mid_some_top: settings[5],
            many_top: settings[6],
            some_mid_many_top: settings[7],
            many_mid_many_top: settings[8],
        }
    }

    /// The configurations in their coded order.
    pub open spec fn listed(self) -> Seq<ObjectTrimSettings> {
        seq![
            self.bare,
            self.some_mid,
            self.many_mid,
            self.some_top,
            self.some_mid_some_top,
            self.many_mid_some_top,
            self.many_top,
            self.some_mid_many_top,
            self.many_mid_many_top,
        ]
    }

    pub fn from_list(settings: &[ObjectTrimSettings]) -> (r: Self)
        requires
            settings@.len() == TRIM_CONFIGURATIONS,
        ensures
            r == TrimTable::of(settings@),
    {
        TrimTable {
            bare: settings[0],
            some_mid: settings[1],
            many_mid: settings[2],
            some_top: settings[3],
            some_mid_some_top: settings[4],
            many_mid_some_top: settings[5],
            many_top: settings[6],
            some_mid_many_top: settings[7],
            many_mid_many_top: settings[8],
        }
    }

    /// One table entry for all configurations.
    pub open spec fn all(settings: ObjectTrimSettings) -> TrimTable {
        TrimTable::of(Seq::new(9, |i: int| settings))
    }

    pub fn uniform(settings: ObjectTrimSettings) -> (r: Self)
        ensures
            r == TrimTable::all(settings),
    {
        TrimTable {
            bare: settings,
            some_mid: settings,
            many_mid: settings,
            some_top: settings,
            some_mid_some_top: settings,
            many_mid_some_top: settings,
            many_top: settings,
            some_mid_many_top: settings,
            many_mid_many_top: settings,
        }
    }

    pub fn entry(&self, configuration: usize) -> (r: ObjectTrimSettings)
        requires
            configuration < TRIM_CONFIGURATIONS,
        ensures
            r == self.listed()[configuration as int],
    {
        match configuration {
            0 => self.bare,
            1 => self.some_mid,
            2 => self.many_mid,
            3 => self.some_top,
            4 => self.some_mid_some_top,
            5 => self.many_mid_some_top,
            6 => self.many_top,
            7 => self.some_mid_many_top,
            _ => self.many_mid_many_top,
        }
    }
}

/// Listing a table and reading it back gives the same table.
pub proof fn law_trim_table_lists_itself(table: TrimTable)
    ensures
        TrimTable::of(table.listed()) == table,
{
}

/// Layout-dependent level and front/back balance metadata for one object.
#[derive(Clone, Copy, Debug, PartialEq, Eq, Structural)]
pub struct ObjectTrim {
    pub warp_y: bool,
    pub disabled: bool,
    pub table: TrimTable,
}

/// The trim of an object whose metadata carries none: the default algorithm for
/// every layout.
pub open spec fn default_trim() -> ObjectTrim {
    uniform_trim(false, plain_settings(ObjectTrimMode::Default))
}

/// The same settings for every layout.
pub open spec fn uniform_trim(warp_y: bool, settings: ObjectTrimSettings) -> ObjectTrim {
    ObjectTrim { warp_y, disabled: false, table: TrimTable::all(settings) }
}

impl Default for ObjectTrim {
    fn default() -> (r: Self)
        ensures
            r == uniform_trim(false, plain_settings(ObjectTrimMode::Disabled)),
    {
        ObjectTrim::uniform(false, ObjectTrimSettings::plain(ObjectTrimMode::Disabled))
    }
}

impl ObjectTrim {
    pub fn default_algorithm() -> (r: Self)
        ensures
            r == default_trim(),
    {
        ObjectTrim::uniform(false, ObjectTrimSettings::plain(ObjectTrimMode::Default))
    }

    pub fn uniform(warp_y: bool, settings: ObjectTrimSettings) -> (r: Self)
        ensures
            r == uniform_trim(warp_y, settings),
    {
        ObjectTrim { warp_y, disabled: false, table: TrimTable::uniform(settings) }
    }

    pub fn from_configurations(warp_y: bool, configurations: &[ObjectTrimSettings]) -> (r: Self)
        requires
            configurations@.len() == TRIM_CONFIGURATIONS,
        ensures
            r == (ObjectTrim { warp_y, disabled: false, table: TrimTable::of(configurations@) }),
    {
        ObjectTrim { warp_y, disabled: false, table: TrimTable::from_list(configurations) }
    }

    /// The settings in force for a layout; a disabled object has none.
    pub open spec fn in_force(self, configuration: nat) -> ObjectTrimSettings {
        if self.disabled {
            plain_settings(ObjectTrimMode::Disabled)
        } else {
            self.table.listed()[configuration as int]
        }
    }

    pub fn settings(self, configuration: usize) -> (r: ObjectTrimSettings)
        requires
            configuration < TRIM_CONFIGURATIONS,
        ensures
            r == self.in_force(configuration as nat),
    {
        if self.disabled {
            ObjectTrimSettings::plain(ObjectTrimMode::Disabled)
        } else {
            self.table.entry(configuration)
        }
    }
}

/// Per-essence gain metadata for one signal of the intermediate spatial format.
#[derive(Clone, Copy, Debug, PartialEq, Eq, Structural)]
pub struct IsfState {
    pub source_channel: usize,
    pub active: bool,
    pub gain: Gain,
    pub trim: ObjectTrim,
}

/// Where an object is placed before screen and distance are applied.
#[derive(Clone, Copy, Debug, PartialEq, Eq, Structural)]
pub enum Placement {
    /// At the direction of a speaker.
    Speaker { speaker: Speaker },
    /// At a point of the room. A screen-anchored extent is scaled for the point
    /// `authored`, which lacks the finer position steps.
    Room { point: Point, authored: Point },
}

/// Renderer-owned state for one decoded audio object.
#[derive(Clone, Copy, Debug, PartialEq, Eq)]
pub struct ObjectState {
    /// Zero-based channel in the decoder's object-essence output.
    pub source_channel: usize,
    pub active: bool,
    /// Fixed channel-bed assignment, or `None` for a dynamic object.
    pub bed_speaker: Option<Speaker>,
    pub position: Placement,
    /// Set for an object that follows the screen.
    pub screen: Option<ScreenAnchor>,
    /// Authored distance beyond the room boundary, where the mix gave one.
    pub distance: Option<Distance>,
    pub gain: Gain,
    pub size: Extent,
    /// Constrain the object to the closest permitted virtual speaker.
    pub snap: bool,
    pub zone: ObjectZone,
    /// Whether the top/bottom speaker zone is permitted.
    pub elevation: bool,
    /// Horizontal energy spread.
    pub divergence: Scalar,
    pub trim: ObjectTrim,
}

/// One timestamped group of object-property updates.
#[derive(Clone, Debug, PartialEq, Eq)]
pub struct SpatialUpdate {
    pub sample_offset: usize,
    pub ramp_samples: usize,
    pub bed_speakers: Vec<Speaker>,
    pub isf: Vec<IsfState>,
    pub objects: Vec<ObjectState>,
}

/// What an update holds.
pub struct UpdateView {
    pub sample_offset: nat,
    pub ramp_samples: nat,
    pub bed_speakers: Seq<Speaker>,
    pub isf: Seq<IsfState>,
    pub objects: Seq<ObjectState>,
}

impl View for SpatialUpdate {
    type V = UpdateView;

    open spec fn view(&self) -> UpdateView {
        UpdateView {
            sample_offset: self.sample_offset as nat,
            ramp_samples: self.ramp_samples as nat,
            bed_speakers: self.bed_speakers@,
            isf: self.isf@,
            objects: self.objects@,
        }
    }
}

/// The views of a list of updates.
pub open spec fn update_views(updates: Seq<SpatialUpdate>) -> Seq<UpdateView> {
    updates.map_values(|u: SpatialUpdate| u@)
}

/// A product of ten equal factors.
pub open spec fn tenth_power(x: int) -> int {
    (x * x * x * x * x) * (x * x * x * x * x)
}

/// Distances grow evenly to the ear: from the second on, each is ten to the power of
/// so many tenths, in tenths and rounded; the first is the least beyond the room,
/// and the last is three steps behind the one before. So ten steps are tenfold.
pub proof fn law_distances_grow_by_equal_ratios(index: nat)
    requires
        index < 16,
    ensures
        ({
            let value = distance_tenths(index) as int;
            &&& index == 0 ==> value == 11
            &&& index == 1 ==> tenth_power(2 * value - 1) <= 1024 * 100_000_000_000 < tenth_power(
                2 * value + 1,
            )
            &&& index == 15 ==> tenth_power(2 * value - 1) <= 1024
                * 1_000_000_000_000_000_000_000_000_000 < tenth_power(2 * value + 1)
            &&& 1 <= index <= 4 ==> distance_tenths(index + 10) as int - 5 <= 10 * value
                <= distance_tenths(index + 10) as int + 5
            &&& index < 15 ==> value < distance_tenths(index + 1)
            &&& 1 <= index <= 11 ==> distance_tenths(index + 3) as int - 1 <= 2 * value
                <= distance_tenths(index + 3) as int + 1
            &&& index == 10 ==> value == 100
        }),
{
    assert(tenth_power(25) <= 1024 * 100_000_000_000 < tenth_power(27)) by (nonlinear_arith);
    assert(tenth_power(1001) <= 1024 * 1_000_000_000_000_000_000_000_000_000 < tenth_power(1003))
        by (nonlinear_arith);
}

/// Zones: there are six, each with its own index.
pub proof fn law_zones_are_counted_from_all(first: nat, second: nat)
    ensures
        ObjectZone::coded(first) is Some <==> first < 6,
        ObjectZone::coded(first) is Some && ObjectZone::coded(first) == ObjectZone::coded(second)
            ==> first == second,
        first == 0 <==> ObjectZone::coded(first) == Some(ObjectZone::All),
        first == 1 <==> ObjectZone::coded(first) == Some(ObjectZone::NoBack),
        first == 2 <==> ObjectZone::coded(first) == Some(ObjectZone::NoSide),
        first == 3 <==> ObjectZone::coded(first) == Some(ObjectZone::CentreAndBack),
        first == 4 <==> ObjectZone::coded(first) == Some(ObjectZone::Screen),
        first == 5 <==> ObjectZone::coded(first) == Some(ObjectZone::Surround),
{
}

/// A trim table is read by two counts: row by row for none, some and many overhead
/// speakers, and in each row for none, some and many listener-plane surrounds. What
/// was listed for a configuration is in force there unless the object's trim is
/// disabled, and settings for all layouts are in force in each.
pub proof fn law_trims_are_in_force_where_they_were_listed(
    settings: Seq<ObjectTrimSettings>,
    trim: ObjectTrim,
    configuration: nat,
    warp_y: bool,
    same: ObjectTrimSettings,
)
    requires
        settings.len() == 9,
        trim.table == TrimTable::of(settings),
        configuration < 9,
    ensures
        !trim.disabled ==> trim.in_force(configuration) == settings[configuration as int],
        trim.disabled ==> trim.in_force(configuration).mode is Disabled,
        uniform_trim(warp_y, same).in_force(configuration) == same,
        uniform_trim(warp_y, same).warp_y == warp_y,
        trim.table.bare == settings[0],
        trim.table.many_mid == settings[2],
        trim.table.some_mid_some_top == settings[4],
        trim.table.many_top == settings[6],
        trim.table.many_mid_many_top == settings[8],
        default_trim().in_force(configuration).mode is Default,
        !default_trim().warp_y,
{
}

} // verus!
