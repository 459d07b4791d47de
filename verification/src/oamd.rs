//! Object audio metadata: beds, objects, their motion and their trims.

use crate::bits::{bits_value, lemma_bits_value_bound, BitReader, Bits};
use crate::eac3::{MetadataPayload, PayloadView};
use crate::error::{AppError, Reason};
use crate::isf::{isf_size, IsfConfig};
use crate::object::{
    coded_distance, default_trim, distance_tenths, plain_settings, uniform_trim, update_views,
    Distance, Extent, Gain, IsfState, ObjectState, ObjectTrim, ObjectTrimMode, ObjectTrimSettings,
    ObjectZone, Placement, Point, Scalar, ScreenAnchor, SpatialUpdate, TrimTable, UpdateView,
    TRIM_CONFIGURATIONS,
};
use crate::speaker::Speaker;
use crate::text::{around, decimal, digits, text_around, text_pair};
use vstd::prelude::*;

verus! {

pub const OAMD_PAYLOAD_ID: u32 = 11;

pub const MAX_OBJECTS: usize = 64;

/// The part of an object's block that a fault was found in.
#[derive(Clone, Copy, Debug, PartialEq, Eq, Structural)]
pub enum BlockPart {
    Basic,
    Render,
}

/// The levels that only reduce.
#[derive(Clone, Copy, Debug, PartialEq, Eq, Structural)]
pub enum Reduction {
    Surround,
    Height,
}

/// Malformed or unsupported object metadata.
#[derive(Debug)]
pub enum OamdFault {
    PayloadId { found: u32 },
    AssignmentExceedsObjects,
    ElementPastPayload,
    ProgramObjects { described: usize, header: usize },
    BasicStatus,
    RenderStatus,
    InObject { object: usize, block: usize, part: BlockPart, cause: Box<AppError> },
    Version { version: usize },
    ObjectCount { count: usize },
    TwoLfe,
    AlternateData { id: usize },
    MultipleObjectElements,
    MultipleTrimElements,
    MultipleExtendedElements,
    ExtendedFirst,
    SampleOffsetCode,
    IsfIndex { index: usize },
    WarpMode { mode: usize },
    GlobalTrimMode,
    TrimCode { level: Reduction, code: usize },
    ZoneIndex { index: usize },
    SizeIndex,
    DivergenceCode,
    DivergenceMode { mode: usize },
}

impl OamdFault {
    pub open spec fn text(self) -> Seq<char>
        decreases self,
    {
        match self {
            OamdFault::PayloadId { found } => around(
                "invalid OAMD metadata: expected OAMD payload ID 11, found "@,
                found as nat,
                ""@,
            ),
            OamdFault::AssignmentExceedsObjects => {
                "invalid OAMD metadata: bed and ISF assignment exceeds the OAMD object count"@
            },
            OamdFault::ElementPastPayload => {
                "invalid OAMD metadata: OAMD element extends past its payload"@
            },
            OamdFault::ProgramObjects { described, header } => around(
                "invalid OAMD metadata: OAMD program assignment describes "@,
                described as nat,
                " objects, header describes "@,
            ) + digits(header as nat),
            OamdFault::BasicStatus => "invalid OAMD metadata: invalid OAMD basic-info status"@,
            OamdFault::RenderStatus => "invalid OAMD metadata: invalid OAMD render-info status"@,
            OamdFault::InObject { object, block, part, cause } => around(
                "invalid OAMD metadata: object "@,
                object as nat,
                ", block "@,
            ) + digits(block as nat) + (match part {
                BlockPart::Basic => ", basic info: "@,
                BlockPart::Render => ", render info: "@,
            }) + cause.text(),
            OamdFault::Version { version } => around(
                "unsupported OAMD version "@,
                version as nat,
                ""@,
            ),
            OamdFault::ObjectCount { count } => around(
                "unsupported OAMD object count "@,
                count as nat,
                "; supported range is 1..=64"@,
            ),
            OamdFault::TwoLfe => {
                "unsupported OAMD programs with two LFE labels but only one bypass LFE essence"@
            },
            OamdFault::AlternateData { id } => around(
                "unsupported OAMD alternate object-data type "@,
                id as nat,
                ""@,
            ),
            OamdFault::MultipleObjectElements => {
                "unsupported multiple OAMD object elements in one payload"@
            },
            OamdFault::MultipleTrimElements => {
                "unsupported multiple OAMD trim elements in one payload"@
            },
            OamdFault::MultipleExtendedElements => {
                "unsupported multiple OAMD extended-object elements in one payload"@
            },
            OamdFault::ExtendedFirst => {
                "unsupported OAMD extended-object element precedes its object element"@
            },
            OamdFault::SampleOffsetCode => "unsupported reserved OAMD sample-offset code"@,
            OamdFault::IsfIndex { index } => around(
                "unsupported reserved OAMD ISF index "@,
                index as nat,
                ""@,
            ),
            OamdFault::WarpMode { mode } => around(
                "unsupported reserved OAMD warp mode "@,
                mode as nat,
                ""@,
            ),
            OamdFault::GlobalTrimMode => "unsupported reserved OAMD global trim mode 3"@,
            OamdFault::TrimCode { level, code } => (match level {
                Reduction::Surround => "unsupported reserved OAMD surround trim code "@,
                Reduction::Height => "unsupported reserved OAMD height trim code "@,
            }) + digits(code as nat),
            OamdFault::ZoneIndex { index } => around(
                "unsupported reserved OAMD zone index "@,
                index as nat,
                ""@,
            ),
            OamdFault::SizeIndex => "unsupported reserved OAMD object size index 3"@,
            OamdFault::DivergenceCode => "unsupported reserved OAMD divergence code 0"@,
            OamdFault::DivergenceMode { mode } => around(
                "unsupported reserved OAMD divergence mode "@,
                mode as nat,
                ""@,
            ),
        }
    }

    /// Words the fault.
    pub fn message(&self) -> (r: String)
        ensures
            r@ == self.text(),
        decreases self,
    {
        match self {
            OamdFault::PayloadId { found } => text_around(
                "invalid OAMD metadata: expected OAMD payload ID 11, found ",
                *found as u64,
                "",
            ),
            OamdFault::AssignmentExceedsObjects => String::from_str(
                "invalid OAMD metadata: bed and ISF assignment exceeds the OAMD object count",
            ),
            OamdFault::ElementPastPayload => String::from_str(
                "invalid OAMD metadata: OAMD element extends past its payload",
            ),
            OamdFault::ProgramObjects { described, header } => {
                let mut r = text_around(
                    "invalid OAMD metadata: OAMD program assignment describes ",
                    *described as u64,
                    " objects, header describes ",
                );
                r.append(decimal(*header as u64).as_str());
                r
            },
            OamdFault::BasicStatus => String::from_str(
                "invalid OAMD metadata: invalid OAMD basic-info status",
            ),
            OamdFault::RenderStatus => String::from_str(
                "invalid OAMD metadata: invalid OAMD render-info status",
            ),
            OamdFault::InObject { object, block, part, cause } => {
                let mut r = text_around(
                    "invalid OAMD metadata: object ",
                    *object as u64,
                    ", block ",
                );
                r.append(decimal(*block as u64).as_str());
                match part {
                    BlockPart::Basic => r.append(", basic info: "),
                    BlockPart::Render => r.append(", render info: "),
                }
                let inner: &AppError = &**cause;
                r.append(inner.message().as_str());
                r
            },
            OamdFault::Version { version } => text_around(
                "unsupported OAMD version ",
                *version as u64,
                "",
            ),
            OamdFault::ObjectCount { count } => text_around(
                "unsupported OAMD object count ",
                *count as u64,
                "; supported range is 1..=64",
            ),
            OamdFault::TwoLfe => String::from_str(
                "unsupported OAMD programs with two LFE labels but only one bypass LFE essence",
            ),
            OamdFault::AlternateData { id } => text_around(
                "unsupported OAMD alternate object-data type ",
                *id as u64,
                "",
            ),
            OamdFault::MultipleObjectElements => String::from_str(
                "unsupported multiple OAMD object elements in one payload",
            ),
            OamdFault::MultipleTrimElements => String::from_str(
                "unsupported multiple OAMD trim elements in one payload",
            ),
            OamdFault::MultipleExtendedElements => String::from_str(
                "unsupported multiple OAMD extended-object elements in one payload",
            ),
            OamdFault::ExtendedFirst => String::from_str(
                "unsupported OAMD extended-object element precedes its object element",
            ),
            OamdFault::SampleOffsetCode => String::from_str(
                "unsupported reserved OAMD sample-offset code",
            ),
            OamdFault::IsfIndex { index } => text_around(
                "unsupported reserved OAMD ISF index ",
                *index as u64,
                "",
            ),
            OamdFault::WarpMode { mode } => text_around(
                "unsupported reserved OAMD warp mode ",
                *mode as u64,
                "",
            ),
            OamdFault::GlobalTrimMode => String::from_str(
                "unsupported reserved OAMD global trim mode 3",
            ),
            OamdFault::TrimCode { level, code } => {
                let spelled = decimal(*code as u64);
                match level {
                    Reduction::Surround => text_pair(
                        "unsupported reserved OAMD surround trim code ",
                        spelled.as_str(),
                    ),
                    Reduction::Height => text_pair(
                        "unsupported reserved OAMD height trim code ",
                        spelled.as_str(),
                    ),
                }
            },
            OamdFault::ZoneIndex { index } => text_around(
                "unsupported reserved OAMD zone index ",
                *index as u64,
                "",
            ),
            OamdFault::SizeIndex => String::from_str(
                "unsupported reserved OAMD object size index 3",
            ),
            OamdFault::DivergenceCode => String::from_str(
                "unsupported reserved OAMD divergence code 0",
            ),
            OamdFault::DivergenceMode { mode } => text_around(
                "unsupported reserved OAMD divergence mode ",
                *mode as u64,
                "",
            ),
        }
    }
}

pub open spec fn invalid_error(fault: OamdFault) -> AppError {
    AppError::Render(Reason::Oamd(fault))
}

pub open spec fn unsupported_error(fault: OamdFault) -> AppError {
    AppError::UnsupportedInput(Reason::Oamd(fault))
}

fn invalid(fault: OamdFault) -> (e: AppError)
    ensures
        e == invalid_error(fault),
{
    AppError::Render(Reason::Oamd(fault))
}

fn unsupported(fault: OamdFault) -> (e: AppError)
    ensures
        e == unsupported_error(fault),
{
    AppError::UnsupportedInput(Reason::Oamd(fault))
}

/// A coded room position: left to right and front to rear in 310ths of the room,
/// height in 75ths. The coarse steps are five of these units.
#[derive(Clone, Copy, Debug, PartialEq, Eq, Structural)]
pub struct RoomPosition {
    pub x: i16,
    pub y: i16,
    pub z: i16,
}

/// A value held between two bounds.
pub open spec fn clamped(value: int, low: int, high: int) -> int {
    if value < low { low } else if value > high { high } else { value }
}

fn clamp(value: i16, low: i16, high: i16) -> (r: i16)
    ensures
        r == clamped(value as int, low as int, high as int),
{
    if value < low { low } else if value > high { high } else { value }
}

impl RoomPosition {
    pub open spec fn wf(self) -> bool {
        0 <= self.x <= 310 && 0 <= self.y <= 310 && -75 <= self.z <= 75
    }

    /// The position moved by whole units and held inside the room.
    pub open spec fn moved(self, dx: int, dy: int, dz: int) -> RoomPosition {
        RoomPosition {
            x: clamped(self.x + dx, 0, 310) as i16,
            y: clamped(self.y + dy, 0, 310) as i16,
            z: clamped(self.z + dz, -75, 75) as i16,
        }
    }

    fn shifted(self, dx: i16, dy: i16, dz: i16) -> (r: Self)
        requires
            self.wf(),
            -100 <= dx <= 100,
            -100 <= dy <= 100,
            -100 <= dz <= 100,
        ensures
            r == self.moved(dx as int, dy as int, dz as int),
            r.wf(),
    {
        RoomPosition {
            x: clamp(self.x + dx, 0, 310),
            y: clamp(self.y + dy, 0, 310),
            z: clamp(self.z + dz, -75, 75),
        }
    }

    /// The position in renderer axes: right, forward and up, each from minus one
    /// to one.
    pub open spec fn renderer(self) -> Point {
        Point {
            x: Scalar::Ratio { numerator: (2 * self.x - 310) as i32, denominator: 310 },
            y: Scalar::Ratio { numerator: (310 - 2 * self.y) as i32, denominator: 310 },
            z: Scalar::Ratio { numerator: self.z as i32, denominator: 75 },
        }
    }

    pub fn point(self) -> (r: Point)
        ensures
            r == self.renderer(),
    {
        Point {
            x: Scalar::Ratio { numerator: 2 * self.x as i32 - 310, denominator: 310 },
            y: Scalar::Ratio { numerator: 310 - 2 * self.y as i32, denominator: 310 },
            z: Scalar::Ratio { numerator: self.z as i32, denominator: 75 },
        }
    }
}

/// The properties of an object that a later block or frame may reuse.
#[derive(Clone, Copy, Debug, PartialEq, Eq)]
pub struct ObjectProperties {
    pub position: RoomPosition,
    /// Width, depth and height in 31sts.
    pub width: u8,
    pub depth: u8,
    pub height: u8,
    pub gain: Gain,
    pub screen_anchored: bool,
    /// In eighths.
    pub screen_factor: u8,
    /// In quarters.
    pub depth_factor: u8,
    pub distance: Option<Distance>,
    pub snap: bool,
    pub zone: ObjectZone,
    pub elevation: bool,
    /// In millionths.
    pub divergence: u32,
}

pub open spec fn default_properties() -> ObjectProperties {
    ObjectProperties {
        position: RoomPosition { x: 155, y: 155, z: 0 },
        width: 0,
        depth: 0,
        height: 0,
        gain: Gain::Silent,
        screen_anchored: false,
        screen_factor: 0,
        depth_factor: 4,
        distance: None,
        snap: false,
        zone: ObjectZone::All,
        elevation: true,
        divergence: 0,
    }
}

impl Default for ObjectProperties {
    fn default() -> (r: Self)
        ensures
            r == default_properties(),
    {
        ObjectProperties {
            position: RoomPosition { x: 155, y: 155, z: 0 },
            width: 0,
            depth: 0,
            height: 0,
            gain: Gain::Silent,
            screen_anchored: false,
            screen_factor: 0,
            depth_factor: 4,
            distance: None,
            snap: false,
            zone: ObjectZone::All,
            elevation: true,
            divergence: 0,
        }
    }
}

impl ObjectProperties {
    pub open spec fn wf(self) -> bool {
        &&& self.position.wf()
        &&& self.width <= 31 && self.depth <= 31 && self.height <= 31
        &&& self.screen_factor <= 8
        &&& self.depth_factor <= 8
        &&& self.divergence <= 1_000_000
    }

    /// The default rendering, with gain and divergence kept.
    pub open spec fn rendering_reset(self) -> ObjectProperties {
        ObjectProperties {
            gain: self.gain,
            divergence: self.divergence,
            ..default_properties()
        }
    }

    fn reset_render(self) -> (r: Self)
        requires
            self.wf(),
        ensures
            r == self.rendering_reset(),
            r.wf(),
    {
        let mut r = ObjectProperties::default();
        r.gain = self.gain;
        r.divergence = self.divergence;
        r
    }

    /// The extent in room units.
    pub open spec fn extent(self) -> Extent {
        Extent {
            width: Scalar::Ratio { numerator: self.width as i32, denominator: 31 },
            depth: Scalar::Ratio { numerator: self.depth as i32, denominator: 31 },
            height: Scalar::Ratio { numerator: self.height as i32, denominator: 31 },
        }
    }

    /// The anchor of an object that follows the screen.
    pub open spec fn anchor(self) -> Option<ScreenAnchor> {
        if self.screen_anchored {
            Some(
                ScreenAnchor {
                    factor: Scalar::Ratio { numerator: self.screen_factor as i32, denominator: 8 },
                    depth: Scalar::Ratio { numerator: self.depth_factor as i32, denominator: 4 },
                },
            )
        } else {
            None
        }
    }
}

/// The level of an object: unity, silence, a coded number of decibels, or the
/// level of the object before it.
#[verifier::opaque]
pub open spec fn gain_info(b: Bits, previous: Gain) -> Result<(Gain, Bits), AppError> {
    match b.field(2) {
        Err(e) => Err(e),
        Ok((mode, rest)) => if mode == 0 {
            Ok((Gain::Decibels { db: 0 }, rest))
        } else if mode == 1 {
            Ok((Gain::Silent, rest))
        } else if mode == 2 {
            match rest.field(6) {
                Err(e) => Err(e),
                Ok((code, after)) => Ok(
                    (
                        Gain::Decibels {
                            db: (if code < 15 { 15 - code } else { 14 - code }) as i8,
                        },
                        after,
                    ),
                ),
            }
        } else {
            Ok((previous, rest))
        },
    }
}

/// A priority, which is passed over, unless a bit marks the default one.
#[verifier::opaque]
pub open spec fn priority_info(b: Bits) -> Result<Bits, AppError> {
    match b.flag() {
        Err(e) => Err(e),
        Ok((default, rest)) => if default {
            Ok(rest)
        } else {
            match rest.field(5) {
                Err(e) => Err(e),
                Ok((_, after)) => Ok(after),
            }
        },
    }
}

/// Gain and priority as a bit mask selects them. The gain is taken over before the
/// priority is read.
#[verifier::opaque]
pub open spec fn masked_basic_info(b: Bits, p: ObjectProperties, mask: nat, previous: Gain) -> (
    ObjectProperties,
    Result<Bits, AppError>,
) {
    match (if mask % 2 == 1 { gain_info(b, previous) } else { Ok((p.gain, b)) }) {
        Err(e) => (p, Err(e)),
        Ok((gain, rest)) => (
            ObjectProperties { gain, ..p },
            if mask / 2 == 1 { priority_info(rest) } else { Ok(rest) },
        ),
    }
}

/// The basic information of a block: none, all of it, the same as before, or
/// what a mask selects. Also what is left of the properties where reading fails.
#[verifier::opaque]
pub open spec fn basic_info(b: Bits, p: ObjectProperties, status: nat, previous: Gain) -> (
    ObjectProperties,
    Result<Bits, AppError>,
) {
    if status == 0 {
        (ObjectProperties { gain: Gain::Silent, ..p }, Ok(b))
    } else if status == 1 {
        masked_basic_info(b, p, 3, previous)
    } else if status == 2 {
        (p, Ok(b))
    } else if status == 3 {
        match b.field(2) {
            Err(e) => (p, Err(e)),
            Ok((mask, rest)) => masked_basic_info(rest, p, mask, previous),
        }
    } else {
        (p, Err(invalid_error(OamdFault::BasicStatus)))
    }
}

/// Whether a reader has come as far as it should, or failed as it should.
pub open spec fn reads(r: Result<(), AppError>, after: Bits, wanted: Result<Bits, AppError>) -> bool {
    match wanted {
        Err(e) => r == Err::<(), AppError>(e),
        Ok(rest) => r is Ok && after == rest,
    }
}

fn read_gain(bits: &mut BitReader, previous: Gain) -> (r: Result<Gain, AppError>)
    requires
        old(bits).wf(),
    ensures
        final(bits).wf(),
        match gain_info(old(bits)@, previous) {
            Err(e) => r == Err::<Gain, AppError>(e),
            Ok((gain, rest)) => r == Ok::<Gain, AppError>(gain) && final(bits)@ == rest,
        },
{
    reveal(gain_info);
    let mode: usize = bits.read_small(2)?;
    if mode == 0 {
        Ok(Gain::Decibels { db: 0 })
    } else if mode == 1 {
        Ok(Gain::Silent)
    } else if mode == 2 {
        let code: usize = bits.read_small(6)?;
        let db: i8 = if code < 15 { 15 - code as i8 } else { 14 - code as i8 };
        Ok(Gain::Decibels { db })
    } else {
        Ok(previous)
    }
}

fn read_priority(bits: &mut BitReader) -> (r: Result<(), AppError>)
    requires
        old(bits).wf(),
    ensures
        final(bits).wf(),
        match priority_info(old(bits)@) {
            Err(e) => r == Err::<(), AppError>(e),
            Ok(rest) => r is Ok && final(bits)@ == rest,
        },
{
    reveal(priority_info);
    let default: bool = bits.read_bit()?;
    if !default {
        let priority: usize = bits.read_small(5)?;
    }
    Ok(())
}

/// Reads the basic information of a block into an object's properties. What was
/// read before an error stays in them.
pub fn read_basic_info(
    bits: &mut BitReader,
    properties: &mut ObjectProperties,
    status: u8,
    previous_object_gain: Gain,
) -> (r: Result<(), AppError>)
    requires
        old(bits).wf(),
        old(properties).wf(),
    ensures
        final(bits).wf(),
        final(properties).wf(),
        ({
            let (left, read) = basic_info(
                old(bits)@,
                *old(properties),
                status as nat,
                previous_object_gain,
            );
            *final(properties) == left && reads(r, final(bits)@, read)
        }),
{
    reveal(basic_info);
    reveal(masked_basic_info);
    if status == 0 {
        properties.gain = Gain::Silent;
        return Ok(());
    }
    if status == 2 {
        return Ok(());
    }
    let mask: usize = if status == 1 {
        3
    } else if status == 3 {
        bits.read_small(2)?
    } else {
        return Err(invalid(OamdFault::BasicStatus));
    };
    if mask % 2 == 1 {
        let gain: Gain = read_gain(bits, previous_object_gain)?;
        properties.gain = gain;
    }
    if mask / 2 == 1 {
        read_priority(bits)?;
    }
    Ok(())
}

/// A position step: three signed coarse steps from the position before.
pub open spec fn differential_position(b: Bits, from: RoomPosition) -> (
    RoomPosition,
    Result<Bits, AppError>,
) {
    match b.signed(3) {
        Err(e) => (from, Err(e)),
        Ok((dx, b1)) => match b1.signed(3) {
            Err(e) => (from, Err(e)),
            Ok((dy, b2)) => match b2.signed(3) {
                Err(e) => (from, Err(e)),
                Ok((dz, rest)) => (from.moved(5 * dx, 5 * dy, 5 * dz), Ok(rest)),
            },
        },
    }
}

/// A position in coarse steps, with the height as sign and magnitude. The axes
/// are taken over one after the other.
pub open spec fn absolute_position(b: Bits, from: RoomPosition) -> (
    RoomPosition,
    Result<Bits, AppError>,
) {
    match b.field(6) {
        Err(e) => (from, Err(e)),
        Ok((x, b1)) => {
            let across = RoomPosition { x: clamped(5 * x as int, 0, 310) as i16, ..from };
            match b1.field(6) {
                Err(e) => (across, Err(e)),
                Ok((y, b2)) => {
                    let level = RoomPosition { y: clamped(5 * y as int, 0, 310) as i16, ..across };
                    match b2.flag() {
                        Err(e) => (level, Err(e)),
                        Ok((above, b3)) => match b3.field(4) {
                            Err(e) => (level, Err(e)),
                            Ok((z, rest)) => (
                                RoomPosition {
                                    z: (if above { 5 * z as int } else { -5 * z as int }) as i16,
                                    ..level
                                },
                                Ok(rest),
                            ),
                        },
                    }
                },
            }
        },
    }
}

/// A distance beyond the room boundary, where one is given.
pub open spec fn distance_info(b: Bits) -> Result<(Option<Distance>, Bits), AppError> {
    match b.flag() {
        Err(e) => Err(e),
        Ok((specified, b1)) => if !specified {
            Ok((None, b1))
        } else {
            match b1.flag() {
                Err(e) => Err(e),
                Ok((infinite, b2)) => if infinite {
                    Ok((Some(Distance::Infinite), b2))
                } else {
                    match b2.field(4) {
                        Err(e) => Err(e),
                        Ok((index, rest)) => Ok(
                            (Some(Distance::Tenths { value: distance_tenths(index) }), rest),
                        ),
                    }
                },
            }
        },
    }
}

/// Position and distance. Only a block after the first may step from the
/// position before it.
#[verifier::opaque]
pub open spec fn position_info(b: Bits, p: ObjectProperties, present: bool, later_block: bool) -> (
    ObjectProperties,
    Result<Bits, AppError>,
) {
    if !present {
        (p, Ok(b))
    } else {
        match (if later_block { b.flag() } else { Ok((false, b)) }) {
            Err(e) => (p, Err(e)),
            Ok((differential, b1)) => {
                let (position, read) = if differential {
                    differential_position(b1, p.position)
                } else {
                    absolute_position(b1, p.position)
                };
                let placed = ObjectProperties { position, ..p };
                match read {
                    Err(e) => (placed, Err(e)),
                    Ok(b2) => match distance_info(b2) {
                        Err(e) => (placed, Err(e)),
                        Ok((distance, rest)) => (
                            ObjectProperties { distance, ..placed },
                            Ok(rest),
                        ),
                    },
                }
            },
        }
    }
}

/// The speaker zones an object may use.
#[verifier::opaque]
pub open spec fn zone_info(b: Bits, p: ObjectProperties, present: bool) -> (
    ObjectProperties,
    Result<Bits, AppError>,
) {
    if !present {
        (p, Ok(b))
    } else {
        match b.field(3) {
            Err(e) => (p, Err(e)),
            Ok((index, b1)) => match ObjectZone::coded(index) {
                None => (
                    p,
                    Err(unsupported_error(OamdFault::ZoneIndex { index: index as usize })),
                ),
                Some(zone) => match b1.flag() {
                    Err(e) => (ObjectProperties { zone, ..p }, Err(e)),
                    Ok((elevation, rest)) => (
                        ObjectProperties { zone, elevation, ..p },
                        Ok(rest),
                    ),
                },
            },
        }
    }
}

/// The extent of an object: none, one size for all axes, or one per axis.
#[verifier::opaque]
pub open spec fn size_info(b: Bits, p: ObjectProperties, present: bool) -> (
    ObjectProperties,
    Result<Bits, AppError>,
) {
    if !present {
        (p, Ok(b))
    } else {
        match b.field(2) {
            Err(e) => (p, Err(e)),
            Ok((mode, b1)) => if mode == 0 {
                (ObjectProperties { width: 0, depth: 0, height: 0, ..p }, Ok(b1))
            } else if mode == 1 {
                match b1.field(5) {
                    Err(e) => (p, Err(e)),
                    Ok((size, rest)) => (
                        ObjectProperties {
                            width: size as u8,
                            depth: size as u8,
                            height: size as u8,
                            ..p
                        },
                        Ok(rest),
                    ),
                }
            } else if mode == 2 {
                match b1.field(5) {
                    Err(e) => (p, Err(e)),
                    Ok((width, b2)) => match b2.field(5) {
                        Err(e) => (p, Err(e)),
                        Ok((depth, b3)) => match b3.field(5) {
                            Err(e) => (p, Err(e)),
                            Ok((height, rest)) => (
                                ObjectProperties {
                                    width: width as u8,
                                    depth: depth as u8,
                                    height: height as u8,
                                    ..p
                                },
                                Ok(rest),
                            ),
                        },
                    },
                }
            } else {
                (p, Err(unsupported_error(OamdFault::SizeIndex)))
            },
        }
    }
}

/// The four depth factors, in quarters.
pub open spec fn depth_quarters(index: nat) -> u8 {
    if index == 0 { 1 } else if index == 1 { 2 } else if index == 2 { 4 } else { 8 }
}

/// How an object follows the screen, if it does.
#[verifier::opaque]
pub open spec fn screen_info(b: Bits, p: ObjectProperties, present: bool) -> (
    ObjectProperties,
    Result<Bits, AppError>,
) {
    if !present {
        (p, Ok(b))
    } else {
        match b.flag() {
            Err(e) => (p, Err(e)),
            Ok((anchored, b1)) => if !anchored {
                (
                    ObjectProperties {
                        screen_anchored: false,
                        screen_factor: 0,
                        depth_factor: 4,
                        ..p
                    },
                    Ok(b1),
                )
            } else {
                let held = ObjectProperties { screen_anchored: true, ..p };
                match b1.field(3) {
                    Err(e) => (held, Err(e)),
                    Ok((factor, b2)) => {
                        let scaled = ObjectProperties { screen_factor: (factor + 1) as u8, ..held };
                        match b2.field(2) {
                            Err(e) => (scaled, Err(e)),
                            Ok((depth, rest)) => (
                                ObjectProperties { depth_factor: depth_quarters(depth), ..scaled },
                                Ok(rest),
                            ),
                        }
                    },
                }
            },
        }
    }
}

/// Position, zone, extent and screen as a bit mask selects them, and whether the
/// object snaps. Each is taken over before the next is read.
#[verifier::opaque]
pub open spec fn masked_render_info(b: Bits, p: ObjectProperties, mask: nat, later_block: bool) -> (
    ObjectProperties,
    Result<Bits, AppError>,
) {
    let (p1, position) = position_info(b, p, mask % 2 == 1, later_block);
    match position {
        Err(e) => (p1, Err(e)),
        Ok(b1) => {
            let (p2, zone) = zone_info(b1, p1, mask / 2 % 2 == 1);
            match zone {
                Err(e) => (p2, Err(e)),
                Ok(b2) => {
                    let (p3, size) = size_info(b2, p2, mask / 4 % 2 == 1);
                    match size {
                        Err(e) => (p3, Err(e)),
                        Ok(b3) => {
                            let (p4, screen) = screen_info(b3, p3, mask / 8 % 2 == 1);
                            match screen {
                                Err(e) => (p4, Err(e)),
                                Ok(b4) => match b4.flag() {
                                    Err(e) => (p4, Err(e)),
                                    Ok((snap, rest)) => (
                                        ObjectProperties { snap, ..p4 },
                                        Ok(rest),
                                    ),
                                },
                            }
                        },
                    }
                },
            }
        },
    }
}

/// The rendering information of a block: the default one, all of it, the same as
/// before, or what a mask selects. Also what is left of the properties where
/// reading fails.
#[verifier::opaque]
pub open spec fn render_info(b: Bits, p: ObjectProperties, status: nat, block: nat) -> (
    ObjectProperties,
    Result<Bits, AppError>,
) {
    if status == 0 {
        (p.rendering_reset(), Ok(b))
    } else if status == 1 {
        masked_render_info(b, p, 15, block != 0)
    } else if status == 2 {
        (p, Ok(b))
    } else if status == 3 {
        match b.field(4) {
            Err(e) => (p, Err(e)),
            Ok((mask, rest)) => masked_render_info(rest, p, mask, block != 0),
        }
    } else {
        (p, Err(invalid_error(OamdFault::RenderStatus)))
    }
}

fn read_coarse_step(bits: &mut BitReader) -> (r: Result<i16, AppError>)
    requires
        old(bits).wf(),
    ensures
        final(bits).wf(),
        match old(bits)@.signed(3) {
            Err(e) => r == Err::<i16, AppError>(e),
            Ok((step, rest)) => r == Ok::<i16, AppError>((5 * step) as i16) && -20 <= 5 * step <= 15
                && final(bits)@ == rest,
        },
{
    proof {
        vstd::arithmetic::power2::lemma2_to64();
        crate::bits::lemma_bits_value_bound(bits@.bytes, bits@.position as int, 3);
    }
    let step: i32 = bits.read_signed(3)?;
    Ok((5 * step) as i16)
}

fn read_differential_position(bits: &mut BitReader, position: &mut RoomPosition) -> (r: Result<
    (),
    AppError,
>)
    requires
        old(bits).wf(),
        old(position).wf(),
    ensures
        final(bits).wf(),
        final(position).wf(),
        ({
            let (left, read) = differential_position(old(bits)@, *old(position));
            *final(position) == left && reads(r, final(bits)@, read)
        }),
{
    let dx: i16 = read_coarse_step(bits)?;
    let dy: i16 = read_coarse_step(bits)?;
    let dz: i16 = read_coarse_step(bits)?;
    *position = position.shifted(dx, dy, dz);
    Ok(())
}

fn read_absolute_position(bits: &mut BitReader, position: &mut RoomPosition) -> (r: Result<
    (),
    AppError,
>)
    requires
        old(bits).wf(),
        old(position).wf(),
    ensures
        final(bits).wf(),
        final(position).wf(),
        ({
            let (left, read) = absolute_position(old(bits)@, *old(position));
            *final(position) == left && reads(r, final(bits)@, read)
        }),
{
    let x: usize = bits.read_small(6)?;
    position.x = clamp(5 * x as i16, 0, 310);
    let y: usize = bits.read_small(6)?;
    position.y = clamp(5 * y as i16, 0, 310);
    let above: bool = bits.read_bit()?;
    let z: usize = bits.read_small(4)?;
    let height: i16 = 5 * z as i16;
    position.z = if above { height } else { -height };
    Ok(())
}

fn read_distance(bits: &mut BitReader) -> (r: Result<Option<Distance>, AppError>)
    requires
        old(bits).wf(),
    ensures
        final(bits).wf(),
        match distance_info(old(bits)@) {
            Err(e) => r == Err::<Option<Distance>, AppError>(e),
            Ok((distance, rest)) => r == Ok::<Option<Distance>, AppError>(distance)
                && final(bits)@ == rest,
        },
{
    let specified: bool = bits.read_bit()?;
    if !specified {
        return Ok(None);
    }
    let infinite: bool = bits.read_bit()?;
    if infinite {
        return Ok(Some(Distance::Infinite));
    }
    let index: usize = bits.read_small(4)?;
    Ok(Some(Distance::Tenths { value: coded_distance(index) }))
}

fn read_position(
    bits: &mut BitReader,
    p: &mut ObjectProperties,
    present: bool,
    later_block: bool,
) -> (r: Result<(), AppError>)
    requires
        old(bits).wf(),
        old(p).wf(),
    ensures
        final(bits).wf(),
        final(p).wf(),
        ({
            let (left, read) = position_info(old(bits)@, *old(p), present, later_block);
            *final(p) == left && reads(r, final(bits)@, read)
        }),
{
    reveal(position_info);
    if !present {
        return Ok(());
    }
    let differential: bool = if later_block { bits.read_bit()? } else { false };
    let mut position: RoomPosition = p.position;
    let read: Result<(), AppError> = if differential {
        read_differential_position(bits, &mut position)
    } else {
        read_absolute_position(bits, &mut position)
    };
    p.position = position;
    match read {
        Err(e) => return Err(e),
        Ok(_) => {},
    }
    let distance: Option<Distance> = read_distance(bits)?;
    p.distance = distance;
    Ok(())
}

fn read_zone(bits: &mut BitReader, p: &mut ObjectProperties, present: bool) -> (r: Result<(), AppError>)
    requires
        old(bits).wf(),
        old(p).wf(),
    ensures
        final(bits).wf(),
        final(p).wf(),
        ({
            let (left, read) = zone_info(old(bits)@, *old(p), present);
            *final(p) == left && reads(r, final(bits)@, read)
        }),
{
    reveal(zone_info);
    if !present {
        return Ok(());
    }
    let index: usize = bits.read_small(3)?;
    match ObjectZone::from_index(index as u8) {
        None => Err(unsupported(OamdFault::ZoneIndex { index })),
        Some(zone) => {
            p.zone = zone;
            let elevation: bool = bits.read_bit()?;
            p.elevation = elevation;
            Ok(())
        },
    }
}

fn read_size(bits: &mut BitReader, p: &mut ObjectProperties, present: bool) -> (r: Result<(), AppError>)
    requires
        old(bits).wf(),
        old(p).wf(),
    ensures
        final(bits).wf(),
        final(p).wf(),
        ({
            let (left, read) = size_info(old(bits)@, *old(p), present);
            *final(p) == left && reads(r, final(bits)@, read)
        }),
{
    reveal(size_info);
    if !present {
        return Ok(());
    }
    let mode: usize = bits.read_small(2)?;
    if mode == 0 {
        *p = ObjectProperties { width: 0, depth: 0, height: 0, ..*p };
        Ok(())
    } else if mode == 1 {
        let size: usize = bits.read_small(5)?;
        *p = ObjectProperties { width: size as u8, depth: size as u8, height: size as u8, ..*p };
        Ok(())
    } else if mode == 2 {
        let width: usize = bits.read_small(5)?;
        let depth: usize = bits.read_small(5)?;
        let height: usize = bits.read_small(5)?;
        *p = ObjectProperties {
            width: width as u8,
            depth: depth as u8,
            height: height as u8,
            ..*p
        };
        Ok(())
    } else {
        Err(unsupported(OamdFault::SizeIndex))
    }
}

fn read_screen(bits: &mut BitReader, p: &mut ObjectProperties, present: bool) -> (r: Result<(), AppError>)
    requires
        old(bits).wf(),
        old(p).wf(),
    ensures
        final(bits).wf(),
        final(p).wf(),
        ({
            let (left, read) = screen_info(old(bits)@, *old(p), present);
            *final(p) == left && reads(r, final(bits)@, read)
        }),
{
    reveal(screen_info);
    if !present {
        return Ok(());
    }
    let anchored: bool = bits.read_bit()?;
    if !anchored {
        *p = ObjectProperties { screen_anchored: false, screen_factor: 0, depth_factor: 4, ..*p };
        return Ok(());
    }
    p.screen_anchored = true;
    let factor: usize = bits.read_small(3)?;
    p.screen_factor = factor as u8 + 1;
    let depth: usize = bits.read_small(2)?;
    p.depth_factor = if depth == 0 { 1 } else if depth == 1 { 2 } else if depth == 2 { 4 } else { 8 };
    Ok(())
}

fn read_masked_render_info(
    bits: &mut BitReader,
    p: &mut ObjectProperties,
    mask: usize,
    later_block: bool,
) -> (r: Result<(), AppError>)
    requires
        old(bits).wf(),
        old(p).wf(),
    ensures
        final(bits).wf(),
        final(p).wf(),
        ({
            let (left, read) = masked_render_info(old(bits)@, *old(p), mask as nat, later_block);
            *final(p) == left && reads(r, final(bits)@, read)
        }),
{
    reveal(masked_render_info);
    read_position(bits, p, mask % 2 == 1, later_block)?;
    read_zone(bits, p, mask / 2 % 2 == 1)?;
    read_size(bits, p, mask / 4 % 2 == 1)?;
    read_screen(bits, p, mask / 8 % 2 == 1)?;
    let snap: bool = bits.read_bit()?;
    p.snap = snap;
    Ok(())
}

/// Reads the rendering information of a block into an object's properties. What
/// was read before an error stays in them.
pub fn read_render_info(
    bits: &mut BitReader,
    properties: &mut ObjectProperties,
    status: u8,
    block_index: usize,
) -> (r: Result<(), AppError>)
    requires
        old(bits).wf(),
        old(properties).wf(),
    ensures
        final(bits).wf(),
        final(properties).wf(),
        ({
            let (left, read) = render_info(
                old(bits)@,
                *old(properties),
                status as nat,
                block_index as nat,
            );
            *final(properties) == left && reads(r, final(bits)@, read)
        }),
{
    reveal(render_info);
    if status == 0 {
        *properties = properties.reset_render();
        return Ok(());
    }
    if status == 2 {
        return Ok(());
    }
    let mask: usize = if status == 1 {
        15
    } else if status == 3 {
        bits.read_small(4)?
    } else {
        return Err(invalid(OamdFault::RenderStatus));
    };
    read_masked_render_info(bits, properties, mask, block_index != 0)
}

/// The divergences of the coded list, in millionths. The first code is reserved.
pub open spec fn divergence_codes() -> Seq<u32> {
    seq![
        0, 0, 4026, 7160, 12731, 20173, 28485, 40210,
        50582, 63601, 79914, 100299, 125666, 140532, 157027, 175282,
        195417, 217536, 241718, 268002, 296377, 326766, 359017, 392895,
        428081, 464184, 500755, 537316, 573389, 608529, 642346, 674524,
        704833, 733123, 759320, 783416, 805451, 825506, 843686, 860112,
        874914, 888222, 900168, 910875, 920461, 929035, 936698, 943544,
        949656, 955112, 959980, 964322, 968195, 974729, 979923, 984050,
        987330, 989935, 992874, 994955, 996817, 998210, 998993, 1000000,
    ]
}

/// The four divergences of the short table, in millionths.
pub open spec fn divergence_table(index: nat) -> u32 {
    if index == 0 { 500_755 } else if index == 1 { 608_529 } else if index == 2 { 704_833 } else {
        1_000_000
    }
}

/// The horizontal spread of an object, in millionths: none, an entry of the short
/// table, the spread before it, or an entry of the coded list.
#[verifier::opaque]
pub open spec fn divergence_info(b: Bits, previous: u32) -> Result<(u32, Bits), AppError> {
    match b.flag() {
        Err(e) => Err(e),
        Ok((present, b1)) => if !present {
            Ok((0, b1))
        } else {
            match b1.field(2) {
                Err(e) => Err(e),
                Ok((mode, b2)) => if mode == 0 {
                    match b2.field(2) {
                        Err(e) => Err(e),
                        Ok((index, rest)) => Ok((divergence_table(index), rest)),
                    }
                } else if mode == 1 {
                    Ok((previous, b2))
                } else if mode == 2 {
                    match b2.field(6) {
                        Err(e) => Err(e),
                        Ok((code, rest)) => if code == 0 {
                            Err(unsupported_error(OamdFault::DivergenceCode))
                        } else {
                            Ok((divergence_codes()[code as int], rest))
                        },
                    }
                } else {
                    Err(unsupported_error(OamdFault::DivergenceMode { mode: mode as usize }))
                },
            }
        },
    }
}

fn coded_divergence(code: usize) -> (r: u32)
    requires
        code < 64,
    ensures
        r == divergence_codes()[code as int],
        r <= 1_000_000,
{
    let table: [u32; 64] = [
        0, 0, 4026, 7160, 12731, 20173, 28485, 40210,
        50582, 63601, 79914, 100299, 125666, 140532, 157027, 175282,
        195417, 217536, 241718, 268002, 296377, 326766, 359017, 392895,
        428081, 464184, 500755, 537316, 573389, 608529, 642346, 674524,
        704833, 733123, 759320, 783416, 805451, 825506, 843686, 860112,
        874914, 888222, 900168, 910875, 920461, 929035, 936698, 943544,
        949656, 955112, 959980, 964322, 968195, 974729, 979923, 984050,
        987330, 989935, 992874, 994955, 996817, 998210, 998993, 1000000,
    ];
    assert(table@ =~= divergence_codes());
    table[code]
}

/// Reads the horizontal spread of an object.
pub fn read_divergence(bits: &mut BitReader, previous: u32) -> (r: Result<u32, AppError>)
    requires
        old(bits).wf(),
        previous <= 1_000_000,
    ensures
        final(bits).wf(),
        match divergence_info(old(bits)@, previous) {
            Err(e) => r == Err::<u32, AppError>(e),
            Ok((divergence, rest)) => r == Ok::<u32, AppError>(divergence) && divergence
                <= 1_000_000 && final(bits)@ == rest,
        },
{
    reveal(divergence_info);
    let present: bool = bits.read_bit()?;
    if !present {
        return Ok(0);
    }
    let mode: usize = bits.read_small(2)?;
    if mode == 0 {
        let index: usize = bits.read_small(2)?;
        if index == 0 {
            Ok(500_755)
        } else if index == 1 {
            Ok(608_529)
        } else if index == 2 {
            Ok(704_833)
        } else {
            Ok(1_000_000)
        }
    } else if mode == 1 {
        Ok(previous)
    } else if mode == 2 {
        let code: usize = bits.read_small(6)?;
        if code == 0 {
            return Err(unsupported(OamdFault::DivergenceCode));
        }
        Ok(coded_divergence(code))
    } else {
        Err(unsupported(OamdFault::DivergenceMode { mode }))
    }
}

/// The speakers of one bit of a standard bed mask. The bits count from the last
/// one transmitted, which keeps the order of the bed objects.
pub open spec fn standard_labels(bit: nat) -> Seq<Speaker> {
    if bit == 0 {
        seq![Speaker::FrontLeft, Speaker::FrontRight]
    } else if bit == 1 {
        seq![Speaker::FrontCenter]
    } else if bit == 2 {
        seq![Speaker::Lfe]
    } else if bit == 3 {
        seq![Speaker::SideLeft, Speaker::SideRight]
    } else if bit == 4 {
        seq![Speaker::RearLeft, Speaker::RearRight]
    } else if bit == 5 {
        seq![Speaker::TopFrontLeft, Speaker::TopFrontRight]
    } else if bit == 6 {
        seq![Speaker::TopSideLeft, Speaker::TopSideRight]
    } else if bit == 7 {
        seq![Speaker::TopRearLeft, Speaker::TopRearRight]
    } else if bit == 8 {
        seq![Speaker::WideLeft, Speaker::WideRight]
    } else {
        seq![Speaker::Lfe]
    }
}

/// The speakers of a standard bed mask, from `bit` on: `mask` holds the bits not
/// looked at yet.
pub open spec fn standard_bed(mask: nat, bit: nat) -> Seq<Speaker>
    decreases 10 - bit,
{
    if bit >= 10 {
        seq![]
    } else {
        (if mask % 2 == 1 { standard_labels(bit) } else { seq![] }) + standard_bed(mask / 2, bit + 1)
    }
}

/// The speakers of the seventeen bits of a nonstandard bed mask.
pub open spec fn nonstandard_labels() -> Seq<Speaker> {
    seq![
        Speaker::FrontLeft,
        Speaker::FrontRight,
        Speaker::FrontCenter,
        Speaker::Lfe,
        Speaker::SideLeft,
        Speaker::SideRight,
        Speaker::RearLeft,
        Speaker::RearRight,
        Speaker::TopFrontLeft,
        Speaker::TopFrontRight,
        Speaker::TopSideLeft,
        Speaker::TopSideRight,
        Speaker::TopRearLeft,
        Speaker::TopRearRight,
        Speaker::WideLeft,
        Speaker::WideRight,
        Speaker::Lfe,
    ]
}

/// The speakers of a nonstandard bed mask, from `bit` on.
pub open spec fn nonstandard_bed(mask: nat, bit: nat) -> Seq<Speaker>
    decreases 17 - bit,
{
    if bit >= 17 {
        seq![]
    } else {
        (if mask % 2 == 1 { seq![nonstandard_labels()[bit as int]] } else { seq![] })
            + nonstandard_bed(mask / 2, bit + 1)
    }
}

/// Appends the speakers of a standard bed mask.
pub fn append_standard_bed(mask: u16, result: &mut Vec<Speaker>)
    ensures
        final(result)@ == old(result)@ + standard_bed(mask as nat, 0),
        final(result)@.len() <= old(result)@.len() + 20,
{
    let mut rest: u16 = mask;
    let mut bit: usize = 0;
    while bit < 10
        invariant
            bit <= 10,
            result@ + standard_bed(rest as nat, bit as nat) =~= old(result)@ + standard_bed(
                mask as nat,
                0,
            ),
            result@.len() <= old(result)@.len() + 2 * bit,
        decreases 10 - bit,
    {
        let ghost before = result@;
        if rest % 2 == 1 {
            match bit {
                0 => {
                    result.push(Speaker::FrontLeft);
                    result.push(Speaker::FrontRight);
                },
                1 => result.push(Speaker::FrontCenter),
                2 => result.push(Speaker::Lfe),
                3 => {
                    result.push(Speaker::SideLeft);
                    result.push(Speaker::SideRight);
                },
                4 => {
                    result.push(Speaker::RearLeft);
                    result.push(Speaker::RearRight);
                },
                5 => {
                    result.push(Speaker::TopFrontLeft);
                    result.push(Speaker::TopFrontRight);
                },
                6 => {
                    result.push(Speaker::TopSideLeft);
                    result.push(Speaker::TopSideRight);
                },
                7 => {
                    result.push(Speaker::TopRearLeft);
                    result.push(Speaker::TopRearRight);
                },
                8 => {
                    result.push(Speaker::WideLeft);
                    result.push(Speaker::WideRight);
                },
                _ => result.push(Speaker::Lfe),
            }
            assert(result@ =~= before + standard_labels(bit as nat));
        } else {
            assert(result@ =~= before + Seq::<Speaker>::empty());
        }
        proof {
            let labels = if rest % 2 == 1 { standard_labels(bit as nat) } else { seq![] };
            let others = standard_bed((rest / 2) as nat, (bit + 1) as nat);
            assert((before + labels) + others =~= before + (labels + others));
        }
        rest = rest / 2;
        bit = bit + 1;
    }
    assert(result@ + standard_bed(rest as nat, bit as nat) =~= result@);
}

/// Appends the speakers of a nonstandard bed mask.
pub fn append_nonstandard_bed(mask: u32, result: &mut Vec<Speaker>)
    ensures
        final(result)@ == old(result)@ + nonstandard_bed(mask as nat, 0),
        final(result)@.len() <= old(result)@.len() + 17,
{
    let labels: [Speaker; 17] = [
        Speaker::FrontLeft,
        Speaker::FrontRight,
        Speaker::FrontCenter,
        Speaker::Lfe,
        Speaker::SideLeft,
        Speaker::SideRight,
        Speaker::RearLeft,
        Speaker::RearRight,
        Speaker::TopFrontLeft,
        Speaker::TopFrontRight,
        Speaker::TopSideLeft,
        Speaker::TopSideRight,
        Speaker::TopRearLeft,
        Speaker::TopRearRight,
        Speaker::WideLeft,
        Speaker::WideRight,
        Speaker::Lfe,
    ];
    let mut rest: u32 = mask;
    let mut bit: usize = 0;
    assert(labels@ =~= nonstandard_labels());
    while bit < 17
        invariant
            bit <= 17,
            labels@ == nonstandard_labels(),
            result@ + nonstandard_bed(rest as nat, bit as nat) =~= old(result)@ + nonstandard_bed(
                mask as nat,
                0,
            ),
            result@.len() <= old(result)@.len() + bit,
        decreases 17 - bit,
    {
        let ghost before = result@;
        if rest % 2 == 1 {
            result.push(labels[bit]);
        }
        proof {
            let label = if rest % 2 == 1 {
                seq![nonstandard_labels()[bit as int]]
            } else {
                seq![]
            };
            let others = nonstandard_bed((rest / 2) as nat, (bit + 1) as nat);
            assert(result@ =~= before + label);
            assert((before + label) + others =~= before + (label + others));
        }
        rest = rest / 2;
        bit = bit + 1;
    }
    assert(result@ + nonstandard_bed(rest as nat, bit as nat) =~= result@);
}

/// One bed instance: the low-frequency channel alone, or a mask of speakers.
#[verifier::opaque]
pub open spec fn bed_instance(b: Bits) -> Result<(Seq<Speaker>, Bits), AppError> {
    match b.flag() {
        Err(e) => Err(e),
        Ok((lfe_only, b1)) => if lfe_only {
            Ok((seq![Speaker::Lfe], b1))
        } else {
            match b1.flag() {
                Err(e) => Err(e),
                Ok((standard, b2)) => match b2.field(if standard { 10 } else { 17 }) {
                    Err(e) => Err(e),
                    Ok((mask, rest)) => Ok(
                        (
                            if standard {
                                standard_bed(mask, 0)
                            } else {
                                nonstandard_bed(mask, 0)
                            },
                            rest,
                        ),
                    ),
                },
            }
        },
    }
}

/// The speakers of `count` bed instances.
pub open spec fn bed_instances(b: Bits, count: nat) -> Result<(Seq<Speaker>, Bits), AppError>
    decreases count,
{
    if count == 0 {
        Ok((seq![], b))
    } else {
        match bed_instance(b) {
            Err(e) => Err(e),
            Ok((first, b1)) => match bed_instances(b1, (count - 1) as nat) {
                Err(e) => Err(e),
                Ok((others, rest)) => Ok((first + others, rest)),
            },
        }
    }
}

/// The bed part of a program assignment.
#[verifier::opaque]
pub open spec fn bed_assignment(b: Bits, present: bool) -> Result<(Seq<Speaker>, Bits), AppError> {
    if !present {
        Ok((seq![], b))
    } else {
        match b.field(1) {
            Err(e) => Err(e),
            Ok((_, b1)) => match b1.flag() {
                Err(e) => Err(e),
                Ok((several, b2)) => if !several {
                    bed_instances(b2, 1)
                } else {
                    match b2.field(3) {
                        Err(e) => Err(e),
                        Ok((more, b3)) => bed_instances(b3, more + 2),
                    }
                },
            },
        }
    }
}

/// The numbers of signals of the intermediate spatial format, by index.
pub open spec fn isf_objects(index: nat) -> Option<usize> {
    if index == 0 {
        Some(4)
    } else if index == 1 {
        Some(8)
    } else if index == 2 {
        Some(10)
    } else if index == 3 {
        Some(14)
    } else if index == 4 {
        Some(15)
    } else if index == 5 {
        Some(30)
    } else {
        None
    }
}

/// The intermediate spatial format part of a program assignment.
#[verifier::opaque]
pub open spec fn isf_assignment(b: Bits, present: bool) -> Result<(usize, Bits), AppError> {
    if !present {
        Ok((0, b))
    } else {
        match b.field(3) {
            Err(e) => Err(e),
            Ok((index, rest)) => match isf_objects(index) {
                None => Err(unsupported_error(OamdFault::IsfIndex { index: index as usize })),
                Some(count) => Ok((count, rest)),
            },
        }
    }
}

/// A count of up to thirty-one, or of thirty-one and seven more bits.
pub open spec fn escaped_count(b: Bits) -> Result<(nat, Bits), AppError> {
    match b.field(5) {
        Err(e) => Err(e),
        Ok((count, b1)) => if count != 31 {
            Ok((count, b1))
        } else {
            match b1.field(7) {
                Err(e) => Err(e),
                Ok((more, rest)) => Ok((31 + more, rest)),
            }
        },
    }
}

/// The dynamic-object part of a program assignment, which has to complete the
/// object count of the header.
#[verifier::opaque]
pub open spec fn dynamic_assignment(b: Bits, present: bool, fixed: nat, object_count: nat) -> Result<
    Bits,
    AppError,
> {
    if !present {
        Ok(b)
    } else {
        match escaped_count(b) {
            Err(e) => Err(e),
            Ok((count, rest)) => if fixed + count + 1 != object_count {
                Err(
                    invalid_error(
                        OamdFault::ProgramObjects {
                            described: (fixed + count + 1) as usize,
                            header: object_count as usize,
                        },
                    ),
                )
            } else {
                Ok(rest)
            },
        }
    }
}

/// A length in bytes, from one to sixteen, and as many bytes to pass over.
#[verifier::opaque]
pub open spec fn skipped_bytes(b: Bits, present: bool) -> Result<Bits, AppError> {
    if !present {
        Ok(b)
    } else {
        match b.field(4) {
            Err(e) => Err(e),
            Ok((more, rest)) => rest.skipped((8 * (more + 1)) as nat),
        }
    }
}

/// The fixed part of a program: its bed speakers in object order and how many
/// objects of the intermediate spatial format follow them.
#[verifier::opaque]
pub open spec fn program_assignment(b: Bits, object_count: nat) -> Result<
    ((Seq<Speaker>, usize), Bits),
    AppError,
> {
    match b.flag() {
        Err(e) => Err(e),
        Ok((dynamic_only, b1)) => if dynamic_only {
            match b1.flag() {
                Err(e) => Err(e),
                Ok((lfe, rest)) => Ok(
                    ((if lfe { seq![Speaker::Lfe] } else { seq![] }, 0), rest),
                ),
            }
        } else {
            match b1.field(4) {
                Err(e) => Err(e),
                Ok((mask, b2)) => match bed_assignment(b2, mask % 2 == 1) {
                    Err(e) => Err(e),
                    Ok((beds, b3)) => match isf_assignment(b3, mask / 2 % 2 == 1) {
                        Err(e) => Err(e),
                        Ok((isf, b4)) => match dynamic_assignment(
                            b4,
                            mask / 4 % 2 == 1,
                            beds.len() + isf as nat,
                            object_count,
                        ) {
                            Err(e) => Err(e),
                            Ok(b5) => match skipped_bytes(b5, mask / 8 % 2 == 1) {
                                Err(e) => Err(e),
                                Ok(rest) => Ok(((beds, isf), rest)),
                            },
                        },
                    },
                },
            }
        },
    }
}

/// The fixed part of a program.
#[derive(Clone, Debug, PartialEq, Eq)]
pub struct ProgramAssignment {
    pub bed_speakers: Vec<Speaker>,
    pub isf_object_count: usize,
}

fn read_bed_instance(bits: &mut BitReader, speakers: &mut Vec<Speaker>) -> (r: Result<(), AppError>)
    requires
        old(bits).wf(),
    ensures
        final(bits).wf(),
        match bed_instance(old(bits)@) {
            Err(e) => r == Err::<(), AppError>(e),
            Ok((first, rest)) => r is Ok && final(speakers)@ == old(speakers)@ + first
                && final(bits)@ == rest && first.len() <= 20,
        },
{
    reveal(bed_instance);
    let lfe_only: bool = bits.read_bit()?;
    if lfe_only {
        speakers.push(Speaker::Lfe);
        assert(speakers@ =~= old(speakers)@ + seq![Speaker::Lfe]);
        return Ok(());
    }
    let standard: bool = bits.read_bit()?;
    if standard {
        let mask: usize = bits.read_small(10)?;
        append_standard_bed(mask as u16, speakers);
    } else {
        let mask: usize = bits.read_small(17)?;
        append_nonstandard_bed(mask as u32, speakers);
    }
    Ok(())
}

fn read_bed_assignment(bits: &mut BitReader, present: bool) -> (r: Result<Vec<Speaker>, AppError>)
    requires
        old(bits).wf(),
    ensures
        final(bits).wf(),
        match bed_assignment(old(bits)@, present) {
            Err(e) => r == Err::<Vec<Speaker>, AppError>(e),
            Ok((beds, rest)) => r is Ok && r->Ok_0@ == beds && final(bits)@ == rest && beds.len()
                <= 180,
        },
{
    reveal(bed_assignment);
    let mut speakers: Vec<Speaker> = Vec::new();
    if !present {
        return Ok(speakers);
    }
    let distributable: bool = bits.read_bit()?;
    let several: bool = bits.read_bit()?;
    let count: usize = if several { bits.read_small(3)? + 2 } else { 1 };
    let ghost start = bits@;
    let mut i: usize = 0;
    while i < count
        invariant
            i <= count <= 9,
            bits.wf(),
            speakers@.len() <= 20 * i,
            bed_instances(start, count as nat) == (match bed_instances(
                bits@,
                (count - i) as nat,
            ) {
                Err(e) => Err(e),
                Ok((others, rest)) => Ok((speakers@ + others, rest)),
            }),
            bed_assignment(old(bits)@, present) == bed_instances(start, count as nat),
        decreases count - i,
    {
        let ghost before = speakers@;
        let ghost here = bits@;
        match read_bed_instance(bits, &mut speakers) {
            Err(e) => return Err(e),
            Ok(_) => {},
        }
        proof {
            match bed_instances(bits@, (count - i - 1) as nat) {
                Err(_) => {},
                Ok((others, _)) => {
                    let first = bed_instance(here)->Ok_0.0;
                    assert(before + (first + others) =~= (before + first) + others);
                },
            }
        }
        i = i + 1;
    }
    assert(speakers@ + Seq::<Speaker>::empty() =~= speakers@);
    Ok(speakers)
}

fn read_isf_assignment(bits: &mut BitReader, present: bool) -> (r: Result<usize, AppError>)
    requires
        old(bits).wf(),
    ensures
        final(bits).wf(),
        match isf_assignment(old(bits)@, present) {
            Err(e) => r == Err::<usize, AppError>(e),
            Ok((count, rest)) => r == Ok::<usize, AppError>(count) && (count == 0 || isf_size(
                count as nat,
            )) && final(bits)@ == rest,
        },
{
    reveal(isf_assignment);
    if !present {
        return Ok(0);
    }
    let index: usize = bits.read_small(3)?;
    match index {
        0 => Ok(4),
        1 => Ok(8),
        2 => Ok(10),
        3 => Ok(14),
        4 => Ok(15),
        5 => Ok(30),
        _ => Err(unsupported(OamdFault::IsfIndex { index })),
    }
}

fn read_escaped_count(bits: &mut BitReader) -> (r: Result<usize, AppError>)
    requires
        old(bits).wf(),
    ensures
        final(bits).wf(),
        match escaped_count(old(bits)@) {
            Err(e) => r == Err::<usize, AppError>(e),
            Ok((count, rest)) => r == Ok::<usize, AppError>(count as usize) && count <= 158
                && final(bits)@ == rest,
        },
{
    let count: usize = bits.read_small(5)?;
    if count != 31 {
        return Ok(count);
    }
    let more: usize = bits.read_small(7)?;
    Ok(31 + more)
}

fn read_dynamic_assignment(bits: &mut BitReader, present: bool, fixed: usize, object_count: usize) -> (r: Result<
    (),
    AppError,
>)
    requires
        old(bits).wf(),
        fixed <= 1000,
    ensures
        final(bits).wf(),
        match dynamic_assignment(old(bits)@, present, fixed as nat, object_count as nat) {
            Err(e) => r == Err::<(), AppError>(e),
            Ok(rest) => r is Ok && final(bits)@ == rest,
        },
{
    reveal(dynamic_assignment);
    if !present {
        return Ok(());
    }
    let count: usize = read_escaped_count(bits)?;
    let described: usize = fixed + count + 1;
    if described != object_count {
        return Err(invalid(OamdFault::ProgramObjects { described, header: object_count }));
    }
    Ok(())
}

fn read_skipped_bytes(bits: &mut BitReader, present: bool) -> (r: Result<(), AppError>)
    requires
        old(bits).wf(),
    ensures
        final(bits).wf(),
        match skipped_bytes(old(bits)@, present) {
            Err(e) => r == Err::<(), AppError>(e),
            Ok(rest) => r is Ok && final(bits)@ == rest,
        },
{
    reveal(skipped_bytes);
    if !present {
        return Ok(());
    }
    let more: usize = bits.read_small(4)?;
    bits.skip(8 * (more + 1))
}

impl ProgramAssignment {
    /// Reads the fixed part of a program with `object_count` objects.
    pub fn read(bits: &mut BitReader, object_count: usize) -> (r: Result<Self, AppError>)
        requires
            old(bits).wf(),
        ensures
            final(bits).wf(),
            match program_assignment(old(bits)@, object_count as nat) {
                Err(e) => r == Err::<ProgramAssignment, AppError>(e),
                Ok(((beds, isf), rest)) => r is Ok && r->Ok_0.bed_speakers@ == beds
                    && r->Ok_0.isf_object_count == isf && final(bits)@ == rest && beds.len() <= 180
                    && (isf == 0 || isf_size(isf as nat)),
            },
    {
        reveal(program_assignment);
        let dynamic_only: bool = bits.read_bit()?;
        if dynamic_only {
            let lfe: bool = bits.read_bit()?;
            let mut bed_speakers: Vec<Speaker> = Vec::new();
            if lfe {
                bed_speakers.push(Speaker::Lfe);
            }
            assert(bed_speakers@ =~= if lfe { seq![Speaker::Lfe] } else { seq![] });
            return Ok(ProgramAssignment { bed_speakers, isf_object_count: 0 });
        }
        let mask: usize = bits.read_small(4)?;
        let bed_speakers: Vec<Speaker> = read_bed_assignment(bits, mask % 2 == 1)?;
        let isf_object_count: usize = read_isf_assignment(bits, mask / 2 % 2 == 1)?;
        read_dynamic_assignment(
            bits,
            mask / 4 % 2 == 1,
            bed_speakers.len() + isf_object_count,
            object_count,
        )?;
        read_skipped_bytes(bits, mask / 8 % 2 == 1)?;
        Ok(ProgramAssignment { bed_speakers, isf_object_count })
    }
}

/// When a block takes effect and how long it is approached.
#[derive(Clone, Copy, Debug, PartialEq, Eq, Structural)]
pub struct BlockTiming {
    pub sample_offset: usize,
    pub ramp_samples: usize,
}

/// The sample offset that all blocks of an element share.
#[verifier::opaque]
pub open spec fn sample_offset_info(b: Bits) -> Result<(nat, Bits), AppError> {
    match b.field(2) {
        Err(e) => Err(e),
        Ok((mode, b1)) => if mode == 0 {
            Ok((0, b1))
        } else if mode == 1 {
            match b1.field(2) {
                Err(e) => Err(e),
                Ok((index, rest)) => Ok(
                    (
                        if index == 0 { 8 } else if index == 1 { 16 } else if index == 2 { 18 } else {
                            24
                        },
                        rest,
                    ),
                ),
            }
        } else if mode == 2 {
            b1.field(5)
        } else {
            Err(unsupported_error(OamdFault::SampleOffsetCode))
        },
    }
}

/// The coded ramp durations, in samples.
pub open spec fn ramp_durations() -> Seq<usize> {
    seq![
        32, 64, 128, 256, 320, 480, 1000, 1001, 1024, 1600, 1601, 1602, 1920, 2000, 2002, 2048,
    ]
}

/// The ramp duration of a block.
#[verifier::opaque]
pub open spec fn ramp_info(b: Bits) -> Result<(nat, Bits), AppError> {
    match b.field(2) {
        Err(e) => Err(e),
        Ok((mode, b1)) => if mode == 0 {
            Ok((0, b1))
        } else if mode == 1 {
            Ok((512, b1))
        } else if mode == 2 {
            Ok((1536, b1))
        } else {
            match b1.flag() {
                Err(e) => Err(e),
                Ok((indexed, b2)) => if indexed {
                    match b2.field(4) {
                        Err(e) => Err(e),
                        Ok((index, rest)) => Ok((ramp_durations()[index as int] as nat, rest)),
                    }
                } else {
                    b2.field(11)
                },
            }
        },
    }
}

/// The timing of `count` blocks, each at a multiple of 32 samples behind a base.
pub open spec fn block_timings(b: Bits, base: nat, count: nat) -> Result<
    (Seq<BlockTiming>, Bits),
    AppError,
>
    decreases count,
{
    if count == 0 {
        Ok((seq![], b))
    } else {
        match b.field(6) {
            Err(e) => Err(e),
            Ok((factor, b1)) => match ramp_info(b1) {
                Err(e) => Err(e),
                Ok((ramp, b2)) => match block_timings(b2, base, (count - 1) as nat) {
                    Err(e) => Err(e),
                    Ok((others, rest)) => Ok(
                        (
                            seq![
                                BlockTiming {
                                    sample_offset: (base + 32 * factor) as usize,
                                    ramp_samples: ramp as usize,
                                },
                            ] + others,
                            rest,
                        ),
                    ),
                },
            },
        }
    }
}

/// The properties of an object in one block, as far as later elements refine
/// them.
#[derive(Clone, Copy, Debug, PartialEq, Eq)]
pub struct ObjectBlock {
    pub active: bool,
    pub properties: ObjectProperties,
    /// The position with its finer steps.
    pub refined: RoomPosition,
    /// In millionths.
    pub divergence: u32,
}

impl ObjectBlock {
    pub open spec fn wf(self) -> bool {
        self.properties.wf() && self.refined.wf() && self.divergence <= 1_000_000
    }

    /// The block right after its properties were read.
    pub open spec fn plain(active: bool, properties: ObjectProperties) -> ObjectBlock {
        ObjectBlock {
            active,
            properties,
            refined: properties.position,
            divergence: properties.divergence,
        }
    }
}

/// The error of an object's block, with its place.
pub open spec fn in_object(object: nat, block: nat, part: BlockPart, cause: AppError) -> AppError {
    invalid_error(
        OamdFault::InObject {
            object: object as usize,
            block: block as usize,
            part,
            cause: Box::new(cause),
        },
    )
}

/// How much information a block carries: none if `none`, all of it in the first
/// block, else what two bits say.
pub open spec fn status_info(b: Bits, none: bool, first: bool) -> Result<(nat, Bits), AppError> {
    if none {
        Ok((0, b))
    } else if first {
        Ok((1, b))
    } else {
        b.field(2)
    }
}

/// One block of an object. The rendering of a bed or intermediate spatial format
/// object is always the default one. Also what is left of the properties where
/// reading fails.
#[verifier::opaque]
pub open spec fn object_block(
    b: Bits,
    p: ObjectProperties,
    previous: Gain,
    object: nat,
    block: nat,
    fixed: bool,
) -> (ObjectProperties, Result<(ObjectBlock, Bits), AppError>) {
    match b.flag() {
        Err(e) => (p, Err(e)),
        Ok((inactive, b1)) => match status_info(b1, inactive, block == 0) {
            Err(e) => (p, Err(e)),
            Ok((basic_status, b2)) => {
                let (p1, basic) = basic_info(b2, p, basic_status, previous);
                match basic {
                    Err(e) => (p1, Err(in_object(object, block, BlockPart::Basic, e))),
                    Ok(b3) => match status_info(b3, inactive || fixed, block == 0) {
                        Err(e) => (p1, Err(e)),
                        Ok((render_status, b4)) => {
                            let (p2, rendering) = render_info(b4, p1, render_status, block);
                            match rendering {
                                Err(e) => (
                                    p2,
                                    Err(in_object(object, block, BlockPart::Render, e)),
                                ),
                                Ok(b5) => match b5.flag() {
                                    Err(e) => (p2, Err(e)),
                                    Ok((additional, b6)) => match skipped_bytes(b6, additional) {
                                        Err(e) => (p2, Err(e)),
                                        Ok(rest) => (
                                            p2,
                                            Ok((ObjectBlock::plain(!inactive, p2), rest)),
                                        ),
                                    },
                                },
                            }
                        },
                    },
                }
            },
        },
    }
}

/// The blocks of one object from `block` on. `gains` holds, for every block, the
/// gain of the object before; it becomes the gains of this object.
pub open spec fn object_blocks(
    b: Bits,
    p: ObjectProperties,
    gains: Seq<Gain>,
    object: nat,
    block: nat,
    fixed: bool,
) -> (ObjectProperties, Result<(Seq<ObjectBlock>, Bits), AppError>)
    decreases gains.len() - block,
{
    if block >= gains.len() {
        (p, Ok((seq![], b)))
    } else {
        let (left, read) = object_block(b, p, gains[block as int], object, block, fixed);
        match read {
            Err(e) => (left, Err(e)),
            Ok((first, b1)) => with_first_block(
                first,
                object_blocks(b1, left, gains, object, block + 1, fixed),
            ),
        }
    }
}

/// Puts a block before those that were read behind it.
pub open spec fn with_first_block(
    first: ObjectBlock,
    more: (ObjectProperties, Result<(Seq<ObjectBlock>, Bits), AppError>),
) -> (ObjectProperties, Result<(Seq<ObjectBlock>, Bits), AppError>) {
    (
        more.0,
        match more.1 {
            Err(e) => Err(e),
            Ok((others, rest)) => Ok((seq![first] + others, rest)),
        },
    )
}

/// The gains of an object in its blocks.
pub open spec fn block_gains(blocks: Seq<ObjectBlock>) -> Seq<Gain> {
    blocks.map_values(|block: ObjectBlock| block.properties.gain)
}

/// The properties of all objects, and the blocks read of some of them.
pub type ElementReading = (Seq<ObjectProperties>, Result<(Seq<Seq<ObjectBlock>>, Bits), AppError>);

/// Puts the blocks of an object before those of the objects read behind it.
pub open spec fn with_first_object(first: Seq<ObjectBlock>, more: ElementReading) -> ElementReading {
    (
        more.0,
        match more.1 {
            Err(e) => Err(e),
            Ok((others, rest)) => Ok((seq![first] + others, rest)),
        },
    )
}

/// The blocks of the objects from `object` on. The first `fixed` objects are bed
/// and intermediate spatial format objects. Every object keeps the properties that
/// its blocks leave, also where a later one fails.
pub open spec fn element_blocks(
    b: Bits,
    properties: Seq<ObjectProperties>,
    gains: Seq<Gain>,
    object: nat,
    fixed: nat,
) -> ElementReading
    decreases properties.len() - object,
{
    if object >= properties.len() {
        (properties, Ok((seq![], b)))
    } else {
        let (left, read) = object_blocks(
            b,
            properties[object as int],
            gains,
            object,
            0,
            object < fixed,
        );
        let kept = properties.update(object as int, left);
        match read {
            Err(e) => (kept, Err(e)),
            Ok((first, b1)) => with_first_object(
                first,
                element_blocks(b1, kept, block_gains(first), object + 1, fixed),
            ),
        }
    }
}

/// What an object element holds: the timing of its blocks, and every object's
/// blocks.
pub struct ElementView {
    pub timing: Seq<BlockTiming>,
    pub objects: Seq<Seq<ObjectBlock>>,
}

/// Five reserved bits unless a bit says that they are absent.
#[verifier::opaque]
pub open spec fn reserved_info(b: Bits) -> Result<Bits, AppError> {
    match b.flag() {
        Err(e) => Err(e),
        Ok((absent, rest)) => if absent { Ok(rest) } else { rest.skipped(5) },
    }
}

/// The object element of a payload, and the properties that it leaves.
#[verifier::opaque]
pub open spec fn object_element(
    b: Bits,
    properties: Seq<ObjectProperties>,
    emdf_offset: nat,
    fixed: nat,
) -> (Seq<ObjectProperties>, Result<(ElementView, Bits), AppError>) {
    match sample_offset_info(b) {
        Err(e) => (properties, Err(e)),
        Ok((offset, b1)) => match b1.field(3) {
            Err(e) => (properties, Err(e)),
            Ok((more, b2)) => match block_timings(b2, emdf_offset + offset, more + 1) {
                Err(e) => (properties, Err(e)),
                Ok((timing, b3)) => match reserved_info(b3) {
                    Err(e) => (properties, Err(e)),
                    Ok(b4) => {
                        let (kept, read) = element_blocks(
                            b4,
                            properties,
                            Seq::new(more + 1, |i: int| Gain::Decibels { db: 0 }),
                            0,
                            fixed,
                        );
                        match read {
                            Err(e) => (kept, Err(e)),
                            Ok((objects, rest)) => (
                                kept,
                                Ok((ElementView { timing, objects }, rest)),
                            ),
                        }
                    },
                },
            },
        },
    }
}

/// A decoded object element.
#[derive(Clone, Debug)]
pub struct ObjectElement {
    pub timing: Vec<BlockTiming>,
    pub objects: Vec<Vec<ObjectBlock>>,
}

/// The contents of a list of lists of blocks.
pub open spec fn block_lists(objects: Seq<Vec<ObjectBlock>>) -> Seq<Seq<ObjectBlock>> {
    objects.map_values(|blocks: Vec<ObjectBlock>| blocks@)
}

impl View for ObjectElement {
    type V = ElementView;

    open spec fn view(&self) -> ElementView {
        ElementView { timing: self.timing@, objects: block_lists(self.objects@) }
    }
}

pub open spec fn blocks_wf(blocks: Seq<ObjectBlock>) -> bool {
    forall|k: int| 0 <= k < blocks.len() ==> (#[trigger] blocks[k]).wf()
}

impl ElementView {
    /// Every object has as many blocks as there are timings.
    pub open spec fn wf(self, object_count: nat) -> bool {
        &&& self.objects.len() == object_count
        &&& 1 <= self.timing.len() <= 8
        &&& forall|i: int|
            0 <= i < object_count ==> {
                &&& (#[trigger] self.objects[i]).len() == self.timing.len()
                &&& blocks_wf(self.objects[i])
            }
    }
}

fn read_sample_offset(bits: &mut BitReader) -> (r: Result<usize, AppError>)
    requires
        old(bits).wf(),
    ensures
        final(bits).wf(),
        match sample_offset_info(old(bits)@) {
            Err(e) => r == Err::<usize, AppError>(e),
            Ok((offset, rest)) => r == Ok::<usize, AppError>(offset as usize) && offset <= 31
                && final(bits)@ == rest,
        },
{
    reveal(sample_offset_info);
    let mode: usize = bits.read_small(2)?;
    if mode == 0 {
        Ok(0)
    } else if mode == 1 {
        let index: usize = bits.read_small(2)?;
        Ok(if index == 0 { 8 } else if index == 1 { 16 } else if index == 2 { 18 } else { 24 })
    } else if mode == 2 {
        bits.read_small(5)
    } else {
        Err(unsupported(OamdFault::SampleOffsetCode))
    }
}

fn read_ramp(bits: &mut BitReader) -> (r: Result<usize, AppError>)
    requires
        old(bits).wf(),
    ensures
        final(bits).wf(),
        match ramp_info(old(bits)@) {
            Err(e) => r == Err::<usize, AppError>(e),
            Ok((ramp, rest)) => r == Ok::<usize, AppError>(ramp as usize) && ramp <= 2048
                && final(bits)@ == rest,
        },
{
    reveal(ramp_info);
    let mode: usize = bits.read_small(2)?;
    if mode == 0 {
        Ok(0)
    } else if mode == 1 {
        Ok(512)
    } else if mode == 2 {
        Ok(1536)
    } else {
        let indexed: bool = bits.read_bit()?;
        if indexed {
            let table: [usize; 16] = [
                32, 64, 128, 256, 320, 480, 1000, 1001, 1024, 1600, 1601, 1602, 1920, 2000, 2002,
                2048,
            ];
            assert(table@ =~= ramp_durations());
            let index: usize = bits.read_small(4)?;
            Ok(table[index])
        } else {
            bits.read_small(11)
        }
    }
}

fn read_timings(bits: &mut BitReader, base: usize, count: usize) -> (r: Result<
    Vec<BlockTiming>,
    AppError,
>)
    requires
        old(bits).wf(),
        base <= 100_000,
    ensures
        final(bits).wf(),
        match block_timings(old(bits)@, base as nat, count as nat) {
            Err(e) => r == Err::<Vec<BlockTiming>, AppError>(e),
            Ok((timing, rest)) => r is Ok && r->Ok_0@ == timing && timing.len() == count
                && final(bits)@ == rest,
        },
{
    let mut timing: Vec<BlockTiming> = Vec::new();
    let mut i: usize = 0;
    while i < count
        invariant
            i <= count,
            base <= 100_000,
            bits.wf(),
            timing@.len() == i,
            block_timings(old(bits)@, base as nat, count as nat) == (match block_timings(
                bits@,
                base as nat,
                (count - i) as nat,
            ) {
                Err(e) => Err(e),
                Ok((others, rest)) => Ok((timing@ + others, rest)),
            }),
        decreases count - i,
    {
        let ghost before = timing@;
        let ghost here = bits@;
        let factor: usize = match bits.read_small(6) {
            Err(e) => return Err(e),
            Ok(factor) => factor,
        };
        let ramp_samples: usize = match read_ramp(bits) {
            Err(e) => return Err(e),
            Ok(ramp) => ramp,
        };
        let entry = BlockTiming { sample_offset: base + 32 * factor, ramp_samples };
        timing.push(entry);
        proof {
            match block_timings(bits@, base as nat, (count - i - 1) as nat) {
                Err(_) => {},
                Ok((others, _)) => {
                    assert(before + (seq![entry] + others) =~= timing@ + others);
                },
            }
        }
        i = i + 1;
    }
    assert(timing@ + Seq::<BlockTiming>::empty() =~= timing@);
    Ok(timing)
}

fn read_status(bits: &mut BitReader, none: bool, first: bool) -> (r: Result<usize, AppError>)
    requires
        old(bits).wf(),
    ensures
        final(bits).wf(),
        match status_info(old(bits)@, none, first) {
            Err(e) => r == Err::<usize, AppError>(e),
            Ok((status, rest)) => r == Ok::<usize, AppError>(status as usize) && status <= 3
                && final(bits)@ == rest,
        },
{
    if none {
        Ok(0)
    } else if first {
        Ok(1)
    } else {
        bits.read_small(2)
    }
}

fn read_object_block(
    bits: &mut BitReader,
    properties: &mut ObjectProperties,
    previous: Gain,
    object: usize,
    block: usize,
    fixed: bool,
) -> (r: Result<ObjectBlock, AppError>)
    requires
        old(bits).wf(),
        old(properties).wf(),
    ensures
        final(bits).wf(),
        final(properties).wf(),
        ({
            let (left, read) = object_block(
                old(bits)@,
                *old(properties),
                previous,
                object as nat,
                block as nat,
                fixed,
            );
            &&& *final(properties) == left
            &&& match read {
                Err(e) => r == Err::<ObjectBlock, AppError>(e),
                Ok((read, rest)) => r == Ok::<ObjectBlock, AppError>(read) && read.wf()
                    && final(bits)@ == rest,
            }
        }),
{
    reveal(object_block);
    let inactive: bool = bits.read_bit()?;
    let basic_status: usize = read_status(bits, inactive, block == 0)?;
    match read_basic_info(bits, properties, basic_status as u8, previous) {
        Err(e) => {
            return Err(
                invalid(
                    OamdFault::InObject { object, block, part: BlockPart::Basic, cause: Box::new(e) },
                ),
            );
        },
        Ok(_) => {},
    }
    let render_status: usize = read_status(bits, inactive || fixed, block == 0)?;
    match read_render_info(bits, properties, render_status as u8, block) {
        Err(e) => {
            return Err(
                invalid(
                    OamdFault::InObject { object, block, part: BlockPart::Render, cause: Box::new(e) },
                ),
            );
        },
        Ok(_) => {},
    }
    let additional: bool = bits.read_bit()?;
    read_skipped_bytes(bits, additional)?;
    Ok(
        ObjectBlock {
            active: !inactive,
            properties: *properties,
            refined: properties.position,
            divergence: properties.divergence,
        },
    )
}

/// Puts the blocks read so far before those that are still to come.
spec fn behind_blocks(
    blocks: Seq<ObjectBlock>,
    more: (ObjectProperties, Result<(Seq<ObjectBlock>, Bits), AppError>),
) -> (ObjectProperties, Result<(Seq<ObjectBlock>, Bits), AppError>) {
    (
        more.0,
        match more.1 {
            Err(e) => Err(e),
            Ok((others, rest)) => Ok((blocks + others, rest)),
        },
    )
}

fn read_object_blocks(
    bits: &mut BitReader,
    properties: &mut ObjectProperties,
    gains: &Vec<Gain>,
    object: usize,
    fixed: bool,
) -> (r: Result<Vec<ObjectBlock>, AppError>)
    requires
        old(bits).wf(),
        old(properties).wf(),
    ensures
        final(bits).wf(),
        final(properties).wf(),
        ({
            let (left, read) = object_blocks(
                old(bits)@,
                *old(properties),
                gains@,
                object as nat,
                0,
                fixed,
            );
            &&& *final(properties) == left
            &&& match read {
                Err(e) => r == Err::<Vec<ObjectBlock>, AppError>(e),
                Ok((blocks, rest)) => r is Ok && r->Ok_0@ == blocks && blocks_wf(blocks)
                    && blocks.len() == gains@.len() && final(bits)@ == rest,
            }
        }),
{
    let ghost whole = object_blocks(old(bits)@, *old(properties), gains@, object as nat, 0, fixed);
    let mut blocks: Vec<ObjectBlock> = Vec::new();
    let mut block: usize = 0;
    proof {
        match whole.1 {
            Err(_) => {},
            Ok((others, _)) => {
                assert(blocks@ + others =~= others);
            },
        }
    }
    while block < gains.len()
        invariant
            block <= gains@.len(),
            bits.wf(),
            properties.wf(),
            blocks@.len() == block,
            blocks_wf(blocks@),
            whole == behind_blocks(
                blocks@,
                object_blocks(bits@, *properties, gains@, object as nat, block as nat, fixed),
            ),
            whole == object_blocks(
                old(bits)@,
                *old(properties),
                gains@,
                object as nat,
                0,
                fixed,
            ),
        decreases gains@.len() - block,
    {
        let ghost before = blocks@;
        match read_object_block(bits, properties, gains[block], object, block, fixed) {
            Err(e) => return Err(e),
            Ok(read) => {
                blocks.push(read);
                proof {
                    match object_blocks(
                        bits@,
                        *properties,
                        gains@,
                        object as nat,
                        (block + 1) as nat,
                        fixed,
                    ).1 {
                        Err(_) => {},
                        Ok((others, _)) => {
                            assert(before + (seq![read] + others) =~= blocks@ + others);
                        },
                    }
                }
            },
        }
        block = block + 1;
    }
    assert(blocks@ + Seq::<ObjectBlock>::empty() =~= blocks@);
    Ok(blocks)
}

/// Lists the gains of an object's blocks.
fn gains_of(blocks: &Vec<ObjectBlock>) -> (r: Vec<Gain>)
    ensures
        r@ == block_gains(blocks@),
{
    let mut gains: Vec<Gain> = Vec::new();
    let mut i: usize = 0;
    while i < blocks.len()
        invariant
            i <= blocks@.len(),
            gains@ =~= block_gains(blocks@.take(i as int)),
        decreases blocks@.len() - i,
    {
        gains.push(blocks[i].properties.gain);
        i = i + 1;
    }
    assert(blocks@.take(i as int) =~= blocks@);
    gains
}

/// Puts the objects read so far before those that are still to come.
spec fn behind_objects(objects: Seq<Seq<ObjectBlock>>, more: ElementReading) -> ElementReading {
    (
        more.0,
        match more.1 {
            Err(e) => Err(e),
            Ok((others, rest)) => Ok((objects + others, rest)),
        },
    )
}

fn read_element_blocks(
    bits: &mut BitReader,
    properties: &mut Vec<ObjectProperties>,
    block_count: usize,
    fixed: usize,
) -> (r: Result<Vec<Vec<ObjectBlock>>, AppError>)
    requires
        old(bits).wf(),
        properties_wf(old(properties)@),
    ensures
        final(bits).wf(),
        properties_wf(final(properties)@),
        final(properties)@.len() == old(properties)@.len(),
        ({
            let (kept, read) = element_blocks(
                old(bits)@,
                old(properties)@,
                Seq::new(block_count as nat, |i: int| Gain::Decibels { db: 0 }),
                0,
                fixed as nat,
            );
            &&& final(properties)@ == kept
            &&& match read {
                Err(e) => r == Err::<Vec<Vec<ObjectBlock>>, AppError>(e),
                Ok((objects, rest)) => r is Ok && block_lists(r->Ok_0@) == objects
                    && objects.len() == old(properties)@.len() && final(bits)@ == rest && forall|
                    i: int,
                |
                    0 <= i < objects.len() ==> (#[trigger] objects[i]).len() == block_count
                        && blocks_wf(objects[i]),
            }
        }),
{
    let mut gains: Vec<Gain> = Vec::new();
    let mut k: usize = 0;
    while k < block_count
        invariant
            k <= block_count,
            gains@ =~= Seq::new(k as nat, |i: int| Gain::Decibels { db: 0 }),
        decreases block_count - k,
    {
        gains.push(Gain::Decibels { db: 0 });
        k = k + 1;
    }
    let ghost unity = Seq::new(block_count as nat, |i: int| Gain::Decibels { db: 0 });
    assert(gains@ =~= unity);
    let ghost whole = element_blocks(old(bits)@, old(properties)@, unity, 0, fixed as nat);
    let mut objects: Vec<Vec<ObjectBlock>> = Vec::new();
    let mut object: usize = 0;
    proof {
        match whole.1 {
            Err(_) => {},
            Ok((others, _)) => {
                assert(block_lists(objects@) + others =~= others);
            },
        }
    }
    while object < properties.len()
        invariant
            object <= properties@.len() == old(properties)@.len(),
            properties_wf(properties@),
            bits.wf(),
            gains@.len() == block_count,
            objects@.len() == object,
            forall|i: int|
                0 <= i < objects@.len() ==> (#[trigger] objects@[i])@.len() == block_count
                    && blocks_wf(objects@[i]@),
            whole == element_blocks(old(bits)@, old(properties)@, unity, 0, fixed as nat),
            unity == Seq::new(block_count as nat, |i: int| Gain::Decibels { db: 0 }),
            whole == behind_objects(
                block_lists(objects@),
                element_blocks(bits@, properties@, gains@, object as nat, fixed as nat),
            ),
        decreases properties@.len() - object,
    {
        let ghost before = objects@;
        let mut current: ObjectProperties = properties[object];
        let read = read_object_blocks(bits, &mut current, &gains, object, object < fixed);
        properties.set(object, current);
        match read {
            Err(e) => return Err(e),
            Ok(blocks) => {
                let ghost read = blocks@;
                gains = gains_of(&blocks);
                objects.push(blocks);
                proof {
                    assert(block_lists(objects@) =~= block_lists(before).push(read));
                    match element_blocks(
                        bits@,
                        properties@,
                        gains@,
                        (object + 1) as nat,
                        fixed as nat,
                    ).1 {
                        Err(_) => {},
                        Ok((others, _)) => {
                            assert(block_lists(before) + (seq![read] + others) =~= block_lists(
                                objects@,
                            ) + others);
                        },
                    }
                }
            },
        }
        object = object + 1;
    }
    assert(block_lists(objects@) + Seq::<Seq<ObjectBlock>>::empty() =~= block_lists(objects@));
    assert forall|i: int| 0 <= i < block_lists(objects@).len() implies (#[trigger] block_lists(
        objects@,
    )[i]).len() == block_count && blocks_wf(block_lists(objects@)[i]) by {
        assert(block_lists(objects@)[i] == objects@[i]@);
    }
    Ok(objects)
}

pub open spec fn properties_wf(properties: Seq<ObjectProperties>) -> bool {
    forall|i: int| 0 <= i < properties.len() ==> (#[trigger] properties[i]).wf()
}

fn read_reserved(bits: &mut BitReader) -> (r: Result<(), AppError>)
    requires
        old(bits).wf(),
    ensures
        final(bits).wf(),
        match reserved_info(old(bits)@) {
            Err(e) => r == Err::<(), AppError>(e),
            Ok(rest) => r is Ok && final(bits)@ == rest,
        },
{
    reveal(reserved_info);
    let absent: bool = bits.read_bit()?;
    if absent {
        Ok(())
    } else {
        bits.skip(5)
    }
}

fn read_object_element(
    bits: &mut BitReader,
    properties: &mut Vec<ObjectProperties>,
    emdf_sample_offset: usize,
    fixed: usize,
) -> (r: Result<ObjectElement, AppError>)
    requires
        old(bits).wf(),
        properties_wf(old(properties)@),
        emdf_sample_offset <= 0xffff,
    ensures
        final(bits).wf(),
        properties_wf(final(properties)@),
        final(properties)@.len() == old(properties)@.len(),
        ({
            let (kept, read) = object_element(
                old(bits)@,
                old(properties)@,
                emdf_sample_offset as nat,
                fixed as nat,
            );
            &&& final(properties)@ == kept
            &&& match read {
                Err(e) => r == Err::<ObjectElement, AppError>(e),
                Ok((element, rest)) => r is Ok && r->Ok_0@ == element && element.wf(
                    old(properties)@.len(),
                ) && final(bits)@ == rest,
            }
        }),
{
    reveal(object_element);
    let sample_offset: usize = read_sample_offset(bits)?;
    let more: usize = bits.read_small(3)?;
    let timing: Vec<BlockTiming> = read_timings(bits, emdf_sample_offset + sample_offset, more + 1)?;
    read_reserved(bits)?;
    let objects: Vec<Vec<ObjectBlock>> = read_element_blocks(bits, properties, more + 1, fixed)?;
    Ok(ObjectElement { timing, objects })
}

/// The divergences of one object's blocks from `block` on. Each may repeat the one
/// before it; a block that is inactive or not of a dynamic object has none.
pub open spec fn divergence_blocks(
    b: Bits,
    blocks: Seq<ObjectBlock>,
    dynamic: bool,
    previous: u32,
    block: nat,
) -> Result<((Seq<ObjectBlock>, u32), Bits), AppError>
    decreases blocks.len() - block,
{
    if block >= blocks.len() {
        Ok(((seq![], previous), b))
    } else {
        match (if blocks[block as int].active && dynamic {
            divergence_info(b, previous)
        } else {
            Ok((0, b))
        }) {
            Err(e) => Err(e),
            Ok((divergence, b1)) => match divergence_blocks(
                b1,
                blocks,
                dynamic,
                divergence,
                block + 1,
            ) {
                Err(e) => Err(e),
                Ok(((others, last), rest)) => Ok(
                    (
                        (
                            seq![ObjectBlock { divergence, ..blocks[block as int] }] + others,
                            last,
                        ),
                        rest,
                    ),
                ),
            },
        }
    }
}

/// The divergences of the objects from `object` on, and the properties that keep
/// the last one of each object, also where a later object fails.
pub open spec fn divergence_objects(
    b: Bits,
    objects: Seq<Seq<ObjectBlock>>,
    properties: Seq<ObjectProperties>,
    fixed: nat,
    object: nat,
) -> ElementReading
    decreases objects.len() - object,
{
    if object >= objects.len() {
        (properties, Ok((seq![], b)))
    } else {
        let p = properties[object as int];
        match divergence_blocks(b, objects[object as int], object >= fixed, p.divergence, 0) {
            Err(e) => (properties, Err(e)),
            Ok(((blocks, last), b1)) => with_first_object(
                blocks,
                divergence_objects(
                    b1,
                    objects,
                    properties.update(object as int, ObjectProperties { divergence: last, ..p }),
                    fixed,
                    object + 1,
                ),
            ),
        }
    }
}

/// A fine step of one axis, where present: one or two units up or down.
#[verifier::opaque]
pub open spec fn fine_step(b: Bits, present: bool) -> Result<(int, Bits), AppError> {
    if !present {
        Ok((0, b))
    } else {
        match b.field(2) {
            Err(e) => Err(e),
            Ok((code, rest)) => Ok(
                (if code == 0 { 1 } else if code == 1 { 2 } else if code == 2 { -1 } else { -2 }, rest),
            ),
        }
    }
}

/// The refinement of one block's position.
#[verifier::opaque]
pub open spec fn refined_position(b: Bits, from: RoomPosition) -> Result<(RoomPosition, Bits), AppError> {
    match b.field(3) {
        Err(e) => Err(e),
        Ok((presence, b1)) => match fine_step(b1, presence % 2 == 1) {
            Err(e) => Err(e),
            Ok((dx, b2)) => match fine_step(b2, presence / 2 % 2 == 1) {
                Err(e) => Err(e),
                Ok((dy, b3)) => match fine_step(b3, presence / 4 == 1) {
                    Err(e) => Err(e),
                    Ok((dz, rest)) => Ok((from.moved(dx, dy, dz), rest)),
                },
            },
        },
    }
}

/// A block whose position may be refined.
#[verifier::opaque]
pub open spec fn refined_block(b: Bits, block: ObjectBlock, dynamic: bool) -> Result<
    (ObjectBlock, Bits),
    AppError,
> {
    if !block.active || !dynamic {
        Ok((block, b))
    } else {
        match b.flag() {
            Err(e) => Err(e),
            Ok((present, b1)) => if !present {
                Ok((block, b1))
            } else {
                match refined_position(b1, block.properties.position) {
                    Err(e) => Err(e),
                    Ok((refined, rest)) => Ok((ObjectBlock { refined, ..block }, rest)),
                }
            },
        }
    }
}

pub open spec fn refined_blocks(b: Bits, blocks: Seq<ObjectBlock>, dynamic: bool, block: nat) -> Result<
    (Seq<ObjectBlock>, Bits),
    AppError,
>
    decreases blocks.len() - block,
{
    if block >= blocks.len() {
        Ok((seq![], b))
    } else {
        match refined_block(b, blocks[block as int], dynamic) {
            Err(e) => Err(e),
            Ok((first, b1)) => match refined_blocks(b1, blocks, dynamic, block + 1) {
                Err(e) => Err(e),
                Ok((others, rest)) => Ok((seq![first] + others, rest)),
            },
        }
    }
}

pub open spec fn refined_objects(b: Bits, objects: Seq<Seq<ObjectBlock>>, fixed: nat, object: nat) -> Result<
    (Seq<Seq<ObjectBlock>>, Bits),
    AppError,
>
    decreases objects.len() - object,
{
    if object >= objects.len() {
        Ok((seq![], b))
    } else {
        match refined_blocks(b, objects[object as int], object >= fixed, 0) {
            Err(e) => Err(e),
            Ok((first, b1)) => match refined_objects(b1, objects, fixed, object + 1) {
                Err(e) => Err(e),
                Ok((others, rest)) => Ok((seq![first] + others, rest)),
            },
        }
    }
}

/// The properties without divergence.
pub open spec fn gathered(properties: Seq<ObjectProperties>) -> Seq<ObjectProperties> {
    properties.map_values(|p: ObjectProperties| ObjectProperties { divergence: 0, ..p })
}

/// The divergence part of an extended element. Without one the objects keep the
/// divergence that they carry, and only later frames start from none.
#[verifier::opaque]
pub open spec fn divergence_part(
    b: Bits,
    objects: Seq<Seq<ObjectBlock>>,
    properties: Seq<ObjectProperties>,
    fixed: nat,
) -> ElementReading {
    match b.flag() {
        Err(e) => (properties, Err(e)),
        Ok((present, b1)) => if present {
            divergence_objects(b1, objects, properties, fixed, 0)
        } else {
            (gathered(properties), Ok((objects, b1)))
        },
    }
}

/// The fine-position part of an extended element.
#[verifier::opaque]
pub open spec fn refinement_part(b: Bits, objects: Seq<Seq<ObjectBlock>>, fixed: nat) -> Result<
    (Seq<Seq<ObjectBlock>>, Bits),
    AppError,
> {
    match b.flag() {
        Err(e) => Err(e),
        Ok((present, b1)) => if present {
            refined_objects(b1, objects, fixed, 0)
        } else {
            Ok((objects, b1))
        },
    }
}

/// The extended element of a payload, and the properties that it leaves.
#[verifier::opaque]
pub open spec fn extended_element(
    b: Bits,
    objects: Seq<Seq<ObjectBlock>>,
    properties: Seq<ObjectProperties>,
    fixed: nat,
) -> ElementReading {
    let (kept, divergence) = divergence_part(b, objects, properties, fixed);
    match divergence {
        Err(e) => (kept, Err(e)),
        Ok((spread, b1)) => (kept, refinement_part(b1, spread, fixed)),
    }
}

fn read_divergence_blocks(
    bits: &mut BitReader,
    blocks: &Vec<ObjectBlock>,
    dynamic: bool,
    previous: u32,
) -> (r: Result<(Vec<ObjectBlock>, u32), AppError>)
    requires
        old(bits).wf(),
        blocks_wf(blocks@),
        previous <= 1_000_000,
    ensures
        final(bits).wf(),
        match divergence_blocks(old(bits)@, blocks@, dynamic, previous, 0) {
            Err(e) => r == Err::<(Vec<ObjectBlock>, u32), AppError>(e),
            Ok(((spread, last), rest)) => r is Ok && r->Ok_0.0@ == spread && r->Ok_0.1 == last
                && last <= 1_000_000 && blocks_wf(spread) && spread.len() == blocks@.len()
                && final(bits)@ == rest,
        },
{
    let mut spread: Vec<ObjectBlock> = Vec::new();
    let mut last: u32 = previous;
    let mut i: usize = 0;
    while i < blocks.len()
        invariant
            i <= blocks@.len(),
            bits.wf(),
            blocks_wf(blocks@),
            last <= 1_000_000,
            spread@.len() == i,
            blocks_wf(spread@),
            divergence_blocks(old(bits)@, blocks@, dynamic, previous, 0) == (
            match divergence_blocks(bits@, blocks@, dynamic, last, i as nat) {
                Err(e) => Err(e),
                Ok(((others, kept), rest)) => Ok(((spread@ + others, kept), rest)),
            }),
        decreases blocks@.len() - i,
    {
        let ghost before = spread@;
        let mut block: ObjectBlock = blocks[i];
        let divergence: u32 = if block.active && dynamic {
            match read_divergence(bits, last) {
                Err(e) => return Err(e),
                Ok(divergence) => divergence,
            }
        } else {
            0
        };
        block.divergence = divergence;
        spread.push(block);
        last = divergence;
        proof {
            match divergence_blocks(bits@, blocks@, dynamic, last, (i + 1) as nat) {
                Err(_) => {},
                Ok(((others, _), _)) => {
                    assert(before + (seq![block] + others) =~= spread@ + others);
                },
            }
        }
        i = i + 1;
    }
    assert(spread@ + Seq::<ObjectBlock>::empty() =~= spread@);
    Ok((spread, last))
}

/// Every object's list has the given length and well-formed blocks.
pub open spec fn objects_wf(objects: Seq<Seq<ObjectBlock>>, count: nat, blocks: nat) -> bool {
    &&& objects.len() == count
    &&& forall|i: int|
        0 <= i < count ==> (#[trigger] objects[i]).len() == blocks && blocks_wf(objects[i])
}

fn read_divergence_objects(
    bits: &mut BitReader,
    objects: &Vec<Vec<ObjectBlock>>,
    properties: &mut Vec<ObjectProperties>,
    fixed: usize,
    Ghost(block_count): Ghost<nat>,
) -> (r: Result<Vec<Vec<ObjectBlock>>, AppError>)
    requires
        old(bits).wf(),
        properties_wf(old(properties)@),
        objects_wf(block_lists(objects@), old(properties)@.len(), block_count),
    ensures
        final(bits).wf(),
        properties_wf(final(properties)@),
        final(properties)@.len() == old(properties)@.len(),
        ({
            let (kept, read) = divergence_objects(
                old(bits)@,
                block_lists(objects@),
                old(properties)@,
                fixed as nat,
                0,
            );
            &&& final(properties)@ == kept
            &&& match read {
                Err(e) => r == Err::<Vec<Vec<ObjectBlock>>, AppError>(e),
                Ok((spread, rest)) => r is Ok && block_lists(r->Ok_0@) == spread && objects_wf(
                    spread,
                    old(properties)@.len(),
                    block_count,
                ) && final(bits)@ == rest,
            }
        }),
{
    let ghost lists = block_lists(objects@);
    let ghost whole = divergence_objects(old(bits)@, lists, old(properties)@, fixed as nat, 0);
    let mut spread: Vec<Vec<ObjectBlock>> = Vec::new();
    let mut object: usize = 0;
    proof {
        match whole.1 {
            Err(_) => {},
            Ok((others, _)) => {
                assert(block_lists(spread@) + others =~= others);
            },
        }
    }
    while object < objects.len()
        invariant
            object <= objects@.len() == properties@.len(),
            properties@.len() == old(properties)@.len(),
            lists == block_lists(objects@),
            objects_wf(lists, properties@.len(), block_count),
            properties_wf(properties@),
            bits.wf(),
            spread@.len() == object,
            objects_wf(block_lists(spread@), object as nat, block_count),
            whole == divergence_objects(old(bits)@, lists, old(properties)@, fixed as nat, 0),
            whole == behind_objects(
                block_lists(spread@),
                divergence_objects(bits@, lists, properties@, fixed as nat, object as nat),
            ),
        decreases objects@.len() - object,
    {
        let ghost before = spread@;
        let mut p: ObjectProperties = properties[object];
        assert(lists[object as int] == objects@[object as int]@);
        match read_divergence_blocks(bits, &objects[object], object >= fixed, p.divergence) {
            Err(e) => return Err(e),
            Ok((blocks, last)) => {
                let ghost read = blocks@;
                p.divergence = last;
                spread.push(blocks);
                properties.set(object, p);
                proof {
                    assert(block_lists(spread@) =~= block_lists(before).push(read));
                    match divergence_objects(
                        bits@,
                        lists,
                        properties@,
                        fixed as nat,
                        (object + 1) as nat,
                    ).1 {
                        Err(_) => {},
                        Ok((others, _)) => {
                            assert(block_lists(before) + (seq![read] + others) =~= block_lists(
                                spread@,
                            ) + others);
                        },
                    }
                }
            },
        }
        object = object + 1;
    }
    assert(block_lists(spread@) + Seq::<Seq<ObjectBlock>>::empty() =~= block_lists(spread@));
    Ok(spread)
}

fn read_fine_step(bits: &mut BitReader, present: bool) -> (r: Result<i16, AppError>)
    requires
        old(bits).wf(),
    ensures
        final(bits).wf(),
        match fine_step(old(bits)@, present) {
            Err(e) => r == Err::<i16, AppError>(e),
            Ok((step, rest)) => r == Ok::<i16, AppError>(step as i16) && -2 <= step <= 2
                && final(bits)@ == rest,
        },
{
    reveal(fine_step);
    if !present {
        return Ok(0);
    }
    let code: usize = bits.read_small(2)?;
    Ok(if code == 0 { 1 } else if code == 1 { 2 } else if code == 2 { -1 } else { -2 })
}

fn read_refined_position(bits: &mut BitReader, from: RoomPosition) -> (r: Result<RoomPosition, AppError>)
    requires
        old(bits).wf(),
        from.wf(),
    ensures
        final(bits).wf(),
        match refined_position(old(bits)@, from) {
            Err(e) => r == Err::<RoomPosition, AppError>(e),
            Ok((position, rest)) => r == Ok::<RoomPosition, AppError>(position) && position.wf()
                && final(bits)@ == rest,
        },
{
    reveal(refined_position);
    let presence: usize = bits.read_small(3)?;
    let dx: i16 = read_fine_step(bits, presence % 2 == 1)?;
    let dy: i16 = read_fine_step(bits, presence / 2 % 2 == 1)?;
    let dz: i16 = read_fine_step(bits, presence / 4 == 1)?;
    Ok(from.shifted(dx, dy, dz))
}

fn read_refined_block(bits: &mut BitReader, block: ObjectBlock, dynamic: bool) -> (r: Result<
    ObjectBlock,
    AppError,
>)
    requires
        old(bits).wf(),
        block.wf(),
    ensures
        final(bits).wf(),
        match refined_block(old(bits)@, block, dynamic) {
            Err(e) => r == Err::<ObjectBlock, AppError>(e),
            Ok((refined, rest)) => r == Ok::<ObjectBlock, AppError>(refined) && refined.wf()
                && final(bits)@ == rest,
        },
{
    reveal(refined_block);
    if !block.active || !dynamic {
        return Ok(block);
    }
    let present: bool = bits.read_bit()?;
    if !present {
        return Ok(block);
    }
    let refined: RoomPosition = read_refined_position(bits, block.properties.position)?;
    Ok(ObjectBlock { refined, ..block })
}

fn read_refined_blocks(bits: &mut BitReader, blocks: &Vec<ObjectBlock>, dynamic: bool) -> (r: Result<
    Vec<ObjectBlock>,
    AppError,
>)
    requires
        old(bits).wf(),
        blocks_wf(blocks@),
    ensures
        final(bits).wf(),
        match refined_blocks(old(bits)@, blocks@, dynamic, 0) {
            Err(e) => r == Err::<Vec<ObjectBlock>, AppError>(e),
            Ok((refined, rest)) => r is Ok && r->Ok_0@ == refined && blocks_wf(refined)
                && refined.len() == blocks@.len() && final(bits)@ == rest,
        },
{
    let mut refined: Vec<ObjectBlock> = Vec::new();
    let mut i: usize = 0;
    while i < blocks.len()
        invariant
            i <= blocks@.len(),
            bits.wf(),
            blocks_wf(blocks@),
            refined@.len() == i,
            blocks_wf(refined@),
            refined_blocks(old(bits)@, blocks@, dynamic, 0) == (match refined_blocks(
                bits@,
                blocks@,
                dynamic,
                i as nat,
            ) {
                Err(e) => Err(e),
                Ok((others, rest)) => Ok((refined@ + others, rest)),
            }),
        decreases blocks@.len() - i,
    {
        let ghost before = refined@;
        match read_refined_block(bits, blocks[i], dynamic) {
            Err(e) => return Err(e),
            Ok(block) => {
                refined.push(block);
                proof {
                    match refined_blocks(bits@, blocks@, dynamic, (i + 1) as nat) {
                        Err(_) => {},
                        Ok((others, _)) => {
                            assert(before + (seq![block] + others) =~= refined@ + others);
                        },
                    }
                }
            },
        }
        i = i + 1;
    }
    assert(refined@ + Seq::<ObjectBlock>::empty() =~= refined@);
    Ok(refined)
}

fn read_refined_objects(
    bits: &mut BitReader,
    objects: &Vec<Vec<ObjectBlock>>,
    fixed: usize,
    Ghost(block_count): Ghost<nat>,
) -> (r: Result<Vec<Vec<ObjectBlock>>, AppError>)
    requires
        old(bits).wf(),
        objects_wf(block_lists(objects@), objects@.len(), block_count),
    ensures
        final(bits).wf(),
        match refined_objects(old(bits)@, block_lists(objects@), fixed as nat, 0) {
            Err(e) => r == Err::<Vec<Vec<ObjectBlock>>, AppError>(e),
            Ok((refined, rest)) => r is Ok && block_lists(r->Ok_0@) == refined && objects_wf(
                refined,
                objects@.len(),
                block_count,
            ) && final(bits)@ == rest,
        },
{
    let ghost lists = block_lists(objects@);
    let mut refined: Vec<Vec<ObjectBlock>> = Vec::new();
    let mut object: usize = 0;
    while object < objects.len()
        invariant
            object <= objects@.len(),
            lists == block_lists(objects@),
            objects_wf(lists, objects@.len(), block_count),
            bits.wf(),
            refined@.len() == object,
            objects_wf(block_lists(refined@), object as nat, block_count),
            refined_objects(old(bits)@, lists, fixed as nat, 0) == (match refined_objects(
                bits@,
                lists,
                fixed as nat,
                object as nat,
            ) {
                Err(e) => Err(e),
                Ok((others, rest)) => Ok((block_lists(refined@) + others, rest)),
            }),
        decreases objects@.len() - object,
    {
        let ghost before = refined@;
        assert(lists[object as int] == objects@[object as int]@);
        match read_refined_blocks(bits, &objects[object], object >= fixed) {
            Err(e) => return Err(e),
            Ok(blocks) => {
                let ghost read = blocks@;
                refined.push(blocks);
                proof {
                    assert(block_lists(refined@) =~= block_lists(before).push(read));
                    match refined_objects(bits@, lists, fixed as nat, (object + 1) as nat) {
                        Err(_) => {},
                        Ok((others, _)) => {
                            assert(block_lists(before) + (seq![read] + others) =~= block_lists(
                                refined@,
                            ) + others);
                        },
                    }
                }
            },
        }
        object = object + 1;
    }
    assert(block_lists(refined@) + Seq::<Seq<ObjectBlock>>::empty() =~= block_lists(refined@));
    Ok(refined)
}

fn without_divergence(properties: &Vec<ObjectProperties>) -> (r: Vec<ObjectProperties>)
    requires
        properties_wf(properties@),
    ensures
        r@ == gathered(properties@),
        properties_wf(r@),
{
    let mut kept: Vec<ObjectProperties> = Vec::new();
    let mut i: usize = 0;
    while i < properties.len()
        invariant
            i <= properties@.len(),
            properties_wf(properties@),
            properties_wf(kept@),
            kept@ =~= gathered(properties@.take(i as int)),
        decreases properties@.len() - i,
    {
        kept.push(ObjectProperties { divergence: 0, ..properties[i] });
        i = i + 1;
    }
    assert(properties@.take(i as int) =~= properties@);
    kept
}

fn read_extended_element(
    bits: &mut BitReader,
    objects: Vec<Vec<ObjectBlock>>,
    properties: &mut Vec<ObjectProperties>,
    fixed: usize,
    Ghost(block_count): Ghost<nat>,
) -> (r: Result<Vec<Vec<ObjectBlock>>, AppError>)
    requires
        old(bits).wf(),
        properties_wf(old(properties)@),
        objects_wf(block_lists(objects@), old(properties)@.len(), block_count),
    ensures
        final(bits).wf(),
        properties_wf(final(properties)@),
        final(properties)@.len() == old(properties)@.len(),
        ({
            let (kept, read) = extended_element(
                old(bits)@,
                block_lists(objects@),
                old(properties)@,
                fixed as nat,
            );
            &&& final(properties)@ == kept
            &&& match read {
                Err(e) => r == Err::<Vec<Vec<ObjectBlock>>, AppError>(e),
                Ok((refined, rest)) => r is Ok && block_lists(r->Ok_0@) == refined && objects_wf(
                    refined,
                    old(properties)@.len(),
                    block_count,
                ) && final(bits)@ == rest,
            }
        }),
{
    reveal(extended_element);
    reveal(refinement_part);
    reveal(divergence_part);
    let divergent: bool = bits.read_bit()?;
    let spread: Vec<Vec<ObjectBlock>> = if divergent {
        read_divergence_objects(bits, &objects, properties, fixed, Ghost(block_count))?
    } else {
        *properties = without_divergence(properties);
        objects
    };
    let precise: bool = bits.read_bit()?;
    if precise {
        assert(block_lists(spread@).len() == spread@.len());
        read_refined_objects(bits, &spread, fixed, Ghost(block_count))
    } else {
        Ok(spread)
    }
}

/// The coded trim levels, in quarters of a decibel.
pub open spec fn trim_levels() -> Seq<int> {
    seq![24, 12, 6, 3, -3, -6, -12, -18, -24, -30, -36, -42, -48, -54, -64, -144]
}

fn trim_level(code: usize) -> (r: i32)
    requires
        code < 16,
    ensures
        r == trim_levels()[code as int],
{
    let table: [i32; 16] = [
        24, 12, 6, 3, -3, -6, -12, -18, -24, -30, -36, -42, -48, -54, -64, -144,
    ];
    assert(table@.map_values(|level: i32| level as int) =~= trim_levels());
    assert(table@.map_values(|level: i32| level as int)[code as int] == table@[code as int]);
    table[code]
}

#[verifier::opaque]
pub open spec fn level_info(b: Bits, present: bool) -> Result<(Scalar, Bits), AppError> {
    if !present {
        Ok((crate::object::zero_scalar(), b))
    } else {
        match b.field(4) {
            Err(e) => Err(e),
            Ok((code, rest)) => Ok(
                (Scalar::Ratio { numerator: trim_levels()[code as int] as i32, denominator: 4 }, rest),
            ),
        }
    }
}

/// A level that only reduces: its first four codes are reserved.
#[verifier::opaque]
pub open spec fn reduction_info(b: Bits, present: bool, level: Reduction) -> Result<
    (Scalar, Bits),
    AppError,
> {
    if !present {
        Ok((crate::object::zero_scalar(), b))
    } else {
        match b.field(4) {
            Err(e) => Err(e),
            Ok((code, rest)) => if code < 4 {
                Err(unsupported_error(OamdFault::TrimCode { level, code: code as usize }))
            } else {
                Ok(
                    (Scalar::Ratio { numerator: trim_levels()[code as int] as i32, denominator: 4 }, rest),
                )
            },
        }
    }
}

/// A balance in sixteenths, with its sign before it.
#[verifier::opaque]
pub open spec fn balance_info(b: Bits, present: bool) -> Result<(Scalar, Bits), AppError> {
    if !present {
        Ok((crate::object::zero_scalar(), b))
    } else {
        match b.flag() {
            Err(e) => Err(e),
            Ok((positive, b1)) => match b1.field(4) {
                Err(e) => Err(e),
                Ok((code, rest)) => Ok(
                    (
                        Scalar::Ratio {
                            numerator: (if positive { code as int + 1 } else { -(code as int + 1) }) as i32,
                            denominator: 16,
                        },
                        rest,
                    ),
                ),
            },
        }
    }
}

#[verifier::opaque]
pub open spec fn custom_trim(b: Bits, presence: nat) -> Result<(ObjectTrimSettings, Bits), AppError> {
    match level_info(b, presence % 2 == 1) {
        Err(e) => Err(e),
        Ok((center_db, b1)) => match reduction_info(
            b1,
            presence / 2 % 2 == 1,
            Reduction::Surround,
        ) {
            Err(e) => Err(e),
            Ok((surround_db, b2)) => match reduction_info(
                b2,
                presence / 4 % 2 == 1,
                Reduction::Height,
            ) {
                Err(e) => Err(e),
                Ok((height_db, b3)) => match balance_info(b3, presence / 8 % 2 == 1) {
                    Err(e) => Err(e),
                    Ok((top_bottom_balance, b4)) => match balance_info(b4, presence / 16 == 1) {
                        Err(e) => Err(e),
                        Ok((listener_balance, rest)) => Ok(
                            (
                                ObjectTrimSettings {
                                    mode: ObjectTrimMode::Custom,
                                    center_db,
                                    surround_db,
                                    height_db,
                                    top_bottom_balance,
                                    listener_balance,
                                },
                                rest,
                            ),
                        ),
                    },
                },
            },
        },
    }
}

/// The trim of one configuration: the default algorithm, none, or its own levels.
#[verifier::opaque]
pub open spec fn trim_configuration(b: Bits) -> Result<(ObjectTrimSettings, Bits), AppError> {
    match b.flag() {
        Err(e) => Err(e),
        Ok((default, b1)) => if default {
            Ok((plain_settings(ObjectTrimMode::Default), b1))
        } else {
            match b1.flag() {
                Err(e) => Err(e),
                Ok((disabled, b2)) => if disabled {
                    Ok((plain_settings(ObjectTrimMode::Disabled), b2))
                } else {
                    match b2.field(5) {
                        Err(e) => Err(e),
                        Ok((presence, rest)) => custom_trim(rest, presence),
                    }
                },
            }
        },
    }
}

pub open spec fn trim_configurations(b: Bits, count: nat) -> Result<
    (Seq<ObjectTrimSettings>, Bits),
    AppError,
>
    decreases count,
{
    if count == 0 {
        Ok((seq![], b))
    } else {
        match trim_configuration(b) {
            Err(e) => Err(e),
            Ok((first, b1)) => match trim_configurations(b1, (count - 1) as nat) {
                Err(e) => Err(e),
                Ok((others, rest)) => Ok((seq![first] + others, rest)),
            },
        }
    }
}

/// A run of single bits.
pub open spec fn flags(b: Bits, count: nat) -> Result<(Seq<bool>, Bits), AppError>
    decreases count,
{
    if count == 0 {
        Ok((seq![], b))
    } else {
        match b.flag() {
            Err(e) => Err(e),
            Ok((first, b1)) => match flags(b1, (count - 1) as nat) {
                Err(e) => Err(e),
                Ok((others, rest)) => Ok((seq![first] + others, rest)),
            },
        }
    }
}

/// The trim that a global mode selects.
#[verifier::opaque]
pub open spec fn global_trim(b: Bits, warp_y: bool, mode: nat) -> Result<(ObjectTrim, Bits), AppError> {
    if mode == 0 {
        Ok((uniform_trim(warp_y, plain_settings(ObjectTrimMode::Default)), b))
    } else if mode == 1 {
        Ok((uniform_trim(warp_y, plain_settings(ObjectTrimMode::Disabled)), b))
    } else if mode == 2 {
        match trim_configurations(b, TRIM_CONFIGURATIONS as nat) {
            Err(e) => Err(e),
            Ok((configurations, rest)) => Ok(
                (
                    ObjectTrim { warp_y, disabled: false, table: TrimTable::of(configurations) },
                    rest,
                ),
            ),
        }
    } else {
        Err(unsupported_error(OamdFault::GlobalTrimMode))
    }
}

/// What a trim element holds.
pub struct TrimView {
    pub trim: ObjectTrim,
    pub disabled_objects: Seq<bool>,
}

impl TrimView {
    /// The trim of one object.
    pub open spec fn of_object(self, object: nat) -> ObjectTrim {
        ObjectTrim {
            disabled: object < self.disabled_objects.len() && self.disabled_objects[object as int],
            ..self.trim
        }
    }
}

#[verifier::opaque]
pub open spec fn disabled_part(b: Bits, object_count: nat) -> Result<(Seq<bool>, Bits), AppError> {
    match b.flag() {
        Err(e) => Err(e),
        Ok((present, b1)) => if present { flags(b1, object_count) } else { Ok((seq![], b1)) },
    }
}

#[verifier::opaque]
pub open spec fn trim_element(b: Bits, object_count: nat) -> Result<(TrimView, Bits), AppError> {
    match b.field(2) {
        Err(e) => Err(e),
        Ok((warp, b1)) => if warp > 1 {
            Err(unsupported_error(OamdFault::WarpMode { mode: warp as usize }))
        } else {
            match b1.field(2) {
                Err(e) => Err(e),
                Ok((_, b2)) => match b2.field(2) {
                    Err(e) => Err(e),
                    Ok((mode, b3)) => match global_trim(b3, warp == 1, mode) {
                        Err(e) => Err(e),
                        Ok((trim, b4)) => match disabled_part(b4, object_count) {
                            Err(e) => Err(e),
                            Ok((disabled_objects, rest)) => Ok(
                                (TrimView { trim, disabled_objects }, rest),
                            ),
                        },
                    },
                },
            }
        },
    }
}

/// A decoded trim element.
#[derive(Clone, Debug)]
pub struct DecodedTrim {
    pub trim: ObjectTrim,
    pub disabled_objects: Vec<bool>,
}

impl View for DecodedTrim {
    type V = TrimView;

    open spec fn view(&self) -> TrimView {
        TrimView { trim: self.trim, disabled_objects: self.disabled_objects@ }
    }
}

impl DecodedTrim {
    /// The trim of one object.
    pub fn for_object(&self, object_index: usize) -> (r: ObjectTrim)
        ensures
            r == self@.of_object(object_index as nat),
    {
        let disabled: bool = if object_index < self.disabled_objects.len() {
            self.disabled_objects[object_index]
        } else {
            false
        };
        ObjectTrim { disabled, ..self.trim }
    }
}

fn read_level(bits: &mut BitReader, present: bool) -> (r: Result<Scalar, AppError>)
    requires
        old(bits).wf(),
    ensures
        final(bits).wf(),
        match level_info(old(bits)@, present) {
            Err(e) => r == Err::<Scalar, AppError>(e),
            Ok((level, rest)) => r == Ok::<Scalar, AppError>(level) && final(bits)@ == rest,
        },
{
    reveal(level_info);
    if !present {
        return Ok(Scalar::zero());
    }
    let code: usize = bits.read_small(4)?;
    Ok(Scalar::Ratio { numerator: trim_level(code), denominator: 4 })
}

fn read_reduction_trim(bits: &mut BitReader, present: bool, level: Reduction) -> (r: Result<
    Scalar,
    AppError,
>)
    requires
        old(bits).wf(),
    ensures
        final(bits).wf(),
        match reduction_info(old(bits)@, present, level) {
            Err(e) => r == Err::<Scalar, AppError>(e),
            Ok((reduction, rest)) => r == Ok::<Scalar, AppError>(reduction) && final(bits)@ == rest,
        },
{
    reveal(reduction_info);
    if !present {
        return Ok(Scalar::zero());
    }
    let code: usize = bits.read_small(4)?;
    if code < 4 {
        return Err(unsupported(OamdFault::TrimCode { level, code }));
    }
    Ok(Scalar::Ratio { numerator: trim_level(code), denominator: 4 })
}

fn read_balance(bits: &mut BitReader, present: bool) -> (r: Result<Scalar, AppError>)
    requires
        old(bits).wf(),
    ensures
        final(bits).wf(),
        match balance_info(old(bits)@, present) {
            Err(e) => r == Err::<Scalar, AppError>(e),
            Ok((balance, rest)) => r == Ok::<Scalar, AppError>(balance) && final(bits)@ == rest,
        },
{
    reveal(balance_info);
    if !present {
        return Ok(Scalar::zero());
    }
    let positive: bool = bits.read_bit()?;
    let code: usize = bits.read_small(4)?;
    let magnitude: i32 = code as i32 + 1;
    Ok(Scalar::Ratio { numerator: if positive { magnitude } else { -magnitude }, denominator: 16 })
}

fn read_custom_trim(bits: &mut BitReader, presence: usize) -> (r: Result<ObjectTrimSettings, AppError>)
    requires
        old(bits).wf(),
    ensures
        final(bits).wf(),
        match custom_trim(old(bits)@, presence as nat) {
            Err(e) => r == Err::<ObjectTrimSettings, AppError>(e),
            Ok((settings, rest)) => r == Ok::<ObjectTrimSettings, AppError>(settings)
                && final(bits)@ == rest,
        },
{
    reveal(custom_trim);
    let center_db: Scalar = read_level(bits, presence % 2 == 1)?;
    let surround_db: Scalar = read_reduction_trim(bits, presence / 2 % 2 == 1, Reduction::Surround)?;
    let height_db: Scalar = read_reduction_trim(bits, presence / 4 % 2 == 1, Reduction::Height)?;
    let top_bottom_balance: Scalar = read_balance(bits, presence / 8 % 2 == 1)?;
    let listener_balance: Scalar = read_balance(bits, presence / 16 == 1)?;
    Ok(
        ObjectTrimSettings {
            mode: ObjectTrimMode::Custom,
            center_db,
            surround_db,
            height_db,
            top_bottom_balance,
            listener_balance,
        },
    )
}

fn read_trim_configuration(bits: &mut BitReader) -> (r: Result<ObjectTrimSettings, AppError>)
    requires
        old(bits).wf(),
    ensures
        final(bits).wf(),
        match trim_configuration(old(bits)@) {
            Err(e) => r == Err::<ObjectTrimSettings, AppError>(e),
            Ok((settings, rest)) => r == Ok::<ObjectTrimSettings, AppError>(settings)
                && final(bits)@ == rest,
        },
{
    reveal(trim_configuration);
    let default: bool = bits.read_bit()?;
    if default {
        return Ok(ObjectTrimSettings::plain(ObjectTrimMode::Default));
    }
    let disabled: bool = bits.read_bit()?;
    if disabled {
        return Ok(ObjectTrimSettings::plain(ObjectTrimMode::Disabled));
    }
    let presence: usize = bits.read_small(5)?;
    read_custom_trim(bits, presence)
}

fn read_trim_configurations(bits: &mut BitReader) -> (r: Result<Vec<ObjectTrimSettings>, AppError>)
    requires
        old(bits).wf(),
    ensures
        final(bits).wf(),
        match trim_configurations(old(bits)@, TRIM_CONFIGURATIONS as nat) {
            Err(e) => r == Err::<Vec<ObjectTrimSettings>, AppError>(e),
            Ok((settings, rest)) => r is Ok && r->Ok_0@ == settings && settings.len()
                == TRIM_CONFIGURATIONS && final(bits)@ == rest,
        },
{
    let mut settings: Vec<ObjectTrimSettings> = Vec::new();
    let mut i: usize = 0;
    while i < TRIM_CONFIGURATIONS
        invariant
            i <= TRIM_CONFIGURATIONS,
            bits.wf(),
            settings@.len() == i,
            trim_configurations(old(bits)@, TRIM_CONFIGURATIONS as nat) == (
            match trim_configurations(bits@, (TRIM_CONFIGURATIONS - i) as nat) {
                Err(e) => Err(e),
                Ok((others, rest)) => Ok((settings@ + others, rest)),
            }),
        decreases TRIM_CONFIGURATIONS - i,
    {
        let ghost before = settings@;
        match read_trim_configuration(bits) {
            Err(e) => return Err(e),
            Ok(entry) => {
                settings.push(entry);
                proof {
                    match trim_configurations(bits@, (TRIM_CONFIGURATIONS - i - 1) as nat) {
                        Err(_) => {},
                        Ok((others, _)) => {
                            assert(before + (seq![entry] + others) =~= settings@ + others);
                        },
                    }
                }
            },
        }
        i = i + 1;
    }
    assert(settings@ + Seq::<ObjectTrimSettings>::empty() =~= settings@);
    Ok(settings)
}

fn read_global_trim(bits: &mut BitReader, warp_y: bool, mode: usize) -> (r: Result<
    ObjectTrim,
    AppError,
>)
    requires
        old(bits).wf(),
    ensures
        final(bits).wf(),
        match global_trim(old(bits)@, warp_y, mode as nat) {
            Err(e) => r == Err::<ObjectTrim, AppError>(e),
            Ok((trim, rest)) => r == Ok::<ObjectTrim, AppError>(trim) && final(bits)@ == rest,
        },
{
    reveal(global_trim);
    match mode {
        0 => Ok(ObjectTrim::uniform(warp_y, ObjectTrimSettings::plain(ObjectTrimMode::Default))),
        1 => Ok(ObjectTrim::uniform(warp_y, ObjectTrimSettings::plain(ObjectTrimMode::Disabled))),
        2 => {
            let configurations = read_trim_configurations(bits)?;
            Ok(ObjectTrim::from_configurations(warp_y, configurations.as_slice()))
        },
        _ => Err(unsupported(OamdFault::GlobalTrimMode)),
    }
}

fn read_flags(bits: &mut BitReader, count: usize) -> (r: Result<Vec<bool>, AppError>)
    requires
        old(bits).wf(),
    ensures
        final(bits).wf(),
        match flags(old(bits)@, count as nat) {
            Err(e) => r == Err::<Vec<bool>, AppError>(e),
            Ok((read, rest)) => r is Ok && r->Ok_0@ == read && final(bits)@ == rest,
        },
{
    let mut read: Vec<bool> = Vec::new();
    let mut i: usize = 0;
    while i < count
        invariant
            i <= count,
            bits.wf(),
            flags(old(bits)@, count as nat) == (match flags(bits@, (count - i) as nat) {
                Err(e) => Err(e),
                Ok((others, rest)) => Ok((read@ + others, rest)),
            }),
        decreases count - i,
    {
        let ghost before = read@;
        match bits.read_bit() {
            Err(e) => return Err(e),
            Ok(flag) => {
                read.push(flag);
                proof {
                    match flags(bits@, (count - i - 1) as nat) {
                        Err(_) => {},
                        Ok((others, _)) => {
                            assert(before + (seq![flag] + others) =~= read@ + others);
                        },
                    }
                }
            },
        }
        i = i + 1;
    }
    assert(read@ + Seq::<bool>::empty() =~= read@);
    Ok(read)
}

/// Reads a trim element for `object_count` objects.
pub fn read_trim_element(bits: &mut BitReader, object_count: usize) -> (r: Result<DecodedTrim, AppError>)
    requires
        old(bits).wf(),
    ensures
        final(bits).wf(),
        match trim_element(old(bits)@, object_count as nat) {
            Err(e) => r == Err::<DecodedTrim, AppError>(e),
            Ok((trim, rest)) => r is Ok && r->Ok_0@ == trim && final(bits)@ == rest,
        },
{
    reveal(trim_element);
    reveal(disabled_part);
    let warp: usize = bits.read_small(2)?;
    if warp > 1 {
        return Err(unsupported(OamdFault::WarpMode { mode: warp }));
    }
    let reserved: usize = bits.read_small(2)?;
    let mode: usize = bits.read_small(2)?;
    let trim: ObjectTrim = read_global_trim(bits, warp == 1, mode)?;
    let per_object: bool = bits.read_bit()?;
    let disabled_objects: Vec<bool> = if per_object {
        read_flags(bits, object_count)?
    } else {
        Vec::new()
    };
    Ok(DecodedTrim { trim, disabled_objects })
}

/// What the elements of a payload have to know of its program.
pub struct Program {
    pub object_count: nat,
    /// Bed speakers in object order.
    pub beds: Seq<Speaker>,
    /// How many objects of the intermediate spatial format follow the bed.
    pub isf: nat,
    /// The sample offset of the whole payload.
    pub offset: nat,
}

impl Program {
    /// How many objects are not dynamic.
    pub open spec fn fixed(self) -> nat {
        self.beds.len() + self.isf
    }

    /// At most one low-frequency channel, and room for all fixed objects.
    pub open spec fn wf(self) -> bool {
        &&& 1 <= self.object_count <= MAX_OBJECTS
        &&& self.fixed() <= self.object_count
        &&& lfe_indices(self.beds).len() <= 1
        &&& self.isf == 0 || isf_size(self.isf)
    }
}

/// What the elements read so far have told.
pub struct Progress {
    pub element: Option<ElementView>,
    pub trim: Option<TrimView>,
    pub extended: bool,
}

/// The properties of all objects, and how far the elements of a payload came.
pub type ProgressReading = (Seq<ObjectProperties>, Result<Progress, AppError>);

/// The objects that are low-frequency channels.
pub open spec fn lfe_indices(beds: Seq<Speaker>) -> Seq<usize>
    decreases beds.len(),
{
    if beds.len() == 0 {
        seq![]
    } else if beds.last() == Speaker::Lfe {
        lfe_indices(beds.drop_last()).push((beds.len() - 1) as usize)
    } else {
        lfe_indices(beds.drop_last())
    }
}

/// What one element contributes, and the properties that it leaves. Elements with
/// other identifiers are passed over.
#[verifier::opaque]
pub open spec fn element_body(
    b: Bits,
    id: nat,
    program: Program,
    properties: Seq<ObjectProperties>,
    progress: Progress,
) -> ProgressReading {
    if id == 1 {
        if progress.element is Some {
            (properties, Err(unsupported_error(OamdFault::MultipleObjectElements)))
        } else {
            let (kept, read) = object_element(b, properties, program.offset, program.fixed());
            match read {
                Err(e) => (kept, Err(e)),
                Ok((element, _)) => (kept, Ok(Progress { element: Some(element), ..progress })),
            }
        }
    } else if id == 2 {
        if progress.trim is Some {
            (properties, Err(unsupported_error(OamdFault::MultipleTrimElements)))
        } else {
            match trim_element(b, program.object_count) {
                Err(e) => (properties, Err(e)),
                Ok((trim, _)) => (properties, Ok(Progress { trim: Some(trim), ..progress })),
            }
        }
    } else if id == 5 {
        if progress.extended {
            (properties, Err(unsupported_error(OamdFault::MultipleExtendedElements)))
        } else {
            match progress.element {
                None => (properties, Err(unsupported_error(OamdFault::ExtendedFirst))),
                Some(element) => {
                    let (kept, read) = extended_element(
                        b,
                        element.objects,
                        properties,
                        program.fixed(),
                    );
                    match read {
                        Err(e) => (kept, Err(e)),
                        Ok((objects, _)) => (
                            kept,
                            Ok(
                                Progress {
                                    element: Some(ElementView { objects, ..element }),
                                    extended: true,
                                    ..progress
                                },
                            ),
                        ),
                    }
                },
            }
        }
    } else {
        (properties, Ok(progress))
    }
}

/// The kind of alternate object data, where the payload carries any. An object
/// element must not be of another kind.
#[verifier::opaque]
pub open spec fn alternate_info(b: Bits, alternate: bool, id: nat) -> Result<Bits, AppError> {
    if !alternate {
        Ok(b)
    } else {
        match b.field(4) {
            Err(e) => Err(e),
            Ok((kind, rest)) => if id == 1 && kind != 0 {
                Err(unsupported_error(OamdFault::AlternateData { id: kind as usize }))
            } else {
                Ok(rest)
            },
        }
    }
}

/// An element's contents, behind its identifier and size.
#[verifier::opaque]
pub open spec fn element_contents(
    b: Bits,
    id: nat,
    alternate: bool,
    program: Program,
    properties: Seq<ObjectProperties>,
    progress: Progress,
) -> ProgressReading {
    match alternate_info(b, alternate, id) {
        Err(e) => (properties, Err(e)),
        Ok(b1) => match b1.flag() {
            Err(e) => (properties, Err(e)),
            Ok((_, b2)) => element_body(b2, id, program, properties, progress),
        },
    }
}

/// One element: an identifier, a size in bytes, and contents that end where the
/// size says, however much of them was read.
#[verifier::opaque]
pub open spec fn sized_element(
    b: Bits,
    alternate: bool,
    program: Program,
    properties: Seq<ObjectProperties>,
    progress: Progress,
) -> (Seq<ObjectProperties>, Result<(Progress, Bits), AppError>) {
    match b.field(4) {
        Err(e) => (properties, Err(e)),
        Ok((id, b1)) => match b1.variable(4, Some(3)) {
            (Err(e), _) => (properties, Err(e)),
            (Ok(more), b2) => {
                let end = b2.position + 8 * (more + 1);
                if end > b2.limit {
                    (properties, Err(invalid_error(OamdFault::ElementPastPayload)))
                } else {
                    let (kept, read) = element_contents(
                        Bits { limit: end, ..b2 },
                        id,
                        alternate,
                        program,
                        properties,
                        progress,
                    );
                    match read {
                        Err(e) => (kept, Err(e)),
                        Ok(after) => (kept, Ok((after, Bits { position: end, ..b2 }))),
                    }
                }
            },
        },
    }
}

/// The elements that are still to come, and the properties that they leave, also
/// where one fails.
pub open spec fn elements(
    b: Bits,
    count: nat,
    alternate: bool,
    program: Program,
    properties: Seq<ObjectProperties>,
    progress: Progress,
) -> ProgressReading
    decreases count,
{
    if count == 0 {
        (properties, Ok(progress))
    } else {
        let (kept, read) = sized_element(b, alternate, program, properties, progress);
        match read {
            Err(e) => (kept, Err(e)),
            Ok((after, rest)) => elements(
                rest,
                (count - 1) as nat,
                alternate,
                program,
                kept,
                after,
            ),
        }
    }
}

/// The essence channel of an object. The low-frequency channel comes last, behind
/// the essences of all other objects in their order.
pub open spec fn source_channel(lfe: Seq<usize>, object_count: nat, object: nat) -> usize {
    if lfe.len() == 1 {
        if object == lfe[0] {
            (object_count - 1) as usize
        } else if object < lfe[0] {
            object as usize
        } else {
            (object - 1) as usize
        }
    } else {
        object as usize
    }
}

/// The trim of an object: from the trim element, or the default algorithm.
pub open spec fn trim_of(trim: Option<TrimView>, object: nat) -> ObjectTrim {
    match trim {
        None => default_trim(),
        Some(element) => element.of_object(object),
    }
}

/// The state of a bed or dynamic object in a block.
pub open spec fn object_state(program: Program, trim: Option<TrimView>, object: nat, block: ObjectBlock) -> ObjectState {
    let p = block.properties;
    ObjectState {
        source_channel: source_channel(lfe_indices(program.beds), program.object_count, object),
        active: block.active,
        bed_speaker: if object < program.beds.len() {
            Some(program.beds[object as int])
        } else {
            None
        },
        position: if object < program.beds.len() {
            Placement::Speaker { speaker: program.beds[object as int] }
        } else {
            Placement::Room { point: block.refined.renderer(), authored: p.position.renderer() }
        },
        screen: p.anchor(),
        distance: p.distance,
        gain: p.gain,
        size: p.extent(),
        snap: p.snap && !p.screen_anchored,
        zone: p.zone,
        elevation: p.elevation,
        divergence: Scalar::Ratio { numerator: block.divergence as i32, denominator: 1_000_000 },
        trim: trim_of(trim, object),
    }
}

/// The state of an object of the intermediate spatial format in a block.
pub open spec fn isf_state(program: Program, trim: Option<TrimView>, object: nat, block: ObjectBlock) -> IsfState {
    IsfState {
        source_channel: source_channel(lfe_indices(program.beds), program.object_count, object),
        active: block.active,
        gain: block.properties.gain,
        trim: trim_of(trim, object),
    }
}

/// The object that stands at a place of an update's object list, which leaves out
/// the intermediate spatial format.
pub open spec fn listed_object(program: Program, place: int) -> int {
    if place < program.beds.len() { place } else { place + program.isf }
}

/// The update of one block.
pub open spec fn block_update(
    program: Program,
    element: ElementView,
    trim: Option<TrimView>,
    block: int,
) -> UpdateView {
    UpdateView {
        sample_offset: element.timing[block].sample_offset as nat,
        ramp_samples: element.timing[block].ramp_samples as nat,
        bed_speakers: program.beds,
        isf: Seq::new(
            program.isf,
            |j: int|
                isf_state(
                    program,
                    trim,
                    (program.beds.len() + j) as nat,
                    element.objects[program.beds.len() + j][block],
                ),
        ),
        objects: Seq::new(
            (program.object_count - program.isf) as nat,
            |j: int|
                object_state(
                    program,
                    trim,
                    listed_object(program, j) as nat,
                    element.objects[listed_object(program, j)][block],
                ),
        ),
    }
}

/// The updates of a payload: one for each block of its object element.
pub open spec fn block_updates(program: Program, progress: Progress) -> Seq<UpdateView> {
    match progress.element {
        None => seq![],
        Some(element) => Seq::new(
            element.timing.len(),
            |k: int| block_update(program, element, progress.trim, k),
        ),
    }
}

/// The version of a payload.
#[verifier::opaque]
pub open spec fn version_info(b: Bits) -> Result<(nat, Bits), AppError> {
    match b.field(2) {
        Err(e) => Err(e),
        Ok((version, b1)) => if version != 3 {
            Ok((version, b1))
        } else {
            match b1.field(3) {
                Err(e) => Err(e),
                Ok((more, rest)) => Ok((3 + more, rest)),
            }
        },
    }
}

/// The program that a payload describes.
#[verifier::opaque]
pub open spec fn program_info(b: Bits, offset: nat) -> Result<(Program, Bits), AppError> {
    match version_info(b) {
        Err(e) => Err(e),
        Ok((version, b1)) => if version != 0 {
            Err(unsupported_error(OamdFault::Version { version: version as usize }))
        } else {
            match escaped_count(b1) {
                Err(e) => Err(e),
                Ok((more, b2)) => if more + 1 > MAX_OBJECTS {
                    Err(unsupported_error(OamdFault::ObjectCount { count: (more + 1) as usize }))
                } else {
                    match program_assignment(b2, more + 1) {
                        Err(e) => Err(e),
                        Ok(((beds, isf), rest)) => if beds.len() + isf > more + 1 {
                            Err(invalid_error(OamdFault::AssignmentExceedsObjects))
                        } else if lfe_indices(beds).len() > 1 {
                            Err(unsupported_error(OamdFault::TwoLfe))
                        } else {
                            Ok(
                                (
                                    Program {
                                        object_count: more + 1,
                                        beds,
                                        isf: isf as nat,
                                        offset,
                                    },
                                    rest,
                                ),
                            )
                        },
                    }
                },
            }
        },
    }
}

/// A count of up to fifteen, or of fifteen and five more bits.
#[verifier::opaque]
pub open spec fn element_count_info(b: Bits) -> Result<(nat, Bits), AppError> {
    match b.field(4) {
        Err(e) => Err(e),
        Ok((count, b1)) => if count != 15 {
            Ok((count, b1))
        } else {
            match b1.field(5) {
                Err(e) => Err(e),
                Ok((more, rest)) => Ok((15 + more, rest)),
            }
        },
    }
}

/// The properties that a frame starts from: those kept, if they are of as many
/// objects, or the default ones.
pub open spec fn starting_properties(kept: Seq<ObjectProperties>, object_count: nat) -> Seq<ObjectProperties> {
    if kept.len() == object_count {
        kept
    } else {
        Seq::new(object_count, |i: int| default_properties())
    }
}

/// The program of a payload and what its elements tell, with the properties that
/// were kept from the payload before; and the properties that are kept for the
/// next. Once the program is known they are those of its objects, and whatever is
/// read before an error stays in them.
pub open spec fn decoded(kept: Seq<ObjectProperties>, payload: PayloadView) -> (
    Seq<ObjectProperties>,
    Result<(Program, Progress), AppError>,
) {
    let start = Bits { bytes: payload.data, position: 0, limit: payload.bit_len as nat };
    let offset = match payload.sample_offset {
        None => 0nat,
        Some(offset) => offset as nat,
    };
    if payload.id != OAMD_PAYLOAD_ID {
        (kept, Err(invalid_error(OamdFault::PayloadId { found: payload.id })))
    } else {
        match program_info(start, offset) {
            Err(e) => (kept, Err(e)),
            Ok((program, b1)) => {
                let begun = starting_properties(kept, program.object_count);
                match b1.flag() {
                    Err(e) => (begun, Err(e)),
                    Ok((alternate, b2)) => match element_count_info(b2) {
                        Err(e) => (begun, Err(e)),
                        Ok((count, b3)) => {
                            let (left, read) = elements(
                                b3,
                                count,
                                alternate,
                                program,
                                begun,
                                Progress { element: None, trim: None, extended: false },
                            );
                            match read {
                                Err(e) => (left, Err(e)),
                                Ok(progress) => (left, Ok((program, progress))),
                            }
                        },
                    },
                }
            },
        }
    }
}

/// One frame of object metadata.
#[derive(Clone, Debug, PartialEq, Eq)]
pub struct OamdFrame {
    pub object_count: usize,
    /// Number of object essences besides the low-frequency channel.
    pub joc_object_count: usize,
    pub dynamic_object_count: usize,
    /// Bed labels in the same order as the first objects of the program.
    pub bed_speakers: Vec<Speaker>,
    /// Object indexes that use the decoded low-frequency channel.
    pub lfe_object_indices: Vec<usize>,
    pub isf: Option<IsfConfig>,
    pub updates: Vec<SpatialUpdate>,
}

impl OamdFrame {
    /// The frame of a program whose elements left this.
    pub open spec fn describes(self, program: Program, progress: Progress) -> bool {
        let lfe = lfe_indices(program.beds);
        &&& self.object_count == program.object_count
        &&& self.joc_object_count == program.object_count - lfe.len()
        &&& self.dynamic_object_count == program.object_count - program.fixed()
        &&& self.bed_speakers@ == program.beds
        &&& self.lfe_object_indices@ == lfe
        &&& self.isf == (if program.isf == 0 {
            None
        } else {
            Some(
                IsfConfig {
                    start_channel: (program.beds.len() - lfe.len()) as usize,
                    channel_count: program.isf as usize,
                },
            )
        })
        &&& update_views(self.updates@) == block_updates(program, progress)
    }
}

/// The program of a payload.
struct ProgramInfo {
    object_count: usize,
    assignment: ProgramAssignment,
    lfe: Vec<usize>,
    offset: usize,
}

impl ProgramInfo {
    spec fn view(&self) -> Program {
        Program {
            object_count: self.object_count as nat,
            beds: self.assignment.bed_speakers@,
            isf: self.assignment.isf_object_count as nat,
            offset: self.offset as nat,
        }
    }

    spec fn wf(&self) -> bool {
        &&& self@.wf()
        &&& self.lfe@ == lfe_indices(self.assignment.bed_speakers@)
        &&& self.offset <= 0xffff
    }
}

/// What a trim element holds, where there is one.
spec fn optional_trim(trim: Option<DecodedTrim>) -> Option<TrimView> {
    match trim {
        None => None,
        Some(element) => Some(element@),
    }
}

/// What the elements read so far have told.
struct Decoding {
    element: Option<ObjectElement>,
    trim: Option<DecodedTrim>,
    extended: bool,
}

impl Decoding {
    spec fn view(&self) -> Progress {
        Progress {
            element: match self.element {
                None => None,
                Some(element) => Some(element@),
            },
            trim: optional_trim(self.trim),
            extended: self.extended,
        }
    }

    spec fn wf(&self, object_count: nat) -> bool {
        self.element matches Some(element) ==> element@.wf(object_count)
    }
}

fn find_lfe(beds: &Vec<Speaker>) -> (r: Vec<usize>)
    ensures
        r@ == lfe_indices(beds@),
{
    let mut found: Vec<usize> = Vec::new();
    let mut i: usize = 0;
    while i < beds.len()
        invariant
            i <= beds@.len(),
            found@ == lfe_indices(beds@.take(i as int)),
        decreases beds@.len() - i,
    {
        proof {
            let grown = beds@.take(i + 1);
            assert(grown.drop_last() =~= beds@.take(i as int));
            assert(grown.last() == beds@[i as int]);
        }
        if beds[i] == Speaker::Lfe {
            found.push(i);
        }
        i = i + 1;
    }
    assert(beds@.take(i as int) =~= beds@);
    found
}

fn read_version(bits: &mut BitReader) -> (r: Result<usize, AppError>)
    requires
        old(bits).wf(),
    ensures
        final(bits).wf(),
        match version_info(old(bits)@) {
            Err(e) => r == Err::<usize, AppError>(e),
            Ok((version, rest)) => r == Ok::<usize, AppError>(version as usize) && version <= 10
                && final(bits)@ == rest,
        },
{
    reveal(version_info);
    let version: usize = bits.read_small(2)?;
    if version != 3 {
        return Ok(version);
    }
    let more: usize = bits.read_small(3)?;
    Ok(3 + more)
}

fn read_program(bits: &mut BitReader, offset: usize) -> (r: Result<ProgramInfo, AppError>)
    requires
        old(bits).wf(),
        offset <= 0xffff,
    ensures
        final(bits).wf(),
        match program_info(old(bits)@, offset as nat) {
            Err(e) => r == Err::<ProgramInfo, AppError>(e),
            Ok((program, rest)) => r is Ok && r->Ok_0@ == program && r->Ok_0.wf() && final(bits)@
                == rest,
        },
{
    reveal(program_info);
    let version: usize = read_version(bits)?;
    if version != 0 {
        return Err(unsupported(OamdFault::Version { version }));
    }
    let more: usize = read_escaped_count(bits)?;
    let object_count: usize = more + 1;
    if object_count > MAX_OBJECTS {
        return Err(unsupported(OamdFault::ObjectCount { count: object_count }));
    }
    let assignment = ProgramAssignment::read(bits, object_count)?;
    if assignment.bed_speakers.len() + assignment.isf_object_count > object_count {
        return Err(invalid(OamdFault::AssignmentExceedsObjects));
    }
    let lfe = find_lfe(&assignment.bed_speakers);
    if lfe.len() > 1 {
        return Err(unsupported(OamdFault::TwoLfe));
    }
    Ok(ProgramInfo { object_count, assignment, lfe, offset })
}

fn read_element_count(bits: &mut BitReader) -> (r: Result<usize, AppError>)
    requires
        old(bits).wf(),
    ensures
        final(bits).wf(),
        match element_count_info(old(bits)@) {
            Err(e) => r == Err::<usize, AppError>(e),
            Ok((count, rest)) => r == Ok::<usize, AppError>(count as usize) && count <= 46
                && final(bits)@ == rest,
        },
{
    reveal(element_count_info);
    let count: usize = bits.read_small(4)?;
    if count != 15 {
        return Ok(count);
    }
    let more: usize = bits.read_small(5)?;
    Ok(15 + more)
}

/// Reads the contents of one element into the decoding.
fn read_element_body(
    bits: &mut BitReader,
    id: usize,
    program: &ProgramInfo,
    properties: &mut Vec<ObjectProperties>,
    decoding: Decoding,
) -> (r: Result<Decoding, AppError>)
    requires
        old(bits).wf(),
        program.wf(),
        properties_wf(old(properties)@),
        old(properties)@.len() == program@.object_count,
        decoding.wf(program@.object_count),
    ensures
        final(bits).wf(),
        properties_wf(final(properties)@),
        final(properties)@.len() == program@.object_count,
        ({
            let (kept, read) = element_body(
                old(bits)@,
                id as nat,
                program@,
                old(properties)@,
                decoding@,
            );
            final(properties)@ == kept && goes_on(r, read, program@)
        }),
{
    reveal(element_body);
    let fixed: usize = program.assignment.bed_speakers.len() + program.assignment.isf_object_count;
    let mut decoding = decoding;
    if id == 1 {
        if decoding.element.is_some() {
            return Err(unsupported(OamdFault::MultipleObjectElements));
        }
        let element = read_object_element(bits, properties, program.offset, fixed)?;
        decoding.element = Some(element);
        Ok(decoding)
    } else if id == 2 {
        if decoding.trim.is_some() {
            return Err(unsupported(OamdFault::MultipleTrimElements));
        }
        let trim = read_trim_element(bits, program.object_count)?;
        decoding.trim = Some(trim);
        Ok(decoding)
    } else if id == 5 {
        if decoding.extended {
            return Err(unsupported(OamdFault::MultipleExtendedElements));
        }
        let Decoding { element, trim, extended } = decoding;
        match element {
            None => Err(unsupported(OamdFault::ExtendedFirst)),
            Some(element) => {
                let ObjectElement { timing, objects } = element;
                let refined = read_extended_element(
                    bits,
                    objects,
                    properties,
                    fixed,
                    Ghost(timing@.len()),
                )?;
                Ok(
                    Decoding {
                        element: Some(ObjectElement { timing, objects: refined }),
                        trim,
                        extended: true,
                    },
                )
            },
        }
    } else {
        Ok(decoding)
    }
}

/// Whether a decoding has come as far as it should, or failed as it should.
spec fn goes_on(r: Result<Decoding, AppError>, wanted: Result<Progress, AppError>, program: Program) -> bool {
    match wanted {
        Err(e) => r == Err::<Decoding, AppError>(e),
        Ok(progress) => r is Ok && r->Ok_0@ == progress && r->Ok_0.wf(program.object_count),
    }
}

fn read_alternate(bits: &mut BitReader, alternate: bool, id: usize) -> (r: Result<(), AppError>)
    requires
        old(bits).wf(),
    ensures
        final(bits).wf(),
        match alternate_info(old(bits)@, alternate, id as nat) {
            Err(e) => r == Err::<(), AppError>(e),
            Ok(rest) => r is Ok && final(bits)@ == rest,
        },
{
    reveal(alternate_info);
    if !alternate {
        return Ok(());
    }
    let kind: usize = bits.read_small(4)?;
    if id == 1 && kind != 0 {
        return Err(unsupported(OamdFault::AlternateData { id: kind }));
    }
    Ok(())
}

fn read_element_contents(
    bits: &mut BitReader,
    id: usize,
    alternate: bool,
    program: &ProgramInfo,
    properties: &mut Vec<ObjectProperties>,
    decoding: Decoding,
) -> (r: Result<Decoding, AppError>)
    requires
        old(bits).wf(),
        program.wf(),
        properties_wf(old(properties)@),
        old(properties)@.len() == program@.object_count,
        decoding.wf(program@.object_count),
    ensures
        final(bits).wf(),
        properties_wf(final(properties)@),
        final(properties)@.len() == program@.object_count,
        ({
            let (kept, read) = element_contents(
                old(bits)@,
                id as nat,
                alternate,
                program@,
                old(properties)@,
                decoding@,
            );
            final(properties)@ == kept && goes_on(r, read, program@)
        }),
{
    reveal(element_contents);
    read_alternate(bits, alternate, id)?;
    let discard: bool = bits.read_bit()?;
    read_element_body(bits, id, program, properties, decoding)
}

/// Reads one element. The reader is made anew for the contents, so that nothing
/// read there moves the payload's own position.
fn read_sized_element(
    bits: &mut BitReader,
    alternate: bool,
    program: &ProgramInfo,
    properties: &mut Vec<ObjectProperties>,
    decoding: Decoding,
) -> (r: Result<Decoding, AppError>)
    requires
        old(bits).wf(),
        program.wf(),
        properties_wf(old(properties)@),
        old(properties)@.len() == program@.object_count,
        decoding.wf(program@.object_count),
    ensures
        final(bits).wf(),
        properties_wf(final(properties)@),
        final(properties)@.len() == program@.object_count,
        ({
            let (kept, read) = sized_element(
                old(bits)@,
                alternate,
                program@,
                old(properties)@,
                decoding@,
            );
            &&& final(properties)@ == kept
            &&& match read {
                Err(e) => r == Err::<Decoding, AppError>(e),
                Ok((progress, rest)) => r is Ok && r->Ok_0@ == progress && r->Ok_0.wf(
                    program@.object_count,
                ) && final(bits)@ == rest,
            }
        }),
{
    reveal(sized_element);
    let id: usize = bits.read_small(4)?;
    proof {
        crate::eac3::lemma_variable_advances(bits@, 4, Some(3), 0, 0);
    }
    let more: u32 = bits.variable(4, Some(3))?;
    let position: usize = bits.position();
    let limit: usize = bits.limit();
    let size: u64 = 8 * (more as u64 + 1);
    if position > limit || size > (limit - position) as u64 {
        return Err(invalid(OamdFault::ElementPastPayload));
    }
    let end: usize = position + size as usize;
    let mut contents = bits.section(end);
    let after = read_element_contents(&mut contents, id, alternate, program, properties, decoding)?;
    match bits.set_position(end) {
        Err(e) => return Err(e),
        Ok(_) => {},
    }
    Ok(after)
}

/// Looks up an object's essence channel.
fn find_source_channel(program: &ProgramInfo, object: usize) -> (r: usize)
    requires
        program.wf(),
        object < program.object_count,
    ensures
        r == source_channel(lfe_indices(program@.beds), program@.object_count, object as nat),
{
    if program.lfe.len() == 1 {
        let lfe: usize = program.lfe[0];
        if object == lfe {
            program.object_count - 1
        } else if object < lfe {
            object
        } else {
            object - 1
        }
    } else {
        object
    }
}

fn find_trim(trim: &Option<DecodedTrim>, object: usize) -> (r: ObjectTrim)
    ensures
        r == trim_of(
            optional_trim(*trim),
            object as nat,
        ),
{
    match trim {
        None => ObjectTrim::default_algorithm(),
        Some(element) => element.for_object(object),
    }
}

fn make_object_state(program: &ProgramInfo, trim: &Option<DecodedTrim>, object: usize, block: ObjectBlock) -> (r: ObjectState)
    requires
        program.wf(),
        object < program.object_count,
        block.wf(),
    ensures
        r == object_state(
            program@,
            optional_trim(*trim),
            object as nat,
            block,
        ),
{
    let p: ObjectProperties = block.properties;
    let beds: &Vec<Speaker> = &program.assignment.bed_speakers;
    let bed_speaker: Option<Speaker> = if object < beds.len() { Some(beds[object]) } else { None };
    let position: Placement = match bed_speaker {
        Some(speaker) => Placement::Speaker { speaker },
        None => Placement::Room { point: block.refined.point(), authored: p.position.point() },
    };
    let screen: Option<ScreenAnchor> = if p.screen_anchored {
        Some(
            ScreenAnchor {
                factor: Scalar::Ratio { numerator: p.screen_factor as i32, denominator: 8 },
                depth: Scalar::Ratio { numerator: p.depth_factor as i32, denominator: 4 },
            },
        )
    } else {
        None
    };
    ObjectState {
        source_channel: find_source_channel(program, object),
        active: block.active,
        bed_speaker,
        position,
        screen,
        distance: p.distance,
        gain: p.gain,
        size: Extent {
            width: Scalar::Ratio { numerator: p.width as i32, denominator: 31 },
            depth: Scalar::Ratio { numerator: p.depth as i32, denominator: 31 },
            height: Scalar::Ratio { numerator: p.height as i32, denominator: 31 },
        },
        snap: p.snap && !p.screen_anchored,
        zone: p.zone,
        elevation: p.elevation,
        divergence: Scalar::Ratio { numerator: block.divergence as i32, denominator: 1_000_000 },
        trim: find_trim(trim, object),
    }
}

fn copy_speakers(speakers: &Vec<Speaker>) -> (r: Vec<Speaker>)
    ensures
        r@ == speakers@,
{
    let mut copy: Vec<Speaker> = Vec::new();
    let mut i: usize = 0;
    while i < speakers.len()
        invariant
            i <= speakers@.len(),
            copy@ =~= speakers@.take(i as int),
        decreases speakers@.len() - i,
    {
        copy.push(speakers[i]);
        i = i + 1;
    }
    assert(speakers@.take(i as int) =~= speakers@);
    copy
}

/// Makes the update of one block.
fn make_update(program: &ProgramInfo, element: &ObjectElement, trim: &Option<DecodedTrim>, block: usize) -> (r: SpatialUpdate)
    requires
        program.wf(),
        element@.wf(program@.object_count),
        block < element.timing@.len(),
    ensures
        r@ == block_update(
            program@,
            element@,
            optional_trim(*trim),
            block as int,
        ),
{
    let ghost trim_view = optional_trim(*trim);
    let ghost expected = block_update(program@, element@, trim_view, block as int);
    let beds: usize = program.assignment.bed_speakers.len();
    let isf_count: usize = program.assignment.isf_object_count;
    let mut isf: Vec<IsfState> = Vec::new();
    let mut objects: Vec<ObjectState> = Vec::new();
    let mut i: usize = 0;
    while i < program.object_count
        invariant
            i <= program.object_count,
            program.wf(),
            element@.wf(program@.object_count),
            block < element.timing@.len(),
            beds == program@.beds.len(),
            isf_count == program@.isf,
            trim_view == optional_trim(*trim),
            expected == block_update(program@, element@, trim_view, block as int),
            isf@.len() == (if i < beds { 0 } else if i < beds + isf_count { i - beds } else {
                isf_count as int
            }),
            objects@.len() == i - isf@.len(),
            forall|j: int| 0 <= j < isf@.len() ==> #[trigger] isf@[j] == expected.isf[j],
            forall|j: int|
                0 <= j < objects@.len() ==> #[trigger] objects@[j] == expected.objects[j],
        decreases program.object_count - i,
    {
        let blocks: &Vec<ObjectBlock> = &element.objects[i];
        assert(element@.objects[i as int] == blocks@);
        let entry: ObjectBlock = blocks[block];
        assert(entry.wf());
        if i >= beds && i < beds + isf_count {
            isf.push(
                IsfState {
                    source_channel: find_source_channel(program, i),
                    active: entry.active,
                    gain: entry.properties.gain,
                    trim: find_trim(trim, i),
                },
            );
        } else {
            assert(listed_object(program@, objects@.len() as int) == i);
            objects.push(make_object_state(program, trim, i, entry));
        }
        i = i + 1;
    }
    let timing: BlockTiming = element.timing[block];
    let update = SpatialUpdate {
        sample_offset: timing.sample_offset,
        ramp_samples: timing.ramp_samples,
        bed_speakers: copy_speakers(&program.assignment.bed_speakers),
        isf,
        objects,
    };
    assert(update.isf@ =~= expected.isf);
    assert(update.objects@ =~= expected.objects);
    update
}

/// Makes the updates of a decoded payload.
fn make_updates(program: &ProgramInfo, decoding: &Decoding) -> (r: Vec<SpatialUpdate>)
    requires
        program.wf(),
        decoding.wf(program@.object_count),
    ensures
        update_views(r@) == block_updates(program@, decoding@),
{
    let ghost expected = block_updates(program@, decoding@);
    let mut updates: Vec<SpatialUpdate> = Vec::new();
    match &decoding.element {
        None => {},
        Some(element) => {
            let mut k: usize = 0;
            while k < element.timing.len()
                invariant
                    k <= element.timing@.len(),
                    program.wf(),
                    decoding.element == Some(*element),
                    element@.wf(program@.object_count),
                    expected == block_updates(program@, decoding@),
                    updates@.len() == k,
                    forall|j: int| 0 <= j < k ==> (#[trigger] updates@[j])@ == expected[j],
                decreases element.timing@.len() - k,
            {
                updates.push(make_update(program, element, &decoding.trim, k));
                k = k + 1;
            }
        },
    }
    assert(update_views(updates@) =~= expected);
    updates
}

/// Decodes object metadata, keeping the properties that later payloads may reuse.
#[derive(Clone, Debug)]
pub struct OamdDecoder {
    pub properties: Vec<ObjectProperties>,
}

impl Default for OamdDecoder {
    fn default() -> (r: Self)
        ensures
            r.properties@ == Seq::<ObjectProperties>::empty(),
    {
        OamdDecoder { properties: Vec::new() }
    }
}

impl OamdDecoder {
    pub open spec fn wf(&self) -> bool {
        properties_wf(self.properties@)
    }

    pub fn new() -> (r: Self)
        ensures
            r.properties@ == Seq::<ObjectProperties>::empty(),
            r.wf(),
    {
        OamdDecoder { properties: Vec::new() }
    }

    /// The properties to start a frame of `object_count` objects from.
    fn start(&self, object_count: usize) -> (r: Vec<ObjectProperties>)
        requires
            self.wf(),
        ensures
            r@ == starting_properties(self.properties@, object_count as nat),
            r@.len() == object_count,
            properties_wf(r@),
    {
        let reuse: bool = self.properties.len() == object_count;
        let mut start: Vec<ObjectProperties> = Vec::new();
        let mut i: usize = 0;
        while i < object_count
            invariant
                i <= object_count,
                self.wf(),
                reuse == (self.properties@.len() == object_count),
                properties_wf(start@),
                start@ =~= starting_properties(self.properties@, object_count as nat).take(
                    i as int,
                ),
            decreases object_count - i,
        {
            if reuse {
                start.push(self.properties[i]);
            } else {
                start.push(ObjectProperties::default());
            }
            i = i + 1;
        }
        assert(start@ =~= starting_properties(self.properties@, object_count as nat));
        start
    }

    /// Decodes one payload. What was read of the objects before an error stays with
    /// the properties kept for later payloads.
    pub fn decode(&mut self, payload: &MetadataPayload) -> (r: Result<OamdFrame, AppError>)
        requires
            old(self).wf(),
            8 * payload.data@.len() <= usize::MAX,
            payload.bit_len <= 8 * payload.data@.len(),
        ensures
            final(self).wf(),
            ({
                let (kept, read) = decoded(old(self).properties@, payload@);
                &&& final(self).properties@ == kept
                &&& match read {
                    Err(e) => r == Err::<OamdFrame, AppError>(e),
                    Ok((program, progress)) => r is Ok && program.wf() && r->Ok_0.describes(
                        program,
                        progress,
                    ),
                }
            }),
    {
        if payload.id != OAMD_PAYLOAD_ID {
            return Err(invalid(OamdFault::PayloadId { found: payload.id }));
        }
        let offset: usize = match payload.sample_offset {
            None => 0,
            Some(offset) => offset as usize,
        };
        let mut bits = payload.bits();
        let program = read_program(&mut bits, offset)?;
        self.properties = self.start(program.object_count);
        let alternate: bool = bits.read_bit()?;
        let count: usize = read_element_count(&mut bits)?;
        let mut decoding = Decoding { element: None, trim: None, extended: false };
        let ghost whole = elements(
            bits@,
            count as nat,
            alternate,
            program@,
            self.properties@,
            decoding@,
        );
        let mut i: usize = 0;
        while i < count
            invariant
                i <= count,
                bits.wf(),
                program.wf(),
                decoding.wf(program@.object_count),
                properties_wf(self.properties@),
                self.properties@.len() == program@.object_count,
                whole == elements(
                    bits@,
                    (count - i) as nat,
                    alternate,
                    program@,
                    self.properties@,
                    decoding@,
                ),
                decoded(old(self).properties@, payload@) == (
                    whole.0,
                    match whole.1 {
                        Err(e) => Err(e),
                        Ok(progress) => Ok((program@, progress)),
                    },
                ),
            decreases count - i,
        {
            match read_sized_element(
                &mut bits,
                alternate,
                &program,
                &mut self.properties,
                decoding,
            ) {
                Err(e) => return Err(e),
                Ok(after) => {
                    decoding = after;
                },
            }
            i = i + 1;
        }
        let updates = make_updates(&program, &decoding);
        let lfe_count: usize = program.lfe.len();
        let beds: usize = program.assignment.bed_speakers.len();
        let isf_count: usize = program.assignment.isf_object_count;
        proof {
            lemma_lfe_count(program@.beds);
        }
        let isf: Option<IsfConfig> = if isf_count == 0 {
            None
        } else {
            Some(IsfConfig::new(beds - lfe_count, isf_count)?)
        };
        let ProgramInfo { object_count, assignment, lfe, offset } = program;
        Ok(
            OamdFrame {
                object_count,
                joc_object_count: object_count - lfe_count,
                dynamic_object_count: object_count - (beds + isf_count),
                bed_speakers: assignment.bed_speakers,
                lfe_object_indices: lfe,
                isf,
                updates,
            },
        )
    }
}

/// There are no more low-frequency channels than bed channels, and each index
/// points at one.
pub proof fn lemma_lfe_count(beds: Seq<Speaker>)
    ensures
        lfe_indices(beds).len() <= beds.len(),
        forall|i: int|
            0 <= i < lfe_indices(beds).len() ==> (#[trigger] lfe_indices(beds)[i]) < beds.len(),
    decreases beds.len(),
{
    if beds.len() > 0 {
        lemma_lfe_count(beds.drop_last());
    }
}

/// The essence channels of different objects differ, and all lie below the object
/// count: they are a reordering of the objects.
pub proof fn law_source_channels_are_a_reordering(program: Program, first: nat, second: nat)
    requires
        program.wf(),
        first < program.object_count,
        second < program.object_count,
        program.object_count <= usize::MAX,
    ensures
        source_channel(lfe_indices(program.beds), program.object_count, first)
            < program.object_count,
        source_channel(lfe_indices(program.beds), program.object_count, first) == source_channel(
            lfe_indices(program.beds),
            program.object_count,
            second,
        ) ==> first == second,
{
    lemma_lfe_count(program.beds);
}

/// Every update of a payload speaks of every object exactly once: as many bed and
/// dynamic states as there are such objects, and the rest as intermediate spatial
/// format states.
pub proof fn law_updates_cover_all_objects(program: Program, progress: Progress, k: int)
    requires
        program.wf(),
        0 <= k < block_updates(program, progress).len(),
    ensures
        block_updates(program, progress)[k].objects.len() + block_updates(
            program,
            progress,
        )[k].isf.len() == program.object_count,
        block_updates(program, progress)[k].bed_speakers == program.beds,
{
}

/// A speaker if a mask has the bit of some weight, and else nothing.
pub open spec fn if_masked(mask: nat, weight: nat, speaker: Speaker) -> Seq<Speaker> {
    if mask / weight % 2 == 1 {
        seq![speaker]
    } else {
        seq![]
    }
}

/// A nonstandard mask has one bit for every speaker, and lists those that it has in
/// the order of the bits: the front, the low-frequency channel, the sides, the rear,
/// the three rows overhead, the wides, and a second low-frequency channel.
pub proof fn law_nonstandard_beds_list_one_speaker_a_bit(mask: nat)
    ensures
        nonstandard_bed(mask, 0) == if_masked(mask, 1, Speaker::FrontLeft) + (
        if_masked(mask, 2, Speaker::FrontRight) + (
        if_masked(mask, 4, Speaker::FrontCenter) + (
        if_masked(mask, 8, Speaker::Lfe) + (
        if_masked(mask, 16, Speaker::SideLeft) + (
        if_masked(mask, 32, Speaker::SideRight) + (
        if_masked(mask, 64, Speaker::RearLeft) + (
        if_masked(mask, 128, Speaker::RearRight) + (
        if_masked(mask, 256, Speaker::TopFrontLeft) + (
        if_masked(mask, 512, Speaker::TopFrontRight) + (
        if_masked(mask, 1024, Speaker::TopSideLeft) + (
        if_masked(mask, 2048, Speaker::TopSideRight) + (
        if_masked(mask, 4096, Speaker::TopRearLeft) + (
        if_masked(mask, 8192, Speaker::TopRearRight) + (
        if_masked(mask, 16384, Speaker::WideLeft) + (
        if_masked(mask, 32768, Speaker::WideRight) + (
        if_masked(mask, 65536, Speaker::Lfe))))))))))))))))),
{
    lemma_nonstandard_step(mask, 0);
    assert(mask / 1 == mask);
    lemma_nonstandard_step(mask / 2, 1);
    assert(mask / 2 / 2 == mask / 4);
    lemma_nonstandard_step(mask / 4, 2);
    assert(mask / 4 / 2 == mask / 8);
    lemma_nonstandard_step(mask / 8, 3);
    assert(mask / 8 / 2 == mask / 16);
    lemma_nonstandard_step(mask / 16, 4);
    assert(mask / 16 / 2 == mask / 32);
    lemma_nonstandard_step(mask / 32, 5);
    assert(mask / 32 / 2 == mask / 64);
    lemma_nonstandard_step(mask / 64, 6);
    assert(mask / 64 / 2 == mask / 128);
    lemma_nonstandard_step(mask / 128, 7);
    assert(mask / 128 / 2 == mask / 256);
    lemma_nonstandard_step(mask / 256, 8);
    assert(mask / 256 / 2 == mask / 512);
    lemma_nonstandard_step(mask / 512, 9);
    assert(mask / 512 / 2 == mask / 1024);
    lemma_nonstandard_step(mask / 1024, 10);
    assert(mask / 1024 / 2 == mask / 2048);
    lemma_nonstandard_step(mask / 2048, 11);
    assert(mask / 2048 / 2 == mask / 4096);
    lemma_nonstandard_step(mask / 4096, 12);
    assert(mask / 4096 / 2 == mask / 8192);
    lemma_nonstandard_step(mask / 8192, 13);
    assert(mask / 8192 / 2 == mask / 16384);
    lemma_nonstandard_step(mask / 16384, 14);
    assert(mask / 16384 / 2 == mask / 32768);
    lemma_nonstandard_step(mask / 32768, 15);
    assert(mask / 32768 / 2 == mask / 65536);
    lemma_nonstandard_step(mask / 65536, 16);
    assert(mask / 65536 / 2 == mask / 131072);
    assert(nonstandard_bed(mask / 131072, 17) =~= Seq::<Speaker>::empty());
    assert(nonstandard_bed(mask / 65536, 16) =~= if_masked(mask, 65536, Speaker::Lfe));
    assert(nonstandard_bed(mask / 32768, 15) == if_masked(mask, 32768, Speaker::WideRight) + nonstandard_bed(mask / 65536, 16));
    assert(nonstandard_bed(mask / 16384, 14) == if_masked(mask, 16384, Speaker::WideLeft) + nonstandard_bed(mask / 32768, 15));
    assert(nonstandard_bed(mask / 8192, 13) == if_masked(mask, 8192, Speaker::TopRearRight) + nonstandard_bed(mask / 16384, 14));
    assert(nonstandard_bed(mask / 4096, 12) == if_masked(mask, 4096, Speaker::TopRearLeft) + nonstandard_bed(mask / 8192, 13));
    assert(nonstandard_bed(mask / 2048, 11) == if_masked(mask, 2048, Speaker::TopSideRight) + nonstandard_bed(mask / 4096, 12));
    assert(nonstandard_bed(mask / 1024, 10) == if_masked(mask, 1024, Speaker::TopSideLeft) + nonstandard_bed(mask / 2048, 11));
    assert(nonstandard_bed(mask / 512, 9) == if_masked(mask, 512, Speaker::TopFrontRight) + nonstandard_bed(mask / 1024, 10));
    assert(nonstandard_bed(mask / 256, 8) == if_masked(mask, 256, Speaker::TopFrontLeft) + nonstandard_bed(mask / 512, 9));
    assert(nonstandard_bed(mask / 128, 7) == if_masked(mask, 128, Speaker::RearRight) + nonstandard_bed(mask / 256, 8));
    assert(nonstandard_bed(mask / 64, 6) == if_masked(mask, 64, Speaker::RearLeft) + nonstandard_bed(mask / 128, 7));
    assert(nonstandard_bed(mask / 32, 5) == if_masked(mask, 32, Speaker::SideRight) + nonstandard_bed(mask / 64, 6));
    assert(nonstandard_bed(mask / 16, 4) == if_masked(mask, 16, Speaker::SideLeft) + nonstandard_bed(mask / 32, 5));
    assert(nonstandard_bed(mask / 8, 3) == if_masked(mask, 8, Speaker::Lfe) + nonstandard_bed(mask / 16, 4));
    assert(nonstandard_bed(mask / 4, 2) == if_masked(mask, 4, Speaker::FrontCenter) + nonstandard_bed(mask / 8, 3));
    assert(nonstandard_bed(mask / 2, 1) == if_masked(mask, 2, Speaker::FrontRight) + nonstandard_bed(mask / 4, 2));
    assert(nonstandard_bed(mask, 0) == if_masked(mask, 1, Speaker::FrontLeft) + nonstandard_bed(mask / 2, 1));
}

proof fn lemma_nonstandard_step(rest: nat, bit: nat)
    requires
        bit < 17,
    ensures
        nonstandard_bed(rest, bit) == (if rest % 2 == 1 {
            seq![nonstandard_labels()[bit as int]]
        } else {
            seq![]
        }) + nonstandard_bed(rest / 2, bit + 1),
{
}

proof fn lemma_standard_step(rest: nat, bit: nat)
    requires
        bit < 10,
    ensures
        standard_bed(rest, bit) == (if rest % 2 == 1 {
            standard_labels(bit)
        } else {
            seq![]
        }) + standard_bed(rest / 2, bit + 1),
{
}

/// The nonstandard mask that has the same channels as a standard one, which has a
/// bit for every pair.
pub open spec fn spelled_out(mask: nat) -> nat {
    3 * (mask / 1 % 2) + 4 * (mask / 2 % 2) + 8 * (mask / 4 % 2) + 48 * (mask / 8 % 2) + 192 * (mask / 16 % 2) + 768 * (mask / 32 % 2) + 3072 * (mask / 64 % 2) + 12288 * (mask / 128 % 2) + 49152 * (mask / 256 % 2) + 65536 * (mask / 512 % 2)
}

proof fn lemma_weighed_bit(low: nat, weight: nat, bit: nat, high: nat)
    requires
        low < weight,
        bit <= 1,
    ensures
        (low + weight * (bit + 2 * high)) / weight % 2 == bit,
{
    let q = (bit + 2 * high) as int;
    let whole = low + weight * q;
    assert(q * weight == weight * q) by (nonlinear_arith);
    vstd::arithmetic::div_mod::lemma_fundamental_div_mod_converse(
        whole as int,
        weight as int,
        q,
        low as int,
    );
}

/// Every bit of the longer mask is that of its pair.
proof fn lemma_spelled_out(mask: nat)
    ensures
        spelled_out(mask) / 1 % 2 == mask / 1 % 2,
        spelled_out(mask) / 2 % 2 == mask / 1 % 2,
        spelled_out(mask) / 4 % 2 == mask / 2 % 2,
        spelled_out(mask) / 8 % 2 == mask / 4 % 2,
        spelled_out(mask) / 16 % 2 == mask / 8 % 2,
        spelled_out(mask) / 32 % 2 == mask / 8 % 2,
        spelled_out(mask) / 64 % 2 == mask / 16 % 2,
        spelled_out(mask) / 128 % 2 == mask / 16 % 2,
        spelled_out(mask) / 256 % 2 == mask / 32 % 2,
        spelled_out(mask) / 512 % 2 == mask / 32 % 2,
        spelled_out(mask) / 1024 % 2 == mask / 64 % 2,
        spelled_out(mask) / 2048 % 2 == mask / 64 % 2,
        spelled_out(mask) / 4096 % 2 == mask / 128 % 2,
        spelled_out(mask) / 8192 % 2 == mask / 128 % 2,
        spelled_out(mask) / 16384 % 2 == mask / 256 % 2,
        spelled_out(mask) / 32768 % 2 == mask / 256 % 2,
        spelled_out(mask) / 65536 % 2 == mask / 512 % 2,
{
    let x0 = mask / 1 % 2;
    let x1 = mask / 2 % 2;
    let x2 = mask / 4 % 2;
    let x3 = mask / 8 % 2;
    let x4 = mask / 16 % 2;
    let x5 = mask / 32 % 2;
    let x6 = mask / 64 % 2;
    let x7 = mask / 128 % 2;
    let x8 = mask / 256 % 2;
    let x9 = mask / 512 % 2;
    lemma_weighed_bit((0) as nat, 1, x0, (1 * x0 + 2 * x1 + 4 * x2 + 24 * x3 + 96 * x4 + 384 * x5 + 1536 * x6 + 6144 * x7 + 24576 * x8 + 32768 * x9) as nat);
    lemma_weighed_bit((1 * x0) as nat, 2, x0, (1 * x1 + 2 * x2 + 12 * x3 + 48 * x4 + 192 * x5 + 768 * x6 + 3072 * x7 + 12288 * x8 + 16384 * x9) as nat);
    lemma_weighed_bit((3 * x0) as nat, 4, x1, (1 * x2 + 6 * x3 + 24 * x4 + 96 * x5 + 384 * x6 + 1536 * x7 + 6144 * x8 + 8192 * x9) as nat);
    lemma_weighed_bit((3 * x0 + 4 * x1) as nat, 8, x2, (3 * x3 + 12 * x4 + 48 * x5 + 192 * x6 + 768 * x7 + 3072 * x8 + 4096 * x9) as nat);
    lemma_weighed_bit((3 * x0 + 4 * x1 + 8 * x2) as nat, 16, x3, (1 * x3 + 6 * x4 + 24 * x5 + 96 * x6 + 384 * x7 + 1536 * x8 + 2048 * x9) as nat);
    lemma_weighed_bit((3 * x0 + 4 * x1 + 8 * x2 + 16 * x3) as nat, 32, x3, (3 * x4 + 12 * x5 + 48 * x6 + 192 * x7 + 768 * x8 + 1024 * x9) as nat);
    lemma_weighed_bit((3 * x0 + 4 * x1 + 8 * x2 + 48 * x3) as nat, 64, x4, (1 * x4 + 6 * x5 + 24 * x6 + 96 * x7 + 384 * x8 + 512 * x9) as nat);
    lemma_weighed_bit((3 * x0 + 4 * x1 + 8 * x2 + 48 * x3 + 64 * x4) as nat, 128, x4, (3 * x5 + 12 * x6 + 48 * x7 + 192 * x8 + 256 * x9) as nat);
    lemma_weighed_bit((3 * x0 + 4 * x1 + 8 * x2 + 48 * x3 + 192 * x4) as nat, 256, x5, (1 * x5 + 6 * x6 + 24 * x7 + 96 * x8 + 128 * x9) as nat);
    lemma_weighed_bit((3 * x0 + 4 * x1 + 8 * x2 + 48 * x3 + 192 * x4 + 256 * x5) as nat, 512, x5, (3 * x6 + 12 * x7 + 48 * x8 + 64 * x9) as nat);
    lemma_weighed_bit((3 * x0 + 4 * x1 + 8 * x2 + 48 * x3 + 192 * x4 + 768 * x5) as nat, 1024, x6, (1 * x6 + 6 * x7 + 24 * x8 + 32 * x9) as nat);
    lemma_weighed_bit((3 * x0 + 4 * x1 + 8 * x2 + 48 * x3 + 192 * x4 + 768 * x5 + 1024 * x6) as nat, 2048, x6, (3 * x7 + 12 * x8 + 16 * x9) as nat);
    lemma_weighed_bit((3 * x0 + 4 * x1 + 8 * x2 + 48 * x3 + 192 * x4 + 768 * x5 + 3072 * x6) as nat, 4096, x7, (1 * x7 + 6 * x8 + 8 * x9) as nat);
    lemma_weighed_bit((3 * x0 + 4 * x1 + 8 * x2 + 48 * x3 + 192 * x4 + 768 * x5 + 3072 * x6 + 4096 * x7) as nat, 8192, x7, (3 * x8 + 4 * x9) as nat);
    lemma_weighed_bit((3 * x0 + 4 * x1 + 8 * x2 + 48 * x3 + 192 * x4 + 768 * x5 + 3072 * x6 + 12288 * x7) as nat, 16384, x8, (1 * x8 + 2 * x9) as nat);
    lemma_weighed_bit((3 * x0 + 4 * x1 + 8 * x2 + 48 * x3 + 192 * x4 + 768 * x5 + 3072 * x6 + 12288 * x7 + 16384 * x8) as nat, 32768, x8, (1 * x9) as nat);
    lemma_weighed_bit((3 * x0 + 4 * x1 + 8 * x2 + 48 * x3 + 192 * x4 + 768 * x5 + 3072 * x6 + 12288 * x7 + 49152 * x8) as nat, 65536, x9, (0) as nat);
}

/// A standard mask abbreviates the nonstandard mask with the same channels: both
/// list the same speakers in the same order.
#[verifier::spinoff_prover]
#[verifier::rlimit(60)]
pub proof fn law_standard_beds_abbreviate_nonstandard_ones(mask: nat)
    ensures
        standard_bed(mask, 0) == nonstandard_bed(spelled_out(mask), 0),
{
    let full = spelled_out(mask);
    lemma_spelled_out(mask);
    law_nonstandard_beds_list_one_speaker_a_bit(full);
    lemma_standard_step(mask, 0);
    assert(mask / 1 == mask);
    lemma_standard_step(mask / 2, 1);
    assert(mask / 2 / 2 == mask / 4);
    lemma_standard_step(mask / 4, 2);
    assert(mask / 4 / 2 == mask / 8);
    lemma_standard_step(mask / 8, 3);
    assert(mask / 8 / 2 == mask / 16);
    lemma_standard_step(mask / 16, 4);
    assert(mask / 16 / 2 == mask / 32);
    lemma_standard_step(mask / 32, 5);
    assert(mask / 32 / 2 == mask / 64);
    lemma_standard_step(mask / 64, 6);
    assert(mask / 64 / 2 == mask / 128);
    lemma_standard_step(mask / 128, 7);
    assert(mask / 128 / 2 == mask / 256);
    lemma_standard_step(mask / 256, 8);
    assert(mask / 256 / 2 == mask / 512);
    lemma_standard_step(mask / 512, 9);
    assert(mask / 512 / 2 == mask / 1024);
    assert(standard_bed(mask / 1024, 10) =~= Seq::<Speaker>::empty());
    assert(standard_bed(mask / 512, 9) =~= if_masked(full, 65536, Speaker::Lfe));
    assert(standard_bed(mask / 256, 8) =~= if_masked(full, 16384, Speaker::WideLeft) + (if_masked(full, 32768, Speaker::WideRight) + standard_bed(mask / 512, 9)));
    assert(standard_bed(mask / 128, 7) =~= if_masked(full, 4096, Speaker::TopRearLeft) + (if_masked(full, 8192, Speaker::TopRearRight) + standard_bed(mask / 256, 8)));
    assert(standard_bed(mask / 64, 6) =~= if_masked(full, 1024, Speaker::TopSideLeft) + (if_masked(full, 2048, Speaker::TopSideRight) + standard_bed(mask / 128, 7)));
    assert(standard_bed(mask / 32, 5) =~= if_masked(full, 256, Speaker::TopFrontLeft) + (if_masked(full, 512, Speaker::TopFrontRight) + standard_bed(mask / 64, 6)));
    assert(standard_bed(mask / 16, 4) =~= if_masked(full, 64, Speaker::RearLeft) + (if_masked(full, 128, Speaker::RearRight) + standard_bed(mask / 32, 5)));
    assert(standard_bed(mask / 8, 3) =~= if_masked(full, 16, Speaker::SideLeft) + (if_masked(full, 32, Speaker::SideRight) + standard_bed(mask / 16, 4)));
    assert(standard_bed(mask / 4, 2) =~= if_masked(full, 8, Speaker::Lfe) + standard_bed(mask / 8, 3));
    assert(standard_bed(mask / 2, 1) =~= if_masked(full, 4, Speaker::FrontCenter) + standard_bed(mask / 4, 2));
    assert(standard_bed(mask, 0) =~= if_masked(full, 1, Speaker::FrontLeft) + (if_masked(full, 2, Speaker::FrontRight) + standard_bed(mask / 2, 1)));
}

/// A coded gain stands at fixed places. Two bits say unity, silence, a level of its
/// own or that of the object before; a level of its own has six bits more, which
/// run down from 15 decibels by whole ones and leave out zero.
pub proof fn law_gain_codes_run_down(b: Bits, previous: Gain)
    requires
        b.remaining() >= 8,
    ensures
        gain_info(b, previous) is Ok,
        ({
            let mode = bits_value(b.bytes, b.position as int, 2);
            let code = bits_value(b.bytes, (b.position + 2) as int, 6);
            let (gain, rest) = gain_info(b, previous)->Ok_0;
            &&& mode == 0 ==> gain == (Gain::Decibels { db: 0 })
            &&& mode == 1 ==> gain is Silent
            &&& mode == 3 ==> gain == previous
            &&& mode == 2 ==> gain is Decibels && -49 <= gain->db <= 15 && gain->db != 0
            &&& mode == 2 && gain->db > 0 ==> gain->db + code == 15
            &&& mode == 2 && gain->db < 0 ==> gain->db + code == 14
            &&& rest == b.advanced(if mode == 2 { 8 } else { 2 })
        }),
{
    reveal(gain_info);
    vstd::arithmetic::power2::lemma2_to64();
    lemma_bits_value_bound(b.bytes, b.position as int, 2);
    lemma_bits_value_bound(b.bytes, (b.position + 2) as int, 6);
    assert(b.advanced(2).advanced(6) == b.advanced(8));
}

/// The room is mapped evenly onto the renderer's axes: the middle is the origin, the
/// walls are one away, and left becomes minus, while the front becomes plus.
pub proof fn law_the_room_is_mapped_evenly(p: RoomPosition)
    requires
        p.wf(),
    ensures
        p.renderer().x matches Scalar::Ratio { numerator, denominator } && denominator > 0
            && numerator * 155 == (p.x - 155) * denominator,
        p.renderer().y matches Scalar::Ratio { numerator, denominator } && denominator > 0
            && numerator * 155 == (155 - p.y) * denominator,
        p.renderer().z matches Scalar::Ratio { numerator, denominator } && denominator > 0
            && numerator * 75 == p.z * denominator,
{
}

/// A move is exact inside the room, and ends at the wall that it would pass.
pub proof fn law_moves_end_at_the_walls(p: RoomPosition, dx: int, dy: int, dz: int)
    requires
        p.wf(),
    ensures
        ({
            let q = p.moved(dx, dy, dz);
            &&& q.wf()
            &&& 0 <= p.x + dx <= 310 ==> q.x == p.x + dx
            &&& p.x + dx < 0 ==> q.x == 0
            &&& p.x + dx > 310 ==> q.x == 310
            &&& 0 <= p.y + dy <= 310 ==> q.y == p.y + dy
            &&& p.y + dy < 0 ==> q.y == 0
            &&& p.y + dy > 310 ==> q.y == 310
            &&& -75 <= p.z + dz <= 75 ==> q.z == p.z + dz
            &&& p.z + dz < -75 ==> q.z == -75
            &&& p.z + dz > 75 ==> q.z == 75
        }),
{
}

/// A coded position stands at fixed places: six bits across, six bits to the rear,
/// a bit that is set above the listener, and four bits of height. 62 steps span the
/// room, and 15 the height.
pub proof fn law_coded_positions_span_the_room(b: Bits, from: RoomPosition)
    requires
        b.remaining() >= 17,
    ensures
        ({
            let x = bits_value(b.bytes, b.position as int, 6);
            let y = bits_value(b.bytes, (b.position + 6) as int, 6);
            let above = bits_value(b.bytes, (b.position + 12) as int, 1);
            let z = bits_value(b.bytes, (b.position + 13) as int, 4);
            let (p, read) = absolute_position(b, from);
            &&& read == Ok::<Bits, AppError>(b.advanced(17))
            &&& x < 63 ==> 62 * p.x == 310 * x
            &&& x == 63 ==> p.x == 310
            &&& y < 63 ==> 62 * p.y == 310 * y
            &&& y == 63 ==> p.y == 310
            &&& above == 1 ==> 15 * p.z == 75 * z
            &&& above == 0 ==> 15 * p.z == -75 * z
            &&& p.wf()
        }),
{
    vstd::arithmetic::power2::lemma2_to64();
    lemma_bits_value_bound(b.bytes, b.position as int, 6);
    lemma_bits_value_bound(b.bytes, (b.position + 6) as int, 6);
    lemma_bits_value_bound(b.bytes, (b.position + 12) as int, 1);
    lemma_bits_value_bound(b.bytes, (b.position + 13) as int, 4);
    let b1 = b.advanced(6);
    let b2 = b1.advanced(6);
    let b3 = b2.advanced(1);
    assert(b3.advanced(4) == b.advanced(17));
}

/// A position that follows another is moved by three signed fields of three bits, in
/// coarse steps: across, to the rear, and up.
pub proof fn law_position_steps_move_on(b: Bits, from: RoomPosition)
    requires
        from.wf(),
        b.remaining() >= 9,
    ensures
        ({
            let (p, read) = differential_position(b, from);
            let dx = b.signed(3)->Ok_0.0;
            let dy = b.advanced(3).signed(3)->Ok_0.0;
            let dz = b.advanced(6).signed(3)->Ok_0.0;
            &&& read == Ok::<Bits, AppError>(b.advanced(9))
            &&& 0 <= from.x + 5 * dx <= 310 ==> p.x - from.x == 5 * dx
            &&& 0 <= from.y + 5 * dy <= 310 ==> p.y - from.y == 5 * dy
            &&& -75 <= from.z + 5 * dz <= 75 ==> p.z - from.z == 5 * dz
            &&& p.wf()
        }),
{
    vstd::arithmetic::power2::lemma2_to64();
    lemma_bits_value_bound(b.bytes, b.position as int, 3);
    lemma_bits_value_bound(b.bytes, (b.position + 3) as int, 3);
    lemma_bits_value_bound(b.bytes, (b.position + 6) as int, 3);
    let b1 = b.advanced(3);
    let b2 = b1.advanced(3);
    assert(b2 == b.advanced(6));
    assert(b2.advanced(3) == b.advanced(9));
}

/// Zone, extent and screen change nothing but themselves, and stand at fixed places:
/// three bits for the zone and one that permits the speakers overhead; two bits for
/// no extent, one for all axes, or one for each of width, depth and height; and a
/// bit for the screen with three bits of its factor, counted from one eighth, and
/// two of its depth, which doubles from one quarter to two.
pub proof fn law_rendering_fields_stand_at_fixed_places(b: Bits, p: ObjectProperties)
    requires
        b.remaining() >= 17,
    ensures
        ({
            let at = |place: int, count: nat| bits_value(b.bytes, b.position + place, count);
            let (zoned, zone) = zone_info(b, p, true);
            let (sized, size) = size_info(b, p, true);
            let (held, screen) = screen_info(b, p, true);
            let (placed, position) = position_info(b, p, false, true);
            &&& zone is Ok <==> at(0, 3) < 6
            &&& zone is Ok ==> zone->Ok_0 == b.advanced(4) && Some(zoned.zone) == ObjectZone::coded(
                at(0, 3),
            ) && (zoned.elevation <==> at(3, 1) == 1) && zoned == (ObjectProperties {
                zone: zoned.zone,
                elevation: zoned.elevation,
                ..p
            })
            &&& size is Ok <==> at(0, 2) < 3
            &&& at(0, 2) == 0 ==> sized.width == 0 && sized.depth == 0 && sized.height == 0
                && size->Ok_0 == b.advanced(2)
            &&& at(0, 2) == 1 ==> sized.width == at(2, 5) && sized.depth == at(2, 5) && sized.height
                == at(2, 5) && size->Ok_0 == b.advanced(7)
            &&& at(0, 2) == 2 ==> sized.width == at(2, 5) && sized.depth == at(7, 5) && sized.height
                == at(12, 5) && size->Ok_0 == b.advanced(17)
            &&& sized == (ObjectProperties {
                width: sized.width,
                depth: sized.depth,
                height: sized.height,
                ..p
            })
            &&& screen is Ok
            &&& held.screen_anchored <==> at(0, 1) == 1
            &&& !held.screen_anchored ==> held.screen_factor == 0 && held.depth_factor == 4
                && screen->Ok_0 == b.advanced(1)
            &&& held.screen_anchored ==> held.screen_factor == at(1, 3) + 1 && held.depth_factor
                == vstd::arithmetic::power2::pow2(at(4, 2)) && screen->Ok_0 == b.advanced(6)
            &&& held == (ObjectProperties {
                screen_anchored: held.screen_anchored,
                screen_factor: held.screen_factor,
                depth_factor: held.depth_factor,
                ..p
            })
            &&& zone_info(b, p, false) == (p, Ok::<Bits, AppError>(b))
            &&& size_info(b, p, false) == (p, Ok::<Bits, AppError>(b))
            &&& screen_info(b, p, false) == (p, Ok::<Bits, AppError>(b))
            &&& placed == p && position == Ok::<Bits, AppError>(b)
        }),
{
    reveal(zone_info);
    reveal(size_info);
    reveal(screen_info);
    reveal(position_info);
    vstd::arithmetic::power2::lemma2_to64();
    let start = b.position as int;
    lemma_bits_value_bound(b.bytes, start, 1);
    lemma_bits_value_bound(b.bytes, start, 2);
    lemma_bits_value_bound(b.bytes, start, 3);
    lemma_bits_value_bound(b.bytes, start + 3, 1);
    lemma_bits_value_bound(b.bytes, start + 1, 3);
    lemma_bits_value_bound(b.bytes, start + 4, 2);
    lemma_bits_value_bound(b.bytes, start + 2, 5);
    lemma_bits_value_bound(b.bytes, start + 7, 5);
    lemma_bits_value_bound(b.bytes, start + 12, 5);
    assert(b.advanced(3).advanced(1) == b.advanced(4));
    assert(b.advanced(2).advanced(5) == b.advanced(7));
    assert(b.advanced(7).advanced(5) == b.advanced(12));
    assert(b.advanced(12).advanced(5) == b.advanced(17));
    assert(b.advanced(1).advanced(3) == b.advanced(4));
    assert(b.advanced(4).advanced(2) == b.advanced(6));
}

/// A distance is absent, infinite, or one of the coded list, after one bit, two bits
/// or six.
pub proof fn law_distances_stand_at_fixed_places(b: Bits)
    requires
        b.remaining() >= 6,
    ensures
        ({
            let specified = bits_value(b.bytes, b.position as int, 1) == 1;
            let infinite = bits_value(b.bytes, (b.position + 1) as int, 1) == 1;
            let index = bits_value(b.bytes, (b.position + 2) as int, 4);
            let (distance, rest) = distance_info(b)->Ok_0;
            &&& distance_info(b) is Ok
            &&& !specified ==> distance is None && rest == b.advanced(1)
            &&& specified && infinite ==> distance == Some(Distance::Infinite) && rest
                == b.advanced(2)
            &&& specified && !infinite ==> distance == Some(
                Distance::Tenths { value: distance_tenths(index) },
            ) && rest == b.advanced(6)
        }),
{
    vstd::arithmetic::power2::lemma2_to64();
    lemma_bits_value_bound(b.bytes, b.position as int, 1);
    lemma_bits_value_bound(b.bytes, (b.position + 1) as int, 1);
    assert(b.advanced(1).advanced(1) == b.advanced(2));
    assert(b.advanced(2).advanced(4) == b.advanced(6));
}

/// What a block may say of its rendering: the default one, which keeps gain and
/// divergence alone; the same as before; or new values.
pub proof fn law_rendering_is_reset_or_repeated(b: Bits, p: ObjectProperties, block: nat)
    ensures
        render_info(b, p, 2, block) == (p, Ok::<Bits, AppError>(b)),
        render_info(b, p, 0, block).1 == Ok::<Bits, AppError>(b),
        render_info(b, p, 0, block).0 == (ObjectProperties {
            gain: p.gain,
            divergence: p.divergence,
            ..default_properties()
        }),
        basic_info(b, p, 2, p.gain) == (p, Ok::<Bits, AppError>(b)),
        basic_info(b, p, 0, p.gain) == (
            ObjectProperties { gain: Gain::Silent, ..p },
            Ok::<Bits, AppError>(b),
        ),
        default_properties().position.renderer().x matches Scalar::Ratio { numerator, .. }
            && numerator == 0,
        default_properties().position.renderer().y matches Scalar::Ratio { numerator, .. }
            && numerator == 0,
        default_properties().position.renderer().z matches Scalar::Ratio { numerator, .. }
            && numerator == 0,
        default_properties().zone is All && default_properties().elevation
            && !default_properties().snap && !default_properties().screen_anchored
            && default_properties().distance is None && default_properties().divergence == 0,
{
    reveal(render_info);
    reveal(basic_info);
}

/// A mask of four bits selects, from its lowest bit on, position, zone, extent and
/// screen. What it does not select stays, and whether the object snaps is always
/// read: a mask without bits takes one bit.
pub proof fn law_unselected_rendering_stays(b: Bits, p: ObjectProperties, mask: nat, later: bool)
    requires
        mask < 16,
    ensures
        ({
            let (after, read) = masked_render_info(b, p, mask, later);
            &&& mask % 2 == 0 ==> after.position == p.position && after.distance == p.distance
            &&& mask / 2 % 2 == 0 ==> after.zone == p.zone && after.elevation == p.elevation
            &&& mask / 4 % 2 == 0 ==> after.width == p.width && after.depth == p.depth
                && after.height == p.height
            &&& mask / 8 == 0 ==> after.screen_anchored == p.screen_anchored && after.screen_factor
                == p.screen_factor && after.depth_factor == p.depth_factor
            &&& after.gain == p.gain && after.divergence == p.divergence
            &&& mask == 0 && b.remaining() >= 1 ==> read == Ok::<Bits, AppError>(b.advanced(1)) && (
            after.snap <==> bits_value(b.bytes, b.position as int, 1) == 1)
            &&& mask == 1 && read is Ok ==> after.position == position_info(b, p, true, later).0.position
                && after.distance == position_info(b, p, true, later).0.distance
            &&& mask == 2 && read is Ok ==> after.zone == zone_info(b, p, true).0.zone
            &&& mask == 4 && read is Ok ==> after.width == size_info(b, p, true).0.width
            &&& mask == 8 && read is Ok ==> after.screen_anchored == screen_info(
                b,
                p,
                true,
            ).0.screen_anchored
        }),
{
    reveal(masked_render_info);
    vstd::arithmetic::power2::lemma2_to64();
    lemma_bits_value_bound(b.bytes, b.position as int, 1);
    let (p1, position) = position_info(b, p, mask % 2 == 1, later);
    lemma_position_keeps(b, p, mask % 2 == 1, later);
    if let Ok(b1) = position {
        let (p2, zone) = zone_info(b1, p1, mask / 2 % 2 == 1);
        lemma_zone_keeps(b1, p1, mask / 2 % 2 == 1);
        if let Ok(b2) = zone {
            let (p3, size) = size_info(b2, p2, mask / 4 % 2 == 1);
            lemma_size_keeps(b2, p2, mask / 4 % 2 == 1);
            if let Ok(b3) = size {
                lemma_screen_keeps(b3, p3, mask / 8 % 2 == 1);
            }
        }
    }
}

proof fn lemma_position_keeps(b: Bits, p: ObjectProperties, present: bool, later: bool)
    ensures
        ({
            let (after, read) = position_info(b, p, present, later);
            &&& after == (ObjectProperties {
                position: after.position,
                distance: after.distance,
                ..p
            })
            &&& !present ==> after == p && read == Ok::<Bits, AppError>(b)
        }),
{
    reveal(position_info);
}

proof fn lemma_zone_keeps(b: Bits, p: ObjectProperties, present: bool)
    ensures
        ({
            let (after, read) = zone_info(b, p, present);
            &&& after == (ObjectProperties { zone: after.zone, elevation: after.elevation, ..p })
            &&& !present ==> after == p && read == Ok::<Bits, AppError>(b)
        }),
{
    reveal(zone_info);
}

proof fn lemma_size_keeps(b: Bits, p: ObjectProperties, present: bool)
    ensures
        ({
            let (after, read) = size_info(b, p, present);
            &&& after == (ObjectProperties {
                width: after.width,
                depth: after.depth,
                height: after.height,
                ..p
            })
            &&& !present ==> after == p && read == Ok::<Bits, AppError>(b)
        }),
{
    reveal(size_info);
}

proof fn lemma_screen_keeps(b: Bits, p: ObjectProperties, present: bool)
    ensures
        ({
            let (after, read) = screen_info(b, p, present);
            &&& after == (ObjectProperties {
                screen_anchored: after.screen_anchored,
                screen_factor: after.screen_factor,
                depth_factor: after.depth_factor,
                ..p
            })
            &&& !present ==> after == p && read == Ok::<Bits, AppError>(b)
        }),
{
    reveal(screen_info);
}

/// Divergences grow with their code from none to the whole, and the short table
/// picks every third of them from the middle on, and the last.
pub proof fn law_divergences_grow_with_their_code(code: nat, later: nat)
    requires
        1 <= code < later < 64,
    ensures
        divergence_codes().len() == 64,
        divergence_codes()[1] == 0,
        divergence_codes()[63] == 1_000_000,
        divergence_codes()[code as int] < divergence_codes()[later as int],
        divergence_table(0) == divergence_codes()[26],
        divergence_table(1) == divergence_codes()[29],
        divergence_table(2) == divergence_codes()[32],
        divergence_table(3) == divergence_codes()[63],
        divergence_table(0) > 500_000 > divergence_codes()[25],
{
    lemma_divergence_order(code, later);
}

proof fn lemma_divergence_order(code: nat, later: nat)
    requires
        1 <= code < later < 64,
    ensures
        divergence_codes()[code as int] < divergence_codes()[later as int],
    decreases later - code,
{
    if code + 1 < later {
        lemma_divergence_order(code + 1, later);
    }
    let list = divergence_codes();
    assert(list[code as int] < list[code as int + 1]);
}

/// A divergence is absent after one bit. Else two bits say an entry of the short
/// table with two more, the divergence before, or an entry of the list with six
/// more, whose first is reserved, as is the last kind.
pub proof fn law_divergences_stand_at_fixed_places(b: Bits, previous: u32)
    requires
        b.remaining() >= 9,
    ensures
        ({
            let at = |place: int, count: nat| bits_value(b.bytes, b.position + place, count);
            let present = at(0, 1) == 1;
            let r = divergence_info(b, previous);
            &&& r is Err <==> present && (at(1, 2) == 3 || at(1, 2) == 2 && at(3, 6) == 0)
            &&& !present ==> r == Ok::<(u32, Bits), AppError>((0, b.advanced(1)))
            &&& present && at(1, 2) == 0 ==> r == Ok::<(u32, Bits), AppError>(
                (divergence_table(at(3, 2)), b.advanced(5)),
            )
            &&& present && at(1, 2) == 1 ==> r == Ok::<(u32, Bits), AppError>(
                (previous, b.advanced(3)),
            )
            &&& present && at(1, 2) == 2 && at(3, 6) > 0 ==> r == Ok::<(u32, Bits), AppError>(
                (divergence_codes()[at(3, 6) as int], b.advanced(9)),
            )
        }),
{
    reveal(divergence_info);
    vstd::arithmetic::power2::lemma2_to64();
    lemma_bits_value_bound(b.bytes, b.position as int, 1);
    lemma_bits_value_bound(b.bytes, (b.position + 1) as int, 2);
    assert(b.advanced(1).advanced(2) == b.advanced(3));
    assert(b.advanced(3).advanced(2) == b.advanced(5));
    assert(b.advanced(3).advanced(6) == b.advanced(9));
}

/// A bed is the low-frequency channel alone after one set bit; or else, after a
/// second, the ten bits of a standard mask, or the seventeen of a nonstandard one.
pub proof fn law_beds_stand_at_fixed_places(b: Bits)
    requires
        b.remaining() >= 19,
    ensures
        ({
            let alone = bits_value(b.bytes, b.position as int, 1) == 1;
            let standard = bits_value(b.bytes, (b.position + 1) as int, 1) == 1;
            let r = bed_instance(b);
            &&& alone ==> r == Ok::<(Seq<Speaker>, Bits), AppError>(
                (seq![Speaker::Lfe], b.advanced(1)),
            )
            &&& !alone && standard ==> r == Ok::<(Seq<Speaker>, Bits), AppError>(
                (
                    standard_bed(bits_value(b.bytes, (b.position + 2) as int, 10), 0),
                    b.advanced(12),
                ),
            )
            &&& !alone && !standard ==> r == Ok::<(Seq<Speaker>, Bits), AppError>(
                (
                    nonstandard_bed(bits_value(b.bytes, (b.position + 2) as int, 17), 0),
                    b.advanced(19),
                ),
            )
        }),
{
    reveal(bed_instance);
    vstd::arithmetic::power2::lemma2_to64();
    lemma_bits_value_bound(b.bytes, b.position as int, 1);
    lemma_bits_value_bound(b.bytes, (b.position + 1) as int, 1);
    assert(b.advanced(1).advanced(1) == b.advanced(2));
    assert(b.advanced(2).advanced(10) == b.advanced(12));
    assert(b.advanced(2).advanced(17) == b.advanced(19));
}

/// A low-frequency channel is listed exactly where the bed has one, in order.
pub proof fn law_low_frequency_channels_are_found(beds: Seq<Speaker>, place: int)
    requires
        0 <= place < beds.len() <= usize::MAX,
    ensures
        beds[place] == Speaker::Lfe <==> lfe_indices(beds).contains(place as usize),
        forall|i: int, j: int|
            0 <= i < j < lfe_indices(beds).len() ==> lfe_indices(beds)[i] < lfe_indices(beds)[j],
    decreases beds.len(),
{
    lemma_lfe_count(beds.drop_last());
    let found = lfe_indices(beds.drop_last());
    if place < beds.len() - 1 {
        law_low_frequency_channels_are_found(beds.drop_last(), place);
        if found.contains(place as usize) {
            let i = choose|i: int| 0 <= i < found.len() && found[i] == place as usize;
            assert(lfe_indices(beds)[i] == place as usize);
        }
    } else {
        if beds.len() > 1 {
            law_low_frequency_channels_are_found(beds.drop_last(), 0);
        }
        if beds.last() == Speaker::Lfe {
            assert(lfe_indices(beds).last() == place as usize);
        }
    }
}

/// The low-frequency channel is the last essence, and all others keep their order.
pub proof fn law_the_low_frequency_essence_comes_last(program: Program, first: nat, second: nat)
    requires
        program.wf(),
        first < second < program.object_count,
    ensures
        ({
            let lfe = lfe_indices(program.beds);
            let one = source_channel(lfe, program.object_count, first);
            let other = source_channel(lfe, program.object_count, second);
            &&& first < program.beds.len() && program.beds[first as int] == Speaker::Lfe ==> one
                == program.object_count - 1
            &&& second < program.beds.len() && program.beds[second as int] == Speaker::Lfe ==> other
                == program.object_count - 1
            &&& !(first < program.beds.len() && program.beds[first as int] == Speaker::Lfe) && !(
            second < program.beds.len() && program.beds[second as int] == Speaker::Lfe) ==> one
                < other
        }),
{
    let lfe = lfe_indices(program.beds);
    lemma_lfe_count(program.beds);
    if first < program.beds.len() {
        law_low_frequency_channels_are_found(program.beds, first as int);
    }
    if second < program.beds.len() {
        law_low_frequency_channels_are_found(program.beds, second as int);
    }
    if lfe.len() == 1 {
        law_low_frequency_channels_are_found(program.beds, lfe[0] as int);
        assert(lfe.contains(lfe[0]));
    }
}

/// Every update tells of every object what its block says: whether it sounds, its
/// level, its extent and how it is rendered. A bed object stands at its speaker,
/// and a dynamic one at its refined position; one that follows the screen never
/// snaps.
pub proof fn law_updates_tell_what_the_blocks_say(program: Program, progress: Progress, k: int, object: nat)
    requires
        program.wf(),
        progress.element matches Some(element) && element.wf(program.object_count),
        0 <= k < block_updates(program, progress).len(),
        object < program.object_count,
    ensures
        ({
            let element = progress.element->0;
            let update = block_updates(program, progress)[k];
            let block = element.objects[object as int][k];
            let p = block.properties;
            let beds = program.beds.len();
            let state = if object < beds {
                update.objects[object as int]
            } else {
                update.objects[object - program.isf]
            };
            &&& update.sample_offset == element.timing[k].sample_offset
            &&& update.ramp_samples == element.timing[k].ramp_samples
            &&& beds <= object < beds + program.isf ==> {
                let signal = update.isf[object - beds];
                &&& signal.active == block.active
                &&& signal.gain == p.gain
                &&& signal.source_channel == source_channel(
                    lfe_indices(program.beds),
                    program.object_count,
                    object,
                )
                &&& signal.trim == trim_of(progress.trim, object)
            }
            &&& object < beds || object >= beds + program.isf ==> {
                &&& state.active == block.active
                &&& state.gain == p.gain
                &&& state.zone == p.zone
                &&& state.elevation == p.elevation
                &&& state.distance == p.distance
                &&& state.snap == (p.snap && !p.screen_anchored)
                &&& state.screen is Some <==> p.screen_anchored
                &&& state.screen matches Some(anchor) ==> {
                    &&& anchor.factor matches Scalar::Ratio { numerator, denominator } && numerator
                        == p.screen_factor && denominator == 8
                    &&& anchor.depth matches Scalar::Ratio { numerator, denominator } && numerator
                        == p.depth_factor && denominator == 4
                }
                &&& state.size.width matches Scalar::Ratio { numerator, denominator } && numerator
                    == p.width && denominator == 31
                &&& state.size.depth matches Scalar::Ratio { numerator, denominator } && numerator
                    == p.depth && denominator == 31
                &&& state.size.height matches Scalar::Ratio { numerator, denominator } && numerator
                    == p.height && denominator == 31
                &&& state.divergence matches Scalar::Ratio { numerator, denominator } && numerator
                    == block.divergence && denominator == 1_000_000
                &&& state.source_channel == source_channel(
                    lfe_indices(program.beds),
                    program.object_count,
                    object,
                )
                &&& state.trim == trim_of(progress.trim, object)
            }
            &&& object < beds ==> state.bed_speaker == Some(program.beds[object as int])
                && state.position == (Placement::Speaker { speaker: program.beds[object as int] })
            &&& object >= beds + program.isf ==> state.bed_speaker is None && state.position == (
            Placement::Room { point: block.refined.renderer(), authored: p.position.renderer() })
        }),
{
    let element = progress.element->0;
    assert(element.objects[object as int].len() == element.timing.len());
    assert(blocks_wf(element.objects[object as int]));
    assert(element.objects[object as int][k].wf());
}

/// Trim levels fall with their code. The first eight mirror each other around
/// silence in doubling steps, behind them a step is one and a half decibels, and
/// the last two are 16 and 36 decibels down. The codes of the first four, which
/// raise a level, are refused where a level may only be reduced.
pub proof fn law_trim_levels_fall_with_their_code(b: Bits, level: Reduction)
    requires
        b.remaining() >= 4,
    ensures
        ({
            let levels = trim_levels();
            let code = bits_value(b.bytes, b.position as int, 4);
            let plain = level_info(b, true);
            let reduced = reduction_info(b, true, level);
            &&& levels.len() == 16
            &&& forall|i: int, j: int| 0 <= i < j < 16 ==> levels[i] > levels[j]
            &&& levels[3] == 3 && levels[2] == 2 * levels[3] && levels[1] == 2 * levels[2]
                && levels[0] == 2 * levels[1]
            &&& levels[4] == -levels[3] && levels[5] == -levels[2] && levels[6] == -levels[1]
                && levels[8] == -levels[0]
            &&& forall|i: int| 6 <= i < 13 ==> #[trigger] levels[i] - levels[i + 1] == 6
            &&& levels[14] == -4 * 16 && levels[15] == -4 * 36
            &&& plain matches Ok((Scalar::Ratio { numerator, denominator }, rest)) && numerator
                == levels[code as int] && denominator == 4 && rest == b.advanced(4)
            &&& reduced is Err <==> code < 4
            &&& reduced is Ok ==> reduced == plain
            &&& level_info(b, false) == Ok::<(Scalar, Bits), AppError>(
                (Scalar::Ratio { numerator: 0, denominator: 1 }, b),
            )
            &&& reduction_info(b, false, level) == level_info(b, false)
            &&& balance_info(b, false) == level_info(b, false)
        }),
{
    reveal(level_info);
    reveal(reduction_info);
    reveal(balance_info);
    vstd::arithmetic::power2::lemma2_to64();
    lemma_bits_value_bound(b.bytes, b.position as int, 4);
}

/// A balance is never zero: a bit that is set for plus, and four bits counted from
/// one sixteenth.
pub proof fn law_balances_are_signed(b: Bits)
    requires
        b.remaining() >= 5,
    ensures
        ({
            let plus = bits_value(b.bytes, b.position as int, 1) == 1;
            let code = bits_value(b.bytes, (b.position + 1) as int, 4);
            balance_info(b, true) matches Ok((Scalar::Ratio { numerator, denominator }, rest))
                && denominator == 16 && rest == b.advanced(5) && (plus ==> numerator == code + 1)
                && (!plus ==> numerator + code == -1)
        }),
{
    reveal(balance_info);
    vstd::arithmetic::power2::lemma2_to64();
    lemma_bits_value_bound(b.bytes, b.position as int, 1);
    lemma_bits_value_bound(b.bytes, (b.position + 1) as int, 4);
    assert(b.advanced(1).advanced(4) == b.advanced(5));
}

/// The levels of a trim come in the order centre, surround, height and the two
/// balances, from the lowest bit of what is present. Where all are, they take four,
/// four, four, five and five bits; what is absent is zero and takes none.
pub proof fn law_custom_trims_list_their_levels_in_order(b: Bits)
    requires
        b.remaining() >= 22,
    ensures
        ({
            let zero = Scalar::Ratio { numerator: 0, denominator: 1 };
            let all = custom_trim(b, 31);
            let levels = trim_levels();
            &&& all matches Ok((settings, rest)) ==> {
                &&& rest == b.advanced(22)
                &&& settings.mode is Custom
                &&& level_info(b, true) == Ok::<(Scalar, Bits), AppError>(
                    (settings.center_db, b.advanced(4)),
                )
                &&& reduction_info(b.advanced(4), true, Reduction::Surround) == Ok::<
                    (Scalar, Bits),
                    AppError,
                >((settings.surround_db, b.advanced(8)))
                &&& reduction_info(b.advanced(8), true, Reduction::Height) == Ok::<
                    (Scalar, Bits),
                    AppError,
                >((settings.height_db, b.advanced(12)))
                &&& balance_info(b.advanced(12), true) == Ok::<(Scalar, Bits), AppError>(
                    (settings.top_bottom_balance, b.advanced(17)),
                )
                &&& balance_info(b.advanced(17), true) == Ok::<(Scalar, Bits), AppError>(
                    (settings.listener_balance, b.advanced(22)),
                )
            }
            &&& custom_trim(b, 0) == Ok::<(ObjectTrimSettings, Bits), AppError>(
                (plain_settings(ObjectTrimMode::Custom), b),
            )
            &&& custom_trim(b, 1) matches Ok((settings, _)) && settings.center_db == level_info(
                b,
                true,
            )->Ok_0.0 && settings.surround_db == zero && settings.height_db == zero
            &&& custom_trim(b, 2) matches Ok((settings, _)) ==> settings.surround_db
                == reduction_info(b, true, Reduction::Surround)->Ok_0.0 && settings.center_db == zero
            &&& custom_trim(b, 4) matches Ok((settings, _)) ==> settings.height_db
                == reduction_info(b, true, Reduction::Height)->Ok_0.0 && settings.surround_db
                == zero
            &&& custom_trim(b, 8) matches Ok((settings, _)) ==> settings.top_bottom_balance
                == balance_info(b, true)->Ok_0.0 && settings.listener_balance == zero
            &&& custom_trim(b, 16) matches Ok((settings, _)) ==> settings.listener_balance
                == balance_info(b, true)->Ok_0.0 && settings.top_bottom_balance == zero
        }),
{
    reveal(custom_trim);
    reveal(level_info);
    reveal(reduction_info);
    reveal(balance_info);
    assert(b.advanced(4).advanced(4) == b.advanced(8));
    assert(b.advanced(8).advanced(4) == b.advanced(12));
    assert(b.advanced(12).advanced(1).advanced(4) == b.advanced(17));
    assert(b.advanced(17).advanced(1).advanced(4) == b.advanced(22));
}

/// A configuration's trim: a first bit leaves it to the default algorithm, a second
/// disables it, and else five bits say which levels follow. A global mode of zero
/// or one does the same for all layouts, and two lists them.
pub proof fn law_trims_are_default_disabled_or_listed(b: Bits, warp_y: bool)
    requires
        b.remaining() >= 7,
    ensures
        ({
            let default = bits_value(b.bytes, b.position as int, 1) == 1;
            let disabled = bits_value(b.bytes, (b.position + 1) as int, 1) == 1;
            let presence = bits_value(b.bytes, (b.position + 2) as int, 5);
            &&& default ==> trim_configuration(b) == Ok::<(ObjectTrimSettings, Bits), AppError>(
                (plain_settings(ObjectTrimMode::Default), b.advanced(1)),
            )
            &&& !default && disabled ==> trim_configuration(b) == Ok::<
                (ObjectTrimSettings, Bits),
                AppError,
            >((plain_settings(ObjectTrimMode::Disabled), b.advanced(2)))
            &&& !default && !disabled ==> trim_configuration(b) == custom_trim(
                b.advanced(7),
                presence,
            )
            &&& global_trim(b, warp_y, 0) matches Ok((trim, rest)) && rest == b && trim.warp_y
                == warp_y && !trim.disabled && (forall|c: nat|
                c < 9 ==> (#[trigger] trim.in_force(c)).mode is Default)
            &&& global_trim(b, warp_y, 1) matches Ok((trim, rest)) && rest == b && trim.warp_y
                == warp_y && !trim.disabled && (forall|c: nat|
                c < 9 ==> (#[trigger] trim.in_force(c)).mode is Disabled)
            &&& global_trim(b, warp_y, 2) matches Ok((trim, _)) ==> trim.warp_y == warp_y
                && !trim.disabled && trim.table.bare == trim_configuration(b)->Ok_0.0
            &&& global_trim(b, warp_y, 3) is Err
        }),
{
    reveal(trim_configuration);
    reveal(global_trim);
    reveal_with_fuel(trim_configurations, 2);
    vstd::arithmetic::power2::lemma2_to64();
    lemma_bits_value_bound(b.bytes, b.position as int, 1);
    lemma_bits_value_bound(b.bytes, (b.position + 1) as int, 1);
    assert(b.advanced(1).advanced(1) == b.advanced(2));
    assert(b.advanced(2).advanced(5) == b.advanced(7));
}

/// A trim element begins with two bits of warping, of which only none and one are
/// known, two that are passed over, and two of its global mode. An object's trim is
/// disabled exactly where its bit behind them is set.
pub proof fn law_trim_elements_stand_at_fixed_places(b: Bits, object_count: nat, object: nat)
    requires
        b.remaining() >= 6,
    ensures
        ({
            let warp = bits_value(b.bytes, b.position as int, 2);
            let mode = bits_value(b.bytes, (b.position + 4) as int, 2);
            &&& warp > 1 ==> trim_element(b, object_count) is Err
            &&& trim_element(b, object_count) matches Ok((element, _)) ==> {
                let global = global_trim(b.advanced(6), warp == 1, mode);
                &&& element.trim == global->Ok_0.0
                &&& element.of_object(object).warp_y == (warp == 1)
                &&& element.of_object(object).table == element.trim.table
                &&& disabled_part(global->Ok_0.1, object_count) matches Ok((bits, _))
                    && element.of_object(object).disabled == (object < bits.len()
                    && bits[object as int])
            }
        }),
{
    reveal(trim_element);
    reveal(global_trim);
    reveal_with_fuel(trim_configurations, 1);
    assert(b.advanced(2).advanced(2) == b.advanced(4));
    assert(b.advanced(4).advanced(2) == b.advanced(6));
}

/// A run of bits is taken one by one: each truth value is the bit at its place.
pub proof fn law_flags_are_single_bits(b: Bits, count: nat, i: int)
    requires
        0 <= i < count <= b.remaining(),
    ensures
        flags(b, count) is Ok,
        ({
            let (list, rest) = flags(b, count)->Ok_0;
            &&& list.len() == count
            &&& rest == b.advanced(count)
            &&& list[i] <==> bits_value(b.bytes, b.position + i, 1) == 1
        }),
    decreases count,
{
    vstd::arithmetic::power2::lemma2_to64();
    lemma_bits_value_bound(b.bytes, b.position as int, 1);
    let b1 = b.advanced(1);
    if count > 1 {
        law_flags_are_single_bits(b1, (count - 1) as nat, if i == 0 { 0 } else { i - 1 });
        assert(b1.advanced((count - 1) as nat) == b.advanced(count));
    } else {
        reveal_with_fuel(flags, 2);
    }
}

/// A fine step is one or two units: its lower bit says how many, and its upper bit
/// that they lead down.
pub proof fn law_fine_steps_have_a_sign_and_a_size(b: Bits)
    requires
        b.remaining() >= 2,
    ensures
        fine_step(b, false) == Ok::<(int, Bits), AppError>((0, b)),
        ({
            let code = bits_value(b.bytes, b.position as int, 2) as int;
            fine_step(b, true) matches Ok((step, rest)) && rest == b.advanced(2) && step * (1 - 2 * (
            code / 2)) == 1 + code % 2
        }),
{
    reveal(fine_step);
    vstd::arithmetic::power2::lemma2_to64();
    lemma_bits_value_bound(b.bytes, b.position as int, 2);
}

/// Fine steps refine the axes whose bits are set, from the lowest: across, to the
/// rear, and up. An axis without a bit stays.
pub proof fn law_fine_steps_refine_their_axis(b: Bits, from: RoomPosition)
    requires
        from.wf(),
        10 <= from.x <= 300,
        10 <= from.y <= 300,
        -65 <= from.z <= 65,
        b.remaining() >= 9,
    ensures
        ({
            let presence = bits_value(b.bytes, b.position as int, 3);
            let at = b.advanced(3);
            refined_position(b, from) matches Ok((p, rest)) && {
                &&& presence % 2 == 0 ==> p.x == from.x
                &&& presence / 2 % 2 == 0 ==> p.y == from.y
                &&& presence / 4 == 0 ==> p.z == from.z
                &&& presence == 1 ==> p.x - from.x == fine_step(at, true)->Ok_0.0
                &&& presence == 2 ==> p.y - from.y == fine_step(at, true)->Ok_0.0
                &&& presence == 4 ==> p.z - from.z == fine_step(at, true)->Ok_0.0
                &&& presence == 7 ==> p.x - from.x == fine_step(at, true)->Ok_0.0 && p.y - from.y
                    == fine_step(at.advanced(2), true)->Ok_0.0 && p.z - from.z == fine_step(
                    at.advanced(4),
                    true,
                )->Ok_0.0 && rest == b.advanced(9)
            }
        }),
{
    reveal(refined_position);
    reveal(fine_step);
    vstd::arithmetic::power2::lemma2_to64();
    lemma_bits_value_bound(b.bytes, b.position as int, 3);
    let at = b.advanced(3);
    assert(at.advanced(2).advanced(2) == at.advanced(4));
    assert(at.advanced(4).advanced(2) == b.advanced(9));
}

/// Ramps: none, 512 and 1536 samples, one of a list that grows, or eleven bits. The
/// list doubles from 32 to 256; behind them stand the durations of video frames,
/// and each of the longer ones is a multiple of a shorter one.
pub proof fn law_ramps_are_frame_durations(b: Bits)
    requires
        b.remaining() >= 14,
    ensures
        ({
            let ramps = ramp_durations();
            let at = |place: int, count: nat| bits_value(b.bytes, b.position + place, count);
            let r = ramp_info(b);
            &&& ramps.len() == 16
            &&& forall|i: int, j: int| 0 <= i < j < 16 ==> ramps[i] < ramps[j]
            &&& ramps[0] == 32 && ramps[1] == 2 * ramps[0] && ramps[2] == 2 * ramps[1] && ramps[3]
                == 2 * ramps[2] && ramps[8] == 4 * ramps[3] && ramps[15] == 2 * ramps[8]
            &&& ramps[9] == 5 * ramps[4] && ramps[12] == 4 * ramps[5] && ramps[13] == 2 * ramps[6]
                && ramps[14] == 2 * ramps[7] && 25 * ramps[12] == 48_000 && 48 * ramps[6] == 48_000
                && 30 * ramps[9] == 48_000 && ramps[7] == ramps[6] + 1 && ramps[10] == ramps[9] + 1
                && ramps[11] == ramps[9] + 2
            &&& at(0, 2) < 3 ==> r == Ok::<(nat, Bits), AppError>(
                (
                    if at(0, 2) == 0 { 0nat } else if at(0, 2) == 1 { 512 } else { 1536 },
                    b.advanced(2),
                ),
            )
            &&& at(0, 2) == 3 && at(2, 1) == 1 ==> r == Ok::<(nat, Bits), AppError>(
                (ramps[at(3, 4) as int] as nat, b.advanced(7)),
            )
            &&& at(0, 2) == 3 && at(2, 1) == 0 ==> r == Ok::<(nat, Bits), AppError>(
                (at(3, 11), b.advanced(14)),
            )
        }),
{
    reveal(ramp_info);
    vstd::arithmetic::power2::lemma2_to64();
    lemma_bits_value_bound(b.bytes, b.position as int, 2);
    lemma_bits_value_bound(b.bytes, (b.position + 2) as int, 1);
    assert(b.advanced(2).advanced(1) == b.advanced(3));
    assert(b.advanced(3).advanced(4) == b.advanced(7));
    assert(b.advanced(3).advanced(11) == b.advanced(14));
}

/// Blocks start at multiples of 32 samples behind what they share, which is none, 8,
/// 16, 18 or 24 samples, or five bits.
pub proof fn law_blocks_start_at_multiples(b: Bits, base: nat, count: nat)
    requires
        b.remaining() >= 7,
        base <= 0xffff,
    ensures
        ({
            let at = |place: int, count: nat| bits_value(b.bytes, b.position + place, count);
            let shared = sample_offset_info(b);
            &&& at(0, 2) == 0 ==> shared == Ok::<(nat, Bits), AppError>((0, b.advanced(2)))
            &&& at(0, 2) == 1 ==> (shared matches Ok((offset, rest)) && rest == b.advanced(4) && (
            at(2, 2) < 2 ==> offset == 8 * (at(2, 2) + 1)) && (at(2, 2) == 2 ==> offset == 18) && (
            at(2, 2) == 3 ==> offset == 8 * at(2, 2)))
            &&& at(0, 2) == 2 ==> shared == Ok::<(nat, Bits), AppError>((at(2, 5), b.advanced(7)))
            &&& at(0, 2) == 3 ==> shared is Err
            &&& count > 0 && block_timings(b, base, count) is Ok ==> {
                let timing = block_timings(b, base, count)->Ok_0.0;
                &&& timing[0].sample_offset - base == 32 * at(0, 6)
                &&& timing[0].ramp_samples == ramp_info(b.advanced(6))->Ok_0.0
            }
        }),
{
    reveal(sample_offset_info);
    reveal(ramp_info);
    vstd::arithmetic::power2::lemma2_to64();
    lemma_bits_value_bound(b.bytes, b.position as int, 2);
    lemma_bits_value_bound(b.bytes, (b.position + 2) as int, 2);
    lemma_bits_value_bound(b.bytes, b.position as int, 6);
    lemma_bits_value_bound(b.bytes, (b.position + 9) as int, 11);
    assert(b.advanced(2).advanced(2) == b.advanced(4));
    assert(b.advanced(2).advanced(5) == b.advanced(7));
}

/// Counts go on behind their escape: five bits, or 31 and seven more; four bits, or
/// 15 and five more; and versions in two bits, or three and three more.
pub proof fn law_escaped_counts_go_on(b: Bits)
    requires
        b.remaining() >= 12,
    ensures
        ({
            let at = |place: int, count: nat| bits_value(b.bytes, b.position + place, count);
            &&& at(0, 5) < 31 ==> escaped_count(b) == Ok::<(nat, Bits), AppError>(
                (at(0, 5), b.advanced(5)),
            )
            &&& at(0, 5) == 31 ==> escaped_count(b) == Ok::<(nat, Bits), AppError>(
                ((at(0, 5) + at(5, 7)) as nat, b.advanced(12)),
            )
            &&& at(0, 4) < 15 ==> element_count_info(b) == Ok::<(nat, Bits), AppError>(
                (at(0, 4), b.advanced(4)),
            )
            &&& at(0, 4) == 15 ==> element_count_info(b) == Ok::<(nat, Bits), AppError>(
                ((at(0, 4) + at(4, 5)) as nat, b.advanced(9)),
            )
            &&& at(0, 2) < 3 ==> version_info(b) == Ok::<(nat, Bits), AppError>(
                (at(0, 2), b.advanced(2)),
            )
            &&& at(0, 2) == 3 ==> version_info(b) == Ok::<(nat, Bits), AppError>(
                ((at(0, 2) + at(2, 3)) as nat, b.advanced(5)),
            )
        }),
{
    reveal(element_count_info);
    reveal(version_info);
    vstd::arithmetic::power2::lemma2_to64();
    lemma_bits_value_bound(b.bytes, b.position as int, 5);
    lemma_bits_value_bound(b.bytes, b.position as int, 4);
    lemma_bits_value_bound(b.bytes, b.position as int, 2);
    assert(b.advanced(5).advanced(7) == b.advanced(12));
    assert(b.advanced(4).advanced(5) == b.advanced(9));
    assert(b.advanced(2).advanced(3) == b.advanced(5));
}

/// A program of dynamic objects alone has at most a low-frequency channel. Any other
/// names its parts in four bits: from the lowest, beds, the intermediate spatial
/// format, dynamic objects, and bytes to pass over. A part that is not named adds
/// nothing, and dynamic objects complete the count of the program.
pub proof fn law_programs_name_their_parts(b: Bits, object_count: nat)
    requires
        b.remaining() >= 5,
    ensures
        ({
            let at = |place: int, count: nat| bits_value(b.bytes, b.position + place, count);
            let parts = at(1, 4);
            &&& at(0, 1) == 1 ==> (program_assignment(b, object_count) matches Ok(
                ((beds, isf), rest),
            ) && isf == 0 && rest == b.advanced(2) && beds == (if at(1, 1) == 1 {
                seq![Speaker::Lfe]
            } else {
                seq![]
            }))
            &&& at(0, 1) == 0 ==> (program_assignment(b, object_count) matches Ok(((beds, isf), rest))
                ==> {
                &&& parts % 2 == 0 ==> beds.len() == 0
                &&& parts % 2 == 1 ==> (bed_assignment(b.advanced(5), true) matches Ok((read, _))
                    && read == beds)
                &&& parts / 2 % 2 == 0 ==> isf == 0
                &&& parts == 2 ==> (isf_assignment(b.advanced(5), true) matches Ok((count, _))
                    && count == isf)
                &&& parts == 4 ==> (escaped_count(b.advanced(5)) matches Ok((more, _)) && more + 1
                    == object_count)
                &&& parts == 0 ==> rest == b.advanced(5)
            })
        }),
{
    reveal(program_assignment);
    reveal(bed_assignment);
    reveal(isf_assignment);
    reveal(dynamic_assignment);
    reveal(skipped_bytes);
    vstd::arithmetic::power2::lemma2_to64();
    lemma_bits_value_bound(b.bytes, b.position as int, 1);
    lemma_bits_value_bound(b.bytes, (b.position + 1) as int, 1);
    lemma_bits_value_bound(b.bytes, (b.position + 1) as int, 4);
    assert(b.advanced(1).advanced(1) == b.advanced(2));
    assert(b.advanced(1).advanced(4) == b.advanced(5));
}

/// Several beds are one more than their three bits say beyond one, each follows the
/// one before, and bytes to pass over are one more than their four bits.
pub proof fn law_beds_follow_one_another(b: Bits)
    requires
        b.remaining() >= 5,
    ensures
        ({
            let several = bits_value(b.bytes, (b.position + 1) as int, 1) == 1;
            let more = bits_value(b.bytes, (b.position + 2) as int, 3);
            &&& !several ==> bed_assignment(b, true) == bed_instances(b.advanced(2), 1)
            &&& several ==> bed_assignment(b, true) == bed_instances(b.advanced(5), more + 2)
            &&& bed_assignment(b, false) == Ok::<(Seq<Speaker>, Bits), AppError>((seq![], b))
            &&& skipped_bytes(b, true) == b.advanced(4).skipped(
                (8 * bits_value(b.bytes, b.position as int, 4) + 8) as nat,
            )
            &&& bed_instances(b, 2) matches Ok((speakers, rest)) ==> {
                let (first, b1) = bed_instance(b)->Ok_0;
                let (second, b2) = bed_instance(b1)->Ok_0;
                speakers == first + second && rest == b2
            }
        }),
{
    reveal(bed_assignment);
    reveal(skipped_bytes);
    reveal_with_fuel(bed_instances, 3);
    vstd::arithmetic::power2::lemma2_to64();
    lemma_bits_value_bound(b.bytes, (b.position + 1) as int, 1);
    assert(b.advanced(1).advanced(1) == b.advanced(2));
    assert(b.advanced(2).advanced(3) == b.advanced(5));
    if let Ok((first, b1)) = bed_instance(b) {
        if let Ok((second, b2)) = bed_instance(b1) {
            assert(first + (second + Seq::<Speaker>::empty()) =~= first + second);
        }
    }
}

/// What an object was keeps for the next payload only where there are as many
/// objects; else all start from the default properties.
pub proof fn law_properties_are_kept_for_the_same_objects(kept: Seq<ObjectProperties>, object_count: nat, i: int)
    requires
        0 <= i < object_count,
    ensures
        starting_properties(kept, object_count).len() == object_count,
        kept.len() == object_count ==> starting_properties(kept, object_count)[i] == kept[i],
        kept.len() != object_count ==> starting_properties(kept, object_count)[i]
            == default_properties(),
{
}

/// The first block of an object tells everything, and later ones say in two bits
/// what they tell. An inactive object is silent and rendered by default, and so is
/// the rendering of a bed; whether it sounds is the first bit, which is set for
/// those that do not.
pub proof fn law_blocks_say_whether_they_sound(
    b: Bits,
    p: ObjectProperties,
    previous: Gain,
    object: nat,
    block: nat,
    fixed: bool,
)
    requires
        b.remaining() >= 1,
    ensures
        ({
            let inactive = bits_value(b.bytes, b.position as int, 1) == 1;
            object_block(b, p, previous, object, block, fixed).1 matches Ok((read, _)) ==> {
                &&& read.active <==> !inactive
                &&& read.refined == read.properties.position
                &&& read.divergence == p.divergence
                &&& inactive ==> read.properties.gain is Silent
                &&& inactive || fixed ==> read.properties == (ObjectProperties {
                    gain: read.properties.gain,
                    divergence: p.divergence,
                    ..default_properties()
                })
                &&& read.properties == object_block(b, p, previous, object, block, fixed).0
            }
        }),
{
    reveal(object_block);
    vstd::arithmetic::power2::lemma2_to64();
    lemma_bits_value_bound(b.bytes, b.position as int, 1);
    if let Ok((inactive, b1)) = b.flag() {
        if let Ok((status, b2)) = status_info(b1, inactive, block == 0) {
            lemma_basic_keeps(b2, p, status, previous);
            let (p1, basic) = basic_info(b2, p, status, previous);
            if let Ok(b3) = basic {
                if let Ok((render_status, b4)) = status_info(b3, inactive || fixed, block == 0) {
                    lemma_render_keeps(b4, p1, render_status, block);
                }
            }
        }
    }
}

proof fn lemma_basic_keeps(b: Bits, p: ObjectProperties, status: nat, previous: Gain)
    ensures
        ({
            let (after, read) = basic_info(b, p, status, previous);
            &&& after == (ObjectProperties { gain: after.gain, ..p })
            &&& status == 0 ==> after.gain is Silent
        }),
{
    reveal(basic_info);
    reveal(masked_basic_info);
}

proof fn lemma_render_keeps(b: Bits, p: ObjectProperties, status: nat, block: nat)
    ensures
        ({
            let (after, read) = render_info(b, p, status, block);
            &&& after.gain == p.gain && after.divergence == p.divergence
            &&& status == 0 ==> after == (ObjectProperties {
                gain: p.gain,
                divergence: p.divergence,
                ..default_properties()
            })
        }),
{
    reveal(render_info);
    vstd::arithmetic::power2::lemma2_to64();
    lemma_bits_value_bound(b.bytes, b.position as int, 4);
    law_unselected_rendering_stays(b, p, 15, block != 0);
    if let Ok((mask, rest)) = b.field(4) {
        law_unselected_rendering_stays(rest, p, mask, block != 0);
    }
}

/// Fields that are passed over end at fixed places: a reserved part and a priority are a set
/// bit alone, or a clear bit and five more. A status is two bits of its own, unless it is
/// given by where the block stands.
pub proof fn law_passed_fields_end_at_fixed_places(b: Bits)
    requires
        b.remaining() >= 6,
    ensures
        ({
            let alone = bits_value(b.bytes, b.position as int, 1) == 1;
            let behind = b.advanced(
                if alone {
                    1
                } else {
                    6
                },
            );
            &&& reserved_info(b) == Ok::<Bits, AppError>(behind)
            &&& priority_info(b) == Ok::<Bits, AppError>(behind)
            &&& status_info(b, true, true) == Ok::<(nat, Bits), AppError>((0, b))
            &&& status_info(b, true, false) == Ok::<(nat, Bits), AppError>((0, b))
            &&& status_info(b, false, true) == Ok::<(nat, Bits), AppError>((1, b))
            &&& status_info(b, false, false) == Ok::<(nat, Bits), AppError>(
                (bits_value(b.bytes, b.position as int, 2), b.advanced(2)),
            )
        }),
{
    reveal(reserved_info);
    reveal(priority_info);
    vstd::arithmetic::power2::lemma2_to64();
    lemma_bits_value_bound(b.bytes, b.position as int, 1);
    assert(b.advanced(1).advanced(5) == b.advanced(6));
}

} // verus!
