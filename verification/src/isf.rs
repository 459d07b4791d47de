//! The stacked-ring intermediate spatial format.

use crate::error::{AppError, Reason};
use crate::hrir::{serving_place, HrirChannel, HrirSet};
use crate::spatial::{is_mid, mid, trim_configuration, trim_configuration_of};
use crate::speaker::{copy_speakers, find_speaker, speaker_place, Speaker};
use crate::text::{decimal, digits, text_pair};
use vstd::prelude::*;

verus! {

/// A malformed or unsupported intermediate spatial format program.
#[derive(Clone, Copy, Debug, PartialEq, Eq, Structural)]
pub enum IsfFault {
    ChannelCount { count: usize },
    NoLayout,
    NoMatrix { inputs: usize, speakers: usize },
    OutsideRange { channel: usize },
    NoRoute { speaker: Speaker },
    NoBus { speaker: Speaker },
}

impl IsfFault {
    pub open spec fn text(self) -> Seq<char> {
        match self {
            IsfFault::ChannelCount { count } => "unsupported ISF channel count "@
                + digits(count as nat),
            IsfFault::NoLayout => {
                "ISF rendering requires at least exact left and right HRIR responses"@
            },
            IsfFault::NoMatrix { inputs, speakers } => "no ISF rendering matrix exists for "@
                + digits(inputs as nat)
                + " inputs and "@
                + digits(speakers as nat)
                + " speakers"@,
            IsfFault::OutsideRange { channel } => "channel "@
                + digits(channel as nat)
                + " is outside the configured ISF range"@,
            IsfFault::NoRoute { speaker } => {
                "HRIR has no route for ISF output speaker "@ + speaker.label()
            },
            IsfFault::NoBus { speaker } => {
                "missing virtual-speaker bus for ISF output "@ + speaker.label()
            },
        }
    }

    pub fn message(&self) -> (r: String)
        ensures
            r@ == self.text(),
    {
        match self {
            IsfFault::ChannelCount { count } => {
                let mut text = String::from_str("unsupported ISF channel count ");
                text.append(decimal(*count as u64).as_str());
                text
            },
            IsfFault::NoLayout => String::from_str(
                "ISF rendering requires at least exact left and right HRIR responses",
            ),
            IsfFault::NoMatrix { inputs, speakers } => {
                let mut text = String::from_str("no ISF rendering matrix exists for ");
                text.append(decimal(*inputs as u64).as_str());
                text.append(" inputs and ");
                text.append(decimal(*speakers as u64).as_str());
                text.append(" speakers");
                text
            },
            IsfFault::OutsideRange { channel } => {
                let mut text = String::from_str("channel ");
                text.append(decimal(*channel as u64).as_str());
                text.append(" is outside the configured ISF range");
                text
            },
            IsfFault::NoRoute { speaker } => text_pair(
                "HRIR has no route for ISF output speaker ",
                speaker.name(),
            ),
            IsfFault::NoBus { speaker } => text_pair(
                "missing virtual-speaker bus for ISF output ",
                speaker.name(),
            ),
        }
    }
}

/// The defined numbers of signals.
pub open spec fn isf_size(count: nat) -> bool {
    count == 4 || count == 8 || count == 10 || count == 14 || count == 15 || count == 30
}

/// A run of channels that carries the format's signals.
#[derive(Clone, Copy, Debug, PartialEq, Eq, Structural)]
pub struct IsfConfig {
    pub start_channel: usize,
    pub channel_count: usize,
}

impl IsfConfig {
    /// A run of a defined number of channels.
    pub fn new(start_channel: usize, channel_count: usize) -> (r: Result<Self, AppError>)
        ensures
            isf_size(channel_count as nat) ==> r == Ok::<IsfConfig, AppError>(
                IsfConfig { start_channel, channel_count },
            ),
            !isf_size(channel_count as nat) ==> r == Err::<IsfConfig, AppError>(
                AppError::UnsupportedInput(
                    Reason::Isf(IsfFault::ChannelCount { count: channel_count }),
                ),
            ),
    {
        match channel_count {
            4 | 8 | 10 | 14 | 15 | 30 => Ok(IsfConfig { start_channel, channel_count }),
            _ => Err(
                AppError::UnsupportedInput(
                    Reason::Isf(IsfFault::ChannelCount { count: channel_count }),
                ),
            ),
        }
    }

    /// The matrix row of a channel of the run.
    pub fn row(self, source_channel: usize) -> (r: Option<usize>)
        ensures
            r == (if self.start_channel <= source_channel < self.start_channel + self.channel_count {
                Some((source_channel - self.start_channel) as usize)
            } else {
                None
            }),
    {
        if source_channel < self.start_channel {
            return None;
        }
        let row: usize = source_channel - self.start_channel;
        if row < self.channel_count {
            Some(row)
        } else {
            None
        }
    }
}

/// A layout that the format can be rendered to.
#[derive(Clone, Copy, Debug, PartialEq, Eq, Structural)]
pub enum IsfLayout {
    Two,
    Five,
    Seven,
    /// Seven with two overhead.
    SevenTwo,
    /// Seven with four overhead.
    SevenFour,
    /// Nine with four overhead.
    NineFour,
}

impl IsfLayout {
    /// The speakers of the layout.
    pub open spec fn listed(self) -> Seq<Speaker> {
        match self {
            IsfLayout::Two => seq![Speaker::FrontLeft, Speaker::FrontRight],
            IsfLayout::Five => seq![
                Speaker::FrontLeft,
                Speaker::FrontRight,
                Speaker::FrontCenter,
                Speaker::SideLeft,
                Speaker::SideRight,
            ],
            IsfLayout::Seven => seq![
                Speaker::FrontLeft,
                Speaker::FrontRight,
                Speaker::FrontCenter,
                Speaker::SideLeft,
                Speaker::SideRight,
                Speaker::RearLeft,
                Speaker::RearRight,
            ],
            IsfLayout::SevenTwo => seq![
                Speaker::FrontLeft,
                Speaker::FrontRight,
                Speaker::FrontCenter,
                Speaker::SideLeft,
                Speaker::SideRight,
                Speaker::RearLeft,
                Speaker::RearRight,
                Speaker::TopSideLeft,
                Speaker::TopSideRight,
            ],
            IsfLayout::SevenFour => seq![
                Speaker::FrontLeft,
                Speaker::FrontRight,
                Speaker::FrontCenter,
                Speaker::SideLeft,
                Speaker::SideRight,
                Speaker::RearLeft,
                Speaker::RearRight,
                Speaker::TopFrontLeft,
                Speaker::TopFrontRight,
                Speaker::TopRearLeft,
                Speaker::TopRearRight,
            ],
            IsfLayout::NineFour => seq![
                Speaker::FrontLeft,
                Speaker::FrontRight,
                Speaker::FrontCenter,
                Speaker::SideLeft,
                Speaker::SideRight,
                Speaker::RearLeft,
                Speaker::RearRight,
                Speaker::TopFrontLeft,
                Speaker::TopFrontRight,
                Speaker::TopRearLeft,
                Speaker::TopRearRight,
                Speaker::WideLeft,
                Speaker::WideRight,
            ],
        }
    }

    /// The speakers of the layout.
    pub fn speakers(self) -> (r: Vec<Speaker>)
        ensures
            r@ == self.listed(),
    {
        let all: [Speaker; 13] = [
            Speaker::FrontLeft,
            Speaker::FrontRight,
            Speaker::FrontCenter,
            Speaker::SideLeft,
            Speaker::SideRight,
            Speaker::RearLeft,
            Speaker::RearRight,
            Speaker::TopFrontLeft,
            Speaker::TopFrontRight,
            Speaker::TopRearLeft,
            Speaker::TopRearRight,
            Speaker::WideLeft,
            Speaker::WideRight,
        ];
        let with_sides: [Speaker; 9] = [
            Speaker::FrontLeft,
            Speaker::FrontRight,
            Speaker::FrontCenter,
            Speaker::SideLeft,
            Speaker::SideRight,
            Speaker::RearLeft,
            Speaker::RearRight,
            Speaker::TopSideLeft,
            Speaker::TopSideRight,
        ];
        match self {
            IsfLayout::Two => copy_speakers(vstd::slice::slice_subrange(all.as_slice(), 0, 2)),
            IsfLayout::Five => copy_speakers(vstd::slice::slice_subrange(all.as_slice(), 0, 5)),
            IsfLayout::Seven => copy_speakers(vstd::slice::slice_subrange(all.as_slice(), 0, 7)),
            IsfLayout::SevenTwo => copy_speakers(&with_sides),
            IsfLayout::SevenFour => copy_speakers(
                vstd::slice::slice_subrange(all.as_slice(), 0, 11),
            ),
            IsfLayout::NineFour => copy_speakers(&all),
        }
    }
}

/// Whether a profile has its own channel for each speaker of a list.
pub open spec fn covered(channels: Seq<HrirChannel>, speakers: Seq<Speaker>) -> bool {
    forall|i: int| 0 <= i < speakers.len() ==> own_channel(channels, #[trigger] speakers[i])
}

/// Whether a speaker has a channel of its own.
pub open spec fn own_channel(channels: Seq<HrirChannel>, speaker: Speaker) -> bool {
    exists|i: int| 0 <= i < channels.len() && (#[trigger] channels[i]).speaker == speaker
}

/// The richest layout that a profile covers.
pub open spec fn richest_layout(channels: Seq<HrirChannel>) -> Option<IsfLayout> {
    if covered(channels, IsfLayout::NineFour.listed()) {
        Some(IsfLayout::NineFour)
    } else if covered(channels, IsfLayout::SevenFour.listed()) {
        Some(IsfLayout::SevenFour)
    } else if covered(channels, IsfLayout::SevenTwo.listed()) {
        Some(IsfLayout::SevenTwo)
    } else if covered(channels, IsfLayout::Seven.listed()) {
        Some(IsfLayout::Seven)
    } else if covered(channels, IsfLayout::Five.listed()) {
        Some(IsfLayout::Five)
    } else if covered(channels, IsfLayout::Two.listed()) {
        Some(IsfLayout::Two)
    } else {
        None
    }
}

fn covers(hrir: &HrirSet, layout: IsfLayout) -> (r: bool)
    ensures
        r == covered(hrir.channels@, layout.listed()),
{
    let speakers = layout.speakers();
    let mut i: usize = 0;
    while i < speakers.len()
        invariant
            i <= speakers@.len(),
            speakers@ == layout.listed(),
            forall|k: int| 0 <= k < i ==> own_channel(hrir.channels@, #[trigger] speakers@[k]),
        decreases speakers@.len() - i,
    {
        if !hrir.has_exact(speakers[i]) {
            assert(!own_channel(hrir.channels@, speakers@[i as int]));
            return false;
        }
        i = i + 1;
    }
    true
}

/// Chooses the richest layout that a profile covers.
pub fn select_layout(hrir: &HrirSet) -> (r: Result<IsfLayout, AppError>)
    ensures
        match richest_layout(hrir.channels@) {
            Some(layout) => r == Ok::<IsfLayout, AppError>(layout),
            None => r == Err::<IsfLayout, AppError>(
                AppError::InvalidHrir(Reason::Isf(IsfFault::NoLayout)),
            ),
        },
{
    if covers(hrir, IsfLayout::NineFour) {
        Ok(IsfLayout::NineFour)
    } else if covers(hrir, IsfLayout::SevenFour) {
        Ok(IsfLayout::SevenFour)
    } else if covers(hrir, IsfLayout::SevenTwo) {
        Ok(IsfLayout::SevenTwo)
    } else if covers(hrir, IsfLayout::Seven) {
        Ok(IsfLayout::Seven)
    } else if covers(hrir, IsfLayout::Five) {
        Ok(IsfLayout::Five)
    } else if covers(hrir, IsfLayout::Two) {
        Ok(IsfLayout::Two)
    } else {
        Err(AppError::InvalidHrir(Reason::Isf(IsfFault::NoLayout)))
    }
}

/// One rendering matrix: a row of coefficients for each signal, as bit patterns
/// of singles.
#[derive(Clone, Debug)]
pub struct IsfTable {
    pub inputs: usize,
    pub layout: IsfLayout,
    pub coefficients: Vec<u32>,
}

/// The place of the matrix for a number of signals and a layout, from a place
/// on.
pub open spec fn table_place(tables: Seq<IsfTable>, inputs: usize, layout: IsfLayout, start: nat) -> Option<
    nat,
>
    decreases tables.len() - start,
{
    if start >= tables.len() {
        None
    } else if tables[start as int].inputs == inputs && tables[start as int].layout == layout {
        Some(start)
    } else {
        table_place(tables, inputs, layout, start + 1)
    }
}

/// Finds the matrix for a number of signals and a layout.
pub fn find_table(tables: &[IsfTable], inputs: usize, layout: IsfLayout) -> (r: Result<
    usize,
    AppError,
>)
    ensures
        match table_place(tables@, inputs, layout, 0) {
            Some(place) => r is Ok && r->Ok_0 == place && r->Ok_0 < tables@.len(),
            None => r == Err::<usize, AppError>(
                AppError::UnsupportedInput(
                    Reason::Isf(
                        IsfFault::NoMatrix { inputs, speakers: layout.listed().len() as usize },
                    ),
                ),
            ),
        },
{
    let mut i: usize = 0;
    while i < tables.len()
        invariant
            i <= tables@.len(),
            table_place(tables@, inputs, layout, 0) == table_place(
                tables@,
                inputs,
                layout,
                i as nat,
            ),
        decreases tables@.len() - i,
    {
        if tables[i].inputs == inputs && tables[i].layout == layout {
            return Ok(i);
        }
        i = i + 1;
    }
    let speakers = layout.speakers();
    Err(
        AppError::UnsupportedInput(
            Reason::Isf(IsfFault::NoMatrix { inputs, speakers: speakers.len() }),
        ),
    )
}

/// Where one output of the matrix goes: to which virtual speaker, as which
/// speaker.
#[derive(Clone, Copy, Debug, PartialEq, Eq, Structural)]
pub struct IsfOutput {
    pub bus: usize,
    pub routed: Speaker,
}

/// The route of one output. Outputs that are muted have none.
pub open spec fn output_route(
    speaker: Speaker,
    hrir: HrirSet,
    buses: Seq<Speaker>,
    surround_swap: bool,
    mute_ground: bool,
) -> Result<Option<IsfOutput>, AppError> {
    if mute_ground && !speaker.overhead() {
        Ok(None)
    } else {
        let routed = if surround_swap {
            speaker.swapped()
        } else {
            speaker
        };
        match serving_place(hrir.channels@, routed) {
            None => Err(AppError::InvalidHrir(Reason::Isf(IsfFault::NoRoute { speaker: routed }))),
            Some(place) => {
                let resolved = hrir.channels@[place as int].speaker;
                match speaker_place(buses, resolved, 0) {
                    None => Err(
                        AppError::Render(Reason::Isf(IsfFault::NoBus { speaker: resolved })),
                    ),
                    Some(bus) => Ok(Some(IsfOutput { bus: bus as usize, routed })),
                }
            },
        }
    }
}

/// The routes of the outputs, from one on.
pub open spec fn output_routes(
    speakers: Seq<Speaker>,
    hrir: HrirSet,
    buses: Seq<Speaker>,
    surround_swap: bool,
    mute_ground: bool,
    start: nat,
) -> Result<Seq<Option<IsfOutput>>, AppError>
    decreases speakers.len() - start,
{
    if start >= speakers.len() {
        Ok(seq![])
    } else {
        match output_route(
            speakers[start as int],
            hrir,
            buses,
            surround_swap,
            mute_ground,
        ) {
            Err(e) => Err(e),
            Ok(route) => match output_routes(
                speakers,
                hrir,
                buses,
                surround_swap,
                mute_ground,
                start + 1,
            ) {
                Err(e) => Err(e),
                Ok(others) => Ok(seq![route] + others),
            },
        }
    }
}

fn find_route(
    speaker: Speaker,
    hrir: &HrirSet,
    buses: &[Speaker],
    surround_swap: bool,
    mute_ground: bool,
) -> (r: Result<Option<IsfOutput>, AppError>)
    ensures
        r == output_route(speaker, *hrir, buses@, surround_swap, mute_ground),
        r is Ok && r->Ok_0 is Some ==> (r->Ok_0)->0.bus < buses@.len(),
{
    if mute_ground && !speaker.is_height() {
        return Ok(None);
    }
    let routed: Speaker = if surround_swap {
        speaker.surround_swapped()
    } else {
        speaker
    };
    let resolved: Speaker = match hrir.resolved_speaker(routed) {
        None => return Err(
            AppError::InvalidHrir(Reason::Isf(IsfFault::NoRoute { speaker: routed })),
        ),
        Some(resolved) => resolved,
    };
    match find_speaker(buses, resolved) {
        None => Err(AppError::Render(Reason::Isf(IsfFault::NoBus { speaker: resolved }))),
        Some(bus) => Ok(Some(IsfOutput { bus, routed })),
    }
}

fn find_routes(
    speakers: &[Speaker],
    hrir: &HrirSet,
    buses: &[Speaker],
    surround_swap: bool,
    mute_ground: bool,
) -> (r: Result<Vec<Option<IsfOutput>>, AppError>)
    ensures
        match output_routes(speakers@, *hrir, buses@, surround_swap, mute_ground, 0) {
            Err(e) => r == Err::<Vec<Option<IsfOutput>>, AppError>(e),
            Ok(routes) => r is Ok && r->Ok_0@ == routes,
        },
        r is Ok ==> r->Ok_0@.len() == speakers@.len(),
{
    let mut routes: Vec<Option<IsfOutput>> = Vec::new();
    let mut i: usize = 0;
    while i < speakers.len()
        invariant
            i <= speakers@.len(),
            routes@.len() == i,
            output_routes(speakers@, *hrir, buses@, surround_swap, mute_ground, 0)
                == (match output_routes(
                speakers@,
                *hrir,
                buses@,
                surround_swap,
                mute_ground,
                i as nat,
            ) {
                Err(e) => Err(e),
                Ok(others) => Ok(routes@ + others),
            }),
        decreases speakers@.len() - i,
    {
        let ghost known = routes@;
        let route = find_route(speakers[i], hrir, buses, surround_swap, mute_ground)?;
        routes.push(route);
        proof {
            if let Ok(others) = output_routes(
                speakers@,
                *hrir,
                buses@,
                surround_swap,
                mute_ground,
                (i + 1) as nat,
            ) {
                assert(known + (seq![route] + others) =~= routes@ + others);
            }
        }
        i = i + 1;
    }
    assert(routes@ + Seq::<Option<IsfOutput>>::empty() =~= routes@);
    Ok(routes)
}

/// How many of the first speakers are surrounds on the plane of the listener.
pub open spec fn mids_among(speakers: Seq<Speaker>, count: nat) -> nat
    decreases count,
{
    if count == 0 {
        0
    } else {
        mids_among(speakers, (count - 1) as nat) + if mid(speakers[count - 1]) {
            1nat
        } else {
            0nat
        }
    }
}

/// How many of the first speakers are overhead.
pub open spec fn tops_among(speakers: Seq<Speaker>, count: nat) -> nat
    decreases count,
{
    if count == 0 {
        0
    } else {
        tops_among(speakers, (count - 1) as nat) + if speakers[count - 1].overhead() {
            1nat
        } else {
            0nat
        }
    }
}

fn configuration_of(speakers: &[Speaker]) -> (r: usize)
    ensures
        r == trim_configuration_of(
            mids_among(speakers@, speakers@.len()),
            tops_among(speakers@, speakers@.len()),
        ),
        r < 9,
{
    let mut mids: usize = 0;
    let mut tops: usize = 0;
    let mut i: usize = 0;
    while i < speakers.len()
        invariant
            i <= speakers@.len(),
            mids <= i,
            tops <= i,
            mids == mids_among(speakers@, i as nat),
            tops == tops_among(speakers@, i as nat),
        decreases speakers@.len() - i,
    {
        if is_mid(speakers[i]) {
            mids = mids + 1;
        }
        if speakers[i].is_height() {
            tops = tops + 1;
        }
        i = i + 1;
    }
    trim_configuration(mids, tops)
}

/// How the signals of the format reach the virtual speakers.
pub struct IsfRenderer {
    pub config: IsfConfig,
    pub layout: IsfLayout,
    /// The place of the matrix in the list of tables.
    pub table: usize,
    pub outputs: Vec<Option<IsfOutput>>,
    pub trim_configuration: usize,
    pub muted: bool,
}

/// What a signal is multiplied with.
#[derive(Clone, Copy, Debug, PartialEq, Eq, Structural)]
pub enum RowPlan {
    /// Nothing is heard of it.
    Silent,
    /// A row of coefficients that begins at a place of the matrix.
    Row { start: usize },
}

impl IsfRenderer {
    /// Prepares a run of signals for the virtual speakers of a profile.
    pub fn new(
        config: IsfConfig,
        hrir: &HrirSet,
        tables: &[IsfTable],
        buses: &[Speaker],
        surround_swap: bool,
        mute_bed: bool,
        mute_ground: bool,
    ) -> (r: Result<Self, AppError>)
        ensures
            match richest_layout(hrir.channels@) {
                None => r == Err::<IsfRenderer, AppError>(
                    AppError::InvalidHrir(Reason::Isf(IsfFault::NoLayout)),
                ),
                Some(layout) => match table_place(tables@, config.channel_count, layout, 0) {
                    None => r == Err::<IsfRenderer, AppError>(
                        AppError::UnsupportedInput(
                            Reason::Isf(
                                IsfFault::NoMatrix {
                                    inputs: config.channel_count,
                                    speakers: layout.listed().len() as usize,
                                },
                            ),
                        ),
                    ),
                    Some(place) => match output_routes(
                        layout.listed(),
                        *hrir,
                        buses@,
                        surround_swap,
                        mute_ground,
                        0,
                    ) {
                        Err(e) => r == Err::<IsfRenderer, AppError>(e),
                        Ok(routes) => {
                            &&& r is Ok
                            &&& r->Ok_0.config == config
                            &&& r->Ok_0.layout == layout
                            &&& r->Ok_0.table == place
                            &&& r->Ok_0.outputs@ == routes
                            &&& r->Ok_0.trim_configuration == trim_configuration_of(
                                mids_among(layout.listed(), layout.listed().len()),
                                tops_among(layout.listed(), layout.listed().len()),
                            )
                            &&& r->Ok_0.muted == mute_bed
                            &&& r->Ok_0.outputs@.len() == layout.listed().len()
                        },
                    },
                },
            },
    {
        let layout = select_layout(hrir)?;
        let table = find_table(tables, config.channel_count, layout)?;
        let speakers = layout.speakers();
        let outputs = find_routes(
            speakers.as_slice(),
            hrir,
            buses,
            surround_swap,
            mute_ground,
        )?;
        Ok(
            IsfRenderer {
                config,
                layout,
                table,
                outputs,
                trim_configuration: configuration_of(speakers.as_slice()),
                muted: mute_bed,
            },
        )
    }

    /// The row of coefficients of a signal, unless nothing is heard of it.
    pub fn row_plan(&self, source_channel: usize, active: bool) -> (r: Result<RowPlan, AppError>)
        requires
            self.config.channel_count <= 30,
            self.outputs@.len() <= 13,
        ensures
            ({
                let first = self.config.start_channel;
                if !(first <= source_channel < first + self.config.channel_count) {
                    r == Err::<RowPlan, AppError>(
                        AppError::Render(
                            Reason::Isf(IsfFault::OutsideRange { channel: source_channel }),
                        ),
                    )
                } else if !active || self.muted {
                    r == Ok::<RowPlan, AppError>(RowPlan::Silent)
                } else {
                    r is Ok && r->Ok_0 is Row && r->Ok_0->start == (source_channel - first)
                        * self.outputs@.len()
                }
            }),
    {
        match self.config.row(source_channel) {
            None => Err(
                AppError::Render(Reason::Isf(IsfFault::OutsideRange { channel: source_channel })),
            ),
            Some(row) => {
                if !active || self.muted {
                    return Ok(RowPlan::Silent);
                }
                let width: usize = self.outputs.len();
                assert(row * width <= 30 * 13) by (nonlinear_arith)
                    requires
                        row < 30,
                        width <= 13,
                ;
                Ok(RowPlan::Row { start: row * width })
            },
        }
    }
}

/// A profile with all channels of one layout never gets a poorer one.
pub proof fn law_a_covered_layout_is_not_passed_over(channels: Seq<HrirChannel>, layout: IsfLayout)
    requires
        covered(channels, layout.listed()),
    ensures
        richest_layout(channels) is Some,
        richest_layout(channels)->0.listed().len() >= layout.listed().len(),
{
}

/// The rows of a matrix lie one behind the other and fill it.
pub proof fn law_rows_fill_their_matrix(inputs: nat, width: nat, row: nat)
    requires
        row < inputs,
    ensures
        row * width + width <= inputs * width,
        (row + 1) * width == row * width + width,
        row + 1 == inputs ==> row * width + width == inputs * width,
{
    assert((row + 1) * width == row * width + width) by (nonlinear_arith);
    assert((row + 1) * width <= inputs * width) by (nonlinear_arith)
        requires
            row + 1 <= inputs,
    ;
}

/// The layouts of the format grow from each other: every one but the first begins with
/// one that is poorer, and adds pairs. Behind the front pair comes the centre, then
/// the sides, the rear, and above the sides or above front and rear; and with all of
/// these the wides. All but the centre stand in pairs, the left one first.
pub proof fn law_layouts_grow_from_each_other()
    ensures
        IsfLayout::Two.listed() =~= seq![Speaker::FrontLeft, Speaker::FrontLeft.mirrored()],
        IsfLayout::Five.listed() =~= IsfLayout::Two.listed() + seq![
            Speaker::FrontCenter,
            Speaker::SideLeft,
            Speaker::SideLeft.mirrored(),
        ],
        IsfLayout::Seven.listed() =~= IsfLayout::Five.listed() + seq![
            Speaker::RearLeft,
            Speaker::RearLeft.mirrored(),
        ],
        IsfLayout::SevenTwo.listed() =~= IsfLayout::Seven.listed() + seq![
            Speaker::TopSideLeft,
            Speaker::TopSideLeft.mirrored(),
        ],
        IsfLayout::SevenFour.listed() =~= IsfLayout::Seven.listed() + seq![
            Speaker::TopFrontLeft,
            Speaker::TopFrontLeft.mirrored(),
            Speaker::TopRearLeft,
            Speaker::TopRearLeft.mirrored(),
        ],
        IsfLayout::NineFour.listed() =~= IsfLayout::SevenFour.listed() + seq![
            Speaker::WideLeft,
            Speaker::WideLeft.mirrored(),
        ],
{
}

/// The layout that is chosen is covered by the profile, and any profile with both
/// front speakers has one.
pub proof fn law_the_chosen_layout_is_covered(channels: Seq<HrirChannel>, i: int)
    ensures
        richest_layout(channels) matches Some(layout) ==> (0 <= i < layout.listed().len()
            ==> own_channel(channels, layout.listed()[i])),
        own_channel(channels, Speaker::FrontLeft) && own_channel(channels, Speaker::FrontRight)
            ==> richest_layout(channels) is Some,
        richest_layout(channels) is Some ==> own_channel(channels, Speaker::FrontLeft)
            && own_channel(channels, Speaker::FrontRight),
{
    let two = IsfLayout::Two.listed();
    assert(two[0] == Speaker::FrontLeft && two[1] == Speaker::FrontRight);
    if let Some(layout) = richest_layout(channels) {
        let list = layout.listed();
        assert(covered(channels, list));
        assert(own_channel(channels, list[0]) && own_channel(channels, list[1]));
        assert(list[0] == Speaker::FrontLeft && list[1] == Speaker::FrontRight);
    }
}

/// A matrix is that of the signals and layout that were asked for, and the first such.
pub proof fn law_the_matrix_fits(tables: Seq<IsfTable>, inputs: usize, layout: IsfLayout, start: nat)
    ensures
        match table_place(tables, inputs, layout, start) {
            Some(place) => start <= place < tables.len() && tables[place as int].inputs == inputs
                && tables[place as int].layout == layout && (forall|i: int|
                start <= i < place ==> !((#[trigger] tables[i]).inputs == inputs && tables[i].layout
                    == layout)),
            None => forall|i: int|
                start <= i < tables.len() ==> !((#[trigger] tables[i]).inputs == inputs
                    && tables[i].layout == layout),
        },
    decreases tables.len() - start,
{
    if start < tables.len() && !(tables[start as int].inputs == inputs
        && tables[start as int].layout == layout) {
        law_the_matrix_fits(tables, inputs, layout, start + 1);
    }
}

/// An output has no route exactly where the ground is muted and its speaker stands on
/// it. Any other goes to the bus of the channel that serves its speaker, or the one
/// that was exchanged for it.
pub proof fn law_outputs_go_to_the_serving_bus(
    speaker: Speaker,
    hrir: HrirSet,
    buses: Seq<Speaker>,
    surround_swap: bool,
    mute_ground: bool,
)
    requires
        output_route(speaker, hrir, buses, surround_swap, mute_ground) is Ok,
        buses.len() <= usize::MAX,
    ensures
        match output_route(speaker, hrir, buses, surround_swap, mute_ground)->Ok_0 {
            None => mute_ground && !speaker.overhead(),
            Some(output) => {
                &&& !mute_ground || speaker.overhead()
                &&& surround_swap ==> output.routed.swapped() == speaker
                &&& !surround_swap ==> output.routed == speaker
                &&& output.bus < buses.len()
                &&& serving_place(hrir.channels@, output.routed) matches Some(place)
                    && buses[output.bus as int] == hrir.channels@[place as int].speaker
            },
        },
{
    if let Some(place) = serving_place(hrir.channels@, speaker) {
        crate::speaker::lemma_place_in_range(buses, hrir.channels@[place as int].speaker, 0);
    }
    if let Some(place) = serving_place(hrir.channels@, speaker.swapped()) {
        crate::speaker::lemma_place_in_range(buses, hrir.channels@[place as int].speaker, 0);
    }
}

/// The routes of a layout stand in the order of its speakers, one for each.
pub proof fn law_every_output_has_its_route(
    speakers: Seq<Speaker>,
    hrir: HrirSet,
    buses: Seq<Speaker>,
    surround_swap: bool,
    mute_ground: bool,
    start: nat,
    i: int,
)
    requires
        output_routes(speakers, hrir, buses, surround_swap, mute_ground, start) is Ok,
        start <= i < speakers.len(),
    ensures
        ({
            let routes = output_routes(speakers, hrir, buses, surround_swap, mute_ground, start)->Ok_0;
            &&& routes.len() == speakers.len() - start
            &&& Ok::<Option<IsfOutput>, AppError>(routes[i - start]) == output_route(
                speakers[i],
                hrir,
                buses,
                surround_swap,
                mute_ground,
            )
        }),
    decreases speakers.len() - start,
{
    let routes = output_routes(speakers, hrir, buses, surround_swap, mute_ground, start)->Ok_0;
    let others = output_routes(
        speakers,
        hrir,
        buses,
        surround_swap,
        mute_ground,
        start + 1,
    )->Ok_0;
    if start + 1 < speakers.len() {
        law_every_output_has_its_route(
            speakers,
            hrir,
            buses,
            surround_swap,
            mute_ground,
            start + 1,
            if i > start { i } else { start as int + 1 },
        );
        if i > start {
            assert(routes[i - start] == others[i - start - 1]);
        }
    } else {
        reveal_with_fuel(output_routes, 2);
    }
}

/// The trims of the layouts: the pair has neither surrounds nor overhead speakers, five
/// have some surrounds, seven and nine many, two overhead are some and four many.
pub proof fn law_layouts_count_their_surrounds(layout: IsfLayout)
    ensures
        ({
            let list = layout.listed();
            let surrounds = mids_among(list, list.len());
            let tops = tops_among(list, list.len());
            &&& surrounds == (match layout {
                IsfLayout::Two => 0nat,
                IsfLayout::Five => 2,
                IsfLayout::NineFour => 6,
                _ => 4,
            })
            &&& tops == (match layout {
                IsfLayout::SevenTwo => 2nat,
                IsfLayout::SevenFour => 4,
                IsfLayout::NineFour => 4,
                _ => 0,
            })
        }),
{
    let list = layout.listed();
    match layout {
        IsfLayout::Two => {
            assert(mids_among(list, 0) == 0 && tops_among(list, 0) == 0);
            assert(mids_among(list, 1) == 0 && tops_among(list, 1) == 0);
            assert(mids_among(list, 2) == 0 && tops_among(list, 2) == 0);
        },
        IsfLayout::Five => {
            assert(mids_among(list, 0) == 0 && tops_among(list, 0) == 0);
            assert(mids_among(list, 1) == 0 && tops_among(list, 1) == 0);
            assert(mids_among(list, 2) == 0 && tops_among(list, 2) == 0);
            assert(mids_among(list, 3) == 0 && tops_among(list, 3) == 0);
            assert(mids_among(list, 4) == 1 && tops_among(list, 4) == 0);
            assert(mids_among(list, 5) == 2 && tops_among(list, 5) == 0);
        },
        IsfLayout::Seven => {
            assert(mids_among(list, 0) == 0 && tops_among(list, 0) == 0);
            assert(mids_among(list, 1) == 0 && tops_among(list, 1) == 0);
            assert(mids_among(list, 2) == 0 && tops_among(list, 2) == 0);
            assert(mids_among(list, 3) == 0 && tops_among(list, 3) == 0);
            assert(mids_among(list, 4) == 1 && tops_among(list, 4) == 0);
            assert(mids_among(list, 5) == 2 && tops_among(list, 5) == 0);
            assert(mids_among(list, 6) == 3 && tops_among(list, 6) == 0);
            assert(mids_among(list, 7) == 4 && tops_among(list, 7) == 0);
        },
        IsfLayout::SevenTwo => {
            assert(mids_among(list, 0) == 0 && tops_among(list, 0) == 0);
            assert(mids_among(list, 1) == 0 && tops_among(list, 1) == 0);
            assert(mids_among(list, 2) == 0 && tops_among(list, 2) == 0);
            assert(mids_among(list, 3) == 0 && tops_among(list, 3) == 0);
            assert(mids_among(list, 4) == 1 && tops_among(list, 4) == 0);
            assert(mids_among(list, 5) == 2 && tops_among(list, 5) == 0);
            assert(mids_among(list, 6) == 3 && tops_among(list, 6) == 0);
            assert(mids_among(list, 7) == 4 && tops_among(list, 7) == 0);
            assert(mids_among(list, 8) == 4 && tops_among(list, 8) == 1);
            assert(mids_among(list, 9) == 4 && tops_among(list, 9) == 2);
        },
        IsfLayout::SevenFour => {
            assert(mids_among(list, 0) == 0 && tops_among(list, 0) == 0);
            assert(mids_among(list, 1) == 0 && tops_among(list, 1) == 0);
            assert(mids_among(list, 2) == 0 && tops_among(list, 2) == 0);
            assert(mids_among(list, 3) == 0 && tops_among(list, 3) == 0);
            assert(mids_among(list, 4) == 1 && tops_among(list, 4) == 0);
            assert(mids_among(list, 5) == 2 && tops_among(list, 5) == 0);
            assert(mids_among(list, 6) == 3 && tops_among(list, 6) == 0);
            assert(mids_among(list, 7) == 4 && tops_among(list, 7) == 0);
            assert(mids_among(list, 8) == 4 && tops_among(list, 8) == 1);
            assert(mids_among(list, 9) == 4 && tops_among(list, 9) == 2);
            assert(mids_among(list, 10) == 4 && tops_among(list, 10) == 3);
            assert(mids_among(list, 11) == 4 && tops_among(list, 11) == 4);
        },
        IsfLayout::NineFour => {
            assert(mids_among(list, 0) == 0 && tops_among(list, 0) == 0);
            assert(mids_among(list, 1) == 0 && tops_among(list, 1) == 0);
            assert(mids_among(list, 2) == 0 && tops_among(list, 2) == 0);
            assert(mids_among(list, 3) == 0 && tops_among(list, 3) == 0);
            assert(mids_among(list, 4) == 1 && tops_among(list, 4) == 0);
            assert(mids_among(list, 5) == 2 && tops_among(list, 5) == 0);
            assert(mids_among(list, 6) == 3 && tops_among(list, 6) == 0);
            assert(mids_among(list, 7) == 4 && tops_among(list, 7) == 0);
            assert(mids_among(list, 8) == 4 && tops_among(list, 8) == 1);
            assert(mids_among(list, 9) == 4 && tops_among(list, 9) == 2);
            assert(mids_among(list, 10) == 4 && tops_among(list, 10) == 3);
            assert(mids_among(list, 11) == 4 && tops_among(list, 11) == 4);
            assert(mids_among(list, 12) == 5 && tops_among(list, 12) == 4);
            assert(mids_among(list, 13) == 6 && tops_among(list, 13) == 4);
        },
    }
}

} // verus!
