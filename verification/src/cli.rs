//! The choices of the command line.

use crate::error::{AppError, Reason};
use crate::selection::DecodeCapability;
use crate::text::{join, joined, text_pair, texts};
use vstd::prelude::*;

verus! {

#[derive(Clone, Copy, Debug, PartialEq, Eq, Structural)]
pub enum Toggle {
    Off,
    On,
}

impl Default for Toggle {
    fn default() -> (r: Self)
        ensures
            r == Toggle::Off,
    {
        Toggle::Off
    }
}

impl Toggle {
    pub fn enabled(self) -> (r: bool)
        ensures
            r == (self == Toggle::On),
    {
        match self {
            Toggle::On => true,
            Toggle::Off => false,
        }
    }
}

#[derive(Clone, Copy, Debug, PartialEq, Eq, Structural)]
pub enum ProgressMode {
    Text,
    Json,
    Quiet,
}

impl Default for ProgressMode {
    fn default() -> (r: Self)
        ensures
            r == ProgressMode::Text,
    {
        ProgressMode::Text
    }
}

/// The codec of the appended track.
#[derive(Clone, Copy, Debug, PartialEq, Eq, Structural)]
pub enum OutputCodec {
    Flac,
    Aac,
}

impl Default for OutputCodec {
    fn default() -> (r: Self)
        ensures
            r == OutputCodec::Flac,
    {
        OutputCodec::Flac
    }
}

#[derive(Clone, Copy, Debug, PartialEq, Eq, Structural)]
pub enum ObjectRendererMode {
    /// Virtual-speaker renderer.
    Baseline,
    /// Continuous object filters and source-relative early reflections.
    Continuous,
}

impl Default for ObjectRendererMode {
    fn default() -> (r: Self)
        ensures
            r == ObjectRendererMode::Baseline,
    {
        ObjectRendererMode::Baseline
    }
}

#[derive(Clone, Copy, Debug, PartialEq, Eq, Structural)]
pub enum DistanceRendererMode {
    /// Fixed sparse early field.
    Baseline,
    /// Constant-power direct sound plus source-relative image reflections.
    ImageSource,
}

impl Default for DistanceRendererMode {
    fn default() -> (r: Self)
        ensures
            r == DistanceRendererMode::Baseline,
    {
        DistanceRendererMode::Baseline
    }
}

/// The choices that only some kinds of track allow.
#[derive(Clone, Copy, Debug, PartialEq, Eq)]
pub struct TrackOptions {
    pub upconvert: Toggle,
    pub matrix: Toggle,
    pub mlp_presentation: Option<u8>,
}

/// Whether a track carries objects.
pub open spec fn carries_objects(capability: DecodeCapability) -> bool {
    capability == DecodeCapability::TrueHdObjects || capability == DecodeCapability::JocObjects
}

/// The options that a kind of track does not implement, in the order in which they
/// are named.
pub open spec fn unimplemented_options(options: TrackOptions, capability: DecodeCapability) -> Seq<
    Seq<char>,
> {
    let upconvert = if carries_objects(capability) && options.upconvert == Toggle::On {
        seq!["--upconvert"@]
    } else {
        seq![]
    };
    let matrix = if carries_objects(capability) && options.matrix == Toggle::On {
        seq!["--matrix"@]
    } else {
        seq![]
    };
    let presentation = if capability != DecodeCapability::TrueHdObjects
        && options.mlp_presentation is Some {
        seq!["--mlp-presentation"@]
    } else {
        seq![]
    };
    upconvert + matrix + presentation
}

/// Refuses options that the selected kind of track does not implement.
pub fn validate_implemented_options(options: TrackOptions, capability: DecodeCapability) -> (r: Result<
    (),
    AppError,
>)
    ensures
        ({
            let refused = unimplemented_options(options, capability);
            &&& refused.len() == 0 ==> r is Ok
            &&& refused.len() > 0 ==> r is Err && r->Err_0 is Usage && r->Err_0.text()
                == "these options are not implemented by the Rust renderer yet: "@ + joined(
                refused,
                ", "@,
            )
        }),
{
    let ghost refused = unimplemented_options(options, capability);
    let mut names: Vec<String> = Vec::new();
    let objects: bool = match capability {
        DecodeCapability::TrueHdObjects | DecodeCapability::JocObjects => true,
        _ => false,
    };
    if objects && options.upconvert.enabled() {
        names.push(String::from_str("--upconvert"));
    }
    if objects && options.matrix.enabled() {
        names.push(String::from_str("--matrix"));
    }
    let truehd: bool = match capability {
        DecodeCapability::TrueHdObjects => true,
        _ => false,
    };
    if !truehd && options.mlp_presentation.is_some() {
        names.push(String::from_str("--mlp-presentation"));
    }
    assert(texts(names@) =~= refused);
    if names.len() == 0 {
        return Ok(());
    }
    let list = join(&names, ", ");
    Err(
        AppError::Usage(
            Reason::Note(
                text_pair(
                    "these options are not implemented by the Rust renderer yet: ",
                    list.as_str(),
                ),
            ),
        ),
    )
}

/// Tracks with objects refuse to be upconverted or matrixed, and all but TrueHD refuse a
/// presentation; an option that is not given is never refused, and nothing else is.
pub proof fn law_options_are_refused_by_the_tracks_that_cannot_have_them(
    options: TrackOptions,
    capability: DecodeCapability,
)
    ensures
        ({
            let refused = unimplemented_options(options, capability);
            let objects = capability is TrueHdObjects || capability is JocObjects;
            &&& refused.contains("--upconvert"@) <==> options.upconvert is On && objects
            &&& refused.contains("--matrix"@) <==> options.matrix is On && objects
            &&& refused.contains("--mlp-presentation"@) <==> options.mlp_presentation is Some && !(
            capability is TrueHdObjects)
            &&& forall|i: int|
                0 <= i < refused.len() ==> (#[trigger] refused[i]) == "--upconvert"@ || refused[i]
                    == "--matrix"@ || refused[i] == "--mlp-presentation"@
            &&& refused.no_duplicates()
        }),
{
    reveal_strlit("--upconvert");
    reveal_strlit("--matrix");
    reveal_strlit("--mlp-presentation");
    assert("--upconvert"@.len() == 11 && "--matrix"@.len() == 8 && "--mlp-presentation"@.len()
        == 18);
    let refused = unimplemented_options(options, capability);
    let objects = capability is TrueHdObjects || capability is JocObjects;
    let first: nat = if options.upconvert is On && objects {
        1
    } else {
        0
    };
    let second: nat = if options.matrix is On && objects {
        1
    } else {
        0
    };
    let third: nat = if options.mlp_presentation is Some && !(capability is TrueHdObjects) {
        1
    } else {
        0
    };
    assert(refused.len() == first + second + third);
    if first == 1 {
        assert(refused[0] == "--upconvert"@);
    }
    if second == 1 {
        assert(refused[first as int] == "--matrix"@);
    }
    if third == 1 {
        assert(refused[(first + second) as int] == "--mlp-presentation"@);
    }
}

} // verus!
