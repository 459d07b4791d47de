//! The errors of the library and the process exit code of each.

use crate::eac3::StreamFault;
use crate::eac3_render::AtmosFault;
use crate::hrir::HrirFault;
use crate::isf::IsfFault;
use crate::joc::JocFault;
use crate::oamd::OamdFault;
use crate::text::text_pair;
use crate::truehd_adapter::TrueHdFault;
use vstd::prelude::*;

verus! {

/// What went wrong, as data.
#[derive(Debug)]
pub enum Reason {
    /// Free text from outside the library.
    Note(String),
    /// A malformed E-AC-3 stream or bit field.
    Stream(StreamFault),
    /// Malformed or unsupported object metadata.
    Oamd(OamdFault),
    /// An unsupported intermediate spatial format program.
    Isf(IsfFault),
    /// Malformed or unsupported joint object coding.
    Joc(JocFault),
    /// Malformed or unsupported TrueHD audio.
    TrueHd(TrueHdFault),
    /// A malformed or unsupported object program in E-AC-3.
    Atmos(AtmosFault),
    /// A profile or a room correction that cannot be used.
    Hrir(HrirFault),
}

impl Reason {
    /// The wording of the reason.
    pub open spec fn text(self) -> Seq<char>
        decreases self,
    {
        match self {
            Reason::Note(note) => note@,
            Reason::Stream(fault) => fault.text(),
            Reason::Oamd(fault) => fault.text(),
            Reason::Isf(fault) => fault.text(),
            Reason::Joc(fault) => fault.text(),
            Reason::TrueHd(fault) => fault.text(),
            Reason::Atmos(fault) => fault.text(),
            Reason::Hrir(fault) => fault.text(),
        }
    }

    /// Words the reason.
    pub fn message(&self) -> (r: String)
        ensures
            r@ == self.text(),
        decreases self,
    {
        match self {
            Reason::Note(note) => note.clone(),
            Reason::Stream(fault) => fault.message(),
            Reason::Oamd(fault) => fault.message(),
            Reason::Isf(fault) => fault.message(),
            Reason::Joc(fault) => fault.message(),
            Reason::TrueHd(fault) => fault.message(),
            Reason::Atmos(fault) => fault.message(),
            Reason::Hrir(fault) => fault.message(),
        }
    }
}

/// An error, classified by the stage that raised it.
#[derive(Debug)]
pub enum AppError {
    Usage(Reason),
    Dependency(Reason),
    UnsupportedInput(Reason),
    InvalidHrir(Reason),
    Render(Reason),
    Mux(Reason),
    Cancelled,
    File { path: String, source: String },
    Json(String),
    Io(String),
}

impl AppError {
    /// The exit code of each class of error.
    pub open spec fn code(self) -> u8 {
        match self {
            AppError::Usage(_) => 2,
            AppError::Dependency(_) => 3,
            AppError::UnsupportedInput(_) => 4,
            AppError::InvalidHrir(_) => 5,
            AppError::Render(_) => 6,
            AppError::Mux(_) => 7,
            AppError::Cancelled => 130,
            AppError::File { .. } => 6,
            AppError::Json(_) => 6,
            AppError::Io(_) => 6,
        }
    }

    /// The exit code of the process that ends with this error.
    pub fn exit_code(&self) -> (code: u8)
        ensures
            code == self.code(),
    {
        match self {
            AppError::Usage(_) => 2,
            AppError::Dependency(_) => 3,
            AppError::UnsupportedInput(_) => 4,
            AppError::InvalidHrir(_) => 5,
            AppError::Render(_) => 6,
            AppError::Mux(_) => 7,
            AppError::Cancelled => 130,
            AppError::File { .. } => 6,
            AppError::Json(_) => 6,
            AppError::Io(_) => 6,
        }
    }

    /// The wording of the error.
    pub open spec fn text(self) -> Seq<char>
        decreases self,
    {
        match self {
            AppError::Usage(reason) => reason.text(),
            AppError::Dependency(reason) => reason.text(),
            AppError::UnsupportedInput(reason) => reason.text(),
            AppError::InvalidHrir(reason) => reason.text(),
            AppError::Render(reason) => reason.text(),
            AppError::Mux(reason) => reason.text(),
            AppError::Cancelled => "operation cancelled"@,
            AppError::File { path, source } => "could not access "@ + path@ + ": "@ + source@,
            AppError::Json(note) => note@,
            AppError::Io(note) => note@,
        }
    }

    /// Words the error.
    pub fn message(&self) -> (r: String)
        ensures
            r@ == self.text(),
        decreases self,
    {
        match self {
            AppError::Usage(reason) => reason.message(),
            AppError::Dependency(reason) => reason.message(),
            AppError::UnsupportedInput(reason) => reason.message(),
            AppError::InvalidHrir(reason) => reason.message(),
            AppError::Render(reason) => reason.message(),
            AppError::Mux(reason) => reason.message(),
            AppError::Cancelled => String::from_str("operation cancelled"),
            AppError::File { path, source } => {
                let mut r = text_pair("could not access ", path.as_str());
                r.append(": ");
                r.append(source.as_str());
                r
            },
            AppError::Json(note) => note.clone(),
            AppError::Io(note) => note.clone(),
        }
    }
}

/// The exit code tells the stage that failed: no two stages share one, all that goes wrong
/// with files counts as rendering, and none is that of success or of a panic.
pub proof fn law_exit_codes_tell_the_stage(error: AppError, other: AppError)
    ensures
        error.code() > 1 && error.code() != 101,
        error is Usage <==> error.code() == 2,
        error is Dependency <==> error.code() == 3,
        error is UnsupportedInput <==> error.code() == 4,
        error is InvalidHrir <==> error.code() == 5,
        error is Mux <==> error.code() == 7,
        error is Cancelled <==> error.code() == 128 + 2,
        error is Render && !(other is Usage || other is Dependency || other is UnsupportedInput
            || other is InvalidHrir || other is Mux || other is Cancelled) ==> error.code()
            == other.code() == 6,
{
}

/// An error is worded by its reason, whatever stage it is from.
pub proof fn law_errors_are_worded_by_their_reason(reason: Reason)
    ensures
        AppError::Usage(reason).text() == reason.text(),
        AppError::Dependency(reason).text() == reason.text(),
        AppError::UnsupportedInput(reason).text() == reason.text(),
        AppError::InvalidHrir(reason).text() == reason.text(),
        AppError::Render(reason).text() == reason.text(),
        AppError::Mux(reason).text() == reason.text(),
{
}

} // verus!
