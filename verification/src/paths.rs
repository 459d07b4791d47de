//! Which output a run may write.

use crate::error::{AppError, Reason};
use crate::text::{equals_ignoring_case, lowered, optional_text, same_letters, text_pair};
use vstd::prelude::*;

verus! {

/// The file name of an output for which none is given, from the name of the
/// input without its extension.
pub fn default_output_name(stem: Option<&str>) -> (r: String)
    ensures
        r@ == (match stem {
            Some(stem) => stem@,
            None => "output"@,
        }) + ".surroundfold.mkv"@,
{
    match stem {
        Some(stem) => text_pair(stem, ".surroundfold.mkv"),
        None => text_pair("output", ".surroundfold.mkv"),
    }
}

/// What is wrong with an output path, if anything.
pub open spec fn output_path_fault(
    extension: Option<Seq<char>>,
    is_input: bool,
    exists_already: bool,
    overwrite: bool,
    path: Seq<char>,
) -> Option<Seq<char>> {
    if extension is None || !same_letters(extension->0, "mkv"@) {
        Some("the output path must have an .mkv extension"@)
    } else if is_input {
        Some("the output path resolves to the input path; the input is never overwritten"@)
    } else if exists_already && !overwrite {
        Some("the output already exists: "@ + path + "; use --overwrite to replace it"@)
    } else {
        None
    }
}

/// Refuses an output that is no Matroska file, that is the input, or that would
/// replace a file without leave.
pub fn check_output_path(
    extension: &Option<String>,
    is_input: bool,
    exists_already: bool,
    overwrite: bool,
    path: &str,
) -> (r: Result<(), AppError>)
    ensures
        match output_path_fault(
            optional_text(*extension),
            is_input,
            exists_already,
            overwrite,
            path@,
        ) {
            None => r is Ok,
            Some(text) => r is Err && r->Err_0 is Usage && r->Err_0.text() == text,
        },
{
    let matroska: bool = match extension {
        None => false,
        Some(extension) => equals_ignoring_case(extension.as_str(), "mkv"),
    };
    if !matroska {
        return Err(
            AppError::Usage(
                Reason::Note(String::from_str("the output path must have an .mkv extension")),
            ),
        );
    }
    if is_input {
        return Err(
            AppError::Usage(
                Reason::Note(
                    String::from_str(
                        "the output path resolves to the input path; the input is never overwritten",
                    ),
                ),
            ),
        );
    }
    if exists_already && !overwrite {
        let mut message = text_pair("the output already exists: ", path);
        message.append("; use --overwrite to replace it");
        return Err(AppError::Usage(Reason::Note(message)));
    }
    Ok(())
}

/// The input is never an accepted output.
pub proof fn law_the_input_is_never_overwritten(
    extension: Option<Seq<char>>,
    exists_already: bool,
    overwrite: bool,
    path: Seq<char>,
)
    ensures
        output_path_fault(extension, true, exists_already, overwrite, path) is Some,
{
}

/// An output path is accepted exactly where its extension is that of Matroska, where it is
/// not the input, and where it is free or may be replaced.
pub proof fn law_accepted_outputs_are_free_matroska_files(
    extension: Option<Seq<char>>,
    is_input: bool,
    exists_already: bool,
    overwrite: bool,
    path: Seq<char>,
)
    ensures
        output_path_fault(extension, is_input, exists_already, overwrite, path) is None <==> (
        extension matches Some(letters) && lowered(letters) == "mkv"@) && !is_input && (
        !exists_already || overwrite),
{
    reveal_strlit("mkv");
    assert(lowered("mkv"@) =~= "mkv"@);
}

} // verus!
