//! Support for the command-line front end.
use vstd::prelude::*;

use crate::text::same_text;

verus! {

/// `std::io::Error`, an I/O error. Opaque here: it is only turned into text.
#[verifier::external_type_specification]
#[verifier::external_body]
pub struct ExIoError(std::io::Error);

/// The message of an I/O error (`std::io::Error` through `Display`). Nothing
/// is claimed of the text: for an operating-system error it comes from the
/// system and its locale.
#[verifier::external_body]
fn io_error_message(e: &std::io::Error) -> String {
    format!("{}", e)
}

/// Turns the error of an I/O result into its message, keeping a success as it
/// is.
pub fn fmt_io_err<T>(r: std::io::Result<T>) -> (out: Result<T, String>)
    ensures
        match r {
            Ok(v) => out == Ok::<T, String>(v),
            Err(_) => out is Err,
        },
{
    match r {
        Ok(v) => Ok(v),
        Err(e) => Err(io_error_message(&e)),
    }
}

/// Where the compiled syntax is written.
#[derive(Debug, PartialEq, Eq, Clone, Copy)]
pub enum OutputDestination<'a> {
    /// Standard output.
    Stdout,
    /// The file at this path.
    Path(&'a str),
    /// A file beside the input, named like it with the extension
    /// `sublime-syntax`.
    BesideInput,
}

/// Where to write the output, given the `-o` option: a single dash means
/// standard output, any other value is a path, and without the option the
/// output goes beside the input.
pub fn output_destination<'a>(output: Option<&'a str>) -> (r: OutputDestination<'a>)
    ensures
        r == match output {
            Some(o) => if o@ == "-"@ {
                OutputDestination::Stdout
            } else {
                OutputDestination::Path(o)
            },
            None => OutputDestination::BesideInput,
        },
{
    match output {
        Some(o) => if same_text(o, "-") {
            OutputDestination::Stdout
        } else {
            OutputDestination::Path(o)
        },
        None => OutputDestination::BesideInput,
    }
}

} // verus!
