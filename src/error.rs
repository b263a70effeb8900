//! Errors of the renderer.
use syntect::Error as SyntectError;
use vstd::prelude::*;

verus! {

#[verifier::external_type_specification]
#[verifier::external_body]
pub struct ExSyntectError(SyntectError);

/// Any error returned by this library.
pub enum Error {
    /// The syntax mode is not one of `code`, `markup`, `math`.
    UnknownMode,
    /// The embedded-code highlighter failed on a line.
    Syntect(SyntectError),
}

} // verus!
