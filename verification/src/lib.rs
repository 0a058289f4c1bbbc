//! Parsers recognizing streams of tokens (bytes or characters), complete-input flavour.
//!
//! Every parser takes the input slice last and answers with an [`IResult`]:
//! on success the remaining input and the recognised output, on failure an
//! [`error::ErrMode`] describing why.
pub mod bytes;
pub mod error;
pub mod input;

use vstd::prelude::*;

verus! {

/// The result of a parser: the remaining input and the output, or an error.
pub type IResult<'a, T, O> = Result<(&'a [T], O), error::ErrMode<error::Error<&'a [T]>>>;

} // verus!
