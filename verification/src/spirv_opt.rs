//! What the library makes of `spirv-opt`'s function-inlining run: the errors
//! it can end in and the words it writes back. Running the optimizer is I/O and
//! stays with the caller; a missing optimizer is not an error (inlining is
//! then skipped).

use vstd::prelude::*;
use crate::preprocess::Stage;
use crate::glslang::{le_words, le_word};

verus! {

/// Failure of an inlining run that did start.
#[derive(Debug)]
pub enum SpirvOptError {
    /// I/O while staging the temp files or reading the result back.
    Io(std::io::Error),
    /// `spirv-opt` ran but exited non-zero (the stage and captured output).
    Failed { stage: Stage, raw: String },
    /// `spirv-opt` produced output that is not a whole number of 32-bit words.
    MalformedSpirv,
}

/// The words of the file `spirv-opt` wrote, or
/// [`SpirvOptError::MalformedSpirv`] when its length is not a multiple of four.
pub fn inlined_words(bytes: &[u8]) -> (r: Result<Vec<u32>, SpirvOptError>)
    ensures
        match r {
            Ok(w) => bytes@.len() % 4 == 0 && w@.len() == bytes@.len() / 4
                && forall|i: int| 0 <= i < w@.len() ==> w@[i] == le_word(bytes@, i),
            Err(e) => bytes@.len() % 4 != 0 && e is MalformedSpirv,
        },
{
    match le_words(bytes) {
        Some(w) => Ok(w),
        None => Err(SpirvOptError::MalformedSpirv),
    }
}

} // verus!
