//! The codec's error taxonomy.
//!
//! Every failure of a decode or encode call is one of these variants,
//! carrying enough of the offending input to diagnose it: the byte that was
//! no tag, the token that stood where another was expected, or the writer
//! states that disagreed.

use vstd::prelude::*;

use crate::token_deserializer::Token;
use crate::token_serializer::Expected;

verus! {

/// Why a decode or encode call stopped.
#[derive(Debug, PartialEq, Eq)]
pub enum Error {
    /// The input ended where a tag, terminator, string terminator or
    /// integer byte was still owed.
    UnexpectedEnd,
    /// A byte stood where a tag was expected but is neither a known tag
    /// nor the object terminator; it carries the offending byte.
    MalformedTag(u8),
    /// String or key bytes are not valid UTF-8.
    InvalidUtf8,
    /// The decoder met a token that is structurally impossible where it
    /// stood; it carries the unexpected token.
    UnexpectedToken(Token),
    /// An integer stood for a boolean but is neither 0 nor 1; it carries
    /// the value.
    InvalidBool(u32),
    /// A writer call was made outside its legal state: `expected` is the
    /// state the writer was in, `got` the state the call is legal in.
    StateViolation { expected: Expected, got: Expected },
    /// A string or key contains the reserved terminator byte, which the
    /// format cannot carry.
    ContentViolation,
}

} // verus!
