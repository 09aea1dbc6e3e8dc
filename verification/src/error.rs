use vstd::prelude::*;

verus! {

/// Why decoding or checking a frame failed.
#[derive(Clone, Copy, Debug, PartialEq, Eq, Structural)]
pub enum Error {
    /// The first byte names no chain.
    UnknownChain,
    /// The first byte names no route.
    UnknownRoute,
    /// The first byte names no topic.
    UnknownTopic,
    /// The first byte names no envelope kind.
    UnknownKind,
    /// The bytes are not a well-formed list of arrays.
    Decode,
    /// A frame holds the wrong number of fields.
    FieldCount,
    /// An envelope's sender key is not 32 bytes long.
    SenderLength,
    /// The frame's hash does not meet the difficulty.
    TooEasy,
    /// The frame is from the future or older than allowed.
    TooOld,
    /// The system clock reads a time before the Unix epoch.
    Clock,
}

} // verus!
