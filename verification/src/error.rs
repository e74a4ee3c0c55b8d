use vstd::prelude::*;

verus! {

/// Why an encode or decode step could not produce a result.
#[derive(Clone, Copy, Debug, PartialEq, Eq, Structural)]
pub enum HuffError {
    /// The input buffer holds no byte, so there is nothing to rank.
    EmptyInput,
    /// Fewer than two distinct symbols: the chain code cannot represent them.
    InsufficientSymbols,
    /// A serialized tree declares more symbols than it carries.
    MalformedTree,
    /// A container is too short for the lengths it declares.
    MalformedContainer,
    /// The packed bits end in the middle of a code word.
    TruncatedBitstream,
    /// A byte to encode has no code word in the tree.
    UnknownSymbol,
}

} // verus!
