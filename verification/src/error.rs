//! The ways in which building, opening and querying an index can fail.

use vstd::prelude::*;

verus! {

/// A piece of text that does not have the form its column asks for.
#[derive(Clone, Copy, Debug, PartialEq, Eq, Structural)]
pub enum FormatError {
    /// The identifier is not a number that fits in 32 bits, with or without
    /// a leading `rs`.
    Identifier,
    /// The chromosome is neither `X`, `Y`, `MT` nor a number from 1 to 25.
    Chromosome,
    /// The position is not a number that fits in 32 bits.
    Position,
    /// The row has no identifier, or no `chromosome:position` column.
    MissingField,
}

/// What is wrong with the bytes of an index.
#[derive(Clone, Copy, Debug, PartialEq, Eq, Structural)]
pub enum CorruptIndex {
    /// The record count in the header does not match the length of the file.
    RecordCount,
    /// A record holds this chromosome code, which stands for no chromosome.
    ChromosomeCode(u8),
}

/// A read that the underlying source could not serve.
#[derive(Debug, PartialEq, Eq)]
pub enum IoError {
    /// The read reaches beyond the end of the source.
    UnexpectedEof,
    /// Any other failure, as the source describes it.
    Other(String),
}

/// Why an index could not be opened.
#[derive(Debug, PartialEq, Eq)]
pub enum OpenError {
    /// The source holds no well-formed index.
    CorruptIndex(CorruptIndex),
    /// The source could not be read.
    Io(IoError),
}

/// Why an index could not be built.
#[derive(Clone, Copy, Debug, PartialEq, Eq, Structural)]
pub enum BuildError {
    /// A row of the source could not be decoded.
    Format(FormatError),
    /// The identifier `current` follows the larger identifier `previous`.
    UnsortedInput { previous: u32, current: u32 },
}

/// Why a row could not be mapped.
#[derive(Debug, PartialEq, Eq)]
pub enum MapError {
    /// The row has no first field, or it is no identifier.
    MalformedRow(FormatError),
    /// The index holds no record for this identifier.
    UnresolvedIdentifier(u32),
    /// The index is damaged.
    CorruptIndex(CorruptIndex),
    /// The index could not be read.
    Io(IoError),
}

} // verus!
