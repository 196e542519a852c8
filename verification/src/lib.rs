//! Resolves dbSNP identifiers to genomic loci through a sorted binary index.
//!
//! An index is a file of fixed-width records, sorted by identifier, behind
//! a header that counts them. [`index`] builds the bytes of an index from
//! the rows of a table, and holds the rows to their order. [`binfmt`] reads
//! an index from a source of bytes by binary search, without loading it.
//! [`mapper`] maps the rows of a table: the identifier in the first field of
//! each row gives way to the locus that the index resolves it to.
//!
//! Rows are sequences of text fields. Reading them from a file and writing
//! them to one is left to the caller, as is opening the file of an index:
//! a source of bytes is anything that implements
//! [`binfmt::readat::ReadAt`].

pub mod binfmt;
pub mod error;
pub mod index;
pub mod mapper;
pub mod text;
