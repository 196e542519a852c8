//! Big-endian integers: the byte order of every multi-byte field of the index.

use byteorder::{BigEndian, ByteOrder};
use vstd::prelude::*;

verus! {

/// The number that `bytes` denote in base 256, most significant byte first.
pub open spec fn be_value(bytes: Seq<u8>) -> nat
    decreases bytes.len(),
{
    if bytes.len() == 0 {
        0
    } else {
        be_value(bytes.drop_last()) * 256 + bytes.last() as nat
    }
}

/// The `width` low-order base-256 digits of `value`, most significant first.
pub open spec fn be_bytes(value: nat, width: nat) -> Seq<u8>
    decreases width,
{
    if width == 0 {
        Seq::empty()
    } else {
        be_bytes(value / 256, (width - 1) as nat).push((value % 256) as u8)
    }
}

/// `be_bytes` yields exactly `width` bytes.
pub proof fn lemma_be_bytes_len(value: nat, width: nat)
    ensures
        be_bytes(value, width).len() == width,
    decreases width,
{
    if width > 0 {
        lemma_be_bytes_len(value / 256, (width - 1) as nat);
    }
}

/// Writing the number that `bytes` denote, at the same width, gives `bytes`.
pub proof fn lemma_be_bytes_of_value(bytes: Seq<u8>)
    ensures
        be_bytes(be_value(bytes), bytes.len()) == bytes,
    decreases bytes.len(),
{
    if bytes.len() > 0 {
        let head = bytes.drop_last();
        lemma_be_bytes_of_value(head);
        let v = be_value(bytes);
        assert(v / 256 == be_value(head));
        assert(v % 256 == bytes.last() as nat);
        assert(be_bytes(v, bytes.len()) =~= bytes);
    } else {
        assert(be_bytes(be_value(bytes), bytes.len()) =~= bytes);
    }
}

/// Four bytes denote a number that fits in 32 bits.
pub proof fn lemma_be_value_u32(bytes: Seq<u8>)
    requires
        bytes.len() == 4,
    ensures
        be_value(bytes) <= u32::MAX,
{
    reveal_with_fuel(be_value, 5);
}

/// Eight bytes denote a number that fits in 64 bits.
pub proof fn lemma_be_value_u64(bytes: Seq<u8>)
    requires
        bytes.len() == 8,
    ensures
        be_value(bytes) <= u64::MAX,
{
    reveal_with_fuel(be_value, 9);
}

/// How many numbers `width` bytes can denote: 256 to the power `width`.
pub open spec fn be_range(width: nat) -> nat
    decreases width,
{
    if width == 0 {
        1
    } else {
        256 * be_range((width - 1) as nat)
    }
}

/// The bytes written for `value` at `width` denote `value` modulo
/// `be_range(width)`: the bytes that did not fit are lost, the others kept.
pub proof fn lemma_be_value_of_bytes(value: nat, width: nat)
    ensures
        be_range(width) > 0,
        be_value(be_bytes(value, width)) == value % be_range(width),
    decreases width,
{
    if width > 0 {
        let w = (width - 1) as nat;
        let q = be_range(w);
        lemma_be_value_of_bytes(value / 256, w);
        lemma_be_bytes_len(value / 256, w);
        let bytes = be_bytes(value, width);
        assert(bytes.drop_last() =~= be_bytes(value / 256, w));
        assert(bytes.last() == (value % 256) as u8);
        vstd::arithmetic::div_mod::lemma_breakdown(value as int, 256, q as int);
    }
}

/// A 32-bit number is what its four big-endian bytes denote.
pub proof fn lemma_be_value_of_u32(n: u32)
    ensures
        be_bytes(n as nat, 4).len() == 4,
        be_value(be_bytes(n as nat, 4)) == n,
{
    lemma_be_bytes_len(n as nat, 4);
    lemma_be_value_of_bytes(n as nat, 4);
    assert(be_range(4) == 0x1_0000_0000) by {
        reveal_with_fuel(be_range, 5);
    }
}

/// A 64-bit number is what its eight big-endian bytes denote.
pub proof fn lemma_be_value_of_u64(n: u64)
    ensures
        be_bytes(n as nat, 8).len() == 8,
        be_value(be_bytes(n as nat, 8)) == n,
{
    lemma_be_bytes_len(n as nat, 8);
    lemma_be_value_of_bytes(n as nat, 8);
    assert(be_range(8) == 0x1_0000_0000_0000_0000) by {
        reveal_with_fuel(be_range, 9);
    }
}

/// `byteorder::BigEndian::read_u32`: the number that the first four bytes of
/// `buf` denote, most significant byte first. It panics on a shorter `buf`,
/// which the precondition leaves out.
#[verifier::external_body]
pub(crate) fn decode_u32(buf: &[u8]) -> (v: u32)
    requires
        buf@.len() >= 4,
    ensures
        v as nat == be_value(buf@.subrange(0, 4)),
{
    BigEndian::read_u32(buf)
}

/// `byteorder::BigEndian::read_u64`: the number that the first eight bytes of
/// `buf` denote, most significant byte first. It panics on a shorter `buf`,
/// which the precondition leaves out.
#[verifier::external_body]
pub(crate) fn decode_u64(buf: &[u8]) -> (v: u64)
    requires
        buf@.len() >= 8,
    ensures
        v as nat == be_value(buf@.subrange(0, 8)),
{
    BigEndian::read_u64(buf)
}

/// `byteorder::BigEndian::write_u32`, on a buffer of four bytes: the
/// buffer then holds `n`, most significant byte first.
#[verifier::external_body]
pub(crate) fn encode_u32(n: u32) -> (bytes: [u8; 4])
    ensures
        bytes@ == be_bytes(n as nat, 4),
{
    let mut bytes = [0u8; 4];
    BigEndian::write_u32(&mut bytes, n);
    bytes
}

/// `byteorder::BigEndian::write_u64`, on a buffer of eight bytes: the
/// buffer then holds `n`, most significant byte first.
#[verifier::external_body]
pub(crate) fn encode_u64(n: u64) -> (bytes: [u8; 8])
    ensures
        bytes@ == be_bytes(n as nat, 8),
{
    let mut bytes = [0u8; 8];
    BigEndian::write_u64(&mut bytes, n);
    bytes
}

} // verus!
