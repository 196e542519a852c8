//! The index record and the text forms of its fields.

use crate::binfmt::endian::{
    be_bytes, be_value, decode_u32, encode_u32, lemma_be_bytes_len, lemma_be_bytes_of_value,
    lemma_be_value_of_u32, lemma_be_value_u32,
};
use crate::error::{CorruptIndex, FormatError, IoError};
use crate::text::{
    chars_of, decimal_digits, is_digit, lemma_decimal_digits_value, parse_unsigned,
    parse_unsigned_in, push_decimal,
};
use vstd::prelude::*;
use vstd::slice::slice_subrange;

verus! {

/// The number of bytes that one record takes in the index.
pub const RECORD_SIZE: u64 = 4 + 1 + 4;

/// The number of bytes that a locus takes within a record.
pub const LOCUS_SIZE: u64 = 1 + 4;

/// The code of chromosome X.
pub const CHROM_X: u8 = 23;

/// The code of chromosome Y.
pub const CHROM_Y: u8 = 24;

/// The code of the mitochondrial chromosome.
pub const CHROM_MT: u8 = 25;

/// A genomic coordinate: a chromosome code and a position on it.
#[derive(Clone, Copy, Debug, PartialEq, Eq, Structural)]
pub struct Locus {
    pub chrom: u8,
    pub pos: u32,
}

/// One record of the index: an identifier and the locus it resolves to.
#[derive(Clone, Copy, Debug, PartialEq, Eq, Structural)]
pub struct MapRecord {
    pub rsid: u32,
    pub chrom: u8,
    pub pos: u32,
}

/// `text` without its leading `rs`, if it has one.
pub open spec fn without_rs(text: Seq<char>) -> Seq<char> {
    if text.len() >= 2 && text[0] == 'r' && text[1] == 's' {
        text.subrange(2, text.len() as int)
    } else {
        text
    }
}

/// The identifier that `text` denotes: a number that fits in 32 bits, after
/// an optional `rs`.
pub open spec fn rsid_value(text: Seq<char>) -> Option<u32> {
    match parse_unsigned(without_rs(text), u32::MAX as nat) {
        Some(n) => Some(n as u32),
        None => None,
    }
}

/// The position that `text` denotes: a number that fits in 32 bits.
pub open spec fn position_value(text: Seq<char>) -> Option<u32> {
    match parse_unsigned(text, u32::MAX as nat) {
        Some(n) => Some(n as u32),
        None => None,
    }
}

/// The code of the chromosome that `text` names: 23, 24 and 25 for `X`, `Y`
/// and `MT`, and otherwise the number that `text` denotes, if it lies
/// between 1 and 25.
pub open spec fn chrom_code(text: Seq<char>) -> Option<u8> {
    if text == seq!['X'] {
        Some(CHROM_X)
    } else if text == seq!['Y'] {
        Some(CHROM_Y)
    } else if text == seq!['M', 'T'] {
        Some(CHROM_MT)
    } else {
        match parse_unsigned(text, CHROM_MT as nat) {
            Some(n) => if n >= 1 {
                Some(n as u8)
            } else {
                None
            },
            None => None,
        }
    }
}

/// The label of the chromosome with this code: the number itself for 1 to
/// 22, then `X`, `Y` and `MT`. Other codes stand for no chromosome.
pub open spec fn chrom_label(code: u8) -> Option<Seq<char>> {
    if 1 <= code <= 22 {
        Some(decimal_digits(code as nat))
    } else if code == CHROM_X {
        Some(seq!['X'])
    } else if code == CHROM_Y {
        Some(seq!['Y'])
    } else if code == CHROM_MT {
        Some(seq!['M', 'T'])
    } else {
        None
    }
}

/// Whether `label` is the label of a chromosome: one of `1` to `22`, `X`,
/// `Y` and `MT`.
pub open spec fn is_chrom_label(label: Seq<char>) -> bool {
    exists|code: u8| 1 <= code <= CHROM_MT && #[trigger] chrom_label(code) == Some(label)
}

/// The record that three pieces of text denote, or the first of them, in
/// the order identifier, chromosome, position, that denotes nothing.
pub open spec fn record_of_text(rsid: Seq<char>, chrom: Seq<char>, pos: Seq<char>) -> Result<
    MapRecord,
    FormatError,
> {
    if rsid_value(rsid) is None {
        Err(FormatError::Identifier)
    } else if chrom_code(chrom) is None {
        Err(FormatError::Chromosome)
    } else if position_value(pos) is None {
        Err(FormatError::Position)
    } else {
        Ok(
            MapRecord {
                rsid: rsid_value(rsid).unwrap(),
                chrom: chrom_code(chrom).unwrap(),
                pos: position_value(pos).unwrap(),
            },
        )
    }
}

/// Every chromosome code from 1 to 25 has a label, and the label names that
/// code again.
pub proof fn lemma_chrom_code_of_label(code: u8)
    requires
        1 <= code <= CHROM_MT,
    ensures
        chrom_label(code) is Some,
        chrom_code(chrom_label(code).unwrap()) == Some(code),
{
    if code <= 22 {
        let label = decimal_digits(code as nat);
        lemma_decimal_digits_value(code as nat);
        assert(is_digit(label[0]));
        assert(label != seq!['X']) by {
            assert(seq!['X'][0] == 'X');
        }
        assert(label != seq!['Y']) by {
            assert(seq!['Y'][0] == 'Y');
        }
        assert(label != seq!['M', 'T']) by {
            assert(seq!['M', 'T'][0] == 'M');
        }
        assert(parse_unsigned(label, CHROM_MT as nat) == Some(code as nat));
    } else if code == CHROM_Y {
        assert(seq!['Y'] != seq!['X']) by {
            assert(seq!['Y'][0] == 'Y');
            assert(seq!['X'][0] == 'X');
        }
    } else if code == CHROM_MT {
        assert(seq!['M', 'T'] != seq!['X']) by {
            assert(seq!['M', 'T'].len() == 2);
            assert(seq!['X'].len() == 1);
        }
        assert(seq!['M', 'T'] != seq!['Y']) by {
            assert(seq!['M', 'T'].len() == 2);
            assert(seq!['Y'].len() == 1);
        }
    }
}

/// Encoding the label of a chromosome and decoding the code gives the
/// label back.
pub proof fn lemma_chrom_label_round_trip(label: Seq<char>)
    requires
        is_chrom_label(label),
    ensures
        chrom_code(label) is Some,
        chrom_label(chrom_code(label).unwrap()) == Some(label),
{
    let code = choose|code: u8| 1 <= code <= CHROM_MT && #[trigger] chrom_label(code) == Some(label);
    lemma_chrom_code_of_label(code);
}

/// Decodes an identifier: a number that fits in 32 bits, with or without a
/// leading `rs`.
pub fn rsid_to_u32(rsid: &str) -> (r: Result<u32, FormatError>)
    ensures
        r == match rsid_value(rsid@) {
            Some(id) => Ok::<u32, FormatError>(id),
            None => Err(FormatError::Identifier),
        },
{
    let chars = chars_of(rsid);
    let n: usize = chars.len();
    let start: usize = if n >= 2 && chars[0] == 'r' && chars[1] == 's' {
        2
    } else {
        0
    };
    assert(chars@.subrange(start as int, n as int) =~= without_rs(rsid@));
    match parse_unsigned_in(chars.as_slice(), start, n, u32::MAX) {
        Some(id) => Ok(id),
        None => Err(FormatError::Identifier),
    }
}

/// Decodes a position: a number that fits in 32 bits.
pub fn position_to_u32(pos: &str) -> (r: Result<u32, FormatError>)
    ensures
        r == match position_value(pos@) {
            Some(p) => Ok::<u32, FormatError>(p),
            None => Err(FormatError::Position),
        },
{
    let chars = chars_of(pos);
    let n: usize = chars.len();
    assert(chars@.subrange(0, n as int) =~= pos@);
    match parse_unsigned_in(chars.as_slice(), 0, n, u32::MAX) {
        Some(p) => Ok(p),
        None => Err(FormatError::Position),
    }
}

/// Encodes the name of a chromosome as its code.
pub fn chrom_to_u8(chrom: &str) -> (r: Result<u8, FormatError>)
    ensures
        r == match chrom_code(chrom@) {
            Some(code) => Ok::<u8, FormatError>(code),
            None => Err(FormatError::Chromosome),
        },
{
    let chars = chars_of(chrom);
    let n: usize = chars.len();
    if n == 1 && chars[0] == 'X' {
        assert(chrom@ =~= seq!['X']);
        return Ok(CHROM_X);
    }
    assert(chrom@ != seq!['X']) by {
        assert(seq!['X'].len() == 1 && seq!['X'][0] == 'X');
    }
    if n == 1 && chars[0] == 'Y' {
        assert(chrom@ =~= seq!['Y']);
        return Ok(CHROM_Y);
    }
    assert(chrom@ != seq!['Y']) by {
        assert(seq!['Y'].len() == 1 && seq!['Y'][0] == 'Y');
    }
    if n == 2 && chars[0] == 'M' && chars[1] == 'T' {
        assert(chrom@ =~= seq!['M', 'T']);
        return Ok(CHROM_MT);
    }
    assert(chrom@ != seq!['M', 'T']) by {
        assert(seq!['M', 'T'].len() == 2 && seq!['M', 'T'][0] == 'M' && seq!['M', 'T'][1] == 'T');
    }
    assert(chars@.subrange(0, n as int) =~= chrom@);
    match parse_unsigned_in(chars.as_slice(), 0, n, CHROM_MT as u32) {
        Some(code) => if code >= 1 {
            Ok(code as u8)
        } else {
            Err(FormatError::Chromosome)
        },
        None => Err(FormatError::Chromosome),
    }
}

/// Decodes a chromosome code as the label of its chromosome. A code outside
/// 1 to 25 can only come from a damaged index.
pub fn u8_to_chrom(x: u8) -> (r: Result<String, CorruptIndex>)
    ensures
        match chrom_label(x) {
            Some(label) => r matches Ok(s) && s@ == label,
            None => r == Err::<String, CorruptIndex>(CorruptIndex::ChromosomeCode(x)),
        },
{
    if 1 <= x && x <= 22 {
        let mut label = String::new();
        push_decimal(&mut label, x as u32);
        assert(label@ =~= decimal_digits(x as nat));
        Ok(label)
    } else if x == CHROM_X {
        proof {
            reveal_strlit("X");
        }
        assert("X"@ =~= seq!['X']);
        Ok("X".to_owned())
    } else if x == CHROM_Y {
        proof {
            reveal_strlit("Y");
        }
        assert("Y"@ =~= seq!['Y']);
        Ok("Y".to_owned())
    } else if x == CHROM_MT {
        proof {
            reveal_strlit("MT");
        }
        assert("MT"@ =~= seq!['M', 'T']);
        Ok("MT".to_owned())
    } else {
        Err(CorruptIndex::ChromosomeCode(x))
    }
}

impl Locus {
    /// The five bytes that hold this locus in a record: the chromosome
    /// code, then the position, most significant byte first.
    pub open spec fn spec_to_bytes(self) -> Seq<u8> {
        seq![self.chrom] + be_bytes(self.pos as nat, 4)
    }

    /// The locus that the first five bytes of `bytes` hold.
    pub open spec fn spec_from_bytes(bytes: Seq<u8>) -> Locus
        recommends
            bytes.len() >= LOCUS_SIZE,
    {
        Locus { chrom: bytes[0], pos: be_value(bytes.subrange(1, 5)) as u32 }
    }

    /// The text that names this locus, `label:position`, if the chromosome
    /// code stands for a chromosome.
    pub open spec fn spec_format(self) -> Option<Seq<char>> {
        match chrom_label(self.chrom) {
            Some(label) => Some(label + seq![':'] + decimal_digits(self.pos as nat)),
            None => None,
        }
    }

    /// Reads a locus from the first five bytes of `bytes`.
    pub fn from_bytes(bytes: &[u8]) -> (r: Result<Locus, IoError>)
        ensures
            bytes@.len() >= LOCUS_SIZE ==> r == Ok::<Locus, IoError>(
                Locus::spec_from_bytes(bytes@),
            ),
            bytes@.len() < LOCUS_SIZE ==> r == Err::<Locus, IoError>(IoError::UnexpectedEof),
    {
        if bytes.len() < LOCUS_SIZE as usize {
            return Err(IoError::UnexpectedEof);
        }
        let chrom: u8 = bytes[0];
        let tail = slice_subrange(bytes, 1, 5);
        assert(tail@.subrange(0, 4) =~= bytes@.subrange(1, 5));
        let pos: u32 = decode_u32(tail);
        Ok(Locus { chrom, pos })
    }

    /// Writes this locus as `label:position`.
    pub fn format(&self) -> (r: Result<String, CorruptIndex>)
        ensures
            match self.spec_format() {
                Some(text) => r matches Ok(s) && s@ == text,
                None => r == Err::<String, CorruptIndex>(CorruptIndex::ChromosomeCode(self.chrom)),
            },
    {
        match u8_to_chrom(self.chrom) {
            Ok(mut text) => {
                proof {
                    reveal_strlit(":");
                }
                assert(":"@ =~= seq![':']);
                text.append(":");
                push_decimal(&mut text, self.pos);
                Ok(text)
            },
            Err(e) => Err(e),
        }
    }
}

impl MapRecord {
    /// The locus that this record resolves its identifier to.
    pub open spec fn spec_locus(self) -> Locus {
        Locus { chrom: self.chrom, pos: self.pos }
    }

    /// The nine bytes that hold this record in the index: the identifier,
    /// most significant byte first, then the locus.
    pub open spec fn spec_to_bytes(self) -> Seq<u8> {
        be_bytes(self.rsid as nat, 4) + self.spec_locus().spec_to_bytes()
    }

    /// The record that the first nine bytes of `bytes` hold.
    pub open spec fn spec_from_bytes(bytes: Seq<u8>) -> MapRecord
        recommends
            bytes.len() >= RECORD_SIZE,
    {
        MapRecord {
            rsid: be_value(bytes.subrange(0, 4)) as u32,
            chrom: bytes[4],
            pos: be_value(bytes.subrange(5, 9)) as u32,
        }
    }

    /// Decodes a record from the text of its three fields. Of several
    /// fields that cannot be decoded, the first one is reported.
    pub fn new(rsid: &str, chrom: &str, pos: &str) -> (r: Result<MapRecord, FormatError>)
        ensures
            r == record_of_text(rsid@, chrom@, pos@),
    {
        let rsid: u32 = match rsid_to_u32(rsid) {
            Ok(v) => v,
            Err(e) => {
                return Err(e);
            },
        };
        let chrom: u8 = match chrom_to_u8(chrom) {
            Ok(v) => v,
            Err(e) => {
                return Err(e);
            },
        };
        let pos: u32 = match position_to_u32(pos) {
            Ok(v) => v,
            Err(e) => {
                return Err(e);
            },
        };
        Ok(MapRecord { rsid, chrom, pos })
    }

    /// The locus that this record resolves its identifier to.
    pub fn locus(&self) -> (l: Locus)
        ensures
            l == self.spec_locus(),
    {
        Locus { chrom: self.chrom, pos: self.pos }
    }

    /// Writes this record as the nine bytes that hold it in the index.
    pub fn to_bytes(&self) -> (bytes: Vec<u8>)
        ensures
            bytes@ == self.spec_to_bytes(),
            bytes@.len() == RECORD_SIZE,
    {
        let mut bytes: Vec<u8> = Vec::new();
        let rsid = encode_u32(self.rsid);
        bytes.extend_from_slice(rsid.as_slice());
        bytes.push(self.chrom);
        let pos = encode_u32(self.pos);
        bytes.extend_from_slice(pos.as_slice());
        proof {
            lemma_be_bytes_len(self.rsid as nat, 4);
            lemma_be_bytes_len(self.pos as nat, 4);
            assert(bytes@ =~= self.spec_to_bytes());
        }
        bytes
    }

    /// Reads a record from the first nine bytes of `bytes`.
    pub fn from_bytes(bytes: &[u8]) -> (r: Result<MapRecord, IoError>)
        ensures
            bytes@.len() >= RECORD_SIZE ==> r == Ok::<MapRecord, IoError>(
                MapRecord::spec_from_bytes(bytes@),
            ),
            bytes@.len() < RECORD_SIZE ==> r == Err::<MapRecord, IoError>(IoError::UnexpectedEof),
    {
        if bytes.len() < RECORD_SIZE as usize {
            return Err(IoError::UnexpectedEof);
        }
        let rsid: u32 = decode_u32(bytes);
        let tail = slice_subrange(bytes, 4, 9);
        match Locus::from_bytes(tail) {
            Ok(locus) => {
                assert(tail@.subrange(1, 5) =~= bytes@.subrange(5, 9));
                Ok(MapRecord { rsid, chrom: locus.chrom, pos: locus.pos })
            },
            Err(e) => Err(e),
        }
    }
}

/// Reading the bytes of a record gives the record back.
pub proof fn lemma_record_round_trip(record: MapRecord)
    ensures
        record.spec_to_bytes().len() == RECORD_SIZE,
        MapRecord::spec_from_bytes(record.spec_to_bytes()) == record,
        Locus::spec_from_bytes(record.spec_locus().spec_to_bytes()) == record.spec_locus(),
{
    let bytes = record.spec_to_bytes();
    let locus = record.spec_locus().spec_to_bytes();
    lemma_be_value_of_u32(record.rsid);
    lemma_be_value_of_u32(record.pos);
    assert(bytes.subrange(0, 4) =~= be_bytes(record.rsid as nat, 4));
    assert(bytes.subrange(5, 9) =~= be_bytes(record.pos as nat, 4));
    assert(locus.subrange(1, 5) =~= be_bytes(record.pos as nat, 4));
}

/// Writing the record that nine bytes hold gives the nine bytes back.
pub proof fn lemma_bytes_round_trip(bytes: Seq<u8>)
    requires
        bytes.len() == RECORD_SIZE,
    ensures
        MapRecord::spec_from_bytes(bytes).spec_to_bytes() == bytes,
{
    let record = MapRecord::spec_from_bytes(bytes);
    lemma_be_value_u32(bytes.subrange(0, 4));
    lemma_be_value_u32(bytes.subrange(5, 9));
    lemma_be_bytes_of_value(bytes.subrange(0, 4));
    lemma_be_bytes_of_value(bytes.subrange(5, 9));
    assert(record.spec_to_bytes() =~= bytes);
}

} // verus!
