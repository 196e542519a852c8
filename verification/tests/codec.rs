use mapdbsnp::binfmt::maprecord::{
    chrom_to_u8, position_to_u32, rsid_to_u32, u8_to_chrom, Locus, MapRecord, RECORD_SIZE,
};
use mapdbsnp::error::{CorruptIndex, FormatError, IoError};
use mapdbsnp::text::{chars_of, parse_unsigned_in, push_decimal};

#[test]
fn identifier_with_and_without_prefix() {
    assert_eq!(rsid_to_u32("rs123"), Ok(123));
    assert_eq!(rsid_to_u32("123"), Ok(123));
    assert_eq!(rsid_to_u32("rs0"), Ok(0));
    assert_eq!(rsid_to_u32("rs007"), Ok(7));
    assert_eq!(rsid_to_u32("rs+7"), Ok(7));
    assert_eq!(rsid_to_u32("rs4294967295"), Ok(u32::MAX));
}

#[test]
fn identifier_that_is_no_number_is_refused() {
    assert_eq!(rsid_to_u32(""), Err(FormatError::Identifier));
    assert_eq!(rsid_to_u32("rs"), Err(FormatError::Identifier));
    assert_eq!(rsid_to_u32("r5"), Err(FormatError::Identifier));
    assert_eq!(rsid_to_u32("rsx"), Err(FormatError::Identifier));
    assert_eq!(rsid_to_u32("rs12a"), Err(FormatError::Identifier));
    assert_eq!(rsid_to_u32("12rs"), Err(FormatError::Identifier));
    assert_eq!(rsid_to_u32("rsrs5"), Err(FormatError::Identifier));
    assert_eq!(rsid_to_u32("rs-5"), Err(FormatError::Identifier));
    assert_eq!(rsid_to_u32("rs 5"), Err(FormatError::Identifier));
    assert_eq!(rsid_to_u32("rs+"), Err(FormatError::Identifier));
    assert_eq!(rsid_to_u32("rs٣"), Err(FormatError::Identifier));
    assert_eq!(rsid_to_u32("rs4294967296"), Err(FormatError::Identifier));
    assert_eq!(rsid_to_u32("rs99999999999999999999999"), Err(FormatError::Identifier));
}

#[test]
fn position_is_a_plain_number() {
    assert_eq!(position_to_u32("100"), Ok(100));
    assert_eq!(position_to_u32("4294967295"), Ok(u32::MAX));
    assert_eq!(position_to_u32("4294967296"), Err(FormatError::Position));
    assert_eq!(position_to_u32("rs100"), Err(FormatError::Position));
    assert_eq!(position_to_u32(""), Err(FormatError::Position));
}

#[test]
fn chromosome_names_have_codes() {
    assert_eq!(chrom_to_u8("1"), Ok(1));
    assert_eq!(chrom_to_u8("9"), Ok(9));
    assert_eq!(chrom_to_u8("10"), Ok(10));
    assert_eq!(chrom_to_u8("22"), Ok(22));
    assert_eq!(chrom_to_u8("X"), Ok(23));
    assert_eq!(chrom_to_u8("Y"), Ok(24));
    assert_eq!(chrom_to_u8("MT"), Ok(25));
    assert_eq!(chrom_to_u8("23"), Ok(23));
    assert_eq!(chrom_to_u8("25"), Ok(25));
    assert_eq!(chrom_to_u8("07"), Ok(7));
}

#[test]
fn chromosome_out_of_range_is_refused() {
    assert_eq!(chrom_to_u8("0"), Err(FormatError::Chromosome));
    assert_eq!(chrom_to_u8("26"), Err(FormatError::Chromosome));
    assert_eq!(chrom_to_u8("255"), Err(FormatError::Chromosome));
    assert_eq!(chrom_to_u8("256"), Err(FormatError::Chromosome));
    assert_eq!(chrom_to_u8(""), Err(FormatError::Chromosome));
    assert_eq!(chrom_to_u8("x"), Err(FormatError::Chromosome));
    assert_eq!(chrom_to_u8("M"), Err(FormatError::Chromosome));
    assert_eq!(chrom_to_u8("MTX"), Err(FormatError::Chromosome));
    assert_eq!(chrom_to_u8("chr1"), Err(FormatError::Chromosome));
}

#[test]
fn chromosome_codes_have_labels() {
    assert_eq!(u8_to_chrom(1), Ok("1".to_string()));
    assert_eq!(u8_to_chrom(9), Ok("9".to_string()));
    assert_eq!(u8_to_chrom(10), Ok("10".to_string()));
    assert_eq!(u8_to_chrom(22), Ok("22".to_string()));
    assert_eq!(u8_to_chrom(23), Ok("X".to_string()));
    assert_eq!(u8_to_chrom(24), Ok("Y".to_string()));
    assert_eq!(u8_to_chrom(25), Ok("MT".to_string()));
}

#[test]
fn chromosome_code_out_of_range_is_corrupt() {
    assert_eq!(u8_to_chrom(0), Err(CorruptIndex::ChromosomeCode(0)));
    assert_eq!(u8_to_chrom(26), Err(CorruptIndex::ChromosomeCode(26)));
    assert_eq!(u8_to_chrom(255), Err(CorruptIndex::ChromosomeCode(255)));
}

#[test]
fn chromosome_label_round_trip() {
    let mut labels: Vec<String> = (1..=22).map(|n: u32| n.to_string()).collect();
    labels.push("X".to_string());
    labels.push("Y".to_string());
    labels.push("MT".to_string());
    assert_eq!(labels.len(), 25);
    for label in labels {
        let code = chrom_to_u8(&label).unwrap();
        assert_eq!(u8_to_chrom(code), Ok(label));
    }
    for code in 1..=25u8 {
        let label = u8_to_chrom(code).unwrap();
        assert_eq!(chrom_to_u8(&label), Ok(code));
    }
}

#[test]
fn record_from_text() {
    assert_eq!(
        MapRecord::new("rs5", "X", "200"),
        Ok(MapRecord { rsid: 5, chrom: 23, pos: 200 })
    );
    assert_eq!(MapRecord::new("5", "1", "0"), Ok(MapRecord { rsid: 5, chrom: 1, pos: 0 }));
}

#[test]
fn record_from_text_reports_the_first_bad_field() {
    assert_eq!(MapRecord::new("x", "Z", "-"), Err(FormatError::Identifier));
    assert_eq!(MapRecord::new("rs1", "Z", "-"), Err(FormatError::Chromosome));
    assert_eq!(MapRecord::new("rs1", "1", "-"), Err(FormatError::Position));
}

#[test]
fn record_bytes_are_big_endian() {
    let record = MapRecord { rsid: 0x01020304, chrom: 23, pos: 0x0a0b0c0d };
    assert_eq!(
        record.to_bytes(),
        vec![0x01, 0x02, 0x03, 0x04, 23, 0x0a, 0x0b, 0x0c, 0x0d]
    );
    assert_eq!(record.to_bytes().len() as u64, RECORD_SIZE);
    let small = MapRecord { rsid: 5, chrom: 23, pos: 200 };
    assert_eq!(small.to_bytes(), vec![0, 0, 0, 5, 23, 0, 0, 0, 200]);
}

#[test]
fn record_is_read_from_its_bytes() {
    let bytes = [0x01, 0x02, 0x03, 0x04, 23, 0x0a, 0x0b, 0x0c, 0x0d];
    assert_eq!(
        MapRecord::from_bytes(&bytes),
        Ok(MapRecord { rsid: 0x01020304, chrom: 23, pos: 0x0a0b0c0d })
    );
    let longer = [0, 0, 0, 1, 2, 0, 0, 0, 3, 99, 98];
    assert_eq!(MapRecord::from_bytes(&longer), Ok(MapRecord { rsid: 1, chrom: 2, pos: 3 }));
}

#[test]
fn record_is_not_read_from_short_input() {
    assert_eq!(MapRecord::from_bytes(&[0, 0, 0, 1, 2, 0, 0, 0]), Err(IoError::UnexpectedEof));
    assert_eq!(MapRecord::from_bytes(&[]), Err(IoError::UnexpectedEof));
    assert_eq!(Locus::from_bytes(&[1, 0, 0, 0]), Err(IoError::UnexpectedEof));
}

#[test]
fn record_round_trip() {
    let samples = [
        MapRecord { rsid: 0, chrom: 0, pos: 0 },
        MapRecord { rsid: 1, chrom: 1, pos: 100 },
        MapRecord { rsid: u32::MAX, chrom: u8::MAX, pos: u32::MAX },
        MapRecord { rsid: 0x80000000, chrom: 25, pos: 0x00ff00ff },
        MapRecord { rsid: 256, chrom: 12, pos: 65536 },
    ];
    for record in samples {
        assert_eq!(MapRecord::from_bytes(&record.to_bytes()), Ok(record));
    }
}

#[test]
fn locus_is_read_and_written() {
    assert_eq!(Locus::from_bytes(&[23, 0, 0, 0, 200]), Ok(Locus { chrom: 23, pos: 200 }));
    assert_eq!(Locus { chrom: 23, pos: 200 }.format(), Ok("X:200".to_string()));
    assert_eq!(Locus { chrom: 1, pos: 0 }.format(), Ok("1:0".to_string()));
    assert_eq!(Locus { chrom: 25, pos: u32::MAX }.format(), Ok("MT:4294967295".to_string()));
    assert_eq!(Locus { chrom: 0, pos: 5 }.format(), Err(CorruptIndex::ChromosomeCode(0)));
    assert_eq!(MapRecord { rsid: 9, chrom: 25, pos: 50 }.locus(), Locus { chrom: 25, pos: 50 });
}

#[test]
fn decimal_text() {
    let chars = chars_of("ab+12cd");
    assert_eq!(chars, vec!['a', 'b', '+', '1', '2', 'c', 'd']);
    assert_eq!(parse_unsigned_in(&chars, 2, 5, 100), Some(12));
    assert_eq!(parse_unsigned_in(&chars, 3, 5, 100), Some(12));
    assert_eq!(parse_unsigned_in(&chars, 3, 5, 11), None);
    assert_eq!(parse_unsigned_in(&chars, 3, 5, 12), Some(12));
    assert_eq!(parse_unsigned_in(&chars, 2, 3, 100), None);
    assert_eq!(parse_unsigned_in(&chars, 3, 3, 100), None);
    assert_eq!(parse_unsigned_in(&chars, 3, 6, 100), None);
    let mut out = String::from("n=");
    push_decimal(&mut out, 0);
    push_decimal(&mut out, 4294967295);
    push_decimal(&mut out, 1050);
    assert_eq!(out, "n=042949672951050");
}
