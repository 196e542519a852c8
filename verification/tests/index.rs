use mapdbsnp::binfmt::image::HEADER_SIZE;
use mapdbsnp::binfmt::maprecord::MapRecord;
use mapdbsnp::binfmt::MapWriter;
use mapdbsnp::error::{BuildError, FormatError};
use mapdbsnp::index::{create_map, parse_tsv_map_record, TsvMapRecordReader};

fn row(fields: &[&str]) -> Vec<String> {
    fields.iter().map(|f| f.to_string()).collect()
}

fn table(rows: &[&[&str]]) -> Vec<Vec<String>> {
    rows.iter().map(|r| row(r)).collect()
}

#[test]
fn row_is_decoded() {
    assert_eq!(
        parse_tsv_map_record(&row(&["rs5", "X:200"])),
        Ok(MapRecord { rsid: 5, chrom: 23, pos: 200 })
    );
    assert_eq!(
        parse_tsv_map_record(&row(&["9", "MT:50", "more"])),
        Ok(MapRecord { rsid: 9, chrom: 25, pos: 50 })
    );
    assert_eq!(
        parse_tsv_map_record(&row(&["rs1", "1:100:ignored:é"])),
        Ok(MapRecord { rsid: 1, chrom: 1, pos: 100 })
    );
}

#[test]
fn row_that_denotes_no_record_is_refused() {
    assert_eq!(parse_tsv_map_record(&row(&[])), Err(FormatError::MissingField));
    assert_eq!(parse_tsv_map_record(&row(&["rs1"])), Err(FormatError::MissingField));
    assert_eq!(parse_tsv_map_record(&row(&["rs1", "1"])), Err(FormatError::MissingField));
    assert_eq!(parse_tsv_map_record(&row(&["rs1", ""])), Err(FormatError::MissingField));
    assert_eq!(parse_tsv_map_record(&row(&["rsx", "1"])), Err(FormatError::MissingField));
    assert_eq!(parse_tsv_map_record(&row(&["rsx", "1:100"])), Err(FormatError::Identifier));
    assert_eq!(parse_tsv_map_record(&row(&["rsx", "Z:y"])), Err(FormatError::Identifier));
    assert_eq!(parse_tsv_map_record(&row(&["rs1", "Z:y"])), Err(FormatError::Chromosome));
    assert_eq!(parse_tsv_map_record(&row(&["rs1", ":100"])), Err(FormatError::Chromosome));
    assert_eq!(parse_tsv_map_record(&row(&["rs1", "0:100"])), Err(FormatError::Chromosome));
    assert_eq!(parse_tsv_map_record(&row(&["rs1", "1:"])), Err(FormatError::Position));
    assert_eq!(parse_tsv_map_record(&row(&["rs1", "1::100"])), Err(FormatError::Position));
    assert_eq!(parse_tsv_map_record(&row(&["rs1", "1:é"])), Err(FormatError::Position));
    assert_eq!(parse_tsv_map_record(&row(&["rs1", "é:1"])), Err(FormatError::Chromosome));
}

#[test]
fn reader_stops_at_the_first_bad_row() {
    let rows = table(&[&["rs1", "1:100"], &["rs5", "X:200"], &["bad", "1:1"], &["rs9", "MT:50"]]);
    let mut reader = TsvMapRecordReader::new(&rows);
    assert_eq!(reader.next(), Some(MapRecord { rsid: 1, chrom: 1, pos: 100 }));
    assert_eq!(reader.next(), Some(MapRecord { rsid: 5, chrom: 23, pos: 200 }));
    assert_eq!(reader.next(), None);
    assert_eq!(reader.next(), None);
    assert_eq!(reader.ok(), Err(FormatError::Identifier));
}

#[test]
fn reader_ends_with_the_rows() {
    let rows = table(&[&["rs1", "1:100"]]);
    let mut reader = TsvMapRecordReader::new(&rows);
    assert_eq!(reader.next(), Some(MapRecord { rsid: 1, chrom: 1, pos: 100 }));
    assert_eq!(reader.next(), None);
    assert_eq!(reader.next(), None);
    assert_eq!(reader.ok(), Ok(()));
    let none = table(&[]);
    let mut empty = TsvMapRecordReader::new(&none);
    assert_eq!(empty.next(), None);
    assert_eq!(empty.ok(), Ok(()));
}

#[test]
fn index_of_three_rows() {
    let rows = table(&[&["rs1", "1:100"], &["rs5", "X:200"], &["rs9", "MT:50"]]);
    let image = create_map(&rows).unwrap();
    assert_eq!(image.len(), 35);
    assert_eq!(
        image,
        vec![
            0, 0, 0, 0, 0, 0, 0, 3, // the record count
            0, 0, 0, 1, 1, 0, 0, 0, 100, // (1, 1, 100)
            0, 0, 0, 5, 23, 0, 0, 0, 200, // (5, 23, 200)
            0, 0, 0, 9, 25, 0, 0, 0, 50, // (9, 25, 50)
        ]
    );
}

#[test]
fn index_of_no_rows_is_a_header() {
    assert_eq!(create_map(&table(&[])), Ok(vec![0; HEADER_SIZE as usize]));
}

#[test]
fn index_may_repeat_an_identifier() {
    let rows = table(&[&["rs0", "1:1"], &["rs0", "2:2"], &["rs7", "3:3"], &["rs7", "4:4"]]);
    let image = create_map(&rows).unwrap();
    assert_eq!(image.len(), 8 + 9 * 4);
    assert_eq!(image[7], 4);
}

#[test]
fn unsorted_rows_fail_the_build() {
    let rows = table(&[&["rs1", "1:100"], &["rs9", "MT:50"], &["rs5", "X:200"]]);
    assert_eq!(
        create_map(&rows),
        Err(BuildError::UnsortedInput { previous: 9, current: 5 })
    );
    let first = table(&[&["rs2", "1:1"], &["rs1", "1:1"], &["rs0", "1:1"]]);
    assert_eq!(
        create_map(&first),
        Err(BuildError::UnsortedInput { previous: 2, current: 1 })
    );
}

#[test]
fn the_first_failure_decides() {
    let unsorted_first = table(&[&["rs5", "1:1"], &["rs1", "1:1"], &["bad", "1:1"]]);
    assert_eq!(
        create_map(&unsorted_first),
        Err(BuildError::UnsortedInput { previous: 5, current: 1 })
    );
    let malformed_first = table(&[&["rs5", "1:1"], &["bad", "1:1"], &["rs1", "1:1"]]);
    assert_eq!(
        create_map(&malformed_first),
        Err(BuildError::Format(FormatError::Identifier))
    );
    let malformed_at_once = table(&[&["bad", "1:1"], &["rs5", "1:1"], &["rs1", "1:1"]]);
    assert_eq!(
        create_map(&malformed_at_once),
        Err(BuildError::Format(FormatError::Identifier))
    );
}

#[test]
fn each_kind_of_malformed_row_fails_the_build() {
    let build = |second: &[&str]| create_map(&table(&[&["rs1", "1:100"], second]));
    assert_eq!(build(&["rs2"]), Err(BuildError::Format(FormatError::MissingField)));
    assert_eq!(build(&["rs2", "1-100"]), Err(BuildError::Format(FormatError::MissingField)));
    assert_eq!(build(&["two", "1:100"]), Err(BuildError::Format(FormatError::Identifier)));
    assert_eq!(build(&["rs2", "26:100"]), Err(BuildError::Format(FormatError::Chromosome)));
    assert_eq!(build(&["rs2", "1:-1"]), Err(BuildError::Format(FormatError::Position)));
}

#[test]
fn writer_holds_records_to_their_order() {
    let mut writer = MapWriter::new();
    assert_eq!(writer.num_records(), 0);
    assert_eq!(writer.write_map_record(&MapRecord { rsid: 0, chrom: 1, pos: 1 }), Ok(()));
    assert_eq!(writer.write_map_record(&MapRecord { rsid: 4, chrom: 2, pos: 2 }), Ok(()));
    assert_eq!(
        writer.write_map_record(&MapRecord { rsid: 3, chrom: 3, pos: 3 }),
        Err(BuildError::UnsortedInput { previous: 4, current: 3 })
    );
    assert_eq!(writer.num_records(), 2);
    assert_eq!(writer.write_map_record(&MapRecord { rsid: 4, chrom: 4, pos: 4 }), Ok(()));
    assert_eq!(writer.num_records(), 3);
    assert_eq!(
        writer.finish(),
        vec![
            0, 0, 0, 0, 0, 0, 0, 3, 0, 0, 0, 0, 1, 0, 0, 0, 1, 0, 0, 0, 4, 2, 0, 0, 0, 2, 0, 0,
            0, 4, 4, 0, 0, 0, 4,
        ]
    );
}

#[test]
fn writer_stops_at_the_first_descent() {
    let records = vec![
        MapRecord { rsid: 1, chrom: 1, pos: 1 },
        MapRecord { rsid: 3, chrom: 1, pos: 1 },
        MapRecord { rsid: 2, chrom: 1, pos: 1 },
        MapRecord { rsid: 0, chrom: 1, pos: 1 },
    ];
    let mut writer = MapWriter::new();
    assert_eq!(
        writer.write_map(&records),
        Err(BuildError::UnsortedInput { previous: 3, current: 2 })
    );
    assert_eq!(writer.num_records(), 2);
    let mut sorted = MapWriter::new();
    assert_eq!(sorted.write_map(&records[..2].to_vec()), Ok(()));
    assert_eq!(sorted.write_map(&vec![MapRecord { rsid: 3, chrom: 9, pos: 9 }]), Ok(()));
    assert_eq!(
        sorted.write_map(&vec![MapRecord { rsid: 2, chrom: 9, pos: 9 }]),
        Err(BuildError::UnsortedInput { previous: 3, current: 2 })
    );
    assert_eq!(sorted.finish().len(), 8 + 9 * 3);
}

#[test]
fn header_counts_in_big_endian() {
    let rows: Vec<Vec<String>> =
        (0..300u32).map(|i| vec![format!("rs{}", i), "1:1".to_string()]).collect();
    let image = create_map(&rows).unwrap();
    assert_eq!(&image[..8], &[0, 0, 0, 0, 0, 0, 1, 44]);
    assert_eq!(image.len(), 8 + 9 * 300);
    assert_eq!(&image[8 + 9 * 256..8 + 9 * 257], &[0, 0, 1, 0, 1, 0, 0, 0, 1]);
}
