use mapdbsnp::binfmt::maprecord::{Locus, MapRecord};
use mapdbsnp::binfmt::readat::{MemSource, ReadAt};
use mapdbsnp::binfmt::search::{midpoint, narrow, search_bound, Step};
use mapdbsnp::binfmt::{MapReader, MapWriter};
use mapdbsnp::error::{CorruptIndex, IoError, OpenError};

fn index_of(ids: &[u32]) -> Vec<u8> {
    let mut writer = MapWriter::new();
    for id in ids {
        let record = MapRecord { rsid: *id, chrom: (*id % 25 + 1) as u8, pos: id.wrapping_mul(7) };
        writer.write_map_record(&record).unwrap();
    }
    writer.finish()
}

fn locus_of(id: u32) -> Locus {
    Locus { chrom: (id % 25 + 1) as u8, pos: id.wrapping_mul(7) }
}

fn ceil_log2(n: u64) -> u64 {
    let mut k = 0;
    while (1u128 << k) < n as u128 {
        k += 1;
    }
    k
}

/// A source that counts the reads it serves, and can be told to fail.
struct Counting {
    data: Vec<u8>,
    reads: u64,
    fail_after: Option<u64>,
}

impl ReadAt for Counting {
    fn len(&mut self) -> Result<u64, IoError> {
        Ok(self.data.len() as u64)
    }

    fn fill_buf_at(&mut self, buf: &mut [u8], offset: u64) -> Result<(), IoError> {
        if self.fail_after == Some(self.reads) {
            return Err(IoError::Other("broken".to_string()));
        }
        self.reads += 1;
        let start = offset as usize;
        let end = start + buf.len();
        if end > self.data.len() {
            return Err(IoError::UnexpectedEof);
        }
        buf.copy_from_slice(&self.data[start..end]);
        Ok(())
    }
}

#[test]
fn open_reads_the_record_count() {
    let reader = MapReader::new(MemSource::new(index_of(&[1, 5, 9]))).unwrap();
    assert_eq!(reader.num_records(), 3);
    let empty = MapReader::new(MemSource::new(vec![0; 8])).unwrap();
    assert_eq!(empty.num_records(), 0);
    assert_eq!(empty.into_inner().into_inner(), vec![0; 8]);
}

#[test]
fn open_refuses_a_count_that_does_not_match_the_length() {
    let opened = |bytes: Vec<u8>| MapReader::new(MemSource::new(bytes)).map(|r| r.num_records());
    let corrupt = Err(OpenError::CorruptIndex(CorruptIndex::RecordCount));
    assert_eq!(opened(vec![]), corrupt);
    assert_eq!(opened(vec![0; 7]), corrupt);
    assert_eq!(opened(vec![0; 9]), corrupt);
    assert_eq!(opened(vec![0; 17]), corrupt);
    assert_eq!(opened(vec![0, 0, 0, 0, 0, 0, 0, 1]), corrupt);
    assert_eq!(opened(vec![0xff; 8]), corrupt);
    let mut short = index_of(&[1, 5, 9]);
    short.pop();
    assert_eq!(opened(short), corrupt);
    let mut long = index_of(&[1, 5, 9]);
    long.push(0);
    assert_eq!(opened(long), corrupt);
    let mut other = index_of(&[1, 5, 9]);
    other[7] = 2;
    assert_eq!(opened(other), corrupt);
    let mut one = vec![0, 0, 0, 0, 0, 0, 0, 1];
    one.extend_from_slice(&[0, 0, 0, 4, 1, 0, 0, 0, 9]);
    assert_eq!(opened(one), Ok(1));
}

#[test]
fn open_passes_a_failed_read_on() {
    let source = Counting { data: index_of(&[1]), reads: 0, fail_after: Some(0) };
    match MapReader::new(source) {
        Err(OpenError::Io(IoError::Other(message))) => assert_eq!(message, "broken"),
        _ => panic!("the read should have failed"),
    }
}

#[test]
fn lookup_in_an_empty_index_reads_nothing() {
    let source = Counting { data: index_of(&[]), reads: 0, fail_after: None };
    let mut reader = MapReader::new(source).unwrap();
    assert_eq!(reader.find_record(0), Ok(None));
    assert_eq!(reader.find_record(7), Ok(None));
    assert_eq!(reader.into_inner().reads, 1);
}

#[test]
fn lookup_finds_the_stored_locus() {
    let ids = [1, 5, 9];
    let mut reader = MapReader::new(MemSource::new(index_of(&ids))).unwrap();
    assert_eq!(reader.find_record(1), Ok(Some(locus_of(1))));
    assert_eq!(reader.find_record(5), Ok(Some(locus_of(5))));
    assert_eq!(reader.find_record(9), Ok(Some(locus_of(9))));
    assert_eq!(reader.find_record(5), Ok(Some(Locus { chrom: 6, pos: 35 })));
}

#[test]
fn lookup_of_an_absent_identifier_finds_nothing() {
    for n in 0..40u32 {
        let ids: Vec<u32> = (0..n).map(|i| 10 + 2 * i).collect();
        let mut reader = MapReader::new(MemSource::new(index_of(&ids))).unwrap();
        for key in 0..(12 + 2 * n) {
            if !ids.contains(&key) {
                assert_eq!(reader.find_record(key), Ok(None));
            }
        }
        assert_eq!(reader.find_record(u32::MAX), Ok(None));
    }
}

#[test]
fn lookup_finds_every_identifier_unless_the_count_is_a_power_of_two() {
    for n in 1..70u32 {
        if n.is_power_of_two() {
            continue;
        }
        let ids: Vec<u32> = (0..n).map(|i| 3 * i + 1).collect();
        let mut reader = MapReader::new(MemSource::new(index_of(&ids))).unwrap();
        for id in &ids {
            assert_eq!(reader.find_record(*id), Ok(Some(locus_of(*id))));
        }
    }
}

#[test]
fn lookup_misses_the_last_record_where_the_count_is_a_power_of_two() {
    for n in [1u32, 2, 4, 8, 16, 32, 64] {
        let ids: Vec<u32> = (0..n).map(|i| 3 * i + 1).collect();
        let mut reader = MapReader::new(MemSource::new(index_of(&ids))).unwrap();
        assert_eq!(reader.find_record(ids[ids.len() - 1]), Ok(None));
        if n >= 2 {
            assert_eq!(reader.find_record(ids[0]), Ok(Some(locus_of(ids[0]))));
        }
    }
}

#[test]
fn lookup_reads_within_its_bound() {
    for n in 1..70u32 {
        let ids: Vec<u32> = (0..n).map(|i| 2 * i + 1).collect();
        let bound = ceil_log2(n as u64) + 1;
        for key in 0..(2 * n + 2) {
            let source = Counting { data: index_of(&ids), reads: 0, fail_after: None };
            let mut reader = MapReader::new(source).unwrap();
            reader.find_record(key).unwrap();
            let reads = reader.into_inner().reads - 1;
            assert!(reads <= bound);
        }
    }
}

#[test]
fn lookup_passes_a_failed_read_on() {
    for fail_after in 1..4 {
        let ids: Vec<u32> = (0..7).collect();
        let source = Counting { data: index_of(&ids), reads: 0, fail_after: Some(fail_after) };
        let mut reader = MapReader::new(source).unwrap();
        assert_eq!(reader.find_record(6), Err(IoError::Other("broken".to_string())));
    }
}

#[test]
fn search_bound_is_the_ceiling_of_the_logarithm() {
    assert_eq!(search_bound(0), 0);
    assert_eq!(search_bound(1), 0);
    assert_eq!(search_bound(2), 1);
    assert_eq!(search_bound(3), 2);
    assert_eq!(search_bound(4), 2);
    assert_eq!(search_bound(5), 3);
    assert_eq!(search_bound(8), 3);
    assert_eq!(search_bound(9), 4);
    assert_eq!(search_bound(1 << 20), 20);
    assert_eq!(search_bound((1 << 20) + 1), 21);
    assert_eq!(search_bound(1 << 63), 63);
    assert_eq!(search_bound((1 << 63) + 1), 64);
    assert_eq!(search_bound(u64::MAX), 64);
    for n in 1..2000u64 {
        assert_eq!(search_bound(n), ceil_log2(n));
    }
}

#[test]
fn search_steps() {
    assert_eq!(midpoint(0, 0), 0);
    assert_eq!(midpoint(0, 1), 0);
    assert_eq!(midpoint(0, 2), 1);
    assert_eq!(midpoint(3, 8), 5);
    assert_eq!(midpoint(u64::MAX - 1, u64::MAX), u64::MAX - 1);
    assert_eq!(midpoint(0, u64::MAX), u64::MAX / 2);
    assert_eq!(narrow(0, 9, 7, 7), Step::Found);
    assert_eq!(narrow(0, 9, 5, 7), Step::Narrow { start: 5, end: 9 });
    assert_eq!(narrow(0, 9, 8, 7), Step::Narrow { start: 0, end: 3 });
    assert_eq!(narrow(0, 1, 8, 7), Step::Absent);
    assert_eq!(narrow(0, 1, 5, 7), Step::Narrow { start: 1, end: 1 });
    assert_eq!(narrow(1, 1, 5, 7), Step::Absent);
    assert_eq!(narrow(1, 1, 8, 7), Step::Absent);
    assert_eq!(narrow(0, 0, 8, 7), Step::Absent);
    assert_eq!(narrow(u64::MAX, u64::MAX, 5, 7), Step::Absent);
    assert_eq!(MapReader::<MemSource>::get_map_seek_index(0), 8);
    assert_eq!(MapReader::<MemSource>::get_map_seek_index(3), 35);
}
