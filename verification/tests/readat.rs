use mapdbsnp::binfmt::readat::{MemSource, ReadAt};
use mapdbsnp::error::IoError;

#[test]
fn can_read_bytes_at() {
    let data = vec![1, 2, 3, 4, 5];
    let mut cursor = MemSource::new(data);

    let mut buf = [0u8; 2];
    cursor.fill_buf_at(&mut buf, 1).unwrap();

    assert_eq!([2, 3], buf);
}

#[test]
fn can_read_u8_at() {
    let data = vec![1, 2, 3, 4, 5];
    let mut cursor = MemSource::new(data);

    let u8_read = cursor.read_u8_at(2).unwrap();

    assert_eq!(3, u8_read);
}

#[test]
fn can_read_u32_at() {
    let data = vec![1, 0x0, 0x72, 0x31, 0x61];
    let mut cursor = MemSource::new(data);

    let u32_read = cursor.read_u32_at(1).unwrap();

    assert_eq!(0x00723161, u32_read);
}

#[test]
fn can_read_u64_at() {
    let data = vec![1, 0x0, 0x72, 0x31, 0x61, 0x05, 0x43, 0xf5, 0xc3];
    let mut cursor = MemSource::new(data);

    let u64_read = cursor.read_u64_at(1).unwrap();

    assert_eq!(0x007231610543f5c3, u64_read);
}

#[test]
fn read_beyond_the_end_fails() {
    let mut source = MemSource::new(vec![1, 2, 3, 4, 5]);
    let mut buf = [9u8; 2];
    assert_eq!(source.fill_buf_at(&mut buf, 4), Err(IoError::UnexpectedEof));
    assert_eq!(buf, [9, 9]);
    assert_eq!(source.read_u32_at(2), Err(IoError::UnexpectedEof));
    assert_eq!(source.read_u64_at(0), Err(IoError::UnexpectedEof));
    assert_eq!(source.read_u8_at(5), Err(IoError::UnexpectedEof));
    assert_eq!(source.read_u8_at(u64::MAX), Err(IoError::UnexpectedEof));
    assert_eq!(source.read_u8_at(4), Ok(5));
    assert_eq!(source.len(), Ok(5));
}
