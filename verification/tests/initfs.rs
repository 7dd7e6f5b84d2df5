use kernel::bytes::{read_le, write_le_u64};
use kernel::initfs::SimpleInitFs;

fn record(name: &[u8], data: &[u8]) -> Vec<u8> {
    let mut r = Vec::new();
    r.extend_from_slice(&(name.len() as u64).to_le_bytes());
    r.extend_from_slice(name);
    r.extend_from_slice(&(data.len() as u64).to_le_bytes());
    r.extend_from_slice(data);
    r
}

#[test]
fn iterates_the_files_in_order() {
    let mut raw = record(b"init", b"\x7fELF");
    raw.extend(record(b"serial-log", b"hello"));
    let fs = SimpleInitFs::new(&raw);
    let mut it = fs.iter();
    let a = it.next().unwrap();
    assert_eq!(a.name, "init");
    assert_eq!(a.data, b"\x7fELF");
    let b = it.next().unwrap();
    assert_eq!(b.name, "serial-log");
    assert_eq!(b.data, b"hello");
    assert!(it.next().is_none());
}

#[test]
fn empty_name_and_data() {
    let raw = record(b"", b"");
    let fs = SimpleInitFs::new(&raw);
    let mut it = fs.iter();
    let f = it.next().unwrap();
    assert_eq!(f.name, "");
    assert!(f.data.is_empty());
    assert!(it.next().is_none());
}

#[test]
fn invalid_utf8_name_reads_as_invalid() {
    let raw = record(&[0xFF, 0xFE], b"x");
    let fs = SimpleInitFs::new(&raw);
    let f = fs.iter().next().unwrap();
    assert_eq!(f.name, "<invalid>");
    assert_eq!(f.data, b"x");
}

#[test]
fn truncated_record_ends_the_walk() {
    let mut raw = record(b"a", b"1234");
    let full = raw.clone();
    // A second record whose data is cut short.
    let mut second = record(b"b", b"5678");
    second.truncate(second.len() - 1);
    raw.extend(second);
    let fs = SimpleInitFs::new(&raw);
    let mut it = fs.iter();
    assert_eq!(it.next().unwrap().name, "a");
    assert!(it.next().is_none());
    // Too short for even the name length.
    let fs = SimpleInitFs::new(&full[..7]);
    assert!(fs.iter().next().is_none());
    // The name length points past the end.
    let fs = SimpleInitFs::new(&full[..10]);
    assert!(fs.iter().next().is_none());
}

#[test]
fn little_endian_numbers() {
    let data = [0x78, 0x56, 0x34, 0x12, 0xEF, 0xCD, 0xAB, 0x90, 0x01];
    assert_eq!(read_le(&data, 0, 4), 0x1234_5678);
    assert_eq!(read_le(&data, 0, 8), 0x90AB_CDEF_1234_5678);
    assert_eq!(read_le(&data, 8, 1), 0x01);
    assert_eq!(read_le(&data, 3, 0), 0);
    let mut buf = vec![0u8; 10];
    write_le_u64(&mut buf, 1, 0x0102_0304_0506_0708);
    assert_eq!(buf, vec![0, 8, 7, 6, 5, 4, 3, 2, 1, 0]);
}

#[test]
fn huge_announced_lengths_end_the_walk() {
    let mut huge = Vec::new();
    huge.extend_from_slice(&u64::MAX.to_le_bytes());
    huge.extend_from_slice(b"rest");
    let fs = SimpleInitFs::new(&huge);
    let mut it = fs.iter();
    assert!(it.next().is_none());
    assert!(it.next().is_none());
    let mut big_data = Vec::new();
    big_data.extend_from_slice(&1u64.to_le_bytes());
    big_data.push(b'a');
    big_data.extend_from_slice(&(u64::MAX - 8).to_le_bytes());
    big_data.extend_from_slice(b"xyz");
    let fs = SimpleInitFs::new(&big_data);
    assert!(fs.iter().next().is_none());
}
