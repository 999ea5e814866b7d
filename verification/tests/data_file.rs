use bitcask::checksum::checksum;
use bitcask::data_file::DataEntry;
use bitcask::data_file::DataFile;
use bitcask::data_file::MALFORMED_ENTRY;
use bitcask::data_file::READ_ONLY;
use bitcask::data_file::SHORT_READ;
use bitcask::endian::get_u16;
use bitcask::endian::get_u32;
use bitcask::endian::get_u64;
use bitcask::endian::put_u16;
use bitcask::endian::put_u32;
use bitcask::endian::put_u64;

fn sample_entry() -> DataEntry {
    DataEntry {
        crc: 0x0102,
        timestamp: 0x0A0B0C0D,
        key_size: 2,
        value_size: 3,
        key: vec![b'k', b'1'],
        value: vec![0xFF, 0x00, 0x7F],
    }
}

#[test]
fn test_write() {
    let stored;
    {
        let mut db = DataFile::new(Vec::new(), 10, Some(0));
        let value = "你好".as_bytes().to_vec();
        let key = "哈哈".as_bytes().to_vec();
        let entry = DataEntry {
            crc: 1,
            timestamp: 1,
            key_size: key.len() as u8,
            value_size: value.len() as u32,
            key: key,
            value: value,
        };

        println!("write: {:?}", entry);
        assert!(db.write(&entry).is_ok());
        stored = db.into_contents();
    }
    {
        let mut db = DataFile::new(stored, 10, None);
        let entry = DataEntry {
            crc: 1,
            timestamp: 1,
            key_size: 2,
            value_size: 2,
            key: Vec::new(),
            value: Vec::new(),
        };
        let ret = db.next();
        assert!(ret.is_some());
        println!("read: {:?}", entry);
    }
}

#[test]
fn little_endian_integers_are_written_least_significant_byte_first() {
    let mut out = vec![0xAA];
    put_u16(&mut out, 0x0102);
    put_u32(&mut out, 0x0A0B0C0D);
    put_u64(&mut out, 0x1122334455667788);
    assert_eq!(
        out,
        vec![
            0xAA, 0x02, 0x01, 0x0D, 0x0C, 0x0B, 0x0A, 0x88, 0x77, 0x66, 0x55, 0x44, 0x33, 0x22,
            0x11
        ]
    );
}

#[test]
fn little_endian_integers_are_read_at_any_offset() {
    let buf = [0xAA, 0x02, 0x01, 0x0D, 0x0C, 0x0B, 0x0A, 0x88, 0x77, 0x66, 0x55, 0x44, 0x33, 0x22, 0x11];
    assert_eq!(get_u16(&buf, 1), 0x0102);
    assert_eq!(get_u32(&buf, 3), 0x0A0B0C0D);
    assert_eq!(get_u64(&buf, 7), 0x1122334455667788);
    assert_eq!(get_u16(&buf, 13), 0x1122);
}

#[test]
fn checksum_of_the_standard_check_input() {
    assert_eq!(checksum(b"123456789"), 0x29B1);
}

#[test]
fn checksum_of_nothing_is_the_initial_value() {
    assert_eq!(checksum(b""), 0xFFFF);
}

#[test]
fn checksum_of_one_letter() {
    assert_eq!(checksum(b"A"), 0xB915);
}

#[test]
fn data_entry_encodes_header_key_and_value_in_order() {
    let bytes = sample_entry().encode();
    assert_eq!(
        bytes,
        vec![
            0x02, 0x01, // crc
            0x0D, 0x0C, 0x0B, 0x0A, // timestamp
            2,    // key size
            3, 0, 0, 0, // value size
            b'k', b'1', // key
            0xFF, 0x00, 0x7F, // value
        ]
    );
}

#[test]
fn data_entry_decodes_what_was_encoded() {
    let mut log = vec![9u8, 9, 9];
    log.extend_from_slice(&sample_entry().encode());
    log.push(42);
    let entry = DataEntry::decode(&log, 3).unwrap();
    assert_eq!(entry.crc, 0x0102);
    assert_eq!(entry.timestamp, 0x0A0B0C0D);
    assert_eq!(entry.key_size, 2);
    assert_eq!(entry.value_size, 3);
    assert_eq!(entry.key, vec![b'k', b'1']);
    assert_eq!(entry.value, vec![0xFF, 0x00, 0x7F]);
}

#[test]
fn data_entry_is_not_decoded_from_a_torn_log() {
    let bytes = sample_entry().encode();
    for cut in 0..bytes.len() {
        assert!(DataEntry::decode(&bytes[..cut], 0).is_none(), "cut at {}", cut);
    }
    assert!(DataEntry::decode(&bytes, 0).is_some());
    assert!(DataEntry::decode(&bytes, 1).is_none());
    assert!(DataEntry::decode(&bytes, usize::MAX).is_none());
}

#[test]
fn composed_entry_carries_sizes_and_check_value() {
    let entry = DataEntry::compose(7, b"key".to_vec(), b"value".to_vec());
    assert_eq!(entry.timestamp, 7);
    assert_eq!(entry.key_size, 3);
    assert_eq!(entry.value_size, 5);
    assert!(entry.is_well_formed());
    assert!(entry.is_checked());
    let bytes = entry.encode();
    assert_eq!(entry.crc, checksum(&bytes[2..]));
    assert_eq!(entry.checksum(), entry.crc);
}

#[test]
fn entry_with_a_wrong_check_value_is_not_checked() {
    let mut entry = DataEntry::compose(7, b"key".to_vec(), b"value".to_vec());
    entry.crc ^= 1;
    assert!(!entry.is_checked());
}

#[test]
fn write_returns_the_offset_of_the_value() {
    let mut db = DataFile::new(vec![1, 2, 3, 4, 5], 3, Some(0));
    assert_eq!(db.write_offset(), Some(5));
    let pos = db.write(&sample_entry()).unwrap();
    assert_eq!(pos, 5 + 11 + 2);
    assert_eq!(db.len(), 5 + 16);
    assert_eq!(db.write_offset(), Some(21));
    let mut value = [0u8; 3];
    assert!(db.read_exact(pos, &mut value).is_ok());
    assert_eq!(value, [0xFF, 0x00, 0x7F]);
    assert_eq!(db.file_id(), 3);
}

#[test]
fn write_to_a_read_only_file_is_refused() {
    let mut db = DataFile::new(vec![1, 2, 3], 0, None);
    assert!(db.is_readonly());
    assert_eq!(db.write_offset(), None);
    assert_eq!(db.write(&sample_entry()), Err(READ_ONLY.to_owned()));
    assert_eq!(db.contents(), &vec![1, 2, 3]);
}

#[test]
fn write_of_an_entry_with_wrong_sizes_is_refused() {
    let mut db = DataFile::new(Vec::new(), 0, Some(0));
    let mut entry = sample_entry();
    entry.key_size = 3;
    assert_eq!(db.write(&entry), Err(MALFORMED_ENTRY.to_owned()));
    let mut entry = sample_entry();
    entry.value_size = 2;
    assert_eq!(db.write(&entry), Err(MALFORMED_ENTRY.to_owned()));
    assert_eq!(db.len(), 0);
}

#[test]
fn read_past_the_end_is_refused_and_leaves_the_buffer() {
    let db = DataFile::new(vec![1, 2, 3, 4], 0, None);
    let mut buf = [9u8; 3];
    assert_eq!(db.read_exact(2, &mut buf), Err(SHORT_READ.to_owned()));
    assert_eq!(buf, [9, 9, 9]);
    assert_eq!(db.read_exact(u64::MAX, &mut buf), Err(SHORT_READ.to_owned()));
    assert!(db.read_exact(1, &mut buf).is_ok());
    assert_eq!(buf, [2, 3, 4]);
    let mut nothing = [0u8; 0];
    assert!(db.read_exact(4, &mut nothing).is_ok());
    assert!(db.read_exact(5, &mut nothing).is_err());
}

#[test]
fn next_yields_the_records_in_order_and_then_none() {
    let mut db = DataFile::new(Vec::new(), 0, Some(0));
    for i in 0..3u8 {
        let entry = DataEntry::compose(i as u32, vec![b'k', i], vec![i; i as usize]);
        db.write(&entry).unwrap();
    }
    for i in 0..3u8 {
        let entry = db.next().unwrap();
        assert_eq!(entry.timestamp, i as u32);
        assert_eq!(entry.key, vec![b'k', i]);
        assert_eq!(entry.value, vec![i; i as usize]);
    }
    assert!(db.next().is_none());
    assert!(db.next().is_none());
    db.rewind();
    assert_eq!(db.next().unwrap().timestamp, 0);
}

#[test]
fn next_stops_at_a_torn_tail() {
    let mut db = DataFile::new(Vec::new(), 0, Some(0));
    db.write(&DataEntry::compose(1, b"a".to_vec(), b"one".to_vec())).unwrap();
    db.write(&DataEntry::compose(2, b"b".to_vec(), b"two".to_vec())).unwrap();
    let mut bytes = db.into_contents();
    bytes.truncate(bytes.len() - 1);
    let mut torn = DataFile::new(bytes, 0, None);
    assert_eq!(torn.next().unwrap().key, b"a".to_vec());
    assert!(torn.next().is_none());
}

#[test]
fn sealed_file_keeps_its_bytes_and_refuses_writes() {
    let mut db = DataFile::new(Vec::new(), 4, Some(0));
    db.write(&sample_entry()).unwrap();
    let mut sealed = db.seal();
    assert!(sealed.is_readonly());
    assert_eq!(sealed.file_id(), 4);
    assert_eq!(sealed.len(), 16);
    assert!(sealed.write(&sample_entry()).is_err());
}

#[test]
fn deletion_and_empty_value_have_no_value_bytes() {
    let deletion = DataEntry::compose_deletion(3, b"key".to_vec());
    assert_eq!(deletion.value_size, 0);
    assert!(deletion.is_well_formed());
    let bytes = deletion.encode();
    assert_eq!(bytes.len(), 11 + 3);
    assert_eq!(&bytes[7..11], &[0, 0, 0, 0]);
    let back = DataEntry::decode(&bytes, 0).unwrap();
    assert!(back.is_deletion());
    assert!(back.value.is_empty());

    let empty = DataEntry::compose(3, b"key".to_vec(), Vec::new());
    assert_eq!(empty.value_size, u32::MAX);
    assert!(empty.is_well_formed());
    let bytes = empty.encode();
    assert_eq!(bytes.len(), 11 + 3);
    assert_eq!(&bytes[7..11], &[0xFF, 0xFF, 0xFF, 0xFF]);
    let back = DataEntry::decode(&bytes, 0).unwrap();
    assert!(!back.is_deletion());
    assert!(back.value.is_empty());
    assert_ne!(deletion.crc, empty.crc);
}

#[test]
fn payload_size_is_the_value_size_but_for_the_two_tags() {
    assert_eq!(DataEntry::payload_size(0), 0);
    assert_eq!(DataEntry::payload_size(u32::MAX), 0);
    assert_eq!(DataEntry::payload_size(1), 1);
    assert_eq!(DataEntry::payload_size(u32::MAX - 1), u32::MAX - 1);
}

#[test]
fn entry_with_value_bytes_under_a_tag_is_not_well_formed() {
    let mut entry = sample_entry();
    entry.value_size = 0;
    assert!(!entry.is_well_formed());
    entry.value_size = u32::MAX;
    assert!(!entry.is_well_formed());
}
