use bitcask::data_file::MALFORMED_ENTRY;
use bitcask::data_file::READ_ONLY;
use bitcask::hint_file::HintEntry;
use bitcask::hint_file::HintFile;

fn sample_hint() -> HintEntry {
    HintEntry {
        timestamp: 0x0A0B0C0D,
        key_size: 2,
        value_size: 0x01020304,
        value_pos: 0x1122334455667788,
        key: vec![b'k', b'1'],
    }
}

#[test]
fn test_read_write() {
    let stored;
    {
        let mut db = HintFile::new(Vec::new(), 0, Some(0));
        let value = "你好".as_bytes().to_vec();
        let key = "哈哈".as_bytes().to_vec();
        let entry = HintEntry {
            timestamp: 1,
            key_size: key.len() as u8,
            value_size: value.len() as u32,
            value_pos: db.write_offset().unwrap(),
            key: key,
        };

        println!("write: {:?}", entry);
        assert!(db.write(&entry).is_ok());
        stored = db.into_contents();
    }
    {
        let mut db = HintFile::new(stored, 0, None);
        let mut seen = 0;
        while let Some(entry) = db.next() {
            println!("read {:?}", entry);
            assert_eq!(entry.key, "哈哈".as_bytes().to_vec());
            assert_eq!(entry.value_size, 6);
            assert_eq!(entry.value_pos, 0);
            assert_eq!(entry.timestamp, 1);
            seen += 1;
        }
        assert_eq!(seen, 1);
    }
}

#[test]
fn hint_entry_encodes_header_and_key_in_order() {
    assert_eq!(
        sample_hint().encode(),
        vec![
            0x0D, 0x0C, 0x0B, 0x0A, // timestamp
            2,    // key size
            0x04, 0x03, 0x02, 0x01, // value size
            0x88, 0x77, 0x66, 0x55, 0x44, 0x33, 0x22, 0x11, // value position
            b'k', b'1', // key
        ]
    );
}

#[test]
fn hint_entry_decodes_what_was_encoded() {
    let mut log = vec![7u8; 4];
    log.extend_from_slice(&sample_hint().encode());
    let entry = HintEntry::decode(&log, 4).unwrap();
    assert_eq!(entry.timestamp, 0x0A0B0C0D);
    assert_eq!(entry.key_size, 2);
    assert_eq!(entry.value_size, 0x01020304);
    assert_eq!(entry.value_pos, 0x1122334455667788);
    assert_eq!(entry.key, vec![b'k', b'1']);
    assert!(entry.is_well_formed());
}

#[test]
fn hint_entry_is_not_decoded_from_a_torn_log() {
    let bytes = sample_hint().encode();
    for cut in 0..bytes.len() {
        assert!(HintEntry::decode(&bytes[..cut], 0).is_none(), "cut at {}", cut);
    }
    assert!(HintEntry::decode(&bytes, 0).is_some());
    assert!(HintEntry::decode(&bytes, usize::MAX).is_none());
}

#[test]
fn hint_write_to_a_read_only_file_is_refused() {
    let mut db = HintFile::new(Vec::new(), 0, None);
    assert!(db.is_readonly());
    assert_eq!(db.write(&sample_hint()), Err(READ_ONLY.to_owned()));
    assert_eq!(db.len(), 0);
}

#[test]
fn hint_write_of_an_entry_with_a_wrong_key_size_is_refused() {
    let mut db = HintFile::new(Vec::new(), 0, Some(0));
    let mut entry = sample_hint();
    entry.key_size = 1;
    assert_eq!(db.write(&entry), Err(MALFORMED_ENTRY.to_owned()));
    assert_eq!(db.len(), 0);
}

#[test]
fn hint_next_yields_the_records_in_order_and_stops_at_a_torn_tail() {
    let mut db = HintFile::new(Vec::new(), 9, Some(0));
    for i in 0..3u8 {
        let entry = HintEntry {
            timestamp: i as u32,
            key_size: 1,
            value_size: 10,
            value_pos: 100 * i as u64,
            key: vec![i],
        };
        db.write(&entry).unwrap();
    }
    assert_eq!(db.len(), 3 * 18);
    assert_eq!(db.file_id(), 9);
    let mut bytes = db.contents().clone();
    for i in 0..3u8 {
        let entry = db.next().unwrap();
        assert_eq!(entry.value_pos, 100 * i as u64);
    }
    assert!(db.next().is_none());
    db.rewind();
    assert_eq!(db.next().unwrap().key, vec![0]);
    bytes.truncate(2 * 18 + 17);
    let mut torn = HintFile::new(bytes, 9, None).seal();
    assert!(torn.next().is_some());
    assert!(torn.next().is_some());
    assert!(torn.next().is_none());
}
