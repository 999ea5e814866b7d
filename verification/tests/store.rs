use bitcask::data_file::DataEntry;
use bitcask::engine::is_ascending;
use bitcask::engine::Segment;
use bitcask::engine::FILE_SIZE;
use bitcask::engine::KEY_TOO_LONG;
use bitcask::listing::StoredFile;
use bitcask::Bitcask;
use bitcask::BitcaskOptions;

fn empty_store(limit: u64) -> Bitcask {
    Bitcask::new("data".to_owned(), BitcaskOptions { file_size_limit: limit }, Vec::new())
}

fn files_of(db: &Bitcask) -> Vec<StoredFile> {
    db.files()
}

fn restart(db: &Bitcask) -> Bitcask {
    Bitcask::new(db.path().clone(), db.option(), files_of(db))
}

struct Lcg(u64);

impl Lcg {
    fn next(&mut self) -> u64 {
        self.0 = self.0.wrapping_mul(6364136223846793005).wrapping_add(1442695040888963407);
        self.0 >> 33
    }
}

#[test]
fn test_new() {
    let option = BitcaskOptions::default();
    let bitcask = Bitcask::new("data".to_owned(), option, Vec::new());
    assert_eq!(bitcask.len(), 0);
    assert_eq!(bitcask.write_id(), 0);
    assert_eq!(bitcask.path(), "data");
    assert_eq!(bitcask.option().file_size_limit, 1024 * 1024 * 100);
    assert_eq!(FILE_SIZE, 1024 * 1024 * 100);
}

#[test]
fn test_put() {
    let option = BitcaskOptions::default();
    let mut bitcask = Bitcask::new("data".to_owned(), option, Vec::new());
    let key = "key".to_owned();
    let val = "山东发生地方".to_owned().into_bytes();
    bitcask.put(key.clone(), val.clone()).unwrap();

    assert_eq!(val, bitcask.get(key.clone()).unwrap());
}

#[test]
fn test_delete() {
    let option = BitcaskOptions::default();
    let mut bitcask = Bitcask::new("data".to_owned(), option, Vec::new());
    let key = "key".to_owned();
    let val = "山东发生地方".to_owned().into_bytes();
    bitcask.put(key.clone(), val.clone()).unwrap();
    bitcask.delete(key.clone()).unwrap();
    assert_eq!(None, bitcask.get(key.clone()));
}

#[test]
fn get_of_a_key_never_put_is_none() {
    let db = empty_store(FILE_SIZE);
    assert_eq!(db.get("nothing".to_owned()), None);
}

#[test]
fn second_put_overwrites_the_first() {
    let mut db = empty_store(FILE_SIZE);
    db.put_at(1, "k".to_owned(), b"first".to_vec()).unwrap();
    db.put_at(2, "k".to_owned(), b"second value".to_vec()).unwrap();
    assert_eq!(db.get("k".to_owned()), Some(b"second value".to_vec()));
    assert_eq!(db.len(), 1);
    // the second record stands behind the first: 11 + 1 + 5 bytes, then header and key
    let data = db.data_file(0).unwrap();
    let mut value = [0u8; 12];
    data.read_exact(17 + 12, &mut value).unwrap();
    assert_eq!(&value, b"second value");
}

#[test]
fn put_after_delete_restores_the_key() {
    let mut db = empty_store(FILE_SIZE);
    db.put_at(1, "k".to_owned(), b"v".to_vec()).unwrap();
    db.delete_at(2, "k".to_owned()).unwrap();
    assert_eq!(db.get("k".to_owned()), None);
    assert_eq!(db.len(), 0);
    db.put_at(3, "k".to_owned(), b"v3".to_vec()).unwrap();
    assert_eq!(db.get("k".to_owned()), Some(b"v3".to_vec()));
}

#[test]
fn delete_of_an_absent_key_succeeds_and_changes_no_value() {
    let mut db = empty_store(FILE_SIZE);
    db.put_at(1, "other".to_owned(), b"kept".to_vec()).unwrap();
    assert!(db.delete_at(2, "k".to_owned()).is_ok());
    assert!(db.delete_at(3, "k".to_owned()).is_ok());
    assert_eq!(db.get("k".to_owned()), None);
    assert_eq!(db.get("other".to_owned()), Some(b"kept".to_vec()));
    assert_eq!(db.len(), 1);
}

#[test]
fn delete_logs_a_tombstone_even_for_an_absent_key() {
    let mut db = empty_store(FILE_SIZE);
    db.delete_at(9, "k".to_owned()).unwrap();
    let data = db.data_file(0).unwrap();
    // a header and the key: a deletion has no value bytes
    assert_eq!(data.len(), 11 + 1);
    let entry = DataEntry::decode(data.contents(), 0).unwrap();
    assert_eq!(entry.timestamp, 9);
    assert_eq!(entry.key, b"k".to_vec());
    assert_eq!(entry.value_size, 0);
    assert_eq!(entry.value, Vec::<u8>::new());
    assert!(entry.is_deletion());
    assert!(entry.is_checked());
    assert_eq!(db.hint_file(0).unwrap().len(), 17 + 1);
    assert_eq!(&db.hint_file(0).unwrap().contents()[5..9], &[0, 0, 0, 0]);
}

#[test]
fn delete_and_put_of_four_zero_bytes_write_different_records() {
    let mut put = empty_store(FILE_SIZE);
    put.put_at(5, "k".to_owned(), vec![0, 0, 0, 0]).unwrap();
    let mut delete = empty_store(FILE_SIZE);
    delete.delete_at(5, "k".to_owned()).unwrap();
    let put_record = DataEntry::decode(put.data_file(0).unwrap().contents(), 0).unwrap();
    let delete_record = DataEntry::decode(delete.data_file(0).unwrap().contents(), 0).unwrap();
    assert_eq!(put_record.value_size, 4);
    assert_eq!(delete_record.value_size, 0);
    assert!(!put_record.is_deletion());
    assert!(delete_record.is_deletion());
    assert_ne!(&put.hint_file(0).unwrap().contents()[5..9], &delete.hint_file(0).unwrap().contents()[5..9]);
}

#[test]
fn empty_value_is_written_with_its_own_size_field() {
    let mut db = empty_store(FILE_SIZE);
    db.put_at(5, "k".to_owned(), Vec::new()).unwrap();
    let data = db.data_file(0).unwrap();
    assert_eq!(data.len(), 11 + 1);
    assert_eq!(&data.contents()[7..11], &[0xFF, 0xFF, 0xFF, 0xFF]);
    let entry = DataEntry::decode(data.contents(), 0).unwrap();
    assert_eq!(entry.value_size, 0xFFFF_FFFF);
    assert!(!entry.is_deletion());
    assert_eq!(db.get("k".to_owned()), Some(Vec::new()));
    assert_eq!(restart(&db).get("k".to_owned()), Some(Vec::new()));
}

#[test]
fn values_of_any_bytes_round_trip() {
    let mut db = empty_store(FILE_SIZE);
    let all: Vec<u8> = (0..=255u8).collect();
    let values: Vec<Vec<u8>> = vec![
        Vec::new(),
        vec![0],
        vec![0, 0, 0, 0],
        vec![0xFF; 7],
        vec![0, 0, 0, 0, 0],
        b"\r\n".to_vec(),
        all,
    ];
    for (i, value) in values.iter().enumerate() {
        db.put_at(i as u32, format!("key{}", i), value.clone()).unwrap();
    }
    for store in [restart(&db), db] {
        for (i, value) in values.iter().enumerate() {
            assert_eq!(store.get(format!("key{}", i)).as_ref(), Some(value));
        }
        assert_eq!(store.len(), values.len());
    }
}

#[test]
fn key_of_255_bytes_is_stored_and_one_of_256_is_refused() {
    let mut db = empty_store(FILE_SIZE);
    let long = "k".repeat(255);
    assert!(db.put_at(1, long.clone(), b"v".to_vec()).is_ok());
    assert_eq!(db.get(long), Some(b"v".to_vec()));
    let longer = "k".repeat(256);
    assert_eq!(db.put_at(2, longer.clone(), b"v".to_vec()), Err(KEY_TOO_LONG.to_owned()));
    assert_eq!(db.delete_at(3, longer.clone()), Err(KEY_TOO_LONG.to_owned()));
    assert_eq!(db.get(longer), None);
    assert_eq!(db.len(), 1);
    assert_eq!(db.data_file(0).unwrap().len(), 11 + 255 + 1);
}

#[test]
fn empty_key_is_a_key() {
    let mut db = empty_store(FILE_SIZE);
    db.put_at(1, String::new(), b"v".to_vec()).unwrap();
    assert_eq!(db.get(String::new()), Some(b"v".to_vec()));
}

#[test]
fn write_rolls_over_once_the_value_offset_reaches_the_limit() {
    let mut db = empty_store(64);
    let value = b"xxxxxxxxxxxxxxxxxxxxxxxxxxxxxxxx".to_vec();
    assert_eq!(value.len(), 32);
    // offsets of the values: 12, 56, 100; the third reaches the limit
    db.put_at(1, "a".to_owned(), value.clone()).unwrap();
    assert_eq!(db.write_id(), 0);
    db.put_at(2, "a".to_owned(), value.clone()).unwrap();
    assert_eq!(db.write_id(), 0);
    db.put_at(3, "a".to_owned(), b"yyyyyyyyyyyyyyyyyyyyyyyyyyyyyyyy".to_vec()).unwrap();
    assert_eq!(db.write_id(), 1);
    assert_eq!(db.data_file(0).unwrap().len(), 3 * 44);
    assert!(db.data_file(0).unwrap().is_readonly());
    assert_eq!(db.data_file(1).unwrap().len(), 0);
    assert!(db.data_file(2).is_none());
    assert_eq!(db.get("a".to_owned()), Some(b"yyyyyyyyyyyyyyyyyyyyyyyyyyyyyyyy".to_vec()));
    // the next write goes to the new segment and is found there
    db.put_at(4, "b".to_owned(), value.clone()).unwrap();
    assert_eq!(db.write_id(), 1);
    assert_eq!(db.data_file(1).unwrap().len(), 44);
    assert_eq!(db.get("b".to_owned()), Some(value));
    assert_eq!(db.get("a".to_owned()), Some(b"yyyyyyyyyyyyyyyyyyyyyyyyyyyyyyyy".to_vec()));
}

#[test]
fn ids_grow_by_one_with_each_rollover_and_all_keys_stay_readable() {
    let mut db = empty_store(1);
    for i in 0..5u32 {
        db.put_at(i, format!("k{}", i), vec![i as u8; 3]).unwrap();
        assert_eq!(db.write_id(), i + 1);
    }
    for i in 0..5u32 {
        assert_eq!(db.get(format!("k{}", i)), Some(vec![i as u8; 3]));
        assert_eq!(db.data_file(i).unwrap().file_id(), i);
    }
    let restarted = restart(&db);
    assert_eq!(restarted.write_id(), 5);
    for i in 0..5u32 {
        assert_eq!(restarted.get(format!("k{}", i)), Some(vec![i as u8; 3]));
    }
}

#[test]
fn one_long_value_below_the_limit_starts_no_segment() {
    let mut db = empty_store(64);
    db.put_at(1, "a".to_owned(), vec![7; 100]).unwrap();
    assert_eq!(db.write_id(), 0);
    db.put_at(2, "b".to_owned(), vec![8; 1]).unwrap();
    assert_eq!(db.write_id(), 1);
}

#[test]
fn restart_rebuilds_the_directory_after_puts_and_deletes() {
    let mut db = empty_store(200);
    db.put_at(1, "a".to_owned(), b"1".to_vec()).unwrap();
    db.put_at(2, "b".to_owned(), b"22".to_vec()).unwrap();
    db.delete_at(3, "a".to_owned()).unwrap();
    db.put_at(4, "c".to_owned(), vec![3; 150]).unwrap();
    db.put_at(5, "b".to_owned(), b"two".to_vec()).unwrap();
    db.delete_at(6, "c".to_owned()).unwrap();
    db.put_at(7, "d".to_owned(), Vec::new()).unwrap();
    db.delete_at(8, "never".to_owned()).unwrap();
    db.put_at(9, "a".to_owned(), b"again".to_vec()).unwrap();
    for reopened in [restart(&db), restart(&restart(&db)), db.reopen()] {
        assert_eq!(reopened.len(), 3);
        assert_eq!(reopened.get("a".to_owned()), Some(b"again".to_vec()));
        assert_eq!(reopened.get("b".to_owned()), Some(b"two".to_vec()));
        assert_eq!(reopened.get("c".to_owned()), None);
        assert_eq!(reopened.get("d".to_owned()), Some(Vec::new()));
        assert_eq!(reopened.get("never".to_owned()), None);
    }
}

#[test]
fn restart_after_a_thousand_keys() {
    let mut rng = Lcg(2024);
    let mut db = empty_store(16 * 1024);
    let mut expected = Vec::new();
    for i in 0..1000u32 {
        let len = 16 + (rng.next() % 241) as usize;
        let value: Vec<u8> = (0..len).map(|_| rng.next() as u8).collect();
        db.put_at(i, format!("key-{}", i), value.clone()).unwrap();
        expected.push(value);
    }
    assert!(db.write_id() > 1);
    let reopened = restart(&db);
    assert_eq!(reopened.len(), 1000);
    assert_eq!(reopened.write_id(), db.write_id());
    for (i, value) in expected.iter().enumerate() {
        assert_eq!(reopened.get(format!("key-{}", i)).as_ref(), Some(value));
    }
}

#[test]
fn torn_tail_of_the_data_file_hides_the_last_record_only() {
    let mut db = empty_store(FILE_SIZE);
    db.put_at(1, "a".to_owned(), b"first".to_vec()).unwrap();
    db.put_at(2, "b".to_owned(), b"second".to_vec()).unwrap();
    let before = db.data_file(0).unwrap().len() as usize;
    db.put_at(3, "a".to_owned(), b"third value".to_vec()).unwrap();
    let after = db.data_file(0).unwrap().len() as usize;
    for cut in before..after {
        let mut files = files_of(&db);
        files[0].contents.truncate(cut);
        let reopened = Bitcask::new("data".to_owned(), BitcaskOptions::default(), files);
        assert_eq!(reopened.len(), 2, "cut at {}", cut);
        assert_eq!(reopened.get("a".to_owned()), Some(b"first".to_vec()));
        assert_eq!(reopened.get("b".to_owned()), Some(b"second".to_vec()));
    }
    let whole = restart(&db);
    assert_eq!(whole.get("a".to_owned()), Some(b"third value".to_vec()));
}

#[test]
fn torn_tail_of_the_hint_file_ends_the_replay() {
    let mut db = empty_store(FILE_SIZE);
    db.put_at(1, "a".to_owned(), b"first".to_vec()).unwrap();
    db.put_at(2, "b".to_owned(), b"second".to_vec()).unwrap();
    let mut files = files_of(&db);
    assert_eq!(files[1].name, "0.hint");
    let len = files[1].contents.len();
    files[1].contents.truncate(len - 1);
    let reopened = Bitcask::new("data".to_owned(), BitcaskOptions::default(), files);
    assert_eq!(reopened.len(), 1);
    assert_eq!(reopened.get("a".to_owned()), Some(b"first".to_vec()));
    assert_eq!(reopened.get("b".to_owned()), None);
}

#[test]
fn segment_without_a_hint_file_is_replayed_from_its_data() {
    let mut db = empty_store(FILE_SIZE);
    db.put_at(1, "a".to_owned(), b"first".to_vec()).unwrap();
    db.put_at(2, "b".to_owned(), b"second".to_vec()).unwrap();
    db.delete_at(3, "a".to_owned()).unwrap();
    db.put_at(4, "c".to_owned(), b"third".to_vec()).unwrap();
    let data = db.data_file(0).unwrap().contents().clone();
    let files = vec![StoredFile { name: "0.data".to_owned(), contents: data.clone() }];
    let reopened = Bitcask::new("data".to_owned(), BitcaskOptions::default(), files);
    assert_eq!(reopened.len(), 2);
    assert_eq!(reopened.get("a".to_owned()), None);
    assert_eq!(reopened.get("b".to_owned()), Some(b"second".to_vec()));
    assert_eq!(reopened.get("c".to_owned()), Some(b"third".to_vec()));

    // a record whose check value is wrong ends the replay of the data log
    let mut spoiled = data;
    let second = 11 + 1 + 5;
    spoiled[second] ^= 0xFF;
    let files = vec![StoredFile { name: "0.data".to_owned(), contents: spoiled }];
    let reopened = Bitcask::new("data".to_owned(), BitcaskOptions::default(), files);
    assert_eq!(reopened.len(), 1);
    assert_eq!(reopened.get("a".to_owned()), Some(b"first".to_vec()));
    assert_eq!(reopened.get("b".to_owned()), None);
}

#[test]
fn files_with_other_names_are_passed_over() {
    let mut db = empty_store(FILE_SIZE);
    db.put_at(1, "a".to_owned(), b"first".to_vec()).unwrap();
    let mut files = files_of(&db);
    files.insert(0, StoredFile { name: "notes.txt".to_owned(), contents: vec![1, 2, 3] });
    files.push(StoredFile { name: "x.data".to_owned(), contents: vec![0; 40] });
    files.push(StoredFile { name: "7.dat".to_owned(), contents: vec![0; 40] });
    files.push(StoredFile { name: ".hint".to_owned(), contents: vec![0; 40] });
    files.push(StoredFile { name: "4294967296.data".to_owned(), contents: vec![0; 40] });
    let reopened = Bitcask::new("data".to_owned(), BitcaskOptions::default(), files);
    assert_eq!(reopened.write_id(), 0);
    assert_eq!(reopened.len(), 1);
    assert_eq!(reopened.get("a".to_owned()), Some(b"first".to_vec()));
}

#[test]
fn the_segment_with_the_largest_id_is_opened_for_appending() {
    let mut old = empty_store(1);
    old.put_at(1, "a".to_owned(), b"first".to_vec()).unwrap();
    old.put_at(2, "b".to_owned(), b"second".to_vec()).unwrap();
    let mut files = files_of(&old);
    // the order of the listing does not matter
    files.reverse();
    files.push(StoredFile { name: "9.data".to_owned(), contents: Vec::new() });
    let mut db = Bitcask::new("data".to_owned(), BitcaskOptions::default(), files);
    assert_eq!(db.write_id(), 9);
    assert!(!db.data_file(9).unwrap().is_readonly());
    assert!(db.data_file(0).unwrap().is_readonly());
    assert_eq!(db.get("a".to_owned()), Some(b"first".to_vec()));
    assert_eq!(db.get("b".to_owned()), Some(b"second".to_vec()));
    db.put_at(3, "c".to_owned(), b"third".to_vec()).unwrap();
    assert_eq!(db.data_file(9).unwrap().len(), 11 + 1 + 5);
    assert_eq!(db.get("c".to_owned()), Some(b"third".to_vec()));
}

#[test]
fn later_segments_win_over_earlier_ones_whatever_the_timestamps() {
    let mut db = empty_store(1);
    db.put_at(100, "k".to_owned(), b"old".to_vec()).unwrap();
    db.put_at(1, "k".to_owned(), b"new".to_vec()).unwrap();
    assert_eq!(db.write_id(), 2);
    let reopened = restart(&db);
    assert_eq!(reopened.get("k".to_owned()), Some(b"new".to_vec()));
}

#[test]
fn four_zero_bytes_are_a_value_like_any_other_also_after_a_restart() {
    let mut db = empty_store(FILE_SIZE);
    db.put_at(1, "z".to_owned(), vec![0, 0, 0, 0]).unwrap();
    assert_eq!(db.get("z".to_owned()), Some(vec![0, 0, 0, 0]));
    let reopened = restart(&db);
    assert_eq!(reopened.get("z".to_owned()), Some(vec![0, 0, 0, 0]));
    let mut merged = reopened;
    merged.merge();
    assert_eq!(merged.get("z".to_owned()), Some(vec![0, 0, 0, 0]));
    assert_eq!(restart(&merged).get("z".to_owned()), Some(vec![0, 0, 0, 0]));
    // and from the data file alone
    let data = db.data_file(0).unwrap().contents().clone();
    let files = vec![StoredFile { name: "0.data".to_owned(), contents: data }];
    let rebuilt = Bitcask::new("data".to_owned(), BitcaskOptions::default(), files);
    assert_eq!(rebuilt.get("z".to_owned()), Some(vec![0, 0, 0, 0]));
}

#[test]
fn recover_takes_segments_in_the_order_of_their_ids() {
    let first = DataEntry::compose(1, b"k".to_vec(), b"one".to_vec()).encode();
    let second = DataEntry::compose(2, b"k".to_vec(), b"two".to_vec()).encode();
    let segments = vec![Segment::new(3, first, None), Segment::new(8, second, None)];
    let db = Bitcask::recover("data".to_owned(), BitcaskOptions::default(), segments);
    assert_eq!(db.write_id(), 8);
    assert_eq!(db.get("k".to_owned()), Some(b"two".to_vec()));
    let segments = db.into_segments();
    assert_eq!(segments.len(), 2);
    assert_eq!(segments[0].file_id(), 3);
    assert_eq!(segments[1].file_id(), 8);
    assert!(segments[0].hint().is_none());
    // the segment that was opened for appending got the hint log that goes with its data
    assert_eq!(segments[1].hint().unwrap().len(), 17 + 1);
}

#[test]
fn merge_keeps_every_value_and_drops_what_was_superseded() {
    let mut db = empty_store(1);
    db.put_at(1, "a".to_owned(), b"first".to_vec()).unwrap();
    db.put_at(2, "a".to_owned(), b"second".to_vec()).unwrap();
    db.put_at(3, "b".to_owned(), b"bee".to_vec()).unwrap();
    db.put_at(4, "c".to_owned(), b"sea".to_vec()).unwrap();
    db.delete_at(5, "c".to_owned()).unwrap();
    db.put_at(6, "d".to_owned(), Vec::new()).unwrap();
    assert_eq!(db.write_id(), 6);
    db.merge();
    assert_eq!(db.write_id(), 8);
    assert_eq!(db.len(), 3);
    assert_eq!(db.get("a".to_owned()), Some(b"second".to_vec()));
    assert_eq!(db.get("b".to_owned()), Some(b"bee".to_vec()));
    assert_eq!(db.get("c".to_owned()), None);
    assert_eq!(db.get("d".to_owned()), Some(Vec::new()));
    for id in 0..7 {
        assert!(db.data_file(id).is_none());
        assert!(db.hint_file(id).is_none());
    }
    // one record for each live key: three headers, three keys of one byte, nine bytes of values
    let merged = db.data_file(7).unwrap();
    assert!(merged.is_readonly());
    assert_eq!(merged.len(), 3 * 11 + 3 + 9);
    assert_eq!(db.hint_file(7).unwrap().len(), 3 * 17 + 3);
    assert_eq!(db.data_file(8).unwrap().len(), 0);
    assert!(!db.data_file(8).unwrap().is_readonly());
}

#[test]
fn merge_keeps_the_timestamps_and_writes_checked_records() {
    let mut db = empty_store(FILE_SIZE);
    db.put_at(41, "a".to_owned(), b"one".to_vec()).unwrap();
    db.put_at(42, "a".to_owned(), b"two".to_vec()).unwrap();
    db.merge();
    let mut merged = Bitcask::new("data".to_owned(), BitcaskOptions::default(), files_of(&db))
        .into_segments();
    assert_eq!(merged.len(), 2);
    let segment = merged.remove(0);
    let entry = DataEntry::decode(segment.data().contents(), 0).unwrap();
    assert_eq!(entry.timestamp, 42);
    assert_eq!(entry.key, b"a".to_vec());
    assert_eq!(entry.value, b"two".to_vec());
    assert!(entry.is_checked());
}

#[test]
fn merged_store_is_rebuilt_by_a_restart_and_takes_further_writes() {
    let mut db = empty_store(100);
    for i in 0..50u32 {
        db.put_at(i, format!("k{}", i % 7), vec![i as u8; 20]).unwrap();
    }
    db.delete_at(50, "k3".to_owned()).unwrap();
    db.merge();
    db.put_at(51, "k0".to_owned(), b"after".to_vec()).unwrap();
    db.put_at(52, "new".to_owned(), b"fresh".to_vec()).unwrap();
    for store in [restart(&db), db.reopen()] {
        assert_eq!(store.len(), 7);
        assert_eq!(store.get("k0".to_owned()), Some(b"after".to_vec()));
        assert_eq!(store.get("k1".to_owned()), Some(vec![43; 20]));
        assert_eq!(store.get("k2".to_owned()), Some(vec![44; 20]));
        assert_eq!(store.get("k3".to_owned()), None);
        assert_eq!(store.get("k6".to_owned()), Some(vec![48; 20]));
        assert_eq!(store.get("new".to_owned()), Some(b"fresh".to_vec()));
    }
}

#[test]
fn merge_of_an_empty_store_starts_two_segments_on() {
    let mut db = empty_store(FILE_SIZE);
    db.merge();
    assert_eq!(db.write_id(), 2);
    assert_eq!(db.len(), 0);
    assert_eq!(db.data_file(1).unwrap().len(), 0);
    assert!(db.data_file(0).is_none());
}

#[test]
fn merge_does_nothing_where_no_two_ids_are_left() {
    let segments = vec![Segment::new(
        u32::MAX - 1,
        DataEntry::compose(1, b"k".to_vec(), b"one".to_vec()).encode(),
        None,
    )];
    let mut db = Bitcask::recover("data".to_owned(), BitcaskOptions::default(), segments);
    db.put_at(2, "k".to_owned(), b"two".to_vec()).unwrap();
    let before = db.data_file(u32::MAX - 1).unwrap().contents().clone();
    db.merge();
    assert_eq!(db.write_id(), u32::MAX - 1);
    assert_eq!(db.data_file(u32::MAX - 1).unwrap().contents(), &before);
    assert_eq!(db.get("k".to_owned()), Some(b"two".to_vec()));
}

#[test]
fn write_to_the_segment_with_the_last_id_starts_no_segment() {
    let segments = vec![Segment::new(u32::MAX, Vec::new(), None)];
    let mut db = Bitcask::recover(
        "data".to_owned(),
        BitcaskOptions { file_size_limit: 1 },
        segments,
    );
    db.put_at(1, "a".to_owned(), b"one".to_vec()).unwrap();
    db.put_at(2, "b".to_owned(), b"two".to_vec()).unwrap();
    assert_eq!(db.write_id(), u32::MAX);
    assert_eq!(db.get("a".to_owned()), Some(b"one".to_vec()));
    assert_eq!(db.get("b".to_owned()), Some(b"two".to_vec()));
}

#[test]
fn put_stamps_the_record_with_the_time_of_the_call() {
    let mut db = empty_store(FILE_SIZE);
    db.put("k".to_owned(), b"v".to_vec()).unwrap();
    let entry = DataEntry::decode(db.data_file(0).unwrap().contents(), 0).unwrap();
    // later than 2020-01-01, as any clock that is set says
    assert!(entry.timestamp > 1_577_836_800);
}

#[test]
fn segment_ids_ascend_when_each_is_larger_than_the_one_before() {
    let seg = |id: u32| Segment::new(id, Vec::new(), None);
    assert!(is_ascending(&Vec::new()));
    assert!(is_ascending(&vec![seg(5)]));
    assert!(is_ascending(&vec![seg(0), seg(1), seg(7)]));
    assert!(!is_ascending(&vec![seg(0), seg(0)]));
    assert!(!is_ascending(&vec![seg(0), seg(2), seg(1)]));
    assert!(!is_ascending(&vec![seg(3), seg(2), seg(4)]));
}

#[test]
fn files_are_listed_segment_by_segment_under_their_names() {
    let mut db = empty_store(1);
    db.put_at(1, "a".to_owned(), b"first".to_vec()).unwrap();
    db.put_at(2, "b".to_owned(), b"second".to_vec()).unwrap();
    let files = db.files();
    let names: Vec<&str> = files.iter().map(|f| f.name.as_str()).collect();
    assert_eq!(names, ["0.data", "0.hint", "1.data", "1.hint", "2.data", "2.hint"]);
    assert_eq!(files[0].contents.len(), 11 + 1 + 5);
    assert_eq!(files[1].contents.len(), 17 + 1);
    assert_eq!(files[2].contents.len(), 11 + 1 + 6);
    assert_eq!(&files[2].contents[12..], b"second");
    assert_eq!(files[4].contents.len(), 0);
    assert_eq!(files[5].contents.len(), 0);

    let data_only = Bitcask::recover(
        "data".to_owned(),
        BitcaskOptions::default(),
        vec![Segment::new(3, vec![1, 2, 3], None), Segment::new(4, Vec::new(), None)],
    );
    let files = data_only.files();
    let names: Vec<&str> = files.iter().map(|f| f.name.as_str()).collect();
    assert_eq!(names, ["3.data", "4.data", "4.hint"]);
}

#[test]
fn writes_after_a_torn_data_tail_survive_the_next_restart() {
    let mut db = empty_store(FILE_SIZE);
    db.put_at(1, "a".to_owned(), b"first".to_vec()).unwrap();
    db.put_at(2, "b".to_owned(), b"second".to_vec()).unwrap();
    let mut files = db.files();
    let len = files[0].contents.len();
    files[0].contents.truncate(len - 3);
    let mut reopened = Bitcask::new("data".to_owned(), BitcaskOptions::default(), files);
    // the hint record of the record that was cut is discarded with it
    assert_eq!(reopened.hint_file(0).unwrap().len(), 17 + 1);
    assert_eq!(reopened.get("b".to_owned()), None);
    reopened.put_at(3, "c".to_owned(), b"third, and long enough to cover".to_vec()).unwrap();
    reopened.put_at(4, "b".to_owned(), b"again".to_vec()).unwrap();
    let again = restart(&reopened);
    assert_eq!(again.len(), 3);
    assert_eq!(again.get("a".to_owned()), Some(b"first".to_vec()));
    assert_eq!(again.get("b".to_owned()), Some(b"again".to_vec()));
    assert_eq!(again.get("c".to_owned()), Some(b"third, and long enough to cover".to_vec()));
}

#[test]
fn writes_after_a_torn_hint_tail_survive_the_next_restart() {
    let mut db = empty_store(FILE_SIZE);
    db.put_at(1, "a".to_owned(), b"first".to_vec()).unwrap();
    db.put_at(2, "b".to_owned(), b"second".to_vec()).unwrap();
    let mut files = db.files();
    let len = files[1].contents.len();
    files[1].contents.truncate(len - 1);
    let mut reopened = Bitcask::new("data".to_owned(), BitcaskOptions::default(), files);
    assert_eq!(reopened.hint_file(0).unwrap().len(), 17 + 1);
    reopened.put_at(3, "c".to_owned(), b"third".to_vec()).unwrap();
    let again = restart(&reopened);
    assert_eq!(again.len(), 2);
    assert_eq!(again.get("a".to_owned()), Some(b"first".to_vec()));
    assert_eq!(again.get("b".to_owned()), None);
    assert_eq!(again.get("c".to_owned()), Some(b"third".to_vec()));
}

#[test]
fn segment_opened_without_a_hint_file_gets_one_that_goes_with_its_data() {
    let mut db = empty_store(FILE_SIZE);
    db.put_at(1, "a".to_owned(), b"first".to_vec()).unwrap();
    db.put_at(2, "b".to_owned(), b"second".to_vec()).unwrap();
    db.delete_at(3, "a".to_owned()).unwrap();
    let hint = db.hint_file(0).unwrap().contents().clone();
    let data = db.data_file(0).unwrap().contents().clone();
    let files = vec![StoredFile { name: "0.data".to_owned(), contents: data }];
    let mut reopened = Bitcask::new("data".to_owned(), BitcaskOptions::default(), files);
    assert_eq!(reopened.hint_file(0).unwrap().contents(), &hint);
    reopened.put_at(4, "c".to_owned(), b"third".to_vec()).unwrap();
    let again = restart(&reopened);
    assert_eq!(again.len(), 2);
    assert_eq!(again.get("a".to_owned()), None);
    assert_eq!(again.get("b".to_owned()), Some(b"second".to_vec()));
    assert_eq!(again.get("c".to_owned()), Some(b"third".to_vec()));
}

#[test]
fn files_of_sealed_segments_are_read_only_and_those_of_the_open_one_are_not() {
    let mut db = empty_store(1);
    db.put_at(1, "a".to_owned(), b"first".to_vec()).unwrap();
    db.put_at(2, "b".to_owned(), b"second".to_vec()).unwrap();
    assert_eq!(db.write_id(), 2);
    for id in 0..2 {
        assert!(db.data_file(id).unwrap().is_readonly());
        assert!(db.hint_file(id).unwrap().is_readonly());
    }
    assert!(!db.data_file(2).unwrap().is_readonly());
    assert!(!db.hint_file(2).unwrap().is_readonly());
    let reopened = restart(&db);
    assert!(reopened.data_file(1).unwrap().is_readonly());
    assert!(reopened.hint_file(1).unwrap().is_readonly());
    assert!(!reopened.hint_file(2).unwrap().is_readonly());
}

#[test]
fn merge_supersedes_the_segments_that_it_rewrote() {
    let mut db = empty_store(1);
    db.put_at(1, "a".to_owned(), b"first".to_vec()).unwrap();
    db.put_at(2, "b".to_owned(), b"second".to_vec()).unwrap();
    assert!(!db.is_superseded(0));
    assert!(!db.is_superseded(2));
    assert!(!db.is_superseded(3));
    db.merge();
    assert_eq!(db.write_id(), 4);
    for id in 0..3 {
        assert!(db.is_superseded(id));
    }
    assert!(!db.is_superseded(3));
    assert!(!db.is_superseded(4));
    assert!(!db.is_superseded(5));
    assert!(!db.is_superseded(u32::MAX));
}

#[test]
fn torn_record_of_a_deletion_leaves_the_key_as_it_was() {
    let mut db = empty_store(FILE_SIZE);
    db.put_at(1, "a".to_owned(), b"first".to_vec()).unwrap();
    db.put_at(2, "b".to_owned(), Vec::new()).unwrap();
    let before = db.data_file(0).unwrap().len() as usize;
    db.delete_at(3, "a".to_owned()).unwrap();
    let after = db.data_file(0).unwrap().len() as usize;
    assert_eq!(after - before, 11 + 1);
    for cut in before..after {
        let mut files = db.files();
        files[0].contents.truncate(cut);
        let reopened = Bitcask::new("data".to_owned(), BitcaskOptions::default(), files);
        assert_eq!(reopened.len(), 2, "cut at {}", cut);
        assert_eq!(reopened.get("a".to_owned()), Some(b"first".to_vec()));
        assert_eq!(reopened.get("b".to_owned()), Some(Vec::new()));
    }
    assert_eq!(restart(&db).get("a".to_owned()), None);
}

#[test]
fn deleted_key_stays_deleted_through_restarts_and_merge() {
    let mut db = empty_store(40);
    db.put_at(1, "a".to_owned(), vec![0, 0, 0, 0]).unwrap();
    db.put_at(2, "b".to_owned(), vec![0; 8]).unwrap();
    db.delete_at(3, "a".to_owned()).unwrap();
    db.put_at(4, "c".to_owned(), Vec::new()).unwrap();
    let mut reopened = restart(&db);
    assert_eq!(reopened.get("a".to_owned()), None);
    assert_eq!(reopened.get("b".to_owned()), Some(vec![0; 8]));
    assert_eq!(reopened.get("c".to_owned()), Some(Vec::new()));
    reopened.merge();
    let merged = restart(&reopened);
    assert_eq!(merged.len(), 2);
    assert_eq!(merged.get("a".to_owned()), None);
    assert_eq!(merged.get("b".to_owned()), Some(vec![0; 8]));
    assert_eq!(merged.get("c".to_owned()), Some(Vec::new()));
}
