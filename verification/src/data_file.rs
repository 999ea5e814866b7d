//! The data log of one segment: records of a key and its value, appended one
//! after the other and read back by offset.
//!
//! A record is a header of 11 bytes (check value, timestamp, key size, value
//! size, all little-endian), the key, and the value. The value size field
//! tags the record: 0 marks a deletion, which has no value bytes, so that a
//! deletion is told from every put by the record alone; the empty value,
//! which has no bytes either, is written with the size field `0xFFFF_FFFF`;
//! any other size is the number of value bytes. A value can therefore be up
//! to 2^32 - 2 bytes long.

use crate::checksum::CRC_INITIAL;
use crate::checksum::crc16;
use crate::checksum::crc_update;
use crate::checksum::lemma_crc_fold_concat;
use crate::endian::get_u16;
use crate::endian::get_u32;
use crate::endian::put_u16;
use crate::endian::put_u32;
use vstd::bytes::*;
use vstd::prelude::*;
use vstd::slice::slice_subrange;
use vstd::slice::slice_to_vec;

verus! {

broadcast use vstd::slice::group_slice_axioms;

/// Bytes of a data record that precede its key: check value, timestamp, key
/// size and value size.
pub const DATA_HEADER_SIZE: usize = 11;

/// Message of the error that a write to a read-only file returns.
pub const READ_ONLY: &'static str = "file is read-only";

/// Message of the error that a write of an entry returns whose size fields
/// disagree with its key or value.
pub const MALFORMED_ENTRY: &'static str = "entry sizes do not match its contents";

/// Message of the error that a read returns which reaches past the end of the
/// file.
pub const SHORT_READ: &'static str = "read past the end of the file";

/// The value size that a record carries which holds a deletion. Such a
/// record has no value bytes.
pub const DELETED: u32 = 0;

/// The value size that a record carries which holds the empty value, since 0
/// is taken. Such a record has no value bytes either.
pub const EMPTY_VALUE: u32 = 0xFFFF_FFFF;

/// Number of value bytes in a record whose value size field is `value_size`.
pub open spec fn payload_len(value_size: u32) -> int {
    if value_size == DELETED || value_size == EMPTY_VALUE {
        0
    } else {
        value_size as int
    }
}

/// The value size field of a record that holds `value`, or a deletion.
pub open spec fn size_field(value: Seq<u8>, deleted: bool) -> u32 {
    if deleted {
        DELETED
    } else if value.len() == 0 {
        EMPTY_VALUE
    } else {
        value.len() as u32
    }
}

/// A data record as a mathematical value: a put of `value` under `key`, or,
/// where `deleted` says so, a deletion of `key`, which has no value. The key
/// size that the encoding carries is the length of `key`; the value size
/// tells the three kinds of record apart, see `size_field`.
pub struct DataRecord {
    pub crc: u16,
    pub timestamp: u32,
    pub key: Seq<u8>,
    pub value: Seq<u8>,
    pub deleted: bool,
}

impl DataRecord {
    /// Whether the lengths of key and value fit the size fields of the
    /// header, and a deletion has no value.
    pub open spec fn fits(self) -> bool {
        &&& self.key.len() <= u8::MAX
        &&& self.value.len() < EMPTY_VALUE
        &&& self.deleted ==> self.value.len() == 0
    }

    /// Number of bytes that the record takes in a log.
    pub open spec fn size(self) -> int {
        DATA_HEADER_SIZE + self.key.len() + self.value.len()
    }

    /// Everything the check value covers: the record without its first two
    /// bytes.
    pub open spec fn body(self) -> Seq<u8> {
        spec_u32_to_le_bytes(self.timestamp) + seq![self.key.len() as u8] + spec_u32_to_le_bytes(
            size_field(self.value, self.deleted),
        ) + self.key + self.value
    }

    /// The bytes of the record in a log.
    pub open spec fn encoding(self) -> Seq<u8> {
        spec_u16_to_le_bytes(self.crc) + self.body()
    }

    /// The encoding is as long as `size` says.
    pub proof fn lemma_size(self)
        ensures
            self.encoding().len() == self.size(),
    {
        lemma_auto_spec_u16_to_from_le_bytes();
        lemma_auto_spec_u32_to_from_le_bytes();
    }

    /// Whether the check value is that of the contents.
    pub open spec fn checked(self) -> bool {
        self.crc == crc16(self.body())
    }

    /// The record of `key` and `value`, or of a deletion of `key`, written at
    /// `timestamp`, with the check value of its contents.
    pub open spec fn compose(timestamp: u32, key: Seq<u8>, value: Seq<u8>, deleted: bool) -> DataRecord {
        let blank = DataRecord { crc: 0, timestamp, key, value, deleted };
        DataRecord { crc: crc16(blank.body()), timestamp, key, value, deleted }
    }
}

/// The record that starts at `pos` in `log`, if a whole one stands there.
pub open spec fn data_record_at(log: Seq<u8>, pos: int) -> Option<DataRecord> {
    if 0 <= pos && pos + DATA_HEADER_SIZE <= log.len() {
        let key_size = log[pos + 6] as int;
        let field = spec_u32_from_le_bytes(log.subrange(pos + 7, pos + 11));
        let value_size = payload_len(field);
        if pos + DATA_HEADER_SIZE + key_size + value_size <= log.len() {
            Some(
                DataRecord {
                    crc: spec_u16_from_le_bytes(log.subrange(pos, pos + 2)),
                    timestamp: spec_u32_from_le_bytes(log.subrange(pos + 2, pos + 6)),
                    key: log.subrange(pos + 11, pos + 11 + key_size),
                    value: log.subrange(pos + 11 + key_size, pos + 11 + key_size + value_size),
                    deleted: field == DELETED,
                },
            )
        } else {
            None
        }
    } else {
        None
    }
}

/// A record that was written at the end of `log` is the record found there,
/// whatever follows it.
pub proof fn lemma_data_record_at_encoding(log: Seq<u8>, r: DataRecord, rest: Seq<u8>)
    requires
        r.fits(),
    ensures
        data_record_at(log + r.encoding() + rest, log.len() as int) == Some(r),
        r.encoding().len() == r.size(),
{
    lemma_auto_spec_u16_to_from_le_bytes();
    lemma_auto_spec_u32_to_from_le_bytes();
    let pos = log.len() as int;
    let all = log + r.encoding() + rest;
    let enc = r.encoding();
    assert(enc.len() == r.size());
    assert forall|i: int| 0 <= i < enc.len() implies all[pos + i] == enc[i] by {}
    assert(all.subrange(pos, pos + 2) =~= spec_u16_to_le_bytes(r.crc));
    assert(all.subrange(pos + 2, pos + 6) =~= spec_u32_to_le_bytes(r.timestamp));
    assert(all[pos + 6] == enc[6]);
    assert(enc[6] == r.key.len() as u8);
    assert(all.subrange(pos + 7, pos + 11) =~= spec_u32_to_le_bytes(
        size_field(r.value, r.deleted),
    ));
    let key_size = r.key.len() as int;
    let value_size = r.value.len() as int;
    assert(all.subrange(pos + 11, pos + 11 + key_size) =~= r.key);
    assert(all.subrange(pos + 11 + key_size, pos + 11 + key_size + value_size) =~= r.value);
}

/// Where a log ends inside the record that was written last, no record is
/// found at the place of that record.
pub proof fn lemma_data_record_at_torn(log: Seq<u8>, r: DataRecord, cut: int)
    requires
        r.fits(),
        0 <= cut < r.size(),
    ensures
        data_record_at(log + r.encoding().take(cut), log.len() as int) is None,
{
    lemma_auto_spec_u16_to_from_le_bytes();
    lemma_auto_spec_u32_to_from_le_bytes();
    let pos = log.len() as int;
    let enc = r.encoding();
    let torn = log + enc.take(cut);
    assert(enc.len() == r.size());
    if cut >= DATA_HEADER_SIZE {
        assert forall|i: int| 0 <= i < cut implies torn[pos + i] == enc[i] by {}
        assert(torn[pos + 6] == enc[6]);
        assert(enc[6] == r.key.len() as u8);
        assert(torn.subrange(pos + 7, pos + 11) =~= spec_u32_to_le_bytes(
            size_field(r.value, r.deleted),
        ));
    }
}

/// A record found in a log is still found, unchanged, after the log has grown.
pub proof fn lemma_data_record_at_grows(log: Seq<u8>, pos: int, more: Seq<u8>)
    requires
        data_record_at(log, pos) is Some,
    ensures
        data_record_at(log + more, pos) == data_record_at(log, pos),
{
    let all = log + more;
    let key_size = log[pos + 6] as int;
    let value_size = payload_len(spec_u32_from_le_bytes(log.subrange(pos + 7, pos + 11)));
    assert(all[pos + 6] == log[pos + 6]);
    assert(all.subrange(pos + 7, pos + 11) =~= log.subrange(pos + 7, pos + 11));
    assert(all.subrange(pos, pos + 2) =~= log.subrange(pos, pos + 2));
    assert(all.subrange(pos + 2, pos + 6) =~= log.subrange(pos + 2, pos + 6));
    assert(all.subrange(pos + 11, pos + 11 + key_size) =~= log.subrange(
        pos + 11,
        pos + 11 + key_size,
    ));
    assert(all.subrange(pos + 11 + key_size, pos + 11 + key_size + value_size) =~= log.subrange(
        pos + 11 + key_size,
        pos + 11 + key_size + value_size,
    ));
}

/// One record of a data log.
#[derive(Debug)]
pub struct DataEntry {
    pub crc: u16,
    pub timestamp: u32,
    pub key_size: u8,
    pub value_size: u32,
    pub key: Vec<u8>,
    pub value: Vec<u8>,
}

impl View for DataEntry {
    type V = DataRecord;

    open spec fn view(&self) -> DataRecord {
        DataRecord {
            crc: self.crc,
            timestamp: self.timestamp,
            key: self.key@,
            value: self.value@,
            deleted: self.value_size == DELETED,
        }
    }
}

impl DataEntry {
    /// The size fields say how long key and value are: the value has
    /// `value_size` bytes, and none where `value_size` is `DELETED` or
    /// `EMPTY_VALUE`.
    pub open spec fn well_formed(&self) -> bool {
        self.key@.len() == self.key_size && self.value@.len() == payload_len(self.value_size)
    }

    /// The number of value bytes that an entry with the value size field
    /// `value_size` holds.
    pub fn payload_size(value_size: u32) -> (len: u32)
        ensures
            len == payload_len(value_size),
    {
        if value_size == EMPTY_VALUE {
            0
        } else {
            value_size
        }
    }

    /// Whether the entry holds a deletion.
    pub fn is_deletion(&self) -> (yes: bool)
        ensures
            yes == self@.deleted,
    {
        self.value_size == DELETED
    }

    /// Tests the size fields against key and value.
    pub fn is_well_formed(&self) -> (ok: bool)
        ensures
            ok == self.well_formed(),
    {
        self.key.len() == self.key_size as usize && self.value.len() == DataEntry::payload_size(
            self.value_size,
        ) as usize
    }

    /// The check value of the contents of the entry, whatever its `crc` field
    /// holds.
    pub fn checksum(&self) -> (crc: u16)
        requires
            self.well_formed(),
        ensures
            crc == crc16(self@.body()),
    {
        let mut head: Vec<u8> = Vec::new();
        put_u32(&mut head, self.timestamp);
        head.push(self.key_size);
        put_u32(&mut head, self.value_size);
        let reg = crc_update(CRC_INITIAL, head.as_slice());
        let reg = crc_update(reg, self.key.as_slice());
        let reg = crc_update(reg, self.value.as_slice());
        proof {
            lemma_crc_fold_concat(CRC_INITIAL, head@, self.key@);
            lemma_crc_fold_concat(CRC_INITIAL, head@ + self.key@, self.value@);
            assert(head@ + self.key@ + self.value@ =~= self@.body());
        }
        reg
    }

    /// Whether the `crc` field is the check value of the contents.
    pub fn is_checked(&self) -> (ok: bool)
        requires
            self.well_formed(),
        ensures
            ok == self@.checked(),
    {
        self.checksum() == self.crc
    }

    /// The entry of a put of `value` under `key` at `timestamp`, with its size
    /// fields and its check value filled in.
    pub fn compose(timestamp: u32, key: Vec<u8>, value: Vec<u8>) -> (entry: DataEntry)
        requires
            key@.len() <= u8::MAX,
            value@.len() < EMPTY_VALUE,
        ensures
            entry.well_formed(),
            entry@ == DataRecord::compose(timestamp, key@, value@, false),
    {
        let value_size = if value.len() == 0 {
            EMPTY_VALUE
        } else {
            value.len() as u32
        };
        let mut entry = DataEntry {
            crc: 0,
            timestamp,
            key_size: key.len() as u8,
            value_size,
            key,
            value,
        };
        let crc = entry.checksum();
        entry.crc = crc;
        entry
    }

    /// The entry of a deletion of `key` at `timestamp`, with its size fields
    /// and its check value filled in.
    pub fn compose_deletion(timestamp: u32, key: Vec<u8>) -> (entry: DataEntry)
        requires
            key@.len() <= u8::MAX,
        ensures
            entry.well_formed(),
            entry@ == DataRecord::compose(timestamp, key@, Seq::empty(), true),
    {
        let mut entry = DataEntry {
            crc: 0,
            timestamp,
            key_size: key.len() as u8,
            value_size: DELETED,
            key,
            value: Vec::new(),
        };
        let crc = entry.checksum();
        entry.crc = crc;
        entry
    }

    /// The bytes of the entry as they stand in a log.
    pub fn encode(&self) -> (out: Vec<u8>)
        requires
            self.well_formed(),
        ensures
            out@ == self@.encoding(),
    {
        let mut out: Vec<u8> = Vec::new();
        put_u16(&mut out, self.crc);
        put_u32(&mut out, self.timestamp);
        out.push(self.key_size);
        put_u32(&mut out, self.value_size);
        out.extend_from_slice(self.key.as_slice());
        out.extend_from_slice(self.value.as_slice());
        assert(out@ =~= self@.encoding());
        out
    }

    /// Reads the entry that starts at `pos` in `log`; `None` where the log
    /// ends before the entry does.
    pub fn decode(log: &[u8], pos: usize) -> (out: Option<DataEntry>)
        ensures
            match out {
                Some(entry) => entry.well_formed() && data_record_at(log@, pos as int) == Some(
                    entry@,
                ),
                None => data_record_at(log@, pos as int) is None,
            },
    {
        let len = log.len();
        if len < DATA_HEADER_SIZE || pos > len - DATA_HEADER_SIZE {
            return None;
        }
        let crc = get_u16(log, pos);
        let timestamp = get_u32(log, pos + 2);
        let key_size = log[pos + 6];
        let value_size = get_u32(log, pos + 7);
        let value_len = DataEntry::payload_size(value_size) as usize;
        let left = len - DATA_HEADER_SIZE - pos;
        if key_size as usize > left || value_len > left - key_size as usize {
            return None;
        }
        let key_start = pos + DATA_HEADER_SIZE;
        let value_start = key_start + key_size as usize;
        let key = slice_to_vec(slice_subrange(log, key_start, value_start));
        let value = slice_to_vec(slice_subrange(log, value_start, value_start + value_len));
        Some(DataEntry { crc, timestamp, key_size, value_size, key, value })
    }
}

/// The data log of one segment, held as the bytes of its file.
///
/// A file is either read-only or open for appending; reads are permitted
/// either way. Records are read in order through a position that starts at
/// the beginning of the file.
#[derive(Debug)]
pub struct DataFile {
    file: Vec<u8>,
    file_id: u32,
    appending: bool,
    cursor: usize,
}

impl View for DataFile {
    type V = Seq<u8>;

    /// The bytes of the file.
    closed spec fn view(&self) -> Seq<u8> {
        self.file@
    }
}

impl DataFile {
    /// The segment that the file belongs to.
    pub closed spec fn spec_file_id(&self) -> u32 {
        self.file_id
    }

    /// Whether the file refuses writes.
    pub closed spec fn read_only(&self) -> bool {
        !self.appending
    }

    /// Offset of the record that `next` reads.
    pub closed spec fn position(&self) -> int {
        self.cursor as int
    }

    /// A file is no longer than its offsets can tell.
    pub proof fn lemma_len(&self)
        ensures
            self@.len() <= u64::MAX,
    {
        assert(self.file@.len() == self.file.len());
    }

    /// A file of segment `file_id` that holds `contents`. It is read-only
    /// where `write_offset` is `None` and open for appending otherwise; appends
    /// go to the end of the file, whatever offset was given.
    pub fn new(contents: Vec<u8>, file_id: u32, write_offset: Option<u64>) -> (file: DataFile)
        ensures
            file@ == contents@,
            file.file_id() == file_id,
            file.read_only() == (write_offset is None),
            file.position() == 0,
    {
        DataFile { file: contents, file_id, appending: write_offset.is_some(), cursor: 0 }
    }

    /// The segment that the file belongs to.
    #[verifier::when_used_as_spec(spec_file_id)]
    pub fn file_id(&self) -> (id: u32)
        ensures
            id == self.file_id(),
    {
        self.file_id
    }

    /// Whether the file refuses writes.
    pub fn is_readonly(&self) -> (ro: bool)
        ensures
            ro == self.read_only(),
    {
        !self.appending
    }

    /// The offset at which the next record will be written: the end of the
    /// file, or `None` for a read-only file.
    pub fn write_offset(&self) -> (offset: Option<u64>)
        ensures
            offset == if self.read_only() {
                None
            } else {
                Some(self@.len() as u64)
            },
    {
        if self.appending {
            Some(self.file.len() as u64)
        } else {
            None
        }
    }

    /// Number of bytes in the file.
    pub fn len(&self) -> (n: u64)
        ensures
            n == self@.len(),
    {
        self.file.len() as u64
    }

    /// The bytes of the file.
    pub fn contents(&self) -> (bytes: &Vec<u8>)
        ensures
            bytes@ == self@,
    {
        &self.file
    }

    /// Fills `value` with the bytes that start at `value_offset`. Fails, and
    /// leaves `value` as it was, where the file ends before `value` is full.
    pub fn read_exact(&self, value_offset: u64, value: &mut [u8]) -> (r: Result<(), String>)
        ensures
            final(value)@.len() == old(value)@.len(),
            match r {
                Ok(_) => value_offset + old(value)@.len() <= self@.len() && final(value)@
                    == self@.subrange(value_offset as int, value_offset + old(value)@.len()),
                Err(e) => value_offset + old(value)@.len() > self@.len() && final(value)@ == old(
                    value,
                )@ && e@ == SHORT_READ@,
            },
    {
        let wanted = value.len();
        let have = self.file.len();
        if wanted > have || value_offset > (have - wanted) as u64 {
            return Err(SHORT_READ.to_owned());
        }
        let start = value_offset as usize;
        let mut i: usize = 0;
        while i < wanted
            invariant
                i <= wanted,
                wanted == value@.len(),
                have == self.file@.len(),
                start + wanted <= have,
                forall|j: int| 0 <= j < i ==> value@[j] == self.file@[start + j],
            decreases wanted - i,
        {
            value[i] = self.file[start + i];
            i = i + 1;
        }
        assert(value@ =~= self@.subrange(value_offset as int, value_offset + wanted));
        Ok(())
    }

    /// Appends `data_entry` and returns the offset of its value in the file.
    /// Fails, and leaves the file as it was, where the file is read-only or
    /// the size fields of the entry disagree with its key or value.
    pub fn write(&mut self, data_entry: &DataEntry) -> (r: Result<u64, String>)
        ensures
            final(self).file_id() == old(self).file_id(),
            final(self).read_only() == old(self).read_only(),
            final(self).position() == old(self).position(),
            match r {
                Ok(value_pos) => {
                    &&& !old(self).read_only()
                    &&& data_entry.well_formed()
                    &&& final(self)@ == old(self)@ + data_entry@.encoding()
                    &&& value_pos == old(self)@.len() + DATA_HEADER_SIZE + data_entry.key@.len()
                },
                Err(e) => {
                    &&& final(self)@ == old(self)@
                    &&& if old(self).read_only() {
                        e@ == READ_ONLY@
                    } else {
                        !data_entry.well_formed() && e@ == MALFORMED_ENTRY@
                    }
                },
            },
    {
        if !self.appending {
            return Err(READ_ONLY.to_owned());
        }
        if !data_entry.is_well_formed() {
            return Err(MALFORMED_ENTRY.to_owned());
        }
        Ok(self.append(data_entry))
    }

    /// Appends `data_entry` to a file that is open for appending, and returns
    /// the offset of its value in the file.
    pub fn append(&mut self, data_entry: &DataEntry) -> (value_pos: u64)
        requires
            !old(self).read_only(),
            data_entry.well_formed(),
        ensures
            final(self).file_id() == old(self).file_id(),
            !final(self).read_only(),
            final(self).position() == old(self).position(),
            final(self)@ == old(self)@ + data_entry@.encoding(),
            value_pos == old(self)@.len() + DATA_HEADER_SIZE + data_entry.key@.len(),
    {
        put_u16(&mut self.file, data_entry.crc);
        put_u32(&mut self.file, data_entry.timestamp);
        self.file.push(data_entry.key_size);
        put_u32(&mut self.file, data_entry.value_size);
        self.file.extend_from_slice(data_entry.key.as_slice());
        let value_pos = self.file.len() as u64;
        self.file.extend_from_slice(data_entry.value.as_slice());
        proof {
            lemma_auto_spec_u16_to_from_le_bytes();
            lemma_auto_spec_u32_to_from_le_bytes();
            assert(self.file@ =~= old(self).file@ + data_entry@.encoding());
        }
        value_pos
    }

    /// Reads the record at the current position and moves past it. At the end
    /// of the file, or where the file ends inside a record, returns `None` and
    /// stays where it is.
    pub fn next(&mut self) -> (out: Option<DataEntry>)
        ensures
            final(self)@ == old(self)@,
            final(self).file_id() == old(self).file_id(),
            final(self).read_only() == old(self).read_only(),
            match out {
                Some(entry) => {
                    &&& entry.well_formed()
                    &&& data_record_at(old(self)@, old(self).position()) == Some(entry@)
                    &&& final(self).position() == old(self).position() + entry@.size()
                },
                None => {
                    &&& data_record_at(old(self)@, old(self).position()) is None
                    &&& final(self).position() == old(self).position()
                },
            },
    {
        let out = DataEntry::decode(self.file.as_slice(), self.cursor);
        if let Some(entry) = &out {
            assert(self.cursor + entry@.size() <= self.file.len()) by {
                let found = data_record_at(self.file@, self.cursor as int).unwrap();
                assert(found.key.len() == self.file@[self.cursor + 6] as int);
            }
            self.cursor = self.cursor + DATA_HEADER_SIZE + entry.key.len() + entry.value.len();
        }
        out
    }

    /// Gives up the file for its bytes.
    pub fn into_contents(self) -> (bytes: Vec<u8>)
        ensures
            bytes@ == self@,
    {
        self.file
    }

    /// The same file, closed for writing.
    pub fn seal(self) -> (file: DataFile)
        ensures
            file@ == self@,
            file.file_id() == self.file_id(),
            file.read_only(),
            file.position() == self.position(),
    {
        DataFile { file: self.file, file_id: self.file_id, appending: false, cursor: self.cursor }
    }

    /// Moves the read position back to the beginning of the file.
    pub fn rewind(&mut self)
        ensures
            final(self)@ == old(self)@,
            final(self).file_id() == old(self).file_id(),
            final(self).read_only() == old(self).read_only(),
            final(self).position() == 0,
    {
        self.cursor = 0;
    }
}

} // verus!
