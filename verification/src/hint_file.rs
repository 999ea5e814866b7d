//! The hint log of one segment: for each record of the data log, the key and
//! the place of its value, without the value itself. The value size field is
//! that of the data record, with the same two tags: 0 for a deletion and
//! `0xFFFF_FFFF` for the empty value.

use crate::data_file::DELETED;
use crate::data_file::MALFORMED_ENTRY;
use crate::data_file::READ_ONLY;
use crate::data_file::payload_len;
use crate::endian::get_u32;
use crate::endian::get_u64;
use crate::endian::put_u32;
use crate::endian::put_u64;
use vstd::bytes::*;
use vstd::prelude::*;
use vstd::slice::slice_subrange;
use vstd::slice::slice_to_vec;

verus! {

broadcast use vstd::slice::group_slice_axioms;

/// Bytes of a hint record that precede its key: timestamp, key size, value
/// size and value position.
pub const HINT_HEADER_SIZE: usize = 17;

/// A hint record as a mathematical value. The key size that the encoding
/// carries is the length of `key`; the value size is the one of the data
/// record, which tells a deletion and the empty value from other values.
pub struct HintRecord {
    pub timestamp: u32,
    pub value_size: u32,
    pub value_pos: u64,
    pub key: Seq<u8>,
}

impl HintRecord {
    /// Whether the length of the key fits the size field of the header.
    pub open spec fn fits(self) -> bool {
        self.key.len() <= u8::MAX
    }

    /// Number of bytes that the record takes in a log.
    pub open spec fn size(self) -> int {
        HINT_HEADER_SIZE + self.key.len()
    }

    /// Whether the record stands for a deletion.
    pub open spec fn deleted(self) -> bool {
        self.value_size == DELETED
    }

    /// Number of bytes of the value that the record points at.
    pub open spec fn value_len(self) -> u32 {
        payload_len(self.value_size) as u32
    }

    /// The bytes of the record in a log.
    pub open spec fn encoding(self) -> Seq<u8> {
        spec_u32_to_le_bytes(self.timestamp) + seq![self.key.len() as u8] + spec_u32_to_le_bytes(
            self.value_size,
        ) + spec_u64_to_le_bytes(self.value_pos) + self.key
    }
}

/// The record that starts at `pos` in `log`, if a whole one stands there.
pub open spec fn hint_record_at(log: Seq<u8>, pos: int) -> Option<HintRecord> {
    if 0 <= pos && pos + HINT_HEADER_SIZE <= log.len() {
        let key_size = log[pos + 4] as int;
        if pos + HINT_HEADER_SIZE + key_size <= log.len() {
            Some(
                HintRecord {
                    timestamp: spec_u32_from_le_bytes(log.subrange(pos, pos + 4)),
                    value_size: spec_u32_from_le_bytes(log.subrange(pos + 5, pos + 9)),
                    value_pos: spec_u64_from_le_bytes(log.subrange(pos + 9, pos + 17)),
                    key: log.subrange(pos + 17, pos + 17 + key_size),
                },
            )
        } else {
            None
        }
    } else {
        None
    }
}

/// A record that was written at the end of `log` is the record found there,
/// whatever follows it.
pub proof fn lemma_hint_record_at_encoding(log: Seq<u8>, r: HintRecord, rest: Seq<u8>)
    requires
        r.fits(),
    ensures
        hint_record_at(log + r.encoding() + rest, log.len() as int) == Some(r),
        r.encoding().len() == r.size(),
{
    lemma_auto_spec_u32_to_from_le_bytes();
    lemma_auto_spec_u64_to_from_le_bytes();
    let pos = log.len() as int;
    let all = log + r.encoding() + rest;
    let enc = r.encoding();
    assert(enc.len() == r.size());
    assert forall|i: int| 0 <= i < enc.len() implies all[pos + i] == enc[i] by {}
    assert(all.subrange(pos, pos + 4) =~= spec_u32_to_le_bytes(r.timestamp));
    assert(all[pos + 4] == enc[4]);
    assert(enc[4] == r.key.len() as u8);
    assert(all.subrange(pos + 5, pos + 9) =~= spec_u32_to_le_bytes(r.value_size));
    assert(all.subrange(pos + 9, pos + 17) =~= spec_u64_to_le_bytes(r.value_pos));
    let key_size = r.key.len() as int;
    assert(all.subrange(pos + 17, pos + 17 + key_size) =~= r.key);
}

/// A record found in a log is found, unchanged, in every part of the log
/// from the beginning that holds the whole record.
pub proof fn lemma_hint_record_at_prefix(log: Seq<u8>, pos: int, len: int)
    requires
        hint_record_at(log, pos) is Some,
        pos + hint_record_at(log, pos).unwrap().size() <= len <= log.len(),
    ensures
        hint_record_at(log.take(len), pos) == hint_record_at(log, pos),
{
    let part = log.take(len);
    let key_size = log[pos + 4] as int;
    assert(hint_record_at(log, pos).unwrap().key.len() == key_size);
    assert(part[pos + 4] == log[pos + 4]);
    assert(part.subrange(pos, pos + 4) =~= log.subrange(pos, pos + 4));
    assert(part.subrange(pos + 5, pos + 9) =~= log.subrange(pos + 5, pos + 9));
    assert(part.subrange(pos + 9, pos + 17) =~= log.subrange(pos + 9, pos + 17));
    assert(part.subrange(pos + 17, pos + 17 + key_size) =~= log.subrange(
        pos + 17,
        pos + 17 + key_size,
    ));
}

/// A record found in a log is still found, unchanged, after the log has grown.
pub proof fn lemma_hint_record_at_grows(log: Seq<u8>, pos: int, more: Seq<u8>)
    requires
        hint_record_at(log, pos) is Some,
    ensures
        hint_record_at(log + more, pos) == hint_record_at(log, pos),
{
    let all = log + more;
    let key_size = log[pos + 4] as int;
    assert(all[pos + 4] == log[pos + 4]);
    assert(all.subrange(pos, pos + 4) =~= log.subrange(pos, pos + 4));
    assert(all.subrange(pos + 5, pos + 9) =~= log.subrange(pos + 5, pos + 9));
    assert(all.subrange(pos + 9, pos + 17) =~= log.subrange(pos + 9, pos + 17));
    assert(all.subrange(pos + 17, pos + 17 + key_size) =~= log.subrange(
        pos + 17,
        pos + 17 + key_size,
    ));
}

/// One record of a hint log.
#[derive(Debug)]
pub struct HintEntry {
    pub timestamp: u32,
    pub key_size: u8,
    pub value_size: u32,
    pub value_pos: u64,
    pub key: Vec<u8>,
}

impl View for HintEntry {
    type V = HintRecord;

    open spec fn view(&self) -> HintRecord {
        HintRecord {
            timestamp: self.timestamp,
            value_size: self.value_size,
            value_pos: self.value_pos,
            key: self.key@,
        }
    }
}

impl HintEntry {
    /// The size field says how long the key is.
    pub open spec fn well_formed(&self) -> bool {
        self.key@.len() == self.key_size
    }

    /// Tests the size field against the key.
    pub fn is_well_formed(&self) -> (ok: bool)
        ensures
            ok == self.well_formed(),
    {
        self.key.len() == self.key_size as usize
    }

    /// The bytes of the entry as they stand in a log.
    pub fn encode(&self) -> (out: Vec<u8>)
        requires
            self.well_formed(),
        ensures
            out@ == self@.encoding(),
    {
        let mut out: Vec<u8> = Vec::new();
        put_u32(&mut out, self.timestamp);
        out.push(self.key_size);
        put_u32(&mut out, self.value_size);
        put_u64(&mut out, self.value_pos);
        out.extend_from_slice(self.key.as_slice());
        assert(out@ =~= self@.encoding());
        out
    }

    /// Reads the entry that starts at `pos` in `log`; `None` where the log
    /// ends before the entry does.
    pub fn decode(log: &[u8], pos: usize) -> (out: Option<HintEntry>)
        ensures
            match out {
                Some(entry) => entry.well_formed() && hint_record_at(log@, pos as int) == Some(
                    entry@,
                ),
                None => hint_record_at(log@, pos as int) is None,
            },
    {
        let len = log.len();
        if len < HINT_HEADER_SIZE || pos > len - HINT_HEADER_SIZE {
            return None;
        }
        let timestamp = get_u32(log, pos);
        let key_size = log[pos + 4];
        let value_size = get_u32(log, pos + 5);
        let value_pos = get_u64(log, pos + 9);
        let left = len - HINT_HEADER_SIZE - pos;
        if key_size as usize > left {
            return None;
        }
        let key_start = pos + HINT_HEADER_SIZE;
        let key = slice_to_vec(slice_subrange(log, key_start, key_start + key_size as usize));
        Some(HintEntry { timestamp, key_size, value_size, value_pos, key })
    }
}

/// The hint log of one segment, held as the bytes of its file.
///
/// A file is either read-only or open for appending. Records are read in
/// order through a position that starts at the beginning of the file.
#[derive(Debug)]
pub struct HintFile {
    file: Vec<u8>,
    file_id: u32,
    appending: bool,
    cursor: usize,
}

impl View for HintFile {
    type V = Seq<u8>;

    /// The bytes of the file.
    closed spec fn view(&self) -> Seq<u8> {
        self.file@
    }
}

impl HintFile {
    /// The segment that the file belongs to.
    pub closed spec fn spec_file_id(&self) -> u32 {
        self.file_id
    }

    /// Whether the file refuses writes.
    pub closed spec fn read_only(&self) -> bool {
        !self.appending
    }

    /// Offset of the record that `next` reads.
    pub closed spec fn position(&self) -> int {
        self.cursor as int
    }

    /// A file of segment `file_id` that holds `contents`. It is read-only
    /// where `write_offset` is `None` and open for appending otherwise; appends
    /// go to the end of the file, whatever offset was given.
    pub fn new(contents: Vec<u8>, file_id: u32, write_offset: Option<u64>) -> (file: HintFile)
        ensures
            file@ == contents@,
            file.file_id() == file_id,
            file.read_only() == (write_offset is None),
            file.position() == 0,
    {
        HintFile { file: contents, file_id, appending: write_offset.is_some(), cursor: 0 }
    }

    /// The segment that the file belongs to.
    #[verifier::when_used_as_spec(spec_file_id)]
    pub fn file_id(&self) -> (id: u32)
        ensures
            id == self.file_id(),
    {
        self.file_id
    }

    /// Whether the file refuses writes.
    pub fn is_readonly(&self) -> (ro: bool)
        ensures
            ro == self.read_only(),
    {
        !self.appending
    }

    /// The offset at which the next record will be written: the end of the
    /// file, or `None` for a read-only file.
    pub fn write_offset(&self) -> (offset: Option<u64>)
        ensures
            offset == if self.read_only() {
                None
            } else {
                Some(self@.len() as u64)
            },
    {
        if self.appending {
            Some(self.file.len() as u64)
        } else {
            None
        }
    }

    /// Number of bytes in the file.
    pub fn len(&self) -> (n: u64)
        ensures
            n == self@.len(),
    {
        self.file.len() as u64
    }

    /// The bytes of the file.
    pub fn contents(&self) -> (bytes: &Vec<u8>)
        ensures
            bytes@ == self@,
    {
        &self.file
    }

    /// Appends `hint_entry`. Fails, and leaves the file as it was, where the
    /// file is read-only or the size field of the entry disagrees with its
    /// key.
    pub fn write(&mut self, hint_entry: &HintEntry) -> (r: Result<(), String>)
        ensures
            final(self).file_id() == old(self).file_id(),
            final(self).read_only() == old(self).read_only(),
            final(self).position() == old(self).position(),
            match r {
                Ok(_) => {
                    &&& !old(self).read_only()
                    &&& hint_entry.well_formed()
                    &&& final(self)@ == old(self)@ + hint_entry@.encoding()
                },
                Err(e) => {
                    &&& final(self)@ == old(self)@
                    &&& if old(self).read_only() {
                        e@ == READ_ONLY@
                    } else {
                        !hint_entry.well_formed() && e@ == MALFORMED_ENTRY@
                    }
                },
            },
    {
        if !self.appending {
            return Err(READ_ONLY.to_owned());
        }
        if !hint_entry.is_well_formed() {
            return Err(MALFORMED_ENTRY.to_owned());
        }
        self.append(hint_entry);
        Ok(())
    }

    /// Appends `hint_entry` to a file that is open for appending.
    pub fn append(&mut self, hint_entry: &HintEntry)
        requires
            !old(self).read_only(),
            hint_entry.well_formed(),
        ensures
            final(self).file_id() == old(self).file_id(),
            !final(self).read_only(),
            final(self).position() == old(self).position(),
            final(self)@ == old(self)@ + hint_entry@.encoding(),
    {
        put_u32(&mut self.file, hint_entry.timestamp);
        self.file.push(hint_entry.key_size);
        put_u32(&mut self.file, hint_entry.value_size);
        put_u64(&mut self.file, hint_entry.value_pos);
        self.file.extend_from_slice(hint_entry.key.as_slice());
        proof {
            assert(self.file@ =~= old(self).file@ + hint_entry@.encoding());
        }
    }

    /// Reads the record at the current position and moves past it. At the end
    /// of the file, or where the file ends inside a record, returns `None` and
    /// stays where it is.
    pub fn next(&mut self) -> (out: Option<HintEntry>)
        ensures
            final(self)@ == old(self)@,
            final(self).file_id() == old(self).file_id(),
            final(self).read_only() == old(self).read_only(),
            match out {
                Some(entry) => {
                    &&& entry.well_formed()
                    &&& hint_record_at(old(self)@, old(self).position()) == Some(entry@)
                    &&& final(self).position() == old(self).position() + entry@.size()
                },
                None => {
                    &&& hint_record_at(old(self)@, old(self).position()) is None
                    &&& final(self).position() == old(self).position()
                },
            },
    {
        let out = HintEntry::decode(self.file.as_slice(), self.cursor);
        if let Some(entry) = &out {
            assert(self.cursor + entry@.size() <= self.file.len()) by {
                let found = hint_record_at(self.file@, self.cursor as int).unwrap();
                assert(found.key.len() == self.file@[self.cursor + 4] as int);
            }
            self.cursor = self.cursor + HINT_HEADER_SIZE + entry.key.len();
        }
        out
    }

    /// Gives up the file for its bytes.
    pub fn into_contents(self) -> (bytes: Vec<u8>)
        ensures
            bytes@ == self@,
    {
        self.file
    }

    /// The same file, closed for writing.
    pub fn seal(self) -> (file: HintFile)
        ensures
            file@ == self@,
            file.file_id() == self.file_id(),
            file.read_only(),
            file.position() == self.position(),
    {
        HintFile { file: self.file, file_id: self.file_id, appending: false, cursor: self.cursor }
    }

    /// Moves the read position back to the beginning of the file.
    pub fn rewind(&mut self)
        ensures
            final(self)@ == old(self)@,
            final(self).file_id() == old(self).file_id(),
            final(self).read_only() == old(self).read_only(),
            final(self).position() == 0,
    {
        self.cursor = 0;
    }
}

} // verus!
