//! What a set of segment files means: the directory that replaying them
//! rebuilds, the value that a directory entry stands for, and what a write
//! does to both.

use crate::checksum::crc16;
use crate::data_file::DATA_HEADER_SIZE;
use crate::data_file::DataRecord;
use crate::data_file::EMPTY_VALUE;
use crate::data_file::data_record_at;
use crate::data_file::size_field;
use crate::directory::Entry;
use crate::hint_file::HintRecord;
use crate::hint_file::hint_record_at;
use vstd::prelude::*;

verus! {

/// The files of one segment as mathematical values: the bytes of the data
/// log (empty where there is no such file) and those of the hint log, if
/// there is one.
pub struct SegmentImage {
    pub file_id: u32,
    pub data: Seq<u8>,
    pub hint: Option<Seq<u8>>,
}

/// Whether `value_size` bytes stand at `value_pos` in `data`.
pub open spec fn readable(data: Seq<u8>, value_pos: u64, value_size: u32) -> bool {
    value_pos + value_size <= data.len()
}

/// The bytes that `entry` points at in `data`.
pub open spec fn value_at(data: Seq<u8>, entry: Entry) -> Seq<u8> {
    data.subrange(entry.value_pos as int, entry.value_pos + entry.value_size)
}

/// The directory after one more record: the key is taken out where the
/// record holds a deletion, and points at the record otherwise, whatever it
/// pointed at before.
pub open spec fn replay_record(
    dir: Map<Seq<u8>, Entry>,
    key: Seq<u8>,
    entry: Entry,
    deleted: bool,
) -> Map<Seq<u8>, Entry> {
    if deleted {
        dir.remove(key)
    } else {
        dir.insert(key, entry)
    }
}

/// The directory entry that a hint record of segment `file_id` describes.
pub open spec fn hint_entry(r: HintRecord, file_id: u32) -> Entry {
    Entry {
        timestamp: r.timestamp,
        value_size: r.value_len(),
        value_pos: r.value_pos,
        file_id,
    }
}

/// The directory entry of the data record that starts at `pos` in the data
/// log of segment `file_id`.
pub open spec fn data_entry(r: DataRecord, pos: int, file_id: u32) -> Entry {
    Entry {
        timestamp: r.timestamp,
        value_size: r.value.len() as u32,
        value_pos: (pos + DATA_HEADER_SIZE + r.key.len()) as u64,
        file_id,
    }
}

/// The directory after the hint records from `pos` on, in file order. The
/// replay ends at the end of the log, where the log ends inside a record, and
/// at the first record that points outside `data`.
pub open spec fn replay_hints(
    hint: Seq<u8>,
    data: Seq<u8>,
    file_id: u32,
    pos: int,
    dir: Map<Seq<u8>, Entry>,
) -> Map<Seq<u8>, Entry>
    decreases hint.len() - pos,
{
    match hint_record_at(hint, pos) {
        Some(r) => if readable(data, r.value_pos, r.value_len()) {
            replay_hints(
                hint,
                data,
                file_id,
                pos + r.size(),
                replay_record(dir, r.key, hint_entry(r, file_id), r.deleted()),
            )
        } else {
            dir
        },
        None => dir,
    }
}

/// The directory after the data records from `pos` on, in file order. The
/// replay ends at the end of the log, where the log ends inside a record, and
/// at the first record whose check value is not that of its contents.
pub open spec fn replay_data(
    data: Seq<u8>,
    file_id: u32,
    pos: int,
    dir: Map<Seq<u8>, Entry>,
) -> Map<Seq<u8>, Entry>
    decreases data.len() - pos,
{
    match data_record_at(data, pos) {
        Some(r) => if r.crc == crc16(r.body()) {
            replay_data(
                data,
                file_id,
                pos + r.size(),
                replay_record(dir, r.key, data_entry(r, pos, file_id), r.deleted),
            )
        } else {
            dir
        },
        None => dir,
    }
}

/// The directory after one segment: its hint log is replayed where it has
/// one, its data log otherwise.
pub open spec fn replay_segment(seg: SegmentImage, dir: Map<Seq<u8>, Entry>) -> Map<
    Seq<u8>,
    Entry,
> {
    match seg.hint {
        Some(hint) => replay_hints(hint, seg.data, seg.file_id, 0, dir),
        None => replay_data(seg.data, seg.file_id, 0, dir),
    }
}

/// The directory after all of `segs`, first to last.
pub open spec fn replay_all(segs: Seq<SegmentImage>, dir: Map<Seq<u8>, Entry>) -> Map<
    Seq<u8>,
    Entry,
>
    decreases segs.len(),
{
    if segs.len() == 0 {
        dir
    } else {
        replay_segment(segs.last(), replay_all(segs.drop_last(), dir))
    }
}

/// The directory that a restart rebuilds from `segs`.
pub open spec fn recovered(segs: Seq<SegmentImage>) -> Map<Seq<u8>, Entry> {
    replay_all(segs, Map::empty())
}

/// Whether the hint log is whole from `pos` on: it ends with a record, and
/// every record points inside `data`.
pub open spec fn hints_whole(hint: Seq<u8>, data: Seq<u8>, pos: int) -> bool
    decreases hint.len() - pos,
{
    if pos == hint.len() {
        true
    } else {
        match hint_record_at(hint, pos) {
            Some(r) => readable(data, r.value_pos, r.value_len()) && hints_whole(
                hint,
                data,
                pos + r.size(),
            ),
            None => false,
        }
    }
}

/// Whether the segment ids grow from first to last.
pub open spec fn ascending(segs: Seq<SegmentImage>) -> bool {
    forall|i: int, j: int| 0 <= i < j < segs.len() ==> segs[i].file_id < segs[j].file_id
}

/// Whether `segs` holds a segment `file_id`.
pub open spec fn has_segment(segs: Seq<SegmentImage>, file_id: u32) -> bool
    decreases segs.len(),
{
    if segs.len() == 0 {
        false
    } else {
        segs.last().file_id == file_id || has_segment(segs.drop_last(), file_id)
    }
}

/// The data log of segment `file_id`; empty where `segs` holds no such
/// segment.
pub open spec fn data_of(segs: Seq<SegmentImage>, file_id: u32) -> Seq<u8>
    decreases segs.len(),
{
    if segs.len() == 0 {
        Seq::empty()
    } else if segs.last().file_id == file_id {
        segs.last().data
    } else {
        data_of(segs.drop_last(), file_id)
    }
}

/// The hint log of segment `file_id`; `None` where `segs` holds no such
/// segment, or the segment has no hint log.
pub open spec fn hint_log_of(segs: Seq<SegmentImage>, file_id: u32) -> Option<Seq<u8>>
    decreases segs.len(),
{
    if segs.len() == 0 {
        None
    } else if segs.last().file_id == file_id {
        segs.last().hint
    } else {
        hint_log_of(segs.drop_last(), file_id)
    }
}

/// Whether the value that `entry` points at can be read from `segs`.
pub open spec fn entry_readable(segs: Seq<SegmentImage>, entry: Entry) -> bool {
    has_segment(segs, entry.file_id) && readable(
        data_of(segs, entry.file_id),
        entry.value_pos,
        entry.value_size,
    )
}

/// Whether every key of `dir`, and the value size of its entry, fits a
/// record.
pub open spec fn keys_fit(dir: Map<Seq<u8>, Entry>) -> bool {
    forall|k: Seq<u8>| #[trigger]
        dir.contains_key(k) ==> k.len() <= u8::MAX && dir[k].value_size < EMPTY_VALUE
}

/// Whether every entry of `dir` can be read from `segs`.
pub open spec fn all_readable(dir: Map<Seq<u8>, Entry>, segs: Seq<SegmentImage>) -> bool {
    forall|k: Seq<u8>| #[trigger] dir.contains_key(k) ==> entry_readable(segs, dir[k])
}

/// What the store holds: for each key of `dir`, the bytes that its entry
/// points at.
pub open spec fn contents(dir: Map<Seq<u8>, Entry>, segs: Seq<SegmentImage>) -> Map<
    Seq<u8>,
    Seq<u8>,
> {
    Map::new(
        |k: Seq<u8>| dir.contains_key(k),
        |k: Seq<u8>| value_at(data_of(segs, dir[k].file_id), dir[k]),
    )
}

/// Whether a key and a value fit a record: the key in 255 bytes, the value in
/// 2^32 - 2.
pub open spec fn acceptable(key: Seq<u8>, value: Seq<u8>) -> bool {
    key.len() <= u8::MAX && value.len() < EMPTY_VALUE
}

/// The hint log of a segment; empty where it has none.
pub open spec fn hint_of(seg: SegmentImage) -> Seq<u8> {
    match seg.hint {
        Some(hint) => hint,
        None => Seq::empty(),
    }
}

/// The offset that a value gets which is written next with `key`: behind
/// the data log of the last segment, the record header and the key.
pub open spec fn next_value_pos(segs: Seq<SegmentImage>, key: Seq<u8>) -> int {
    segs.last().data.len() + DATA_HEADER_SIZE + key.len()
}

/// The directory entry of a value that is written next.
pub open spec fn written_entry(
    segs: Seq<SegmentImage>,
    timestamp: u32,
    key: Seq<u8>,
    value: Seq<u8>,
) -> Entry {
    Entry {
        timestamp,
        value_size: value.len() as u32,
        value_pos: next_value_pos(segs, key) as u64,
        file_id: segs.last().file_id,
    }
}

/// The hint record that goes with a record that is written next: a put of
/// `value`, or a deletion.
pub open spec fn written_hint(
    segs: Seq<SegmentImage>,
    timestamp: u32,
    key: Seq<u8>,
    value: Seq<u8>,
    deleted: bool,
) -> HintRecord {
    HintRecord {
        timestamp,
        value_size: size_field(value, deleted),
        value_pos: next_value_pos(segs, key) as u64,
        key,
    }
}

/// The segments after a record of `key` has been appended to the last one, a
/// put of `value` or a deletion: its data log grows by the data record, its
/// hint log by the hint record.
pub open spec fn appended(
    segs: Seq<SegmentImage>,
    timestamp: u32,
    key: Seq<u8>,
    value: Seq<u8>,
    deleted: bool,
) -> Seq<SegmentImage> {
    let last = segs.last();
    segs.drop_last().push(
        SegmentImage {
            file_id: last.file_id,
            data: last.data + DataRecord::compose(timestamp, key, value, deleted).encoding(),
            hint: Some(
                hint_of(last) + written_hint(segs, timestamp, key, value, deleted).encoding(),
            ),
        },
    )
}

/// Whether a write whose value went to `value_pos` seals the last segment:
/// the offset has reached `limit`, and there is a segment id left.
pub open spec fn rolls_over(segs: Seq<SegmentImage>, limit: u64, value_pos: int) -> bool {
    value_pos >= limit && segs.last().file_id < u32::MAX
}

/// The segments after the size check that follows a write: a new, empty last
/// segment with the next id where the write rolls over, `segs` otherwise.
pub open spec fn rolled(segs: Seq<SegmentImage>, limit: u64, value_pos: int) -> Seq<SegmentImage> {
    if rolls_over(segs, limit, value_pos) {
        segs.push(
            SegmentImage {
                file_id: (segs.last().file_id + 1) as u32,
                data: Seq::empty(),
                hint: Some(Seq::empty()),
            },
        )
    } else {
        segs
    }
}

/// The segments after a write of `key`: a put of `value`, or a deletion.
pub open spec fn written(
    segs: Seq<SegmentImage>,
    limit: u64,
    timestamp: u32,
    key: Seq<u8>,
    value: Seq<u8>,
    deleted: bool,
) -> Seq<SegmentImage> {
    rolled(appended(segs, timestamp, key, value, deleted), limit, next_value_pos(segs, key))
}

/// A store as a mathematical value: the directory and the segments.
pub struct State {
    pub dir: Map<Seq<u8>, Entry>,
    pub segs: Seq<SegmentImage>,
}

impl State {
    /// What every store is: it has a last segment, the ids ascend, and every
    /// directory entry points at bytes that are there.
    pub open spec fn valid(self) -> bool {
        &&& self.segs.len() > 0
        &&& ascending(self.segs)
        &&& all_readable(self.dir, self.segs)
    }

    /// Whether a restart would rebuild the directory as it is.
    pub open spec fn durable(self) -> bool {
        &&& recovered(self.segs) == self.dir
        &&& self.segs.last().hint is Some
        &&& hints_whole(hint_of(self.segs.last()), self.segs.last().data, 0)
    }

    /// What the store holds.
    pub open spec fn contents(self) -> Map<Seq<u8>, Seq<u8>> {
        contents(self.dir, self.segs)
    }

    /// Whether a record of `key` and `value` can be written: they fit a
    /// record, and the offsets of the record fit in 64 bits.
    pub open spec fn admits(self, key: Seq<u8>, value: Seq<u8>) -> bool {
        acceptable(key, value) && next_value_pos(self.segs, key) + value.len() <= u64::MAX
    }

    /// The store after a record of `key` and `value` has been appended and
    /// the key pointed at it, before the size check that may start a new
    /// segment.
    pub open spec fn append(self, timestamp: u32, key: Seq<u8>, value: Seq<u8>) -> State {
        State {
            dir: self.dir.insert(key, written_entry(self.segs, timestamp, key, value)),
            segs: appended(self.segs, timestamp, key, value, false),
        }
    }

    /// The store after `value` has been put under `key`.
    pub open spec fn put(self, limit: u64, timestamp: u32, key: Seq<u8>, value: Seq<u8>) -> State {
        State {
            dir: self.dir.insert(key, written_entry(self.segs, timestamp, key, value)),
            segs: written(self.segs, limit, timestamp, key, value, false),
        }
    }

    /// The store after `key` has been deleted.
    pub open spec fn delete(self, limit: u64, timestamp: u32, key: Seq<u8>) -> State {
        State {
            dir: self.dir.remove(key),
            segs: written(self.segs, limit, timestamp, key, Seq::empty(), true),
        }
    }
}

/// Where the replay of the hint log from `pos` on ends: at the end of the
/// log, where the log ends inside a record, or at the first record that
/// points outside `data`.
pub open spec fn hints_end(hint: Seq<u8>, data: Seq<u8>, pos: int) -> int
    decreases hint.len() - pos,
{
    match hint_record_at(hint, pos) {
        Some(r) => if readable(data, r.value_pos, r.value_len()) {
            hints_end(hint, data, pos + r.size())
        } else {
            pos
        },
        None => pos,
    }
}

/// The hint record that goes with the data record which starts at `pos`.
pub open spec fn index_record(r: DataRecord, pos: int) -> HintRecord {
    HintRecord {
        timestamp: r.timestamp,
        value_size: size_field(r.value, r.deleted),
        value_pos: (pos + DATA_HEADER_SIZE + r.key.len()) as u64,
        key: r.key,
    }
}

/// The hint log that goes with the data log from `pos` on: a hint record for
/// each data record that a replay of the data log sees.
pub open spec fn indexed(data: Seq<u8>, pos: int) -> Seq<u8>
    decreases data.len() - pos,
{
    match data_record_at(data, pos) {
        Some(r) => if r.checked() {
            index_record(r, pos).encoding() + indexed(data, pos + r.size())
        } else {
            Seq::empty()
        },
        None => Seq::empty(),
    }
}

/// The hint log of a segment that is opened for appending: the hint log that
/// the segment has, without what follows the end of its replay, which is
/// discarded; or, where the segment has none, the hint log that goes with its
/// data log.
pub open spec fn opened_hint(seg: SegmentImage) -> Seq<u8> {
    match seg.hint {
        Some(hint) => hint.take(hints_end(hint, seg.data, 0)),
        None => indexed(seg.data, 0),
    }
}

/// The segments as a restart leaves them: the last one is opened for
/// appending, with the hint log that `opened_hint` gives, and a store without
/// segments starts segment 0.
pub open spec fn opened(segs: Seq<SegmentImage>) -> Seq<SegmentImage> {
    if segs.len() == 0 {
        seq![SegmentImage { file_id: 0, data: Seq::empty(), hint: Some(Seq::empty()) }]
    } else {
        segs.drop_last().push(
            SegmentImage {
                file_id: segs.last().file_id,
                data: segs.last().data,
                hint: Some(opened_hint(segs.last())),
            },
        )
    }
}

/// Every entry of `dir` is one of `before`, or points at bytes of `data` in
/// segment `file_id`, with a key and a value size that fit a record.
pub open spec fn replayed_within(
    dir: Map<Seq<u8>, Entry>,
    before: Map<Seq<u8>, Entry>,
    file_id: u32,
    data: Seq<u8>,
) -> bool {
    forall|k: Seq<u8>| #[trigger]
        dir.contains_key(k) ==> (before.contains_key(k) && before[k] == dir[k]) || (dir[k].file_id
            == file_id && readable(data, dir[k].value_pos, dir[k].value_size) && k.len()
            <= u8::MAX && dir[k].value_size < EMPTY_VALUE)
}

/// Whether the data log is whole from `pos` on: it ends with a record, and
/// every record carries the check value of its contents.
pub open spec fn data_whole(data: Seq<u8>, pos: int) -> bool
    decreases data.len() - pos,
{
    if pos == data.len() {
        true
    } else {
        match data_record_at(data, pos) {
            Some(r) => r.checked() && data_whole(data, pos + r.size()),
            None => false,
        }
    }
}

/// Number of whole records in the data log from `pos` on.
pub open spec fn record_count(data: Seq<u8>, pos: int) -> nat
    decreases data.len() - pos,
{
    match data_record_at(data, pos) {
        Some(r) => 1 + record_count(data, pos + r.size()),
        None => 0,
    }
}

/// Whether the two logs of a segment are in step: both are whole, and
/// replaying the hint log does to any directory what replaying the data log
/// does to it.
pub open spec fn in_step(seg: SegmentImage) -> bool {
    &&& seg.hint is Some
    &&& hints_whole(hint_of(seg), seg.data, 0)
    &&& data_whole(seg.data, 0)
    &&& forall|dir: Map<Seq<u8>, Entry>|
        replay_hints(hint_of(seg), seg.data, seg.file_id, 0, dir) == #[trigger] replay_data(
            seg.data,
            seg.file_id,
            0,
            dir,
        )
}

/// Whether the logs of every segment are in step.
pub open spec fn all_in_step(segs: Seq<SegmentImage>) -> bool {
    forall|i: int| 0 <= i < segs.len() ==> in_step(#[trigger] segs[i])
}

/// The segments without their hint logs.
pub open spec fn without_hints(segs: Seq<SegmentImage>) -> Seq<SegmentImage> {
    Seq::new(
        segs.len(),
        |i: int| SegmentImage { file_id: segs[i].file_id, data: segs[i].data, hint: None },
    )
}

} // verus!
