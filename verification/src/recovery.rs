//! Rebuilding the directory from the logs of a segment.

use crate::data_file::DATA_HEADER_SIZE;
use crate::data_file::DELETED;
use crate::data_file::DataEntry;
use crate::directory::Directory;
use crate::directory::Entry;
use crate::hint_file::HINT_HEADER_SIZE;
use crate::hint_file::HintEntry;
use crate::model::data_entry;
use crate::model::hint_entry;
use crate::model::hints_end;
use crate::model::index_record;
use crate::model::indexed;
use crate::model::readable;
use crate::model::replay_data;
use crate::model::replay_hints;
use crate::model::replay_record;
use crate::model::replayed_within;
use vstd::prelude::*;

verus! {

broadcast use vstd::slice::group_slice_axioms;

/// Whether `value_size` bytes stand at `value_pos` in `data`.
pub fn is_readable(data: &[u8], value_pos: u64, value_size: u32) -> (yes: bool)
    ensures
        yes == readable(data@, value_pos, value_size),
{
    let len = data.len() as u64;
    value_pos <= len && value_size as u64 <= len - value_pos
}

/// Whether a record whose value size field is `value_size` is a tombstone:
/// the record of a deletion.
pub fn is_tombstone(value_size: u32) -> (yes: bool)
    ensures
        yes == (value_size == DELETED),
{
    value_size == DELETED
}

/// Brings `dir` up to date with one record of `key`: the key leaves the
/// directory where the record holds a deletion, and points at the record
/// otherwise.
pub fn replay_record_into(dir: &mut Directory, key: Vec<u8>, entry: Entry, deleted: bool)
    requires
        old(dir).wf(),
    ensures
        final(dir).wf(),
        final(dir)@ == replay_record(old(dir)@, key@, entry, deleted),
{
    if deleted {
        let _ = dir.remove(key.as_slice());
    } else {
        dir.insert(key, entry);
    }
}

/// Replays the hint log `hint` of segment `file_id`, whose data log is `data`.
pub fn replay_hint_log(dir: &mut Directory, hint: &[u8], data: &[u8], file_id: u32)
    requires
        old(dir).wf(),
    ensures
        final(dir).wf(),
        final(dir)@ == replay_hints(hint@, data@, file_id, 0, old(dir)@),
        replayed_within(final(dir)@, old(dir)@, file_id, data@),
{
    let mut pos: usize = 0;
    let mut done = false;
    while !done
        invariant
            dir.wf(),
            pos <= hint@.len(),
            replay_hints(hint@, data@, file_id, 0, old(dir)@) == replay_hints(
                hint@,
                data@,
                file_id,
                pos as int,
                dir@,
            ),
            done ==> replay_hints(hint@, data@, file_id, pos as int, dir@) == dir@,
            replayed_within(dir@, old(dir)@, file_id, data@),
        decreases hint@.len() - pos + if done { 0int } else { 1int },
    {
        match HintEntry::decode(hint, pos) {
            None => {
                done = true;
            },
            Some(found) => {
                let ghost record = found@;
                assert(pos + record.size() <= hint@.len()) by {
                    assert(record.key.len() == hint@[pos + 4] as int);
                }
                let value_size = DataEntry::payload_size(found.value_size);
                if is_readable(data, found.value_pos, value_size) {
                    let entry = Entry {
                        timestamp: found.timestamp,
                        value_size,
                        value_pos: found.value_pos,
                        file_id,
                    };
                    assert(entry == hint_entry(record, file_id));
                    assert(hint.len() == hint@.len());
                    pos = pos + HINT_HEADER_SIZE + found.key.len();
                    replay_record_into(dir, found.key, entry, is_tombstone(found.value_size));
                } else {
                    done = true;
                }
            },
        }
    }
}

/// Replays the data log `data` of segment `file_id`, for a segment without a
/// hint log.
pub fn replay_data_log(dir: &mut Directory, data: &[u8], file_id: u32)
    requires
        old(dir).wf(),
    ensures
        final(dir).wf(),
        final(dir)@ == replay_data(data@, file_id, 0, old(dir)@),
        replayed_within(final(dir)@, old(dir)@, file_id, data@),
{
    let mut pos: usize = 0;
    let mut done = false;
    while !done
        invariant
            dir.wf(),
            pos <= data@.len(),
            replay_data(data@, file_id, 0, old(dir)@) == replay_data(
                data@,
                file_id,
                pos as int,
                dir@,
            ),
            done ==> replay_data(data@, file_id, pos as int, dir@) == dir@,
            replayed_within(dir@, old(dir)@, file_id, data@),
        decreases data@.len() - pos + if done { 0int } else { 1int },
    {
        match DataEntry::decode(data, pos) {
            None => {
                done = true;
            },
            Some(found) => {
                let ghost record = found@;
                assert(pos + record.size() <= data@.len()) by {
                    assert(record.key.len() == data@[pos + 6] as int);
                }
                if found.is_checked() {
                    assert(data.len() == data@.len());
                    let value_pos = pos + DATA_HEADER_SIZE + found.key.len();
                    let entry = Entry {
                        timestamp: found.timestamp,
                        value_size: DataEntry::payload_size(found.value_size),
                        value_pos: value_pos as u64,
                        file_id,
                    };
                    assert(entry == data_entry(record, pos as int, file_id));
                    pos = value_pos + found.value.len();
                    replay_record_into(dir, found.key, entry, is_tombstone(found.value_size));
                } else {
                    done = true;
                }
            },
        }
    }
}

/// Where the replay of the hint log `hint` ends, for a segment whose data
/// log is `data`.
pub fn whole_hints(hint: &[u8], data: &[u8]) -> (end: usize)
    ensures
        end == hints_end(hint@, data@, 0),
        end <= hint@.len(),
{
    let mut pos: usize = 0;
    let mut done = false;
    while !done
        invariant
            pos <= hint@.len(),
            hints_end(hint@, data@, 0) == hints_end(hint@, data@, pos as int),
            done ==> hints_end(hint@, data@, pos as int) == pos,
        decreases hint@.len() - pos + if done { 0int } else { 1int },
    {
        match HintEntry::decode(hint, pos) {
            None => {
                done = true;
            },
            Some(found) => {
                assert(pos + found@.size() <= hint@.len()) by {
                    assert(found@.key.len() == hint@[pos + 4] as int);
                }
                if is_readable(data, found.value_pos, DataEntry::payload_size(found.value_size)) {
                    assert(hint.len() == hint@.len());
                    pos = pos + HINT_HEADER_SIZE + found.key.len();
                } else {
                    done = true;
                }
            },
        }
    }
    pos
}

/// The hint log that goes with the data log `data`: a hint record for each
/// data record that a replay of the data log sees.
pub fn index_data(data: &[u8]) -> (hint: Vec<u8>)
    ensures
        hint@ == indexed(data@, 0),
{
    let mut hint: Vec<u8> = Vec::new();
    let mut pos: usize = 0;
    let mut done = false;
    assert(hint@ + indexed(data@, 0) =~= indexed(data@, 0));
    while !done
        invariant
            pos <= data@.len(),
            hint@ + indexed(data@, pos as int) == indexed(data@, 0),
            done ==> indexed(data@, pos as int) == Seq::<u8>::empty(),
        decreases data@.len() - pos + if done { 0int } else { 1int },
    {
        match DataEntry::decode(data, pos) {
            None => {
                done = true;
            },
            Some(found) => {
                assert(pos + found@.size() <= data@.len()) by {
                    assert(found@.key.len() == data@[pos + 6] as int);
                }
                if found.is_checked() {
                    assert(data.len() == data@.len());
                    let value_pos = pos + DATA_HEADER_SIZE + found.key.len();
                    let entry = HintEntry {
                        timestamp: found.timestamp,
                        key_size: found.key_size,
                        value_size: found.value_size,
                        value_pos: value_pos as u64,
                        key: found.key,
                    };
                    assert(entry@ == index_record(found@, pos as int));
                    let ghost before = hint@;
                    let bytes = entry.encode();
                    hint.extend_from_slice(bytes.as_slice());
                    pos = value_pos + found.value.len();
                    assert(hint@ + indexed(data@, pos as int) =~= before + (entry@.encoding()
                        + indexed(data@, pos as int)));
                } else {
                    done = true;
                }
            },
        }
    }
    assert(hint@ + Seq::<u8>::empty() =~= hint@);
    hint
}

} // verus!
