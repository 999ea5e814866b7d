//! Proofs about the model of the segments: what appending a record, starting
//! a segment and losing a tail do to what a restart rebuilds.

use crate::data_file::DataRecord;
use crate::data_file::data_record_at;
use crate::data_file::lemma_data_record_at_encoding;
use crate::data_file::lemma_data_record_at_grows;
use crate::data_file::lemma_data_record_at_torn;
use crate::directory::Entry;
use crate::hint_file::HintRecord;
use crate::hint_file::hint_record_at;
use crate::hint_file::lemma_hint_record_at_encoding;
use crate::hint_file::lemma_hint_record_at_grows;
use crate::hint_file::lemma_hint_record_at_prefix;
use crate::model::SegmentImage;
use crate::model::State;
use crate::model::acceptable;
use crate::model::all_in_step;
use crate::model::appended;
use crate::model::ascending;
use crate::model::contents;
use crate::model::data_entry;
use crate::model::data_of;
use crate::model::data_whole;
use crate::model::entry_readable;
use crate::model::has_segment;
use crate::model::hint_entry;
use crate::model::hint_of;
use crate::model::hints_end;
use crate::model::hints_whole;
use crate::model::in_step;
use crate::model::index_record;
use crate::model::indexed;
use crate::model::next_value_pos;
use crate::model::opened;
use crate::model::readable;
use crate::model::record_count;
use crate::model::recovered;
use crate::model::replay_all;
use crate::model::replay_data;
use crate::model::replay_hints;
use crate::model::replay_record;
use crate::model::rolled;
use crate::model::rolls_over;
use crate::model::value_at;
use crate::model::without_hints;
use crate::model::written;
use crate::model::written_entry;
use crate::model::written_hint;
use vstd::prelude::*;

verus! {

/// A segment is held exactly where one of the positions has its id.
pub proof fn lemma_has_segment(segs: Seq<SegmentImage>, file_id: u32)
    ensures
        has_segment(segs, file_id) <==> exists|i: int|
            0 <= i < segs.len() && #[trigger] segs[i].file_id == file_id,
    decreases segs.len(),
{
    if segs.len() > 0 {
        let front = segs.drop_last();
        lemma_has_segment(front, file_id);
        if has_segment(segs, file_id) {
            if segs.last().file_id == file_id {
                assert(segs[segs.len() - 1].file_id == file_id);
            } else {
                let i = choose|i: int| 0 <= i < front.len() && #[trigger] front[i].file_id == file_id;
                assert(segs[i].file_id == file_id);
            }
        }
        if exists|i: int| 0 <= i < segs.len() && #[trigger] segs[i].file_id == file_id {
            let i = choose|i: int| 0 <= i < segs.len() && #[trigger] segs[i].file_id == file_id;
            if i < segs.len() - 1 {
                assert(front[i].file_id == file_id);
            }
        }
    }
}

/// With ascending ids, the data log of a segment is the one at its position.
pub proof fn lemma_data_of_index(segs: Seq<SegmentImage>, i: int)
    requires
        ascending(segs),
        0 <= i < segs.len(),
    ensures
        has_segment(segs, segs[i].file_id),
        data_of(segs, segs[i].file_id) == segs[i].data,
    decreases segs.len(),
{
    if i < segs.len() - 1 {
        let front = segs.drop_last();
        assert(front[i] == segs[i]);
        assert(segs[i].file_id < segs[segs.len() - 1].file_id);
        lemma_data_of_index(front, i);
    }
}

/// Appending a record changes neither the number of segments nor their ids.
pub proof fn lemma_appended_shape(
    segs: Seq<SegmentImage>,
    timestamp: u32,
    key: Seq<u8>,
    value: Seq<u8>,
    deleted: bool,
)
    requires
        segs.len() > 0,
    ensures
        appended(segs, timestamp, key, value, deleted).len() == segs.len(),
        appended(segs, timestamp, key, value, deleted).last().hint is Some,
        forall|i: int|
            0 <= i < segs.len() ==> (#[trigger] appended(segs, timestamp, key, value, deleted)[i]).file_id
                == segs[i].file_id,
        ascending(segs) ==> ascending(appended(segs, timestamp, key, value, deleted)),
{
    let app = appended(segs, timestamp, key, value, deleted);
    assert forall|i: int| 0 <= i < segs.len() implies (#[trigger] app[i]).file_id
        == segs[i].file_id by {
        if i < segs.len() - 1 {
            assert(app[i] == segs.drop_last()[i]);
        }
    }
}

/// Appending a record changes no value that could be read before it.
pub proof fn lemma_appended_keeps(
    segs: Seq<SegmentImage>,
    timestamp: u32,
    key: Seq<u8>,
    value: Seq<u8>,
    deleted: bool,
    entry: Entry,
)
    requires
        segs.len() > 0,
        entry_readable(segs, entry),
    ensures
        entry_readable(appended(segs, timestamp, key, value, deleted), entry),
        value_at(data_of(appended(segs, timestamp, key, value, deleted), entry.file_id), entry)
            == value_at(data_of(segs, entry.file_id), entry),
{
    let app = appended(segs, timestamp, key, value, deleted);
    let id = entry.file_id;
    assert(app.drop_last() =~= segs.drop_last());
    assert(has_segment(app, id) == has_segment(segs, id));
    let grown = segs.last().data + DataRecord::compose(timestamp, key, value, deleted).encoding();
    assert(app.last().data == grown);
    if segs.last().file_id == id {
        assert(data_of(app, id) == grown);
        assert(value_at(grown, entry) =~= value_at(segs.last().data, entry));
    } else {
        assert(data_of(app, id) == data_of(segs, id));
    }
}

/// A further segment with a larger id changes no data log that was there
/// before.
pub proof fn lemma_pushed_keeps(segs: Seq<SegmentImage>, next: SegmentImage, file_id: u32)
    requires
        ascending(segs.push(next)),
        has_segment(segs, file_id),
    ensures
        has_segment(segs.push(next), file_id),
        data_of(segs.push(next), file_id) == data_of(segs, file_id),
{
    let out = segs.push(next);
    lemma_has_segment(segs, file_id);
    let i = choose|i: int| 0 <= i < segs.len() && #[trigger] segs[i].file_id == file_id;
    assert(out[i].file_id < out[segs.len() as int].file_id);
    assert(out.drop_last() =~= segs);
    assert(out.last().file_id != file_id);
}

/// Starting a new segment changes no data log that was there before.
pub proof fn lemma_rolled_keeps(segs: Seq<SegmentImage>, limit: u64, value_pos: int, file_id: u32)
    requires
        segs.len() > 0,
        ascending(segs),
        has_segment(segs, file_id),
    ensures
        has_segment(rolled(segs, limit, value_pos), file_id),
        data_of(rolled(segs, limit, value_pos), file_id) == data_of(segs, file_id),
        rolled(segs, limit, value_pos).len() > 0,
        ascending(rolled(segs, limit, value_pos)),
{
    if rolls_over(segs, limit, value_pos) {
        let next = SegmentImage {
            file_id: (segs.last().file_id + 1) as u32,
            data: Seq::empty(),
            hint: Some(Seq::empty()),
        };
        lemma_pushed_keeps(segs, next, file_id);
    }
}

/// Which data logs there are depends on the ids and the data logs alone.
pub proof fn lemma_same_data(a: Seq<SegmentImage>, b: Seq<SegmentImage>, file_id: u32)
    requires
        a.len() == b.len(),
        forall|i: int|
            0 <= i < a.len() ==> (#[trigger] a[i]).file_id == b[i].file_id && a[i].data
                == b[i].data,
    ensures
        has_segment(a, file_id) == has_segment(b, file_id),
        data_of(a, file_id) == data_of(b, file_id),
    decreases a.len(),
{
    if a.len() > 0 {
        assert(a.last().file_id == b.last().file_id && a.last().data == b.last().data) by {
            assert(a[a.len() - 1].file_id == b[a.len() - 1].file_id);
        }
        assert forall|i: int| 0 <= i < a.drop_last().len() implies (#[trigger] a.drop_last()[i]).file_id
            == b.drop_last()[i].file_id && a.drop_last()[i].data == b.drop_last()[i].data by {
            assert(a[i].file_id == b[i].file_id);
        }
        lemma_same_data(a.drop_last(), b.drop_last(), file_id);
    }
}

/// A write leaves the ids ascending and the last segment with a hint log.
pub proof fn lemma_written_shape(
    segs: Seq<SegmentImage>,
    limit: u64,
    timestamp: u32,
    key: Seq<u8>,
    value: Seq<u8>,
    deleted: bool,
)
    requires
        segs.len() > 0,
        ascending(segs),
    ensures
        written(segs, limit, timestamp, key, value, deleted).len() > 0,
        ascending(written(segs, limit, timestamp, key, value, deleted)),
        written(segs, limit, timestamp, key, value, deleted).last().hint is Some,
        written(segs, limit, timestamp, key, value, deleted).len() >= segs.len(),
        forall|i: int|
            0 <= i < segs.len() ==> (#[trigger] written(
                segs,
                limit,
                timestamp,
                key,
                value, deleted,
            )[i]).file_id == segs[i].file_id,
{
    let app = appended(segs, timestamp, key, value, deleted);
    lemma_appended_shape(segs, timestamp, key, value, deleted);
    let out = written(segs, limit, timestamp, key, value, deleted);
    assert forall|i: int| 0 <= i < segs.len() implies (#[trigger] out[i]).file_id
        == segs[i].file_id by {
        assert(out[i] == app[i]);
    }
}

/// A write changes no value that could be read before it.
pub proof fn lemma_written_keeps(
    segs: Seq<SegmentImage>,
    limit: u64,
    timestamp: u32,
    key: Seq<u8>,
    value: Seq<u8>,
    deleted: bool,
    entry: Entry,
)
    requires
        segs.len() > 0,
        ascending(segs),
        entry_readable(segs, entry),
    ensures
        entry_readable(written(segs, limit, timestamp, key, value, deleted), entry),
        value_at(data_of(written(segs, limit, timestamp, key, value, deleted), entry.file_id), entry)
            == value_at(data_of(segs, entry.file_id), entry),
{
    lemma_appended_shape(segs, timestamp, key, value, deleted);
    lemma_appended_keeps(segs, timestamp, key, value, deleted, entry);
    lemma_rolled_keeps(
        appended(segs, timestamp, key, value, deleted),
        limit,
        next_value_pos(segs, key),
        entry.file_id,
    );
}

/// The value that a record holds which was appended is the one that its
/// directory entry points at.
pub proof fn lemma_appended_entry(
    segs: Seq<SegmentImage>,
    timestamp: u32,
    key: Seq<u8>,
    value: Seq<u8>,
)
    requires
        segs.len() > 0,
        acceptable(key, value),
        next_value_pos(segs, key) + value.len() <= u64::MAX,
    ensures
        entry_readable(
            appended(segs, timestamp, key, value, false),
            written_entry(segs, timestamp, key, value),
        ),
        value_at(
            data_of(appended(segs, timestamp, key, value, false), segs.last().file_id),
            written_entry(segs, timestamp, key, value),
        ) == value,
        value_at(
            appended(segs, timestamp, key, value, false).last().data,
            written_entry(segs, timestamp, key, value),
        ) == value,
{
    let app = appended(segs, timestamp, key, value, false);
    let entry = written_entry(segs, timestamp, key, value);
    let record = DataRecord::compose(timestamp, key, value, false);
    let grown = segs.last().data + record.encoding();
    lemma_data_record_at_encoding(segs.last().data, record, Seq::empty());
    assert(grown + Seq::<u8>::empty() =~= grown);
    assert(app.last().data == grown);
    assert(data_of(app, entry.file_id) == grown);
    assert(has_segment(app, entry.file_id));
    assert(value_at(grown, entry) =~= value) by {
        assert(data_record_at(grown, segs.last().data.len() as int) == Some(record));
    }
}

/// The value that a write appends is the one that its directory entry points
/// at.
pub proof fn lemma_written_entry(
    segs: Seq<SegmentImage>,
    limit: u64,
    timestamp: u32,
    key: Seq<u8>,
    value: Seq<u8>,
)
    requires
        segs.len() > 0,
        ascending(segs),
        acceptable(key, value),
        next_value_pos(segs, key) + value.len() <= u64::MAX,
    ensures
        entry_readable(
            written(segs, limit, timestamp, key, value, false),
            written_entry(segs, timestamp, key, value),
        ),
        value_at(
            data_of(written(segs, limit, timestamp, key, value, false), segs.last().file_id),
            written_entry(segs, timestamp, key, value),
        ) == value,
{
    lemma_appended_entry(segs, timestamp, key, value);
    lemma_appended_shape(segs, timestamp, key, value, false);
    lemma_rolled_keeps(
        appended(segs, timestamp, key, value, false),
        limit,
        next_value_pos(segs, key),
        segs.last().file_id,
    );
}

/// Replaying a whole hint log that has grown by one record is replaying the
/// log as it was and then the record. Bytes added to the data log do not
/// matter to the records that were there.
pub proof fn lemma_replay_hints_appended(
    hint: Seq<u8>,
    data: Seq<u8>,
    file_id: u32,
    pos: int,
    dir: Map<Seq<u8>, Entry>,
    record: HintRecord,
    more: Seq<u8>,
)
    requires
        0 <= pos <= hint.len(),
        hints_whole(hint, data, pos),
        record.fits(),
        readable(data + more, record.value_pos, record.value_len()),
    ensures
        replay_hints(hint + record.encoding(), data + more, file_id, pos, dir) == replay_record(
            replay_hints(hint, data, file_id, pos, dir),
            record.key,
            hint_entry(record, file_id),
            record.deleted(),
        ),
        hints_whole(hint + record.encoding(), data + more, pos),
    decreases hint.len() - pos,
{
    let grown = hint + record.encoding();
    if pos == hint.len() {
        lemma_hint_record_at_encoding(hint, record, Seq::empty());
        assert(grown + Seq::<u8>::empty() =~= grown);
        let end = pos + record.size();
        assert(end == grown.len());
        assert(hint_record_at(grown, end) is None);
        assert(hint_record_at(hint, pos) is None);
        let next = replay_record(dir, record.key, hint_entry(record, file_id), record.deleted());
        assert(replay_hints(grown, data + more, file_id, end, next) == next);
        assert(hints_whole(grown, data + more, end));
    } else {
        let found = hint_record_at(hint, pos).unwrap();
        lemma_hint_record_at_grows(hint, pos, record.encoding());
        assert(found.key.len() == hint[pos + 4] as int);
        let entry = hint_entry(found, file_id);
        assert(value_at(data + more, entry) =~= value_at(data, entry));
        lemma_replay_hints_appended(
            hint,
            data,
            file_id,
            pos + found.size(),
            replay_record(dir, found.key, entry, found.deleted()),
            record,
            more,
        );
    }
}

/// What a restart rebuilds after a record has been appended: where the logs
/// of the last segment were whole, the directory that it rebuilt before, with
/// the key taken out where the record is a deletion, and pointed at the new
/// record otherwise.
pub proof fn lemma_appended_recovered(
    segs: Seq<SegmentImage>,
    timestamp: u32,
    key: Seq<u8>,
    value: Seq<u8>,
    deleted: bool,
)
    requires
        segs.len() > 0,
        segs.last().hint is Some,
        hints_whole(hint_of(segs.last()), segs.last().data, 0),
        acceptable(key, value),
        deleted ==> value.len() == 0,
        next_value_pos(segs, key) + value.len() <= u64::MAX,
    ensures
        recovered(appended(segs, timestamp, key, value, deleted)) == if deleted {
            recovered(segs).remove(key)
        } else {
            recovered(segs).insert(key, written_entry(segs, timestamp, key, value))
        },
        hints_whole(
            hint_of(appended(segs, timestamp, key, value, deleted).last()),
            appended(segs, timestamp, key, value, deleted).last().data,
            0,
        ),
{
    let app = appended(segs, timestamp, key, value, deleted);
    let last = segs.last();
    let base = replay_all(segs.drop_last(), Map::empty());
    let record = written_hint(segs, timestamp, key, value, deleted);
    let more = DataRecord::compose(timestamp, key, value, deleted).encoding();
    let entry = written_entry(segs, timestamp, key, value);
    DataRecord::compose(timestamp, key, value, deleted).lemma_size();
    assert(app.drop_last() =~= segs.drop_last());
    assert(app.last().hint == Some(hint_of(last) + record.encoding()));
    lemma_replay_hints_appended(hint_of(last), last.data, last.file_id, 0, base, record, more);
    lemma_appended_entry(segs, timestamp, key, value);
    assert(record.deleted() == deleted);
    assert(record.value_len() == value.len());
    assert(!deleted ==> hint_entry(record, last.file_id) == entry);
    assert(recovered(segs) == replay_hints(hint_of(last), last.data, last.file_id, 0, base));
    assert(recovered(app) == replay_record(recovered(segs), key, entry, deleted));
}

/// What a restart rebuilds after a write: what it rebuilds after the record
/// has been appended, whether or not the write starts a new segment.
pub proof fn lemma_written_recovered(
    segs: Seq<SegmentImage>,
    limit: u64,
    timestamp: u32,
    key: Seq<u8>,
    value: Seq<u8>,
    deleted: bool,
)
    requires
        segs.len() > 0,
        segs.last().hint is Some,
        hints_whole(hint_of(segs.last()), segs.last().data, 0),
        acceptable(key, value),
        deleted ==> value.len() == 0,
        next_value_pos(segs, key) + value.len() <= u64::MAX,
    ensures
        recovered(written(segs, limit, timestamp, key, value, deleted)) == if deleted {
            recovered(segs).remove(key)
        } else {
            recovered(segs).insert(key, written_entry(segs, timestamp, key, value))
        },
        hints_whole(
            hint_of(written(segs, limit, timestamp, key, value, deleted).last()),
            written(segs, limit, timestamp, key, value, deleted).last().data,
            0,
        ),
{
    let app = appended(segs, timestamp, key, value, deleted);
    let out = written(segs, limit, timestamp, key, value, deleted);
    lemma_appended_recovered(segs, timestamp, key, value, deleted);
    if rolls_over(app, limit, next_value_pos(segs, key)) {
        assert(out.drop_last() =~= app);
        let empty = Seq::<u8>::empty();
        assert(hint_record_at(empty, 0) is None);
        assert(recovered(out) == recovered(app));
        assert(hints_whole(empty, empty, 0));
    }
}

/// Replaying a whole hint log that has grown by a record which points past
/// the end of the data log is replaying the log as it was: the record is not
/// seen.
pub proof fn lemma_replay_hints_torn(
    hint: Seq<u8>,
    data: Seq<u8>,
    file_id: u32,
    pos: int,
    dir: Map<Seq<u8>, Entry>,
    record: HintRecord,
    more: Seq<u8>,
)
    requires
        0 <= pos <= hint.len(),
        hints_whole(hint, data, pos),
        record.fits(),
        !readable(data + more, record.value_pos, record.value_len()),
    ensures
        replay_hints(hint + record.encoding(), data + more, file_id, pos, dir) == replay_hints(
            hint,
            data,
            file_id,
            pos,
            dir,
        ),
    decreases hint.len() - pos,
{
    let grown = hint + record.encoding();
    if pos == hint.len() {
        lemma_hint_record_at_encoding(hint, record, Seq::empty());
        assert(grown + Seq::<u8>::empty() =~= grown);
        assert(hint_record_at(hint, pos) is None);
    } else {
        let found = hint_record_at(hint, pos).unwrap();
        lemma_hint_record_at_grows(hint, pos, record.encoding());
        assert(found.key.len() == hint[pos + 4] as int);
        let entry = hint_entry(found, file_id);
        assert(value_at(data + more, entry) =~= value_at(data, entry));
        lemma_replay_hints_torn(
            hint,
            data,
            file_id,
            pos + found.size(),
            replay_record(dir, found.key, entry, found.deleted()),
            record,
            more,
        );
    }
}

/// Replaying a whole data log that has grown by one record is replaying the
/// log as it was and then the record.
pub proof fn lemma_replay_data_appended(
    data: Seq<u8>,
    file_id: u32,
    pos: int,
    dir: Map<Seq<u8>, Entry>,
    record: DataRecord,
)
    requires
        0 <= pos <= data.len(),
        data_whole(data, pos),
        record.fits(),
        record.checked(),
        data.len() + record.size() <= u64::MAX,
    ensures
        replay_data(data + record.encoding(), file_id, pos, dir) == replay_record(
            replay_data(data, file_id, pos, dir),
            record.key,
            data_entry(record, data.len() as int, file_id),
            record.deleted,
        ),
        data_whole(data + record.encoding(), pos),
    decreases data.len() - pos,
{
    let grown = data + record.encoding();
    if pos == data.len() {
        lemma_data_record_at_encoding(data, record, Seq::empty());
        assert(grown + Seq::<u8>::empty() =~= grown);
        let end = pos + record.size();
        assert(end == grown.len());
        assert(data_record_at(grown, end) is None);
        assert(data_record_at(data, pos) is None);
        let next = replay_record(dir, record.key, data_entry(record, pos, file_id), record.deleted);
        assert(replay_data(grown, file_id, end, next) == next);
        assert(data_whole(grown, end));
    } else {
        let found = data_record_at(data, pos).unwrap();
        lemma_data_record_at_grows(data, pos, record.encoding());
        assert(found.key.len() == data[pos + 6] as int);
        let entry = data_entry(found, pos, file_id);
        assert(value_at(grown, entry) =~= value_at(data, entry));
        lemma_replay_data_appended(
            data,
            file_id,
            pos + found.size(),
            replay_record(dir, found.key, entry, found.deleted),
            record,
        );
    }
}

/// A segment that was just started is in step.
pub proof fn lemma_empty_in_step(file_id: u32)
    ensures
        in_step(SegmentImage { file_id, data: Seq::empty(), hint: Some(Seq::empty()) }),
{
    let empty = Seq::<u8>::empty();
    assert(hint_record_at(empty, 0) is None);
    assert(data_record_at(empty, 0) is None);
}

/// Appending a record keeps the logs of every segment in step.
pub proof fn lemma_appended_in_step(
    segs: Seq<SegmentImage>,
    timestamp: u32,
    key: Seq<u8>,
    value: Seq<u8>,
    deleted: bool,
)
    requires
        segs.len() > 0,
        all_in_step(segs),
        acceptable(key, value),
        deleted ==> value.len() == 0,
        next_value_pos(segs, key) + value.len() <= u64::MAX,
    ensures
        all_in_step(appended(segs, timestamp, key, value, deleted)),
{
    let app = appended(segs, timestamp, key, value, deleted);
    let last = segs.last();
    assert(in_step(last)) by {
        assert(segs[segs.len() - 1] == last);
    }
    let record = DataRecord::compose(timestamp, key, value, deleted);
    let hint = written_hint(segs, timestamp, key, value, deleted);
    let more = record.encoding();
    record.lemma_size();
    assert(hint.deleted() == deleted);
    assert(hint.value_len() == value.len());
    assert(readable(last.data + more, hint.value_pos, hint.value_len()));
    assert(hint_entry(hint, last.file_id) == data_entry(
        record,
        last.data.len() as int,
        last.file_id,
    ));
    assert forall|dir: Map<Seq<u8>, Entry>|
        replay_hints(hint_of(last) + hint.encoding(), last.data + more, last.file_id, 0, dir)
            == #[trigger] replay_data(last.data + more, last.file_id, 0, dir) by {
        lemma_replay_hints_appended(hint_of(last), last.data, last.file_id, 0, dir, hint, more);
        lemma_replay_data_appended(last.data, last.file_id, 0, dir, record);
        assert(replay_hints(hint_of(last), last.data, last.file_id, 0, dir) == replay_data(
            last.data,
            last.file_id,
            0,
            dir,
        ));
    }
    lemma_replay_hints_appended(
        hint_of(last),
        last.data,
        last.file_id,
        0,
        Map::empty(),
        hint,
        more,
    );
    lemma_replay_data_appended(last.data, last.file_id, 0, Map::empty(), record);
    assert(in_step(app.last()));
    assert forall|i: int| 0 <= i < app.len() implies in_step(#[trigger] app[i]) by {
        if i < app.len() - 1 {
            assert(app[i] == segs[i]);
        }
    }
}

/// A write keeps the logs of every segment in step.
pub proof fn lemma_written_in_step(
    segs: Seq<SegmentImage>,
    limit: u64,
    timestamp: u32,
    key: Seq<u8>,
    value: Seq<u8>,
    deleted: bool,
)
    requires
        segs.len() > 0,
        all_in_step(segs),
        acceptable(key, value),
        deleted ==> value.len() == 0,
        next_value_pos(segs, key) + value.len() <= u64::MAX,
    ensures
        all_in_step(written(segs, limit, timestamp, key, value, deleted)),
{
    let app = appended(segs, timestamp, key, value, deleted);
    let out = written(segs, limit, timestamp, key, value, deleted);
    lemma_appended_in_step(segs, timestamp, key, value, deleted);
    if rolls_over(app, limit, next_value_pos(segs, key)) {
        lemma_empty_in_step((app.last().file_id + 1) as u32);
        assert forall|i: int| 0 <= i < out.len() implies in_step(#[trigger] out[i]) by {
            if i < app.len() {
                assert(out[i] == app[i]);
            }
        }
    }
}

/// Where the logs of every segment are in step, the data logs alone rebuild
/// what the segments rebuild.
pub proof fn lemma_without_hints(segs: Seq<SegmentImage>, dir: Map<Seq<u8>, Entry>)
    requires
        all_in_step(segs),
    ensures
        replay_all(without_hints(segs), dir) == replay_all(segs, dir),
    decreases segs.len(),
{
    if segs.len() > 0 {
        let front = segs.drop_last();
        assert forall|i: int| 0 <= i < front.len() implies in_step(#[trigger] front[i]) by {
            assert(front[i] == segs[i]);
        }
        lemma_without_hints(front, dir);
        assert(without_hints(segs).drop_last() =~= without_hints(front));
        assert(in_step(segs[segs.len() - 1]));
        let base = replay_all(front, dir);
        assert(replay_hints(
            hint_of(segs.last()),
            segs.last().data,
            segs.last().file_id,
            0,
            base,
        ) == replay_data(segs.last().data, segs.last().file_id, 0, base));
    }
}

/// Appending a record and pointing the key at it leaves a store, and changes
/// what it holds at the key alone: the key then has the value.
pub proof fn lemma_append(state: State, timestamp: u32, key: Seq<u8>, value: Seq<u8>)
    requires
        state.valid(),
        state.admits(key, value),
    ensures
        state.append(timestamp, key, value).valid(),
        state.append(timestamp, key, value).contents() == state.contents().insert(key, value),
{
    let after = state.append(timestamp, key, value);
    lemma_appended_shape(state.segs, timestamp, key, value, false);
    lemma_appended_entry(state.segs, timestamp, key, value);
    assert forall|k: Seq<u8>| #[trigger] after.dir.contains_key(k) implies entry_readable(
        after.segs,
        after.dir[k],
    ) && after.contents()[k] == state.contents().insert(key, value)[k] by {
        if k != key {
            lemma_appended_keeps(state.segs, timestamp, key, value, false, state.dir[k]);
        }
    }
    assert(after.contents() =~= state.contents().insert(key, value));
}

/// A put leaves a store, and changes what it holds at the key alone: the key
/// then has the value.
pub proof fn lemma_put(
    state: State,
    limit: u64,
    timestamp: u32,
    key: Seq<u8>,
    value: Seq<u8>,
)
    requires
        state.valid(),
        state.admits(key, value),
    ensures
        state.put(limit, timestamp, key, value).valid(),
        state.put(limit, timestamp, key, value).contents() == state.contents().insert(key, value),
{
    let after = state.put(limit, timestamp, key, value);
    lemma_written_shape(state.segs, limit, timestamp, key, value, false);
    lemma_written_entry(state.segs, limit, timestamp, key, value);
    assert forall|k: Seq<u8>| #[trigger] after.dir.contains_key(k) implies entry_readable(
        after.segs,
        after.dir[k],
    ) && after.contents()[k] == state.contents().insert(key, value)[k] by {
        if k != key {
            lemma_written_keeps(state.segs, limit, timestamp, key, value, false, state.dir[k]);
        }
    }
    assert(after.contents() =~= state.contents().insert(key, value));
}

/// A delete leaves a store, and changes what it holds at the key alone: the
/// key is then gone.
pub proof fn lemma_delete(state: State, limit: u64, timestamp: u32, key: Seq<u8>)
    requires
        state.valid(),
    ensures
        state.delete(limit, timestamp, key).valid(),
        state.delete(limit, timestamp, key).contents() == state.contents().remove(key),
{
    let after = state.delete(limit, timestamp, key);
    lemma_written_shape(state.segs, limit, timestamp, key, Seq::empty(), true);
    assert forall|k: Seq<u8>| #[trigger] after.dir.contains_key(k) implies entry_readable(
        after.segs,
        after.dir[k],
    ) && after.contents()[k] == state.contents().remove(key)[k] by {
        lemma_written_keeps(state.segs, limit, timestamp, key, Seq::empty(), true, state.dir[k]);
    }
    assert(after.contents() =~= state.contents().remove(key));
}

/// A whole data log that grows by one record holds one record more.
pub proof fn lemma_record_count_appended(data: Seq<u8>, pos: int, record: DataRecord)
    requires
        0 <= pos <= data.len(),
        data_whole(data, pos),
        record.fits(),
    ensures
        record_count(data + record.encoding(), pos) == record_count(data, pos) + 1,
    decreases data.len() - pos,
{
    let grown = data + record.encoding();
    if pos == data.len() {
        lemma_data_record_at_encoding(data, record, Seq::empty());
        assert(grown + Seq::<u8>::empty() =~= grown);
        let end = pos + record.size();
        assert(end == grown.len());
        assert(data_record_at(grown, end) is None);
        assert(data_record_at(data, pos) is None);
        assert(record_count(grown, end) == 0);
    } else {
        let found = data_record_at(data, pos).unwrap();
        lemma_data_record_at_grows(data, pos, record.encoding());
        assert(found.key.len() == data[pos + 6] as int);
        lemma_record_count_appended(data, pos + found.size(), record);
    }
}

/// Replaying a whole data log that has grown by a part of a record is
/// replaying the log as it was: the part is not seen.
pub proof fn lemma_replay_data_torn(
    data: Seq<u8>,
    file_id: u32,
    pos: int,
    dir: Map<Seq<u8>, Entry>,
    record: DataRecord,
    cut: int,
)
    requires
        0 <= pos <= data.len(),
        data_whole(data, pos),
        record.fits(),
        0 <= cut < record.size(),
        data.len() + cut <= u64::MAX,
    ensures
        replay_data(data + record.encoding().take(cut), file_id, pos, dir) == replay_data(
            data,
            file_id,
            pos,
            dir,
        ),
    decreases data.len() - pos,
{
    let more = record.encoding().take(cut);
    if pos == data.len() {
        lemma_data_record_at_torn(data, record, cut);
        assert(data_record_at(data, pos) is None);
    } else {
        let found = data_record_at(data, pos).unwrap();
        lemma_data_record_at_grows(data, pos, more);
        assert(found.key.len() == data[pos + 6] as int);
        let entry = data_entry(found, pos, file_id);
        assert(value_at(data + more, entry) =~= value_at(data, entry));
        lemma_replay_data_torn(
            data,
            file_id,
            pos + found.size(),
            replay_record(dir, found.key, entry, found.deleted),
            record,
            cut,
        );
    }
}

/// A whole hint log is replayed to its end.
pub proof fn lemma_hints_end_whole(hint: Seq<u8>, data: Seq<u8>, pos: int)
    requires
        0 <= pos <= hint.len(),
        hints_whole(hint, data, pos),
    ensures
        hints_end(hint, data, pos) == hint.len(),
    decreases hint.len() - pos,
{
    if pos < hint.len() {
        let found = hint_record_at(hint, pos).unwrap();
        assert(found.key.len() == hint[pos + 4] as int);
        lemma_hints_end_whole(hint, data, pos + found.size());
    } else {
        assert(hint_record_at(hint, pos) is None);
    }
}

/// The part of a hint log up to the end of its replay is whole, and is
/// replayed to what the whole log is replayed to.
pub proof fn lemma_hints_end(
    hint: Seq<u8>,
    data: Seq<u8>,
    file_id: u32,
    pos: int,
    dir: Map<Seq<u8>, Entry>,
)
    requires
        0 <= pos <= hint.len(),
    ensures
        pos <= hints_end(hint, data, pos) <= hint.len(),
        replay_hints(hint.take(hints_end(hint, data, pos)), data, file_id, pos, dir)
            == replay_hints(hint, data, file_id, pos, dir),
        hints_whole(hint.take(hints_end(hint, data, pos)), data, pos),
    decreases hint.len() - pos,
{
    let end = hints_end(hint, data, pos);
    let seen = match hint_record_at(hint, pos) {
        Some(r) => readable(data, r.value_pos, r.value_len()),
        None => false,
    };
    if seen {
        let found = hint_record_at(hint, pos).unwrap();
        assert(found.key.len() == hint[pos + 4] as int);
        lemma_hints_end(
            hint,
            data,
            file_id,
            pos + found.size(),
            replay_record(dir, found.key, hint_entry(found, file_id), found.deleted()),
        );
        lemma_hint_record_at_prefix(hint, pos, end);
    } else {
        assert(end == pos);
        assert(hint_record_at(hint.take(pos), pos) is None);
    }
}

/// The hint log that goes with a data log is whole, and is replayed to what
/// the data log is replayed to, whatever stands before it in the hint log.
pub proof fn lemma_indexed(
    before: Seq<u8>,
    data: Seq<u8>,
    file_id: u32,
    pos: int,
    dir: Map<Seq<u8>, Entry>,
)
    requires
        0 <= pos <= data.len() <= u64::MAX,
    ensures
        replay_hints(before + indexed(data, pos), data, file_id, before.len() as int, dir)
            == replay_data(data, file_id, pos, dir),
        hints_whole(before + indexed(data, pos), data, before.len() as int),
    decreases data.len() - pos,
{
    let seen = match data_record_at(data, pos) {
        Some(r) => r.checked(),
        None => false,
    };
    let hint = before + indexed(data, pos);
    if seen {
        let found = data_record_at(data, pos).unwrap();
        assert(found.key.len() == data[pos + 6] as int);
        let record = index_record(found, pos);
        let rest = indexed(data, pos + found.size());
        lemma_hint_record_at_encoding(before, record, rest);
        assert(hint =~= before + record.encoding() + rest);
        assert(hint_entry(record, file_id) == data_entry(found, pos, file_id));
        assert(readable(data, record.value_pos, record.value_len()));
        lemma_indexed(
            before + record.encoding(),
            data,
            file_id,
            pos + found.size(),
            replay_record(dir, found.key, data_entry(found, pos, file_id), found.deleted),
        );
        assert((before + record.encoding()) + rest =~= hint);
    } else {
        assert(hint =~= before);
        assert(hint_record_at(before, before.len() as int) is None);
    }
}

/// Opening the last segment for appending changes nothing that a restart
/// rebuilds, and leaves the hint log of that segment whole.
pub proof fn lemma_opened(segs: Seq<SegmentImage>)
    requires
        forall|i: int| 0 <= i < segs.len() ==> (#[trigger] segs[i]).data.len() <= u64::MAX,
    ensures
        recovered(opened(segs)) == recovered(segs),
        opened(segs).len() > 0,
        hints_whole(hint_of(opened(segs).last()), opened(segs).last().data, 0),
{
    let out = opened(segs);
    if segs.len() == 0 {
        assert(out.drop_last() =~= Seq::<SegmentImage>::empty());
        assert(replay_all(out.drop_last(), Map::empty()) == Map::<Seq<u8>, Entry>::empty());
        assert(hint_record_at(Seq::<u8>::empty(), 0) is None);
    } else {
        let last = segs.last();
        let base = replay_all(segs.drop_last(), Map::empty());
        assert(out.drop_last() =~= segs.drop_last());
        assert(segs[segs.len() - 1] == last);
        match last.hint {
            Some(hint) => {
                lemma_hints_end(hint, last.data, last.file_id, 0, base);
            },
            None => {
                lemma_indexed(Seq::empty(), last.data, last.file_id, 0, base);
                assert(Seq::<u8>::empty() + indexed(last.data, 0) =~= indexed(last.data, 0));
            },
        }
    }
}

} // verus!
