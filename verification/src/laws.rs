//! What holds of every store, stated over the model of its segments and its
//! directory.

use crate::data_file::DataRecord;
use crate::data_file::data_record_at;
use crate::data_file::lemma_data_record_at_encoding;
use crate::directory::Entry;
use crate::hint_file::lemma_hint_record_at_encoding;
use crate::lemmas::lemma_appended_shape;
use crate::lemmas::lemma_delete;
use crate::lemmas::lemma_put;
use crate::lemmas::lemma_replay_data_torn;
use crate::lemmas::lemma_replay_hints_torn;
use crate::lemmas::lemma_same_data;
use crate::lemmas::lemma_without_hints;
use crate::lemmas::lemma_written_in_step;
use crate::lemmas::lemma_written_recovered;
use crate::lemmas::lemma_written_shape;
use crate::model::SegmentImage;
use crate::model::State;
use crate::model::acceptable;
use crate::model::all_in_step;
use crate::model::all_readable;
use crate::model::appended;
use crate::model::ascending;
use crate::model::contents;
use crate::model::data_of;
use crate::model::data_whole;
use crate::model::entry_readable;
use crate::model::hint_of;
use crate::model::next_value_pos;
use crate::model::opened;
use crate::model::recovered;
use crate::model::replay_all;
use crate::model::replay_data;
use crate::model::rolls_over;
use crate::model::value_at;
use crate::model::without_hints;
use crate::model::written;
use crate::model::written_entry;
use crate::model::written_hint;
use vstd::prelude::*;

verus! {

/// A change to a store.
pub enum Op {
    Put { timestamp: u32, key: Seq<u8>, value: Seq<u8> },
    Delete { timestamp: u32, key: Seq<u8> },
}

impl State {
    /// The store after `op`.
    pub open spec fn apply(self, limit: u64, op: Op) -> State {
        match op {
            Op::Put { timestamp, key, value } => self.put(limit, timestamp, key, value),
            Op::Delete { timestamp, key } => self.delete(limit, timestamp, key),
        }
    }

    /// The store after `ops`, first to last.
    pub open spec fn run(self, limit: u64, ops: Seq<Op>) -> State
        decreases ops.len(),
    {
        if ops.len() == 0 {
            self
        } else {
            self.run(limit, ops.drop_last()).apply(limit, ops.last())
        }
    }

    /// Whether each of `ops` can be carried out in its turn.
    pub open spec fn admits_all(self, limit: u64, ops: Seq<Op>) -> bool
        decreases ops.len(),
    {
        if ops.len() == 0 {
            true
        } else {
            self.admits_all(limit, ops.drop_last()) && match ops.last() {
                Op::Put { key, value, .. } => self.run(limit, ops.drop_last()).admits(key, value),
                Op::Delete { key, .. } => self.run(limit, ops.drop_last()).admits(
                    key,
                    Seq::empty(),
                ),
            }
        }
    }
}

/// What a store holds after one change that does what it says: a put sets
/// the value of its key, a delete takes its key out.
pub open spec fn settle(store: Map<Seq<u8>, Seq<u8>>, op: Op) -> Map<Seq<u8>, Seq<u8>> {
    match op {
        Op::Put { key, value, .. } => store.insert(key, value),
        Op::Delete { key, .. } => store.remove(key),
    }
}

/// What a store holds after `ops`, if the last write to each key wins.
pub open spec fn last_writer_wins(store: Map<Seq<u8>, Seq<u8>>, ops: Seq<Op>) -> Map<
    Seq<u8>,
    Seq<u8>,
>
    decreases ops.len(),
{
    if ops.len() == 0 {
        store
    } else {
        settle(last_writer_wins(store, ops.drop_last()), ops.last())
    }
}

/// Round trip: after a put, the store holds the value under the key,
/// whatever bytes the value is made of: zero bytes, high bits, four zero
/// bytes, none at all.
pub proof fn law_round_trip(
    state: State,
    limit: u64,
    timestamp: u32,
    key: Seq<u8>,
    value: Seq<u8>,
)
    requires
        state.valid(),
        state.admits(key, value),
    ensures
        state.put(limit, timestamp, key, value).contents().contains_key(key),
        state.put(limit, timestamp, key, value).contents()[key] == value,
{
    lemma_put(state, limit, timestamp, key, value);
}

/// Overwrite: after two puts to one key the store holds the second value, and
/// the directory points at the second record: into the segment that was last
/// when it was written, behind everything that the first put left there.
pub proof fn law_overwrite(
    state: State,
    limit: u64,
    first_time: u32,
    second_time: u32,
    key: Seq<u8>,
    first: Seq<u8>,
    second: Seq<u8>,
)
    requires
        state.valid(),
        state.admits(key, first),
        state.put(limit, first_time, key, first).admits(key, second),
    ensures
        ({
            let once = state.put(limit, first_time, key, first);
            let twice = once.put(limit, second_time, key, second);
            &&& twice.contents()[key] == second
            &&& twice.contents() == state.contents().insert(key, second)
            &&& twice.dir[key] == written_entry(once.segs, second_time, key, second)
            &&& twice.dir[key].file_id == once.segs.last().file_id
            &&& twice.dir[key].value_pos == next_value_pos(once.segs, key)
            &&& once.segs.last().file_id == state.segs.last().file_id
                ==> twice.dir[key].value_pos > once.dir[key].value_pos
        }),
{
    let once = state.put(limit, first_time, key, first);
    let twice = once.put(limit, second_time, key, second);
    lemma_put(state, limit, first_time, key, first);
    lemma_put(once, limit, second_time, key, second);
    assert(twice.contents() =~= state.contents().insert(key, second));
    if once.segs.last().file_id == state.segs.last().file_id {
        let app = appended(state.segs, first_time, key, first, false);
        lemma_appended_shape(state.segs, first_time, key, first, false);
        DataRecord::compose(first_time, key, first, false).lemma_size();
        if rolls_over(app, limit, next_value_pos(state.segs, key)) {
            assert(once.segs.last().file_id == app.last().file_id + 1);
            assert(app[app.len() - 1].file_id == state.segs[app.len() - 1].file_id);
        }
        assert(once.segs == app);
    }
}

/// Delete: after a put and a delete of one key the store holds nothing under
/// it, and a further put brings the key back with the value of that put.
pub proof fn law_delete(
    state: State,
    limit: u64,
    put_time: u32,
    delete_time: u32,
    again_time: u32,
    key: Seq<u8>,
    value: Seq<u8>,
    again: Seq<u8>,
)
    requires
        state.valid(),
        state.admits(key, value),
        state.put(limit, put_time, key, value).delete(limit, delete_time, key).admits(key, again),
    ensures
        ({
            let gone = state.put(limit, put_time, key, value).delete(limit, delete_time, key);
            let back = gone.put(limit, again_time, key, again);
            &&& !gone.contents().contains_key(key)
            &&& gone.contents() == state.contents().remove(key)
            &&& back.contents().contains_key(key)
            &&& back.contents()[key] == again
        }),
{
    let there = state.put(limit, put_time, key, value);
    let gone = there.delete(limit, delete_time, key);
    lemma_put(state, limit, put_time, key, value);
    lemma_delete(there, limit, delete_time, key);
    lemma_put(gone, limit, again_time, key, again);
    assert(gone.contents() =~= state.contents().remove(key));
}

/// Idempotent delete: the delete of a key that the store does not hold
/// leaves the store holding what it held, and nothing under the key.
pub proof fn law_delete_absent(state: State, limit: u64, timestamp: u32, key: Seq<u8>)
    requires
        state.valid(),
        !state.contents().contains_key(key),
    ensures
        state.delete(limit, timestamp, key).valid(),
        !state.delete(limit, timestamp, key).contents().contains_key(key),
        state.delete(limit, timestamp, key).contents() == state.contents(),
{
    lemma_delete(state, limit, timestamp, key);
    assert(state.contents().remove(key) =~= state.contents());
}

/// One change keeps a store durable.
pub proof fn lemma_apply_durable(state: State, limit: u64, op: Op)
    requires
        state.valid(),
        state.durable(),
        match op {
            Op::Put { key, value, .. } => state.admits(key, value),
            Op::Delete { key, .. } => state.admits(key, Seq::empty()),
        },
    ensures
        state.apply(limit, op).valid(),
        state.apply(limit, op).durable(),
        state.apply(limit, op).contents() == settle(state.contents(), op),
{
    match op {
        Op::Put { timestamp, key, value } => {
            lemma_put(state, limit, timestamp, key, value);
            lemma_written_recovered(state.segs, limit, timestamp, key, value, false);
            lemma_written_shape(state.segs, limit, timestamp, key, value, false);
        },
        Op::Delete { timestamp, key } => {
            lemma_delete(state, limit, timestamp, key);
            lemma_written_recovered(state.segs, limit, timestamp, key, Seq::empty(), true);
            lemma_written_shape(state.segs, limit, timestamp, key, Seq::empty(), true);
        },
    }
}

/// Durability across restart: whatever puts and deletes a durable store
/// goes through, in whatever order, a restart rebuilds its directory from
/// the segments as it is, and what the store then holds is what the last
/// write to each key left, whatever bytes the values are made of.
pub proof fn law_restart(state: State, limit: u64, ops: Seq<Op>)
    requires
        state.valid(),
        state.durable(),
        state.admits_all(limit, ops),
    ensures
        state.run(limit, ops).valid(),
        state.run(limit, ops).durable(),
        recovered(state.run(limit, ops).segs) == state.run(limit, ops).dir,
        contents(recovered(state.run(limit, ops).segs), state.run(limit, ops).segs)
            == last_writer_wins(state.contents(), ops),
    decreases ops.len(),
{
    if ops.len() > 0 {
        let front = ops.drop_last();
        let op = ops.last();
        assert(ops[ops.len() - 1] == op);
        law_restart(state, limit, front);
        let mid = state.run(limit, front);
        lemma_apply_durable(mid, limit, op);
    }
}

/// A store that starts out with nothing is durable.
pub proof fn law_fresh_store_durable()
    ensures
        ({
            let fresh = State {
                dir: Map::empty(),
                segs: seq![
                    SegmentImage { file_id: 0, data: Seq::empty(), hint: Some(Seq::empty()) },
                ],
            };
            fresh.valid() && fresh.durable() && fresh.contents() == Map::<
                Seq<u8>,
                Seq<u8>,
            >::empty()
        }),
{
    let segs = seq![SegmentImage { file_id: 0, data: Seq::empty(), hint: Some(Seq::empty()) }];
    let fresh = State { dir: Map::empty(), segs };
    assert(segs.drop_last() =~= Seq::<SegmentImage>::empty());
    assert(replay_all(segs.drop_last(), Map::empty()) == Map::<Seq<u8>, Entry>::empty());
    assert(recovered(segs) == Map::<Seq<u8>, Entry>::empty());
    assert(fresh.contents() =~= Map::<Seq<u8>, Seq<u8>>::empty());
}

/// Segment rollover: a write whose value goes to an offset at or past the
/// size limit starts one more segment, with the next id, which is the
/// largest; the ids ascend; and every value that the store held stays
/// readable and unchanged. (A write below the limit starts none, however
/// long its value is.)
pub proof fn law_rollover(
    state: State,
    limit: u64,
    timestamp: u32,
    key: Seq<u8>,
    value: Seq<u8>,
)
    requires
        state.valid(),
        state.admits(key, value),
        next_value_pos(state.segs, key) >= limit,
        state.segs.last().file_id < u32::MAX,
    ensures
        ({
            let after = state.put(limit, timestamp, key, value);
            &&& after.segs.len() == state.segs.len() + 1
            &&& after.segs.len() >= 2
            &&& after.segs.last().file_id == state.segs.last().file_id + 1
            &&& after.segs.last().data.len() == 0
            &&& ascending(after.segs)
            &&& after.contents() == state.contents().insert(key, value)
        }),
{
    lemma_put(state, limit, timestamp, key, value);
    lemma_written_shape(state.segs, limit, timestamp, key, value, false);
    lemma_appended_shape(state.segs, timestamp, key, value, false);
    let app = appended(state.segs, timestamp, key, value, false);
    assert(app[app.len() - 1].file_id == state.segs[app.len() - 1].file_id);
}

/// The segments with the data log of the last one cut off at `len` bytes.
pub open spec fn truncated(segs: Seq<SegmentImage>, len: int) -> Seq<SegmentImage> {
    segs.drop_last().push(
        SegmentImage {
            file_id: segs.last().file_id,
            data: segs.last().data.take(len),
            hint: segs.last().hint,
        },
    )
}

/// Torn tail tolerance: where the data log of the last segment is cut off
/// anywhere inside its last record, the record of a put or of a deletion, a
/// restart rebuilds the directory as it was before that record was written,
/// and every entry of it points at the value it pointed at: the record that
/// was cut is not seen, all earlier ones are served.
pub proof fn law_torn_tail(
    state: State,
    timestamp: u32,
    key: Seq<u8>,
    value: Seq<u8>,
    deleted: bool,
    len: int,
)
    requires
        state.valid(),
        state.durable(),
        state.admits(key, value),
        deleted ==> value.len() == 0,
        state.segs.last().data.len() <= len < state.segs.last().data.len() + DataRecord::compose(
            timestamp,
            key,
            value,
            deleted,
        ).size(),
    ensures
        ({
            let torn = truncated(appended(state.segs, timestamp, key, value, deleted), len);
            &&& recovered(torn) == state.dir
            &&& all_readable(state.dir, torn)
            &&& contents(recovered(torn), torn) == state.contents()
            &&& contents(recovered(torn), opened(torn)) == state.contents()
        }),
{
    let app = appended(state.segs, timestamp, key, value, deleted);
    let torn = truncated(app, len);
    let last = state.segs.last();
    let record = DataRecord::compose(timestamp, key, value, deleted);
    let hint = written_hint(state.segs, timestamp, key, value, deleted);
    record.lemma_size();
    assert(hint.value_len() == value.len());
    let kept = (last.data + record.encoding()).take(len);
    let more = record.encoding().take(len - last.data.len());
    assert(kept =~= last.data + more);
    assert(app.drop_last() =~= state.segs.drop_last());
    assert(torn.drop_last() =~= state.segs.drop_last());
    assert(torn.last().hint == Some(hint_of(last) + hint.encoding()));
    assert(torn.last().data == kept);
    let base = replay_all(state.segs.drop_last(), Map::empty());
    lemma_replay_hints_torn(hint_of(last), last.data, last.file_id, 0, base, hint, more);
    assert(recovered(torn) == state.dir);
    assert forall|k: Seq<u8>| #[trigger] state.dir.contains_key(k) implies entry_readable(
        torn,
        state.dir[k],
    ) && value_at(data_of(torn, state.dir[k].file_id), state.dir[k]) == value_at(
        data_of(state.segs, state.dir[k].file_id),
        state.dir[k],
    ) by {
        let e = state.dir[k];
        if e.file_id == last.file_id {
            assert(value_at(kept, e) =~= value_at(last.data, e));
        }
    }
    assert(contents(recovered(torn), torn) =~= state.contents());
    assert forall|k: Seq<u8>| #[trigger] state.dir.contains_key(k) implies data_of(
        opened(torn),
        state.dir[k].file_id,
    ) == data_of(torn, state.dir[k].file_id) by {
        lemma_same_data(torn, opened(torn), state.dir[k].file_id);
    }
    assert(contents(recovered(torn), opened(torn)) =~= state.contents());
}

/// The record that `op` appends.
pub open spec fn record_of(op: Op) -> DataRecord {
    match op {
        Op::Put { timestamp, key, value } => DataRecord::compose(timestamp, key, value, false),
        Op::Delete { timestamp, key } => DataRecord::compose(timestamp, key, Seq::empty(), true),
    }
}

/// The segments after the record of `op` has been appended to the last one.
pub open spec fn appended_by(segs: Seq<SegmentImage>, op: Op) -> Seq<SegmentImage> {
    match op {
        Op::Put { timestamp, key, value } => appended(segs, timestamp, key, value, false),
        Op::Delete { timestamp, key } => appended(segs, timestamp, key, Seq::empty(), true),
    }
}

/// Torn tail tolerance after any run: a durable store goes through `ops`
/// and then through `last`, and the data log is cut off anywhere inside the
/// record of `last`. A restart then rebuilds a store that holds, for every
/// key, that of `last` too, what the last write to it among `ops` left, as
/// if `last` had not been.
pub proof fn law_torn_tail_after_run(state: State, limit: u64, ops: Seq<Op>, last: Op, len: int)
    requires
        state.valid(),
        state.durable(),
        state.admits_all(limit, ops.push(last)),
        state.run(limit, ops).segs.last().data.len() <= len < state.run(
            limit,
            ops,
        ).segs.last().data.len() + record_of(last).size(),
    ensures
        ({
            let torn = truncated(appended_by(state.run(limit, ops).segs, last), len);
            &&& recovered(torn) == state.run(limit, ops).dir
            &&& contents(recovered(torn), torn) == last_writer_wins(state.contents(), ops)
            &&& contents(recovered(torn), opened(torn)) == last_writer_wins(
                state.contents(),
                ops,
            )
        }),
{
    let run = ops.push(last);
    assert(run.drop_last() =~= ops);
    assert(run.last() == last);
    law_restart(state, limit, ops);
    let mid = state.run(limit, ops);
    match last {
        Op::Put { timestamp, key, value } => {
            law_torn_tail(mid, timestamp, key, value, false, len);
        },
        Op::Delete { timestamp, key } => {
            law_torn_tail(mid, timestamp, key, Seq::empty(), true, len);
        },
    }
}

/// Hint files are an index and nothing more: whatever puts and deletes a
/// store goes through whose logs were in step, the logs of every segment stay
/// in step, and a restart that finds the data files alone rebuilds the
/// directory that it would rebuild with the hint files.
pub proof fn law_data_alone_rebuilds(state: State, limit: u64, ops: Seq<Op>)
    requires
        state.valid(),
        all_in_step(state.segs),
        state.admits_all(limit, ops),
    ensures
        state.run(limit, ops).valid(),
        all_in_step(state.run(limit, ops).segs),
        recovered(without_hints(state.run(limit, ops).segs)) == recovered(
            state.run(limit, ops).segs,
        ),
    decreases ops.len(),
{
    if ops.len() > 0 {
        law_data_alone_rebuilds(state, limit, ops.drop_last());
        let mid = state.run(limit, ops.drop_last());
        match ops.last() {
            Op::Put { timestamp, key, value } => {
                lemma_put(mid, limit, timestamp, key, value);
                lemma_written_in_step(mid.segs, limit, timestamp, key, value, false);
            },
            Op::Delete { timestamp, key } => {
                lemma_delete(mid, limit, timestamp, key);
                lemma_written_in_step(mid.segs, limit, timestamp, key, Seq::empty(), true);
            },
        }
    }
    lemma_without_hints(state.run(limit, ops).segs, Map::empty());
}

/// Torn tail tolerance without a hint log: where a whole data log is
/// followed by a part of one more record, cut off anywhere inside it,
/// replaying the data log rebuilds what it rebuilt without that part.
pub proof fn law_torn_data_tail(
    data: Seq<u8>,
    file_id: u32,
    dir: Map<Seq<u8>, Entry>,
    record: DataRecord,
    cut: int,
)
    requires
        data_whole(data, 0),
        record.fits(),
        0 <= cut < record.size(),
        data.len() + cut <= u64::MAX,
    ensures
        replay_data(data + record.encoding().take(cut), file_id, 0, dir) == replay_data(
            data,
            file_id,
            0,
            dir,
        ),
{
    lemma_replay_data_torn(data, file_id, 0, dir, record, cut);
}

/// Binary safety: a deletion is told from a put by the record alone. The
/// record of a deletion differs from the record of a put of any value under
/// the same key at the same time, in the data log and in the hint log, and a
/// replay that finds either reads it as what it is.
pub proof fn law_deletion_is_tagged(
    segs: Seq<SegmentImage>,
    timestamp: u32,
    key: Seq<u8>,
    value: Seq<u8>,
)
    requires
        acceptable(key, value),
    ensures
        DataRecord::compose(timestamp, key, value, false).encoding() != DataRecord::compose(
            timestamp,
            key,
            Seq::empty(),
            true,
        ).encoding(),
        written_hint(segs, timestamp, key, value, false).encoding() != written_hint(
            segs,
            timestamp,
            key,
            Seq::empty(),
            true,
        ).encoding(),
        data_record_at(DataRecord::compose(timestamp, key, value, false).encoding(), 0)
            == Some(DataRecord::compose(timestamp, key, value, false)),
        data_record_at(DataRecord::compose(timestamp, key, Seq::empty(), true).encoding(), 0)
            == Some(DataRecord::compose(timestamp, key, Seq::empty(), true)),
{
    let put = DataRecord::compose(timestamp, key, value, false);
    let deletion = DataRecord::compose(timestamp, key, Seq::empty(), true);
    let none = Seq::<u8>::empty();
    lemma_data_record_at_encoding(none, put, none);
    lemma_data_record_at_encoding(none, deletion, none);
    assert(none + put.encoding() + none =~= put.encoding());
    assert(none + deletion.encoding() + none =~= deletion.encoding());
    let put_hint = written_hint(segs, timestamp, key, value, false);
    let deletion_hint = written_hint(segs, timestamp, key, Seq::empty(), true);
    lemma_hint_record_at_encoding(none, put_hint, none);
    lemma_hint_record_at_encoding(none, deletion_hint, none);
    assert(none + put_hint.encoding() + none =~= put_hint.encoding());
    assert(none + deletion_hint.encoding() + none =~= deletion_hint.encoding());
    assert(put_hint.value_size != deletion_hint.value_size);
}

} // verus!
