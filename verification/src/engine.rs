//! The store: a key directory over segment logs, with one segment open for
//! appending.

use crate::clock::now;
use crate::data_file::DataEntry;
use crate::data_file::DataFile;
use crate::data_file::EMPTY_VALUE;
use crate::data_file::data_record_at;
use crate::directory::Directory;
use crate::directory::Entry;
use crate::hint_file::HintEntry;
use crate::hint_file::HintFile;
use crate::hint_file::hint_record_at;
use crate::lemmas::lemma_append;
use crate::lemmas::lemma_appended_in_step;
use crate::lemmas::lemma_appended_keeps;
use crate::lemmas::lemma_appended_recovered;
use crate::lemmas::lemma_appended_shape;
use crate::lemmas::lemma_data_of_index;
use crate::lemmas::lemma_delete;
use crate::lemmas::lemma_empty_in_step;
use crate::lemmas::lemma_has_segment;
use crate::lemmas::lemma_hints_end_whole;
use crate::lemmas::lemma_opened;
use crate::lemmas::lemma_pushed_keeps;
use crate::lemmas::lemma_put;
use crate::lemmas::lemma_record_count_appended;
use crate::lemmas::lemma_same_data;
use crate::lemmas::lemma_written_recovered;
use crate::listing::StoredFile;
use crate::listing::arrange;
use crate::listing::arranged;
use crate::listing::lemma_arranged_unique;
use crate::listing::list_segment;
use crate::listing::listed;
use crate::model::SegmentImage;
use crate::model::State;
use crate::model::acceptable;
use crate::model::all_in_step;
use crate::model::all_readable;
use crate::model::appended;
use crate::model::ascending;
use crate::model::contents;
use crate::model::data_of;
use crate::model::data_whole;
use crate::model::entry_readable;
use crate::model::has_segment;
use crate::model::hint_log_of;
use crate::model::hint_of;
use crate::model::hints_whole;
use crate::model::in_step;
use crate::model::keys_fit;
use crate::model::next_value_pos;
use crate::model::opened;
use crate::model::opened_hint;
use crate::model::record_count;
use crate::model::recovered;
use crate::model::replay_all;
use crate::model::value_at;
use crate::model::written;
use crate::model::written_entry;
use crate::model::written_hint;
use crate::recovery::index_data;
use crate::recovery::replay_data_log;
use crate::recovery::replay_hint_log;
use crate::recovery::whole_hints;
use std::collections::HashMap;
use vstd::prelude::*;
use vstd::slice::slice_to_vec;
use vstd::utf8::encode_utf8;

verus! {

broadcast use {vstd::slice::group_slice_axioms, vstd::std_specs::hash::group_hash_axioms};

/// Size of a data log, in bytes, at which the store starts a new segment
/// unless told otherwise: 100 MiB.
pub const FILE_SIZE: u64 = 104857600;

/// Message of the error that a write returns whose key is longer than 255
/// bytes.
pub const KEY_TOO_LONG: &'static str = "key is longer than 255 bytes";

/// Message of the error that a write returns whose value is longer than
/// 2^32 - 2 bytes.
pub const VALUE_TOO_LONG: &'static str = "value is longer than 4294967294 bytes";

/// What a store is configured with.
#[derive(Clone, Copy, Debug)]
pub struct BitcaskOptions {
    /// Offset in the data log from which on a write seals the segment.
    pub file_size_limit: u64,
}

impl Default for BitcaskOptions {
    fn default() -> (option: BitcaskOptions)
        ensures
            option.file_size_limit == FILE_SIZE,
    {
        BitcaskOptions { file_size_limit: FILE_SIZE }
    }
}

/// The files of one segment.
#[derive(Debug)]
pub struct Segment {
    data: DataFile,
    hint: Option<HintFile>,
}

impl View for Segment {
    type V = SegmentImage;

    closed spec fn view(&self) -> SegmentImage {
        SegmentImage {
            file_id: self.data.file_id(),
            data: self.data@,
            hint: match self.hint {
                Some(hint) => Some(hint@),
                None => None,
            },
        }
    }
}

impl Segment {
    /// The files of a segment that is held as a `Segment` are read-only: the
    /// segment is sealed.
    #[verifier::type_invariant]
    spec fn sealed(self) -> bool {
        &&& self.data.read_only()
        &&& match self.hint {
            Some(hint) => hint.read_only(),
            None => true,
        }
    }

    /// The segment `file_id` with the bytes of its data file (empty where
    /// there is none) and of its hint file, if there is one. Both are
    /// read-only.
    pub fn new(file_id: u32, data: Vec<u8>, hint: Option<Vec<u8>>) -> (seg: Segment)
        ensures
            seg@.file_id == file_id,
            seg@.data == data@,
            seg@.hint == match hint {
                Some(bytes) => Some(bytes@),
                None => None,
            },
    {
        let hint = match hint {
            Some(bytes) => Some(HintFile::new(bytes, file_id, None)),
            None => None,
        };
        Segment { data: DataFile::new(data, file_id, None), hint }
    }

    /// The id of the segment.
    pub fn file_id(&self) -> (id: u32)
        ensures
            id == self@.file_id,
    {
        self.data.file_id()
    }

    /// The same segment with `data` as its data log.
    pub fn with_data(self, data: Vec<u8>) -> (seg: Segment)
        ensures
            seg@ == (SegmentImage { file_id: self@.file_id, data: data@, hint: self@.hint }),
    {
        proof {
            use_type_invariant(&self);
        }
        let file_id = self.data.file_id();
        Segment { data: DataFile::new(data, file_id, None), hint: self.hint }
    }

    /// The same segment with `hint` as its hint log.
    pub fn with_hint(self, hint: Vec<u8>) -> (seg: Segment)
        ensures
            seg@ == (SegmentImage { file_id: self@.file_id, data: self@.data, hint: Some(hint@) }),
    {
        proof {
            use_type_invariant(&self);
        }
        let file_id = self.data.file_id();
        Segment { data: self.data, hint: Some(HintFile::new(hint, file_id, None)) }
    }

    /// Opens both files for appending. What follows the end of the replay in
    /// the hint file is discarded; where the segment has no hint file, one is
    /// made that goes with the data file.
    pub fn open(self) -> (files: (DataFile, HintFile))
        ensures
            files.0@ == self@.data,
            files.1@ == opened_hint(self@),
            files.0.file_id() == self@.file_id,
            files.1.file_id() == self@.file_id,
            !files.0.read_only(),
            !files.1.read_only(),
    {
        let file_id = self.data.file_id();
        let hint = match self.hint {
            Some(hint) => {
                let end = whole_hints(hint.contents().as_slice(), self.data.contents().as_slice());
                let mut bytes = hint.into_contents();
                bytes.truncate(end);
                assert(bytes@ =~= self.hint.unwrap()@.take(end as int));
                bytes
            },
            None => index_data(self.data.contents().as_slice()),
        };
        (
            DataFile::new(self.data.into_contents(), file_id, Some(0)),
            HintFile::new(hint, file_id, Some(0)),
        )
    }

    /// Gives up the segment for its files, which are read-only.
    fn split(self) -> (files: (DataFile, Option<HintFile>))
        ensures
            files.0@ == self@.data,
            files.0.file_id() == self@.file_id,
            files.0.read_only(),
            match files.1 {
                Some(hint) => self@.hint == Some(hint@) && hint.read_only(),
                None => self@.hint is None,
            },
    {
        proof {
            use_type_invariant(&self);
        }
        (self.data, self.hint)
    }

    /// The data file, which is read-only.
    pub fn data(&self) -> (file: &DataFile)
        ensures
            file@ == self@.data,
            file.file_id() == self@.file_id,
            file.read_only(),
    {
        proof {
            use_type_invariant(self);
        }
        &self.data
    }

    /// The hint file, if there is one; it is read-only.
    pub fn hint(&self) -> (file: Option<&HintFile>)
        ensures
            match file {
                Some(hint) => self@.hint == Some(hint@) && hint.read_only(),
                None => self@.hint is None,
            },
    {
        proof {
            use_type_invariant(self);
        }
        match &self.hint {
            Some(hint) => Some(hint),
            None => None,
        }
    }
}

/// The data log of a segment is no longer than a file can be.
pub proof fn lemma_segment_length(segment: Segment)
    ensures
        segment@.data.len() <= u64::MAX,
{
    segment.data.lemma_len();
}

/// Whether the ids of `segments` ascend, as `Bitcask::recover` asks.
pub fn is_ascending(segments: &Vec<Segment>) -> (yes: bool)
    ensures
        yes == ascending(images_of(segments@)),
{
    let ghost images = images_of(segments@);
    let mut i: usize = 1;
    while i < segments.len()
        invariant
            1 <= i,
            images == images_of(segments@),
            forall|a: int, b: int| 0 <= a < b < i && b < images.len() ==> images[a].file_id < images[b].file_id,
        decreases segments@.len() - i,
    {
        if segments[i - 1].file_id() >= segments[i].file_id() {
            assert(images[i - 1] == segments@[i - 1]@);
            assert(images[i as int] == segments@[i as int]@);
            return false;
        }
        assert forall|a: int, b: int| 0 <= a < b < i + 1 && b < images.len() implies images[a].file_id
            < images[b].file_id by {
            assert(images[i - 1] == segments@[i - 1]@);
            assert(images[i as int] == segments@[i as int]@);
            if b == i && a < i - 1 {
                assert(images[a].file_id < images[i - 1].file_id);
            }
        }
        i = i + 1;
    }
    true
}

/// The bytes of the value of a write; a deletion has none.
pub open spec fn payload(value: Option<Vec<u8>>) -> Seq<u8> {
    match value {
        Some(bytes) => bytes@,
        None => Seq::empty(),
    }
}

/// The sequence of images of `segs`.
pub open spec fn images_of(segs: Seq<Segment>) -> Seq<SegmentImage> {
    Seq::new(segs.len(), |i: int| segs[i]@)
}

/// The hint file of a sealed segment, if the segment has one.
struct SealedHint {
    file_id: u32,
    hint: Option<HintFile>,
}

/// The sealed segments that a map of data files and a list of hint files
/// stand for: one for each entry of the list, in its order, with the data
/// file that the map holds under the id.
spec fn sealed_images_of(data_files: Map<u32, DataFile>, hint_files: Seq<SealedHint>) -> Seq<
    SegmentImage,
> {
    Seq::new(
        hint_files.len(),
        |i: int|
            SegmentImage {
                file_id: hint_files[i].file_id,
                data: data_files[hint_files[i].file_id]@,
                hint: match hint_files[i].hint {
                    Some(hint) => Some(hint@),
                    None => None,
                },
            },
    )
}

/// Whether the map holds a data file for each entry of the list and for
/// nothing else, each under its own id, and all the files are read-only.
spec fn sealed_wf(data_files: Map<u32, DataFile>, hint_files: Seq<SealedHint>) -> bool {
    &&& forall|i: int|
        0 <= i < hint_files.len() ==> {
            let slot = #[trigger] hint_files[i];
            &&& data_files.contains_key(slot.file_id)
            &&& data_files[slot.file_id].file_id() == slot.file_id
            &&& data_files[slot.file_id].read_only()
            &&& match slot.hint {
                Some(hint) => hint.read_only(),
                None => true,
            }
        }
    &&& forall|id: u32| #[trigger]
        data_files.contains_key(id) ==> exists|i: int|
            0 <= i < hint_files.len() && (#[trigger] hint_files[i]).file_id == id
}

/// Files the segments away: the data files in a map by segment id, the hint
/// files in a list in the order of the segments.
fn seal_segments(segments: Vec<Segment>) -> (sealed: (HashMap<u32, DataFile>, Vec<SealedHint>))
    requires
        ascending(images_of(segments@)),
    ensures
        sealed_wf(sealed.0@, sealed.1@),
        sealed_images_of(sealed.0@, sealed.1@) == images_of(segments@),
{
    let ghost all = segments@;
    let ghost images = images_of(all);
    let mut rest = segments;
    let mut data_files: HashMap<u32, DataFile> = HashMap::new();
    let mut hint_files: Vec<SealedHint> = Vec::new();
    let ghost mut done: int = 0;
    assert(all.skip(0) =~= all);
    assert(sealed_images_of(data_files@, hint_files@) =~= images.take(0));
    while rest.len() > 0
        invariant
            0 <= done <= all.len(),
            images == images_of(all),
            ascending(images),
            rest@ == all.skip(done),
            hint_files@.len() == done,
            sealed_wf(data_files@, hint_files@),
            sealed_images_of(data_files@, hint_files@) == images.take(done),
        decreases rest@.len(),
    {
        let ghost map_before = data_files@;
        let ghost hints_before = hint_files@;
        let ghost rest_before = rest@;
        let segment = rest.remove(0);
        assert(segment == all[done]);
        assert(rest@ =~= all.skip(done + 1));
        let ghost image = segment@;
        assert(images[done] == image);
        let (data, hint) = segment.split();
        let file_id = data.file_id();
        let _ = data_files.insert(file_id, data);
        hint_files.push(SealedHint { file_id, hint });
        proof {
            assert forall|i: int| 0 <= i < done implies (#[trigger] hints_before[i]).file_id
                != file_id by {
                assert(sealed_images_of(map_before, hints_before)[i] == images[i]);
                assert(images[i].file_id < images[done].file_id);
            }
            assert forall|i: int| 0 <= i < hint_files@.len() implies {
                let slot = #[trigger] hint_files@[i];
                &&& data_files@.contains_key(slot.file_id)
                &&& data_files@[slot.file_id].file_id() == slot.file_id
                &&& data_files@[slot.file_id].read_only()
                &&& match slot.hint {
                    Some(hint) => hint.read_only(),
                    None => true,
                }
            } by {
                if i < done {
                    assert(hint_files@[i] == hints_before[i]);
                }
            }
            assert forall|id: u32| #[trigger] data_files@.contains_key(id) implies exists|i: int|
                0 <= i < hint_files@.len() && (#[trigger] hint_files@[i]).file_id == id by {
                if id == file_id {
                    assert(hint_files@[done].file_id == id);
                } else {
                    assert(map_before.contains_key(id));
                    let i = choose|i: int|
                        0 <= i < hints_before.len() && (#[trigger] hints_before[i]).file_id == id;
                    assert(hint_files@[i].file_id == id);
                }
            }
            assert(sealed_images_of(data_files@, hint_files@) =~= images.take(done + 1)) by {
                assert forall|i: int| 0 <= i < done + 1 implies sealed_images_of(
                    data_files@,
                    hint_files@,
                )[i] == images[i] by {
                    if i < done {
                        assert(hint_files@[i] == hints_before[i]);
                        assert(sealed_images_of(map_before, hints_before)[i] == images[i]);
                    }
                }
            }
            done = done + 1;
        }
    }
    assert(images.take(done) =~= images);
    (data_files, hint_files)
}

/// Takes the segments out again, in the order of the list.
fn unseal_segments(data_files: HashMap<u32, DataFile>, hint_files: Vec<SealedHint>) -> (segments:
    Vec<Segment>)
    requires
        sealed_wf(data_files@, hint_files@),
        ascending(sealed_images_of(data_files@, hint_files@)),
    ensures
        images_of(segments@) == sealed_images_of(data_files@, hint_files@),
{
    let ghost all_files = data_files@;
    let ghost all_hints = hint_files@;
    let ghost images = sealed_images_of(all_files, all_hints);
    let mut data_files = data_files;
    let mut rest = hint_files;
    let mut segments: Vec<Segment> = Vec::new();
    let ghost mut done: int = 0;
    assert(all_hints.skip(0) =~= all_hints);
    assert(images_of(segments@) =~= images.take(0));
    while rest.len() > 0
        invariant
            0 <= done <= all_hints.len(),
            images == sealed_images_of(all_files, all_hints),
            ascending(images),
            sealed_wf(all_files, all_hints),
            rest@ == all_hints.skip(done),
            segments@.len() == done,
            images_of(segments@) == images.take(done),
            forall|i: int|
                done <= i < all_hints.len() ==> data_files@.contains_key(
                    (#[trigger] all_hints[i]).file_id,
                ) && data_files@[all_hints[i].file_id] == all_files[all_hints[i].file_id],
        decreases rest@.len(),
    {
        let ghost map_before = data_files@;
        let ghost before = segments@;
        let slot = rest.remove(0);
        assert(slot == all_hints[done]);
        assert(rest@ =~= all_hints.skip(done + 1));
        let found = data_files.remove(&slot.file_id);
        proof {
            assert forall|i: int| done + 1 <= i < all_hints.len() implies (#[trigger] all_hints[i]).file_id
                != slot.file_id by {
                assert(images[done].file_id < images[i].file_id);
            }
        }
        let data = match found {
            Some(data) => data,
            // the map holds a file for every entry of the list
            None => DataFile::new(Vec::new(), slot.file_id, None),
        };
        let segment = Segment { data, hint: slot.hint };
        assert(segment@ == images[done]);
        segments.push(segment);
        proof {
            assert(images_of(segments@) =~= images.take(done + 1)) by {
                assert forall|i: int| 0 <= i < done + 1 implies images_of(segments@)[i]
                    == images[i] by {
                    if i < done {
                        assert(segments@[i] == before[i]);
                        assert(images_of(before)[i] == images[i]);
                    }
                }
            }
            done = done + 1;
        }
    }
    assert(images.take(done) =~= images);
    segments
}

/// A store: the key directory, the sealed segments with their data files by
/// id, and the segment that is open for appending.
pub struct Bitcask {
    entries: Directory,
    data_files: HashMap<u32, DataFile>,
    hint_files: Vec<SealedHint>,
    write_data: DataFile,
    write_hint: HintFile,
    write_id: u32,
    option: BitcaskOptions,
    path: String,
}

impl View for Bitcask {
    type V = Map<Seq<u8>, Seq<u8>>;

    /// What the store holds: the value of each live key.
    open spec fn view(&self) -> Map<Seq<u8>, Seq<u8>> {
        contents(self.directory(), self.images())
    }
}

impl Bitcask {
    /// The key directory.
    pub closed spec fn directory(&self) -> Map<Seq<u8>, Entry> {
        self.entries@
    }

    /// The segments, sealed ones first and in the order of their ids, the one
    /// open for appending last.
    pub closed spec fn images(&self) -> Seq<SegmentImage> {
        self.sealed_images().push(self.active())
    }

    /// The sealed segments, in the order of their ids.
    spec fn sealed_images(&self) -> Seq<SegmentImage> {
        sealed_images_of(self.data_files@, self.hint_files@)
    }

    /// The segment that is open for appending.
    spec fn active(&self) -> SegmentImage {
        SegmentImage {
            file_id: self.write_id,
            data: self.write_data@,
            hint: Some(self.write_hint@),
        }
    }

    /// The directory that the files of the store live in.
    pub closed spec fn location(&self) -> Seq<char> {
        self.path@
    }

    /// The size limit that the store was configured with.
    pub closed spec fn limit(&self) -> u64 {
        self.option.file_size_limit
    }

    /// The invariant of the store: the segment ids ascend, the last segment
    /// is open for appending and has a hint log, and every directory entry
    /// points at bytes that are there.
    pub closed spec fn wf(&self) -> bool {
        &&& self.entries.wf()
        &&& sealed_wf(self.data_files@, self.hint_files@)
        &&& self.write_data.file_id() == self.write_id
        &&& self.write_hint.file_id() == self.write_id
        &&& !self.write_data.read_only()
        &&& !self.write_hint.read_only()
        &&& ascending(self.images())
        &&& all_readable(self.entries@, self.images())
        &&& keys_fit(self.entries@)
    }

    /// A store is valid as a mathematical value, its last segment has a hint
    /// log, and its keys fit a record.
    pub proof fn lemma_valid(&self)
        requires
            self.wf(),
        ensures
            self.state().valid(),
            self.images().last().hint is Some,
            keys_fit(self.directory()),
    {
    }

    /// The store as a mathematical value.
    pub open spec fn state(&self) -> State {
        State { dir: self.directory(), segs: self.images() }
    }

    /// Whether a restart would rebuild the directory as it is: replaying the
    /// segments gives the directory, and the hint log of the last segment is
    /// whole, so that what is appended to it will be replayed too.
    pub open spec fn durable(&self) -> bool {
        self.state().durable()
    }

    /// The value that the store holds for `key`, if any.
    pub open spec fn lookup(&self, key: Seq<u8>) -> Option<Seq<u8>> {
        if self@.contains_key(key) {
            Some(self@[key])
        } else {
            None
        }
    }

    /// What a put of `value` under `key` at `timestamp` does, and what it
    /// returns. Where key and value fit a record, a record goes to the data
    /// log and to the hint log of the last segment, the directory then points
    /// the key at it, and a new segment is started where the value went to an
    /// offset at or past the size limit. Otherwise nothing changes, and the
    /// error says which of the two is too long.
    pub open spec fn put_outcome(
        before: Bitcask,
        after: Bitcask,
        timestamp: u32,
        key: Seq<u8>,
        value: Seq<u8>,
        r: Result<(), String>,
    ) -> bool {
        if acceptable(key, value) {
            &&& r is Ok
            &&& after.state() == before.state().put(before.limit(), timestamp, key, value)
            &&& after@ == before@.insert(key, value)
            &&& before.durable() ==> after.durable()
        } else {
            &&& r matches Err(e)
            &&& e@ == if key.len() > u8::MAX {
                KEY_TOO_LONG@
            } else {
                VALUE_TOO_LONG@
            }
            &&& after.state() == before.state()
        }
    }

    /// What a delete of `key` at `timestamp` does, and what it returns. Where
    /// the key fits a record, it leaves the directory, whether it was there or
    /// not, and a record that holds the deletion goes to the logs as for a
    /// put. Otherwise nothing changes.
    pub open spec fn delete_outcome(
        before: Bitcask,
        after: Bitcask,
        timestamp: u32,
        key: Seq<u8>,
        r: Result<(), String>,
    ) -> bool {
        if key.len() <= u8::MAX {
            &&& r is Ok
            &&& after.state() == before.state().delete(before.limit(), timestamp, key)
            &&& after@ == before@.remove(key)
            &&& before.durable() ==> after.durable()
        } else {
            &&& r matches Err(e)
            &&& e@ == KEY_TOO_LONG@
            &&& after.state() == before.state()
        }
    }

    /// The data file of segment `file_id`: the open one, or one of the sealed.
    fn find_data(&self, file_id: u32) -> (found: Option<&DataFile>)
        requires
            self.wf(),
        ensures
            match found {
                Some(file) => {
                    &&& has_segment(self.images(), file_id)
                    &&& file@ == data_of(self.images(), file_id)
                    &&& file.file_id() == file_id
                    &&& file.read_only() == (file_id != self.images().last().file_id)
                },
                None => !has_segment(self.images(), file_id),
            },
    {
        if file_id == self.write_id {
            return Some(&self.write_data);
        }
        let found = self.data_files.get(&file_id);
        proof {
            let images = self.images();
            let sealed = self.sealed_images();
            assert(images.drop_last() =~= sealed);
            assert(images[images.len() - 1] == self.active());
            match found {
                Some(file) => {
                    let i = choose|i: int|
                        0 <= i < self.hint_files@.len() && (#[trigger] self.hint_files@[i]).file_id
                            == file_id;
                    assert(images[i] == sealed[i]);
                    lemma_data_of_index(images, i);
                    assert(images[i].file_id < images[images.len() - 1].file_id);
                },
                None => {
                    lemma_has_segment(images, file_id);
                    if has_segment(images, file_id) {
                        let i = choose|i: int|
                            0 <= i < images.len() && (#[trigger] images[i]).file_id == file_id;
                        assert(images[i] == sealed[i]);
                        assert(self.data_files@.contains_key(self.hint_files@[i].file_id));
                    }
                },
            }
        }
        found
    }

    /// The data file of segment `file_id`, if the store has that segment. It
    /// is read-only unless the segment is the last one, which is open for
    /// appending.
    pub fn data_file(&self, file_id: u32) -> (found: Option<&DataFile>)
        requires
            self.wf(),
        ensures
            match found {
                Some(file) => {
                    &&& has_segment(self.images(), file_id)
                    &&& file@ == data_of(self.images(), file_id)
                    &&& file.file_id() == file_id
                    &&& file.read_only() == (file_id != self.images().last().file_id)
                },
                None => !has_segment(self.images(), file_id),
            },
    {
        self.find_data(file_id)
    }

    /// The hint file of segment `file_id`, if the store has that segment and
    /// the segment has a hint file. It is read-only unless the segment is the
    /// last one.
    pub fn hint_file(&self, file_id: u32) -> (found: Option<&HintFile>)
        requires
            self.wf(),
        ensures
            match found {
                Some(file) => {
                    &&& hint_log_of(self.images(), file_id) == Some(file@)
                    &&& file.read_only() == (file_id != self.images().last().file_id)
                },
                None => hint_log_of(self.images(), file_id) is None,
            },
    {
        if file_id == self.write_id {
            return Some(&self.write_hint);
        }
        let ghost sealed = self.sealed_images();
        proof {
            assert(self.images().drop_last() =~= sealed);
            assert(self.images().last() == self.active());
            assert(sealed.take(sealed.len() as int) =~= sealed);
        }
        let mut i: usize = self.hint_files.len();
        while i > 0
            invariant
                self.wf(),
                i <= self.hint_files@.len(),
                sealed == self.sealed_images(),
                hint_log_of(self.images(), file_id) == hint_log_of(sealed.take(i as int), file_id),
            decreases i,
        {
            assert(sealed.take(i as int).drop_last() =~= sealed.take(i - 1));
            assert(sealed.take(i as int).last() == sealed[i - 1]);
            i = i - 1;
            if self.hint_files[i].file_id == file_id {
                proof {
                    let images = self.images();
                    assert(images[i as int] == sealed[i as int]);
                    assert(images[images.len() - 1] == images.last());
                    assert(images[i as int].file_id < images[images.len() - 1].file_id);
                }
                return match &self.hint_files[i].hint {
                    Some(hint) => Some(hint),
                    None => None,
                };
            }
        }
        None
    }

    /// Whether the files of segment `file_id` are superseded: the store holds
    /// no such segment, and the id lies below that of the segment that is open
    /// for appending, so that no later segment will get it. A merge leaves the
    /// segments that it has rewritten so; their files can be removed.
    pub fn is_superseded(&self, file_id: u32) -> (yes: bool)
        requires
            self.wf(),
        ensures
            yes == (!has_segment(self.images(), file_id) && file_id
                < self.images().last().file_id),
    {
        file_id < self.write_id && self.find_data(file_id).is_none()
    }

    /// The directory that the files of the store live in.
    pub fn path(&self) -> (path: &String)
        ensures
            path@ == self.location(),
    {
        &self.path
    }

    /// What the store was configured with.
    pub fn option(&self) -> (option: BitcaskOptions)
        ensures
            option.file_size_limit == self.limit(),
    {
        self.option
    }

    /// The value of `key`, or `None` where the store holds none.
    pub fn get(&self, key: String) -> (value: Option<Vec<u8>>)
        requires
            self.wf(),
        ensures
            match value {
                Some(bytes) => self.lookup(encode_utf8(key@)) == Some(bytes@) && bytes@.len()
                    <= u32::MAX,
                None => self.lookup(encode_utf8(key@)) is None,
            },
    {
        match self.entries.get(key.as_str().as_bytes()) {
            None => None,
            Some(entry) => Some(self.read_entry(&entry)),
        }
    }

    /// The bytes that `entry` points at.
    fn read_entry(&self, entry: &Entry) -> (value: Vec<u8>)
        requires
            self.wf(),
            entry_readable(self.images(), *entry),
        ensures
            value@ == value_at(data_of(self.images(), entry.file_id), *entry),
            value@.len() == entry.value_size,
    {
        let mut value: Vec<u8> = vec![0u8; entry.value_size as usize];
        match self.find_data(entry.file_id) {
            Some(data_file) => {
                let _ = data_file.read_exact(entry.value_pos, value.as_mut_slice());
            },
            None => {},
        }
        value
    }

    /// Number of live keys.
    pub fn len(&self) -> (n: usize)
        requires
            self.wf(),
        ensures
            n == self.directory().dom().len(),
            self.directory().dom().finite(),
    {
        proof {
            self.entries.lemma_finite();
        }
        self.entries.len()
    }

    /// The id of the segment that is open for appending.
    pub fn write_id(&self) -> (id: u32)
        requires
            self.wf(),
        ensures
            id == self.images().last().file_id,
    {
        self.write_id
    }

    /// Seals the segment that is open and starts the next one.
    fn _new_write_file(&mut self)
        requires
            old(self).wf(),
            old(self).write_id < u32::MAX,
        ensures
            final(self).wf(),
            final(self).directory() == old(self).directory(),
            final(self).limit() == old(self).limit(),
            final(self).location() == old(self).location(),
            final(self).images() == old(self).images().push(
                SegmentImage {
                    file_id: (old(self).images().last().file_id + 1) as u32,
                    data: Seq::empty(),
                    hint: Some(Seq::empty()),
                },
            ),
    {
        let ghost before = *self;
        let id = self.write_id + 1;
        let mut data = DataFile::new(Vec::new(), id, Some(0));
        let mut hint = HintFile::new(Vec::new(), id, Some(0));
        core::mem::swap(&mut self.write_data, &mut data);
        core::mem::swap(&mut self.write_hint, &mut hint);
        let sealed_id = self.write_id;
        let _ = self.data_files.insert(sealed_id, data.seal());
        self.hint_files.push(SealedHint { file_id: sealed_id, hint: Some(hint.seal()) });
        self.write_id = id;
        proof {
            let fresh = SegmentImage {
                file_id: (before.write_id + 1) as u32,
                data: Seq::empty(),
                hint: Some(Seq::empty()),
            };
            let old_sealed = before.sealed_images();
            assert forall|i: int| 0 <= i < old_sealed.len() implies (#[trigger] before.hint_files@[i]).file_id
                != before.write_id by {
                assert(before.images()[i] == old_sealed[i]);
                assert(before.images()[old_sealed.len() as int] == before.active());
            }
            assert forall|i: int| 0 <= i < self.hint_files@.len() implies {
                let slot = #[trigger] self.hint_files@[i];
                &&& self.data_files@.contains_key(slot.file_id)
                &&& self.data_files@[slot.file_id].file_id() == slot.file_id
                &&& self.data_files@[slot.file_id].read_only()
                &&& match slot.hint {
                    Some(hint) => hint.read_only(),
                    None => true,
                }
            } by {
                if i < old_sealed.len() {
                    assert(self.hint_files@[i] == before.hint_files@[i]);
                }
            }
            assert forall|id: u32| #[trigger] self.data_files@.contains_key(id) implies exists|
                i: int,
            |
                0 <= i < self.hint_files@.len() && (#[trigger] self.hint_files@[i]).file_id
                    == id by {
                if id == before.write_id {
                    assert(self.hint_files@[old_sealed.len() as int].file_id == id);
                } else {
                    let i = choose|i: int|
                        0 <= i < before.hint_files@.len() && (#[trigger] before.hint_files@[i]).file_id
                            == id;
                    assert(self.hint_files@[i].file_id == id);
                }
            }
            assert(self.sealed_images() =~= before.images()) by {
                assert forall|i: int| 0 <= i < before.images().len() implies self.sealed_images()[i]
                    == before.images()[i] by {
                    if i < old_sealed.len() {
                        assert(self.hint_files@[i] == before.hint_files@[i]);
                        assert(before.images()[i] == old_sealed[i]);
                    }
                }
            }
            assert(self.images() =~= before.images().push(fresh));
            assert(ascending(self.images()));
            assert forall|k: Seq<u8>| #[trigger]
                self.entries@.contains_key(k) implies entry_readable(
                self.images(),
                self.entries@[k],
            ) by {
                assert(entry_readable(before.images(), self.entries@[k]));
                lemma_pushed_keeps(before.images(), fresh, self.entries@[k].file_id);
            }
        }
    }

    /// Appends a record of `key` to both logs of the open segment, a put of
    /// the given value or, without one, a deletion; starts a new segment where
    /// the size limit asks for it; and returns the offset of the value. The
    /// directory stays as it is.
    fn _put_file(&mut self, timestamp: u32, key: &[u8], value: Option<Vec<u8>>) -> (r: Result<
        u64,
        String,
    >)
        requires
            old(self).wf(),
        ensures
            final(self).wf(),
            final(self).directory() == old(self).directory(),
            final(self).limit() == old(self).limit(),
            final(self).location() == old(self).location(),
            match r {
                Ok(value_pos) => {
                    &&& acceptable(key@, payload(value))
                    &&& value_pos == next_value_pos(old(self).images(), key@)
                    &&& value_pos + payload(value).len() <= u64::MAX
                    &&& final(self).images() == written(
                        old(self).images(),
                        old(self).limit(),
                        timestamp,
                        key@,
                        payload(value),
                        value is None,
                    )
                },
                Err(e) => {
                    &&& !acceptable(key@, payload(value))
                    &&& final(self).images() == old(self).images()
                    &&& e@ == if key@.len() > u8::MAX {
                        KEY_TOO_LONG@
                    } else {
                        VALUE_TOO_LONG@
                    }
                },
            },
    {
        let ghost before = *self;
        let ghost value_bytes = payload(value);
        let ghost deleted = value is None;
        if key.len() > u8::MAX as usize {
            return Err(KEY_TOO_LONG.to_owned());
        }
        let data_entry = match value {
            Some(bytes) => {
                if bytes.len() >= EMPTY_VALUE as usize {
                    return Err(VALUE_TOO_LONG.to_owned());
                }
                DataEntry::compose(timestamp, slice_to_vec(key), bytes)
            },
            None => DataEntry::compose_deletion(timestamp, slice_to_vec(key)),
        };
        let value_pos = self.write_data.append(&data_entry);
        proof {
            data_entry@.lemma_size();
            self.write_data.lemma_len();
        }
        let hint_entry = HintEntry {
            timestamp,
            key_size: data_entry.key_size,
            value_size: data_entry.value_size,
            value_pos,
            key: slice_to_vec(key),
        };
        self.write_hint.append(&hint_entry);
        proof {
            assert(before.images().drop_last() =~= self.sealed_images());
            assert(hint_entry@ == written_hint(
                before.images(),
                timestamp,
                key@,
                value_bytes,
                deleted,
            ));
            assert(self.images() =~= appended(
                before.images(),
                timestamp,
                key@,
                value_bytes,
                deleted,
            ));
            lemma_appended_shape(before.images(), timestamp, key@, value_bytes, deleted);
            assert(ascending(self.images()));
            assert forall|k: Seq<u8>| #[trigger]
                self.entries@.contains_key(k) implies entry_readable(
                self.images(),
                self.entries@[k],
            ) by {
                lemma_appended_keeps(
                    before.images(),
                    timestamp,
                    key@,
                    value_bytes,
                    deleted,
                    self.entries@[k],
                );
            }
        }
        if value_pos >= self.option.file_size_limit && self.write_id < u32::MAX {
            self._new_write_file();
        }
        Ok(value_pos)
    }

    /// Stores `value` under `key`, as written at `timestamp`.
    pub fn put_at(&mut self, timestamp: u32, key: String, value: Vec<u8>) -> (r: Result<
        (),
        String,
    >)
        requires
            old(self).wf(),
        ensures
            final(self).wf(),
            final(self).limit() == old(self).limit(),
            final(self).location() == old(self).location(),
            Bitcask::put_outcome(*old(self), *final(self), timestamp, encode_utf8(key@), value@, r),
    {
        let ghost before = *self;
        let ghost key_bytes = encode_utf8(key@);
        let ghost value_bytes = value@;
        let value_size = value.len();
        let file_id = self.write_id;
        let value_pos = match self._put_file(timestamp, key.as_str().as_bytes(), Some(value)) {
            Ok(value_pos) => value_pos,
            Err(e) => {
                return Err(e);
            },
        };
        let entry = Entry { timestamp, value_size: value_size as u32, value_pos, file_id };
        self.entries.insert(slice_to_vec(key.as_str().as_bytes()), entry);
        proof {
            let segs = before.images();
            let limit = before.limit();
            before.lemma_valid();
            assert(self.state() == before.state().put(limit, timestamp, key_bytes, value_bytes));
            lemma_put(before.state(), limit, timestamp, key_bytes, value_bytes);
            if before.durable() {
                lemma_written_recovered(segs, limit, timestamp, key_bytes, value_bytes, false);
            }
        }
        Ok(())
    }

    /// Takes `key` out of the store, as deleted at `timestamp`.
    pub fn delete_at(&mut self, timestamp: u32, key: String) -> (r: Result<(), String>)
        requires
            old(self).wf(),
        ensures
            final(self).wf(),
            final(self).limit() == old(self).limit(),
            final(self).location() == old(self).location(),
            Bitcask::delete_outcome(*old(self), *final(self), timestamp, encode_utf8(key@), r),
    {
        let ghost before = *self;
        let ghost key_bytes = encode_utf8(key@);
        if key.as_str().as_bytes().len() > u8::MAX as usize {
            return Err(KEY_TOO_LONG.to_owned());
        }
        let _ = self.entries.remove(key.as_str().as_bytes());
        let written = self._put_file(timestamp, key.as_str().as_bytes(), None);
        proof {
            let segs = before.images();
            let limit = before.limit();
            before.lemma_valid();
            assert(self.state() == before.state().delete(limit, timestamp, key_bytes));
            lemma_delete(before.state(), limit, timestamp, key_bytes);
            if before.durable() {
                lemma_written_recovered(segs, limit, timestamp, key_bytes, Seq::empty(), true);
            }
        }
        match written {
            Ok(_) => Ok(()),
            Err(e) => Err(e),
        }
    }

    /// Opens the store that lives in the directory `path`, whose files are
    /// `files`.
    ///
    /// The files whose names are those of segment files are sorted into
    /// segments, and the store is rebuilt from them as `recover` does. Other
    /// files are passed over.
    pub fn new(path: String, option: BitcaskOptions, files: Vec<StoredFile>) -> (store: Bitcask)
        ensures
            store.wf(),
            store.limit() == option.file_size_limit,
            store.location() == path@,
            exists|segs: Seq<SegmentImage>|
                {
                    &&& #[trigger] arranged(files@, segs)
                    &&& store.directory() == recovered(segs)
                    &&& store.images() == opened(segs)
                },
            store.durable(),
            files@.len() == 0 ==> store@ == Map::<Seq<u8>, Seq<u8>>::empty(),
    {
        let ghost listing = files@;
        let segments = arrange(files);
        assert(arranged(listing, images_of(segments@)));
        let store = Bitcask::recover(path, option, segments);
        proof {
            if listing.len() == 0 {
                if segments@.len() > 0 {
                    assert(listed(listing, images_of(segments@)[0].file_id));
                }
                assert(store@ =~= Map::<Seq<u8>, Seq<u8>>::empty());
            }
        }
        store
    }

    /// Rebuilds a store from its segments, which stand in the order of their
    /// ids.
    ///
    /// The segments are replayed first to last into an empty directory, each
    /// from its hint log where it has one and from its data log otherwise.
    /// The last segment is then opened for appending; a store without
    /// segments starts segment 0.
    pub fn recover(path: String, option: BitcaskOptions, segments: Vec<Segment>) -> (store: Bitcask)
        requires
            ascending(images_of(segments@)),
        ensures
            store.wf(),
            store.limit() == option.file_size_limit,
            store.location() == path@,
            store.directory() == recovered(images_of(segments@)),
            store.images() == opened(images_of(segments@)),
            store.durable(),
    {
        let ghost images = images_of(segments@);
        let mut entries = Directory::new();
        let mut i: usize = 0;
        assert(images.take(0) =~= Seq::<SegmentImage>::empty());
        while i < segments.len()
            invariant
                i <= segments@.len(),
                images == images_of(segments@),
                ascending(images),
                entries.wf(),
                entries@ == replay_all(images.take(i as int), Map::empty()),
                all_readable(entries@, images.take(i as int)),
                keys_fit(entries@),
            decreases segments@.len() - i,
        {
            let seg = &segments[i];
            let ghost before = entries@;
            let ghost sofar = images.take(i as int);
            let ghost next = images.take(i + 1);
            proof {
                assert(next.drop_last() =~= sofar);
                assert(next.last() == seg@);
                assert(next =~= sofar.push(seg@));
            }
            match seg.hint() {
                Some(hint) => {
                    replay_hint_log(
                        &mut entries,
                        hint.contents().as_slice(),
                        seg.data().contents().as_slice(),
                        seg.file_id(),
                    );
                },
                None => {
                    replay_data_log(
                        &mut entries,
                        seg.data().contents().as_slice(),
                        seg.file_id(),
                    );
                },
            }
            proof {
                assert forall|k: Seq<u8>| #[trigger] entries@.contains_key(k) implies entry_readable(
                    next,
                    entries@[k],
                ) by {
                    if before.contains_key(k) && before[k] == entries@[k] {
                        lemma_pushed_keeps(sofar, seg@, entries@[k].file_id);
                    }
                }
            }
            i = i + 1;
        }
        assert(images.take(i as int) =~= images);
        let mut rest = segments;
        let (write_data, write_hint, write_id) = match rest.pop() {
            None => (
                DataFile::new(Vec::new(), 0, Some(0)),
                HintFile::new(Vec::new(), 0, Some(0)),
                0,
            ),
            Some(last) => {
                let write_id = last.file_id();
                let (data, hint) = last.open();
                (data, hint, write_id)
            },
        };
        proof {
            assert forall|a: int, b: int| 0 <= a < b < rest@.len() implies images_of(rest@)[a].file_id
                < images_of(rest@)[b].file_id by {
                assert(images[a] == rest@[a]@);
                assert(images[b] == rest@[b]@);
            }
        }
        let (data_files, hint_files) = seal_segments(rest);
        let store = Bitcask {
            entries,
            data_files,
            hint_files,
            write_data,
            write_hint,
            write_id,
            option,
            path,
        };
        proof {
            assert(store.images() =~= opened(images));
            assert forall|j: int| 0 <= j < images.len() implies (#[trigger] images[j]).data.len()
                <= u64::MAX by {
                lemma_segment_length(segments@[j]);
            }
            lemma_opened(images);
            if images.len() > 0 {
                assert forall|k: Seq<u8>| #[trigger]
                    store.entries@.contains_key(k) implies entry_readable(
                    store.images(),
                    store.entries@[k],
                ) by {
                    lemma_same_data(images, opened(images), store.entries@[k].file_id);
                }
            }
        }
        store
    }

    /// The files of the store, as a program that keeps them finds them in
    /// its directory: for each segment the data file and, where the segment
    /// has one, the hint file, under their names.
    pub fn files(&self) -> (files: Vec<StoredFile>)
        requires
            self.wf(),
        ensures
            arranged(files@, self.images()),
    {
        let mut files: Vec<StoredFile> = Vec::new();
        let ghost sealed = self.sealed_images();
        let mut i: usize = 0;
        proof {
            assert(self.images().drop_last() =~= sealed);
            assert(sealed.take(0) =~= Seq::<SegmentImage>::empty());
        }
        while i < self.hint_files.len()
            invariant
                self.wf(),
                i <= self.hint_files@.len(),
                sealed == self.sealed_images(),
                ascending(sealed.push(self.active())),
                arranged(files@, sealed.take(i as int)),
            decreases self.hint_files@.len() - i,
        {
            let slot = &self.hint_files[i];
            let ghost sofar = sealed.take(i as int);
            proof {
                assert forall|j: int| 0 <= j < sofar.len() implies (#[trigger] sofar[j]).file_id
                    < slot.file_id by {
                    assert(sealed.push(self.active())[j] == sofar[j]);
                    assert(sealed.push(self.active())[i as int] == sealed[i as int]);
                }
            }
            let hint = match &slot.hint {
                Some(file) => Some(file.contents()),
                None => None,
            };
            match self.data_files.get(&slot.file_id) {
                Some(data) => {
                    list_segment(&mut files, slot.file_id, data.contents(), hint);
                },
                // the map holds a file for every entry of the list
                None => {},
            }
            proof {
                assert(sealed.take(i + 1) =~= sofar.push(sealed[i as int]));
            }
            i = i + 1;
        }
        proof {
            assert(sealed.take(i as int) =~= sealed);
            assert forall|j: int| 0 <= j < sealed.len() implies (#[trigger] sealed[j]).file_id
                < self.write_id by {
                assert(sealed.push(self.active())[j] == sealed[j]);
                assert(sealed.push(self.active())[sealed.len() as int] == self.active());
            }
        }
        list_segment(
            &mut files,
            self.write_id,
            self.write_data.contents(),
            Some(self.write_hint.contents()),
        );
        files
    }

    /// Gives up the store for its segments, in the order of their ids.
    pub fn into_segments(self) -> (segments: Vec<Segment>)
        requires
            self.wf(),
        ensures
            images_of(segments@) == self.images(),
    {
        proof {
            assert forall|a: int, b: int|
                0 <= a < b < self.sealed_images().len() implies self.sealed_images()[a].file_id
                < self.sealed_images()[b].file_id by {
                assert(self.images()[a] == self.sealed_images()[a]);
                assert(self.images()[b] == self.sealed_images()[b]);
            }
        }
        let mut segments = unseal_segments(self.data_files, self.hint_files);
        let ghost sealed = segments@;
        segments.push(Segment { data: self.write_data.seal(), hint: Some(self.write_hint.seal()) });
        assert(images_of(segments@) =~= self.images()) by {
            assert forall|i: int| 0 <= i < sealed.len() implies images_of(segments@)[i]
                == self.images()[i] by {
                assert(segments@[i] == sealed[i]);
                assert(images_of(sealed)[i] == self.sealed_images()[i]);
            }
        }
        segments
    }

    /// Closes the store and opens it again from its files.
    ///
    /// The directory is rebuilt by replay; where the store was durable, it is
    /// the directory that the store had, and so are the segments and the
    /// values.
    pub fn reopen(self) -> (store: Bitcask)
        requires
            self.wf(),
        ensures
            store.wf(),
            store.limit() == self.limit(),
            store.location() == self.location(),
            store.images() == opened(self.images()),
            store.directory() == recovered(self.images()),
            store.durable(),
            self.durable() ==> store.state() == self.state() && store@ == self@,
    {
        let files = self.files();
        let ghost images = self.images();
        let store = Bitcask::new(self.path, self.option, files);
        proof {
            let segs = choose|segs: Seq<SegmentImage>|
                {
                    &&& #[trigger] arranged(files@, segs)
                    &&& store.directory() == recovered(segs)
                    &&& store.images() == opened(segs)
                };
            lemma_arranged_unique(files@, segs, images);
            if self.durable() {
                let last = images.last();
                lemma_hints_end_whole(hint_of(last), last.data, 0);
                assert(hint_of(last).take(hint_of(last).len() as int) =~= hint_of(last));
                self.lemma_valid();
                assert(opened(images) =~= images);
            }
        }
        store
    }

    /// Stores `value` under `key`, stamped with the time of the call: `put_at`
    /// with the timestamp that the clock gives.
    pub fn put(&mut self, key: String, value: Vec<u8>) -> (r: Result<(), String>)
        requires
            old(self).wf(),
        ensures
            final(self).wf(),
            final(self).limit() == old(self).limit(),
            final(self).location() == old(self).location(),
            exists|timestamp: u32| #[trigger]
                Bitcask::put_outcome(
                    *old(self),
                    *final(self),
                    timestamp,
                    encode_utf8(key@),
                    value@,
                    r,
                ),
    {
        let ts = now();
        self.put_at(ts, key, value)
    }

    /// Takes `key` out of the store, stamped with the time of the call:
    /// `delete_at` with the timestamp that the clock gives.
    pub fn delete(&mut self, key: String) -> (r: Result<(), String>)
        requires
            old(self).wf(),
        ensures
            final(self).wf(),
            final(self).limit() == old(self).limit(),
            final(self).location() == old(self).location(),
            exists|timestamp: u32| #[trigger]
                Bitcask::delete_outcome(
                    *old(self),
                    *final(self),
                    timestamp,
                    encode_utf8(key@),
                    r,
                ),
    {
        let ts = now();
        self.delete_at(ts, key)
    }

    /// What a merge does. Where two more segment ids are left, every live
    /// value is written anew, with the timestamp it had, into one segment with
    /// the next id, which holds one record for each key and no other; the
    /// directory points every key at its new record; the
    /// segments that were there are given up; and a segment with the id after
    /// that is started for appending. The logs of the merged segment are whole
    /// and in step, and the store is durable. Where fewer than two ids are
    /// left, nothing changes.
    pub open spec fn merge_outcome(before: Bitcask, after: Bitcask) -> bool {
        let last_id = before.images().last().file_id;
        if last_id + 2 <= u32::MAX {
            &&& after.images().len() == 2
            &&& after.images()[0].file_id == last_id + 1
            &&& after.images()[1] == (SegmentImage {
                file_id: (last_id + 2) as u32,
                data: Seq::empty(),
                hint: Some(Seq::empty()),
            })
            &&& in_step(after.images()[0])
            &&& record_count(after.images()[0].data, 0) == before.directory().dom().len()
            &&& after.directory().dom() == before.directory().dom()
            &&& forall|k: Seq<u8>| #[trigger]
                after.directory().contains_key(k) ==> after.directory()[k].file_id == last_id + 1
                    && after.directory()[k].timestamp == before.directory()[k].timestamp
            &&& after.durable()
        } else {
            after.state() == before.state()
        }
    }

    /// Compaction: rewrites the live values into one new segment and gives up
    /// the segments that held them. What the store holds stays as it is.
    pub fn merge(&mut self)
        requires
            old(self).wf(),
        ensures
            final(self).wf(),
            final(self).limit() == old(self).limit(),
            final(self).location() == old(self).location(),
            final(self)@ == old(self)@,
            Bitcask::merge_outcome(*old(self), *final(self)),
    {
        if self.write_id > u32::MAX - 2 {
            return;
        }
        let ghost before = *self;
        let merged_id = self.write_id + 1;
        let mut data = DataFile::new(Vec::new(), merged_id, Some(0));
        let mut hint = HintFile::new(Vec::new(), merged_id, Some(0));
        let mut entries = Directory::new();
        let count = self.entries.len();
        let mut i: usize = 0;
        proof {
            self.entries.lemma_positions();
            lemma_empty_in_step(merged_id);
            let segs = seq![
                SegmentImage { file_id: merged_id, data: data@, hint: Some(hint@) },
            ];
            assert(segs.drop_last() =~= Seq::<SegmentImage>::empty());
            assert(replay_all(segs.drop_last(), Map::empty()) == Map::<Seq<u8>, Entry>::empty());
            assert(hint_record_at(hint@, 0) is None);
            assert(data_record_at(data@, 0) is None);
            assert(recovered(segs) == Map::<Seq<u8>, Entry>::empty());
        }
        while i < count
            invariant
                *self == before,
                self.wf(),
                count == self.entries.size(),
                i <= count,
                entries.wf(),
                merged_id == self.write_id + 1,
                data.file_id() == merged_id,
                hint.file_id() == merged_id,
                !data.read_only(),
                !hint.read_only(),
                ({
                    let segs = seq![
                        SegmentImage { file_id: merged_id, data: data@, hint: Some(hint@) },
                    ];
                    &&& (State { dir: entries@, segs }).valid()
                    &&& all_in_step(segs)
                    &&& record_count(data@, 0) == i
                    &&& forall|k: Seq<u8>| #[trigger]
                        entries@.contains_key(k) <==> exists|j: int|
                            0 <= j < i && self.entries.key_at(j) == k
                    &&& forall|k: Seq<u8>| #[trigger]
                        entries@.contains_key(k) ==> {
                            &&& contents(entries@, segs)[k] == self@[k]
                            &&& entries@[k].file_id == merged_id
                            &&& entries@[k].timestamp == self.entries@[k].timestamp
                        }
                    &&& recovered(segs) == entries@
                }),
            decreases count - i,
        {
            let ghost segs = seq![
                SegmentImage { file_id: merged_id, data: data@, hint: Some(hint@) },
            ];
            let ghost state = State { dir: entries@, segs };
            let ghost dir = entries@;
            proof {
                self.entries.lemma_positions();
            }
            let key = self.entries.key(i);
            let entry = self.entries.entry(i);
            let value = self.read_entry(&entry);
            let ghost value_bytes = value@;
            let data_entry = DataEntry::compose(entry.timestamp, slice_to_vec(key.as_slice()), value);
            let value_pos = data.append(&data_entry);
            proof {
                data_entry@.lemma_size();
                data.lemma_len();
            }
            let hint_entry = HintEntry {
                timestamp: entry.timestamp,
                key_size: data_entry.key_size,
                value_size: data_entry.value_size,
                value_pos,
                key: slice_to_vec(key.as_slice()),
            };
            hint.append(&hint_entry);
            let moved = Entry {
                timestamp: entry.timestamp,
                value_size: entry.value_size,
                value_pos,
                file_id: merged_id,
            };
            entries.insert(slice_to_vec(key.as_slice()), moved);
            proof {
                let grown = seq![
                    SegmentImage { file_id: merged_id, data: data@, hint: Some(hint@) },
                ];
                assert(segs.drop_last() =~= Seq::<SegmentImage>::empty());
                assert(hint_entry@ == written_hint(segs, entry.timestamp, key@, value_bytes, false));
                assert(grown =~= appended(segs, entry.timestamp, key@, value_bytes, false));
                assert(moved == written_entry(segs, entry.timestamp, key@, value_bytes));
                assert(state.admits(key@, value_bytes));
                lemma_append(state, entry.timestamp, key@, value_bytes);
                lemma_appended_in_step(segs, entry.timestamp, key@, value_bytes, false);
                assert(data_whole(segs[0].data, 0)) by {
                    assert(in_step(segs[0]));
                }
                lemma_record_count_appended(segs[0].data, 0, data_entry@);
                assert(hints_whole(hint_of(segs.last()), segs.last().data, 0)) by {
                    assert(in_step(segs[0]));
                }
                lemma_appended_recovered(segs, entry.timestamp, key@, value_bytes, false);
                assert(contents(entries@, grown) == contents(dir, segs).insert(key@, value_bytes));
                assert(self@[key@] == value_bytes);
                assert forall|k: Seq<u8>| #[trigger] entries@.contains_key(k) implies exists|j: int|
                    0 <= j < i + 1 && self.entries.key_at(j) == k by {
                    if k == key@ {
                        assert(self.entries.key_at(i as int) == k);
                    } else {
                        let j = choose|j: int| 0 <= j < i && self.entries.key_at(j) == k;
                        assert(self.entries.key_at(j) == k);
                    }
                }
                assert forall|k: Seq<u8>|
                    (exists|j: int| 0 <= j < i + 1 && self.entries.key_at(j) == k) implies #[trigger]
                    entries@.contains_key(k) by {
                    let j = choose|j: int| 0 <= j < i + 1 && self.entries.key_at(j) == k;
                    if j < i {
                        assert(dir.contains_key(k));
                    }
                }
                assert forall|k: Seq<u8>| #[trigger] entries@.contains_key(k) implies {
                    &&& contents(entries@, grown)[k] == self@[k]
                    &&& entries@[k].file_id == merged_id
                    &&& entries@[k].timestamp == self.entries@[k].timestamp
                } by {
                    if k != key@ {
                        assert(dir.contains_key(k));
                    }
                }
                assert(recovered(grown) == entries@);
            }
            i = i + 1;
        }
        let ghost merged = SegmentImage { file_id: merged_id, data: data@, hint: Some(hint@) };
        let mut data_files: HashMap<u32, DataFile> = HashMap::new();
        let _ = data_files.insert(merged_id, data.seal());
        let mut hint_files: Vec<SealedHint> = Vec::new();
        hint_files.push(SealedHint { file_id: merged_id, hint: Some(hint.seal()) });
        self.entries = entries;
        self.data_files = data_files;
        self.hint_files = hint_files;
        self.write_id = merged_id + 1;
        self.write_data = DataFile::new(Vec::new(), merged_id + 1, Some(0));
        self.write_hint = HintFile::new(Vec::new(), merged_id + 1, Some(0));
        proof {
            let fresh = SegmentImage {
                file_id: (merged_id + 1) as u32,
                data: Seq::empty(),
                hint: Some(Seq::empty()),
            };
            let one = seq![merged];
            before.entries.lemma_positions();
            before.entries.lemma_finite();
            assert(self.hint_files@[0].file_id == merged_id);
            assert(self.sealed_images() =~= one);
            assert(self.images() =~= one.push(fresh));
            assert(self.images().drop_last() =~= one);
            assert(in_step(one[0]));
            assert(self.entries@.dom() =~= before.entries@.dom());
            assert forall|k: Seq<u8>| #[trigger] self.entries@.contains_key(k) implies entry_readable(
                self.images(),
                self.entries@[k],
            ) && self@[k] == before@[k] by {
                assert(entry_readable(one, self.entries@[k]));
                lemma_pushed_keeps(one, fresh, merged_id);
            }
            assert(self@ =~= before@);
            assert(hint_record_at(Seq::<u8>::empty(), 0) is None);
            assert(recovered(self.images()) == recovered(one));
        }
    }
}

} // verus!
