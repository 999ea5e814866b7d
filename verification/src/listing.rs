//! From the files of a directory to the segments of a store.

use crate::engine::Segment;
use crate::engine::images_of;
use crate::model::SegmentImage;
use crate::model::ascending;
use crate::names::FileKind;
use crate::names::parse_segment_name;
use crate::names::segment_file_name;
use crate::names::segment_name;
use vstd::prelude::*;
use vstd::slice::slice_to_vec;

verus! {

/// A file as it was found in the directory of a store: its name, without the
/// directory, and its bytes.
#[derive(Debug)]
pub struct StoredFile {
    pub name: String,
    pub contents: Vec<u8>,
}

/// The bytes of the file that holds the given log of segment `file_id`.
/// Where several files of the listing are named so, the last one counts.
pub open spec fn file_of(files: Seq<StoredFile>, file_id: u32, kind: FileKind) -> Option<Seq<u8>>
    decreases files.len(),
{
    if files.len() == 0 {
        None
    } else if segment_name(files.last().name@) == Some((file_id, kind)) {
        Some(files.last().contents@)
    } else {
        file_of(files.drop_last(), file_id, kind)
    }
}

/// Whether the listing holds a file of segment `file_id`.
pub open spec fn listed(files: Seq<StoredFile>, file_id: u32) -> bool {
    file_of(files, file_id, FileKind::Data) is Some || file_of(files, file_id, FileKind::Hint)
        is Some
}

/// Segment `file_id` as the listing holds it.
pub open spec fn image_in(files: Seq<StoredFile>, file_id: u32) -> SegmentImage {
    SegmentImage {
        file_id,
        data: match file_of(files, file_id, FileKind::Data) {
            Some(bytes) => bytes,
            None => Seq::empty(),
        },
        hint: file_of(files, file_id, FileKind::Hint),
    }
}

/// Whether `segs` are the segments of the listing: each segment that has a
/// file in it, once, as the listing holds it, in the order of the ids. Files
/// whose names are not those of segment files count for nothing.
pub open spec fn arranged(files: Seq<StoredFile>, segs: Seq<SegmentImage>) -> bool {
    &&& ascending(segs)
    &&& forall|i: int|
        0 <= i < segs.len() ==> listed(files, (#[trigger] segs[i]).file_id) && segs[i] == image_in(
            files,
            segs[i].file_id,
        )
    &&& forall|file_id: u32| #[trigger]
        listed(files, file_id) ==> exists|i: int|
            0 <= i < segs.len() && (#[trigger] segs[i]).file_id == file_id
}

/// A listing has one arrangement only.
pub proof fn lemma_arranged_unique(
    files: Seq<StoredFile>,
    a: Seq<SegmentImage>,
    b: Seq<SegmentImage>,
)
    requires
        arranged(files, a),
        arranged(files, b),
    ensures
        a == b,
{
    if a.len() == 0 {
        if b.len() > 0 {
            assert(listed(files, b[0].file_id));
        }
        assert(a =~= b);
    } else if b.len() == 0 {
        assert(listed(files, a[0].file_id));
    } else {
        let n = a.len() - 1;
        let m = b.len() - 1;
        assert(listed(files, a[n].file_id));
        assert(listed(files, b[m].file_id));
        let i = choose|i: int| 0 <= i < b.len() && (#[trigger] b[i]).file_id == a[n].file_id;
        let j = choose|j: int| 0 <= j < a.len() && (#[trigger] a[j]).file_id == b[m].file_id;
        assert(b[i].file_id <= b[m].file_id);
        assert(a[j].file_id <= a[n].file_id);
        lemma_fronts_agree(files, a, b, n, m);
        assert(a[n] == image_in(files, a[n].file_id));
        assert(b[m] == image_in(files, b[m].file_id));
        assert(a =~= b);
    }
}

proof fn lemma_fronts_agree(
    files: Seq<StoredFile>,
    a: Seq<SegmentImage>,
    b: Seq<SegmentImage>,
    n: int,
    m: int,
)
    requires
        arranged(files, a),
        arranged(files, b),
        0 <= n < a.len(),
        0 <= m < b.len(),
        a[n].file_id == b[m].file_id,
    ensures
        n == m,
        forall|i: int| 0 <= i < n ==> a[i] == b[i],
    decreases n + m,
{
    if n == 0 {
        if m > 0 {
            let id = b[m - 1].file_id;
            assert(listed(files, id));
            let i = choose|i: int| 0 <= i < a.len() && (#[trigger] a[i]).file_id == id;
            assert(b[m - 1].file_id < b[m].file_id);
            if i > 0 {
                assert(a[0].file_id < a[i].file_id);
            }
        }
    } else if m == 0 {
        let id = a[n - 1].file_id;
        assert(listed(files, id));
        let i = choose|i: int| 0 <= i < b.len() && (#[trigger] b[i]).file_id == id;
        assert(a[n - 1].file_id < a[n].file_id);
        if i > 0 {
            assert(b[0].file_id < b[i].file_id);
        }
    } else {
        let ida = a[n - 1].file_id;
        let idb = b[m - 1].file_id;
        assert(listed(files, ida));
        assert(listed(files, idb));
        let i = choose|i: int| 0 <= i < b.len() && (#[trigger] b[i]).file_id == ida;
        let j = choose|j: int| 0 <= j < a.len() && (#[trigger] a[j]).file_id == idb;
        assert(a[n - 1].file_id < a[n].file_id);
        assert(b[m - 1].file_id < b[m].file_id);
        // i < m, since b[i].file_id < b[m].file_id
        if i >= m {
            if i > m {
                assert(b[m].file_id < b[i].file_id);
            }
        }
        if j >= n {
            if j > n {
                assert(a[n].file_id < a[j].file_id);
            }
        }
        if i < m - 1 {
            assert(b[i].file_id < b[m - 1].file_id);
        }
        if j < n - 1 {
            assert(a[j].file_id < a[n - 1].file_id);
        }
        assert(ida == idb);
        lemma_fronts_agree(files, a, b, n - 1, m - 1);
        assert(a[n - 1] == image_in(files, ida));
        assert(b[m - 1] == image_in(files, idb));
    }
}

/// What the listing holds under a name once one more file has been found.
pub proof fn lemma_file_of_push(
    files: Seq<StoredFile>,
    file: StoredFile,
    file_id: u32,
    kind: FileKind,
)
    ensures
        file_of(files.push(file), file_id, kind) == if segment_name(file.name@) == Some(
            (file_id, kind),
        ) {
            Some(file.contents@)
        } else {
            file_of(files, file_id, kind)
        },
{
    assert(files.push(file).drop_last() =~= files);
    assert(files.push(file).last() == file);
}

fn find_slot(segs: &Vec<Segment>, file_id: u32) -> (at: usize)
    requires
        ascending(images_of(segs@)),
    ensures
        at <= segs@.len(),
        forall|i: int| 0 <= i < at ==> (#[trigger] segs@[i])@.file_id < file_id,
        forall|i: int| at <= i < segs@.len() ==> (#[trigger] segs@[i])@.file_id >= file_id,
{
    let mut at: usize = 0;
    while at < segs.len() && segs[at].file_id() < file_id
        invariant
            at <= segs@.len(),
            forall|i: int| 0 <= i < at ==> (#[trigger] segs@[i])@.file_id < file_id,
        decreases segs@.len() - at,
    {
        at = at + 1;
    }
    proof {
        let images = images_of(segs@);
        assert forall|i: int| at <= i < segs@.len() implies (#[trigger] segs@[i])@.file_id
            >= file_id by {
            assert(images[at as int] == segs@[at as int]@);
            assert(images[i] == segs@[i]@);
        }
    }
    at
}

/// A file whose name is not that of a segment file changes no arrangement.
proof fn lemma_arranged_skip(done: Seq<StoredFile>, file: StoredFile, segs: Seq<SegmentImage>)
    requires
        arranged(done, segs),
        segment_name(file.name@) is None,
    ensures
        arranged(done.push(file), segs),
{
    let found = done.push(file);
    assert forall|id: u32| listed(found, id) == listed(done, id) && image_in(found, id)
        == image_in(done, id) by {
        lemma_file_of_push(done, file, id, FileKind::Data);
        lemma_file_of_push(done, file, id, FileKind::Hint);
    }
    assert forall|i: int| 0 <= i < segs.len() implies listed(found, (#[trigger] segs[i]).file_id)
        && segs[i] == image_in(found, segs[i].file_id) by {
        assert(listed(done, segs[i].file_id));
    }
    assert forall|id: u32| #[trigger] listed(found, id) implies exists|i: int|
        0 <= i < segs.len() && (#[trigger] segs[i]).file_id == id by {
        assert(listed(done, id));
    }
}

/// The segment that a file named `file_id` and `kind` makes of `seg`.
pub open spec fn with_file(seg: SegmentImage, kind: FileKind, contents: Seq<u8>) -> SegmentImage {
    match kind {
        FileKind::Data => SegmentImage { file_id: seg.file_id, data: contents, hint: seg.hint },
        FileKind::Hint => SegmentImage {
            file_id: seg.file_id,
            data: seg.data,
            hint: Some(contents),
        },
    }
}

/// The first file of a segment puts the segment in its place among the
/// others.
pub proof fn lemma_arranged_insert(
    done: Seq<StoredFile>,
    file: StoredFile,
    before: Seq<SegmentImage>,
    at: int,
    file_id: u32,
    kind: FileKind,
)
    requires
        arranged(done, before),
        segment_name(file.name@) == Some((file_id, kind)),
        0 <= at <= before.len(),
        forall|i: int| 0 <= i < at ==> (#[trigger] before[i]).file_id < file_id,
        forall|i: int| at <= i < before.len() ==> (#[trigger] before[i]).file_id > file_id,
    ensures
        arranged(
            done.push(file),
            before.insert(
                at,
                with_file(
                    SegmentImage { file_id, data: Seq::empty(), hint: None },
                    kind,
                    file.contents@,
                ),
            ),
        ),
{
    let found = done.push(file);
    let seg = with_file(
        SegmentImage { file_id, data: Seq::empty(), hint: None },
        kind,
        file.contents@,
    );
    let after = before.insert(at, seg);
    assert forall|id: u32|
        id != file_id implies listed(found, id) == listed(done, id) && image_in(found, id)
        == image_in(done, id) by {
        lemma_file_of_push(done, file, id, FileKind::Data);
        lemma_file_of_push(done, file, id, FileKind::Hint);
    }
    lemma_file_of_push(done, file, file_id, FileKind::Data);
    lemma_file_of_push(done, file, file_id, FileKind::Hint);
    assert(!listed(done, file_id)) by {
        if listed(done, file_id) {
            let i = choose|i: int| 0 <= i < before.len() && (#[trigger] before[i]).file_id == file_id;
            assert(before[i].file_id != file_id);
        }
    }
    assert(seg == image_in(found, file_id));
    assert(listed(found, file_id));
    assert forall|i: int| 0 <= i < after.len() implies (#[trigger] after[i]) == if i < at {
        before[i]
    } else if i == at {
        seg
    } else {
        before[i - 1]
    } by {}
    assert(ascending(after)) by {
        assert forall|i: int, j: int| 0 <= i < j < after.len() implies after[i].file_id
            < after[j].file_id by {
            let bi = if i < at { i } else { i - 1 };
            let bj = if j < at { j } else { j - 1 };
            if i != at {
                assert(after[i] == before[bi]);
            }
            if j != at {
                assert(after[j] == before[bj]);
            }
        }
    }
    assert forall|i: int| 0 <= i < after.len() implies listed(found, (#[trigger] after[i]).file_id)
        && after[i] == image_in(found, after[i].file_id) by {
        if i != at {
            let bi = if i < at { i } else { i - 1 };
            assert(after[i] == before[bi]);
            assert(listed(done, before[bi].file_id));
        }
    }
    assert forall|id: u32| #[trigger] listed(found, id) implies exists|i: int|
        0 <= i < after.len() && (#[trigger] after[i]).file_id == id by {
        if id == file_id {
            assert(after[at].file_id == id);
        } else {
            assert(listed(done, id));
            let i = choose|i: int| 0 <= i < before.len() && (#[trigger] before[i]).file_id == id;
            let k = if i < at { i } else { i + 1 };
            assert(after[k] == before[i]);
            assert(after[k].file_id == id);
        }
    }
}

/// A further file of a segment takes its place in the segment.
pub proof fn lemma_arranged_update(
    done: Seq<StoredFile>,
    file: StoredFile,
    before: Seq<SegmentImage>,
    at: int,
    file_id: u32,
    kind: FileKind,
)
    requires
        arranged(done, before),
        segment_name(file.name@) == Some((file_id, kind)),
        0 <= at < before.len(),
        before[at].file_id == file_id,
    ensures
        arranged(done.push(file), before.update(at, with_file(before[at], kind, file.contents@))),
{
    let found = done.push(file);
    let seg = with_file(before[at], kind, file.contents@);
    let after = before.update(at, seg);
    assert forall|id: u32|
        id != file_id implies listed(found, id) == listed(done, id) && image_in(found, id)
        == image_in(done, id) by {
        lemma_file_of_push(done, file, id, FileKind::Data);
        lemma_file_of_push(done, file, id, FileKind::Hint);
    }
    lemma_file_of_push(done, file, file_id, FileKind::Data);
    lemma_file_of_push(done, file, file_id, FileKind::Hint);
    assert(before[at] == image_in(done, file_id));
    assert(seg == image_in(found, file_id));
    assert(listed(found, file_id));
    assert(ascending(after)) by {
        assert forall|i: int, j: int| 0 <= i < j < after.len() implies after[i].file_id
            < after[j].file_id by {
            assert(after[i].file_id == before[i].file_id);
            assert(after[j].file_id == before[j].file_id);
        }
    }
    assert forall|i: int| 0 <= i < after.len() implies listed(found, (#[trigger] after[i]).file_id)
        && after[i] == image_in(found, after[i].file_id) by {
        if i != at {
            assert(after[i] == before[i]);
            assert(listed(done, before[i].file_id));
            if before[i].file_id == file_id {
                if i < at {
                    assert(before[i].file_id < before[at].file_id);
                } else {
                    assert(before[at].file_id < before[i].file_id);
                }
            }
        }
    }
    assert forall|id: u32| #[trigger] listed(found, id) implies exists|i: int|
        0 <= i < after.len() && (#[trigger] after[i]).file_id == id by {
        if id == file_id {
            assert(after[at].file_id == id);
        } else {
            assert(listed(done, id));
            let i = choose|i: int| 0 <= i < before.len() && (#[trigger] before[i]).file_id == id;
            assert(after[i].file_id == id);
        }
    }
}

/// The segments of a listing, in the order of their ids.
pub fn arrange(files: Vec<StoredFile>) -> (segs: Vec<Segment>)
    ensures
        arranged(files@, images_of(segs@)),
{
    let mut rest = files;
    let mut segs: Vec<Segment> = Vec::new();
    let ghost mut done: Seq<StoredFile> = Seq::empty();
    assert(done + rest@ =~= files@);
    while rest.len() > 0
        invariant
            done + rest@ == files@,
            arranged(done, images_of(segs@)),
        decreases rest@.len(),
    {
        let ghost before = images_of(segs@);
        let ghost rest_before = rest@;
        let file = rest.remove(0);
        let ghost found = done.push(file);
        assert(found + rest@ =~= done + rest_before);
        match parse_segment_name(file.name.as_str()) {
            None => {
                proof {
                    lemma_arranged_skip(done, file, before);
                }
            },
            Some((file_id, kind)) => {
                let at = find_slot(&segs, file_id);
                let fresh = at == segs.len() || segs[at].file_id() != file_id;
                proof {
                    assert forall|i: int| 0 <= i < before.len() implies if i < at {
                        (#[trigger] before[i]).file_id < file_id
                    } else if i == at && !fresh {
                        before[i].file_id == file_id
                    } else {
                        before[i].file_id > file_id
                    } by {
                        assert(before[i] == segs@[i]@);
                        if i > at {
                            assert(before[at as int] == segs@[at as int]@);
                        }
                    }
                    if fresh {
                        lemma_arranged_insert(done, file, before, at as int, file_id, kind);
                    } else {
                        lemma_arranged_update(done, file, before, at as int, file_id, kind);
                    }
                }
                let seg = if fresh {
                    Segment::new(file_id, Vec::new(), None)
                } else {
                    segs.remove(at)
                };
                let ghost old_seg = seg@;
                assert(!fresh ==> old_seg == before[at as int]);
                let seg = match kind {
                    FileKind::Data => seg.with_data(file.contents),
                    FileKind::Hint => seg.with_hint(file.contents),
                };
                assert(seg@ == with_file(old_seg, kind, file.contents@));
                segs.insert(at, seg);
                proof {
                    let after = images_of(segs@);
                    if fresh {
                        assert(after =~= before.insert(at as int, seg@));
                    } else {
                        assert(after =~= before.update(at as int, seg@));
                    }
                }
            },
        }
        proof {
            done = found;
        }
    }
    assert(done =~= files@);
    segs
}

/// The segment `file_id` with the given logs.
pub open spec fn image(file_id: u32, data: &Vec<u8>, hint: Option<&Vec<u8>>) -> SegmentImage {
    SegmentImage {
        file_id,
        data: data@,
        hint: match hint {
            Some(bytes) => Some(bytes@),
            None => None,
        },
    }
}

/// Adds the files of one more segment to a listing: the data file, and the
/// hint file where the segment has one, under the names of segment `file_id`.
/// Where the listing held the segments `segs`, whose ids are all below
/// `file_id`, it then holds `segs` and the new segment behind them.
pub fn list_segment(
    files: &mut Vec<StoredFile>,
    file_id: u32,
    data: &Vec<u8>,
    hint: Option<&Vec<u8>>,
)
    ensures
        forall|segs: Seq<SegmentImage>|
            #[trigger] arranged(old(files)@, segs) && (forall|i: int|
                0 <= i < segs.len() ==> (#[trigger] segs[i]).file_id < file_id) ==> arranged(
                final(files)@,
                segs.push(image(file_id, data, hint)),
            ),
{
    let ghost before = files@;
    let data_file = StoredFile {
        name: segment_file_name(file_id, FileKind::Data),
        contents: slice_to_vec(data.as_slice()),
    };
    let ghost with_data = SegmentImage { file_id, data: data@, hint: None };
    proof {
        assert forall|segs: Seq<SegmentImage>|
            #[trigger] arranged(before, segs) && (forall|i: int|
                0 <= i < segs.len() ==> (#[trigger] segs[i]).file_id < file_id) implies arranged(
            before.push(data_file),
            segs.push(with_data),
        ) by {
            lemma_arranged_insert(
                before,
                data_file,
                segs,
                segs.len() as int,
                file_id,
                FileKind::Data,
            );
            assert(segs.insert(segs.len() as int, with_data) =~= segs.push(with_data));
        }
    }
    files.push(data_file);
    match hint {
        Some(bytes) => {
            let ghost listed_data = files@;
            let hint_file = StoredFile {
                name: segment_file_name(file_id, FileKind::Hint),
                contents: slice_to_vec(bytes.as_slice()),
            };
            proof {
                let whole = image(file_id, data, hint);
                assert forall|segs: Seq<SegmentImage>|
                    #[trigger] arranged(before, segs) && (forall|i: int|
                        0 <= i < segs.len() ==> (#[trigger] segs[i]).file_id
                            < file_id) implies arranged(
                    listed_data.push(hint_file),
                    segs.push(whole),
                ) by {
                    let one = segs.push(with_data);
                    lemma_arranged_update(
                        listed_data,
                        hint_file,
                        one,
                        segs.len() as int,
                        file_id,
                        FileKind::Hint,
                    );
                    assert(one.update(segs.len() as int, whole) =~= segs.push(whole));
                }
            }
            files.push(hint_file);
        },
        None => {},
    }
}

} // verus!
