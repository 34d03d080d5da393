//! What holds of every change: the laws of replacing, adding and deleting,
//! proved from the definitions that the mutator's contracts use.
use vstd::prelude::*;
use vstd::utf8::encode_utf8;
use crate::channel::{overwrite, range_of, resized};
use crate::codec::{
    entry_at, entry_bytes, entry_path, entry_readable, entry_wf, EntryView, Header, header_bytes,
    header_error, header_fields_at, HEADER_SIZE, le_u32_at, lemma_entry_round_trip,
    lemma_header_layout, lemma_header_round_trip, lemma_padded_path, lemma_u32_le_len,
    lemma_u64_le_len, pad4, record_size,
};
use crate::digest::checksum;
use crate::error::PckError;
use crate::index::{
    ascending, distinct_paths, has_path, insert_sorted, position_of, rank, RecordView,
};
use crate::mutator::{
    added, any_present, delete_outcome, distinct_inputs, distinct_listed, finish_error, finished,
    inputs_have, lemma_max_data_end_floor, lemma_remaining, length_after, listed, max_data_end,
    new_record, Patch, relocated, remaining, replace_outcome, replace_patch, replaced, with_count,
    written_back,
};
use crate::planner::{lemma_table_size_floor, padded_len, paths_fit, plan_of, selected};
use crate::table::{
    built_ok, built_records, data_below, is_last, kept_upto, last_wins, lemma_kept,
    lemma_last_wins_wf, lemma_table_pos_grows, pair_at, pairs_wf, read_error, scan_error,
    scanned_pairs, table_bytes, table_pos, table_size,
};

verus! {

/// Every record of the list is sound: its length field counts its path bytes
/// and its checksum has 16 bytes.
pub open spec fn entries_wf(recs: Seq<RecordView>) -> bool {
    forall|i: int| 0 <= i < recs.len() ==> entry_wf((#[trigger] recs[i]).entry)
}

/// The data of an entry lies within the bytes `a`.
pub open spec fn data_within(a: Seq<u8>, e: EntryView) -> bool {
    e.offset + e.size <= a.len()
}

/// The data of an entry, as the bytes `a` hold it.
pub open spec fn data_of(a: Seq<u8>, e: EntryView) -> Seq<u8> {
    a.subrange(e.offset as int, e.offset + e.size)
}

/// The record `r` is the record `q` but for the place of its data.
pub open spec fn same_but_offset(r: RecordView, q: RecordView) -> bool {
    &&& r.path == q.path
    &&& r.table_offset == q.table_offset
    &&& r.entry.path_len == q.entry.path_len
    &&& r.entry.path_bytes == q.entry.path_bytes
    &&& r.entry.size == q.entry.size
    &&& r.entry.md5 == q.entry.md5
}

/// What lies within a prefix is the same in the whole.
pub proof fn lemma_prefix_range(a: Seq<u8>, b: Seq<u8>, lo: int, hi: int)
    requires
        a.is_prefix_of(b),
        0 <= lo <= hi <= a.len(),
    ensures
        b.subrange(lo, hi) == a.subrange(lo, hi),
{
    assert(b.subrange(lo, hi) =~= a.subrange(lo, hi));
}

/// A prefix of a prefix is a prefix.
pub proof fn lemma_prefix_chain(a: Seq<u8>, b: Seq<u8>, c: Seq<u8>)
    requires
        a.is_prefix_of(b),
        b.is_prefix_of(c),
    ensures
        a.is_prefix_of(c),
{
    assert(a =~= c.subrange(0, a.len() as int));
}

/// Writing over a range leaves what lies outside it, and does not shorten.
pub proof fn lemma_overwrite_keeps(a: Seq<u8>, pos: int, data: Seq<u8>, lo: int, hi: int)
    requires
        0 <= pos,
        0 <= lo <= hi <= a.len(),
        hi <= pos || pos + data.len() <= lo,
    ensures
        overwrite(a, pos, data).len() >= a.len(),
        overwrite(a, pos, data).subrange(lo, hi) == a.subrange(lo, hi),
{
    assert(overwrite(a, pos, data).subrange(lo, hi) =~= a.subrange(lo, hi));
}

/// What was written over a range stands there.
pub proof fn lemma_overwrite_holds(a: Seq<u8>, pos: int, data: Seq<u8>)
    requires
        0 <= pos,
    ensures
        overwrite(a, pos, data).len() >= pos + data.len(),
        overwrite(a, pos, data).subrange(pos, pos + data.len()) == data,
{
    assert(overwrite(a, pos, data).subrange(pos, pos + data.len()) =~= data);
}

/// A table of sound records has the size that their length fields give.
pub proof fn lemma_table_bytes_len(recs: Seq<RecordView>)
    requires
        entries_wf(recs),
    ensures
        table_bytes(recs).len() == table_size(recs),
    decreases recs.len(),
{
    if recs.len() > 0 {
        let e = recs.last().entry;
        assert(entry_wf(recs[recs.len() - 1].entry));
        assert(entries_wf(recs.drop_last())) by {
            assert forall|i: int| 0 <= i < recs.drop_last().len() implies entry_wf(
                (#[trigger] recs.drop_last()[i]).entry,
            ) by {
                assert(recs.drop_last()[i] == recs[i]);
            }
        }
        lemma_table_bytes_len(recs.drop_last());
        lemma_u32_le_len(e.path_len);
        lemma_u64_le_len(e.offset);
        lemma_u64_le_len(e.size);
    }
}

/// In a table, the record at place `i` stands behind the records before it,
/// and the rest of the table follows it.
pub proof fn lemma_table_split(recs: Seq<RecordView>, i: int) -> (rest: Seq<u8>)
    requires
        0 <= i < recs.len(),
    ensures
        table_bytes(recs) == table_bytes(recs.take(i)) + entry_bytes(recs[i].entry) + rest,
    decreases recs.len(),
{
    if i == recs.len() - 1 {
        assert(recs.take(i) =~= recs.drop_last());
        let rest = Seq::<u8>::empty();
        assert(table_bytes(recs) =~= table_bytes(recs.take(i)) + entry_bytes(recs[i].entry)
            + rest);
        rest
    } else {
        let shorter = recs.drop_last();
        let inner = lemma_table_split(shorter, i);
        assert(shorter.take(i) =~= recs.take(i));
        assert(shorter[i] == recs[i]);
        let rest = inner + entry_bytes(recs.last().entry);
        assert(table_bytes(recs) =~= table_bytes(recs.take(i)) + entry_bytes(recs[i].entry)
            + rest);
        rest
    }
}

/// Where the record at place `i` starts in a table that starts at `start`.
pub open spec fn slot(recs: Seq<RecordView>, start: int, i: int) -> int {
    start + table_size(recs.take(i))
}

/// Bytes that hold a table from `start` on hold each of its records at its
/// slot: it can be read there, and what is read is the record.
pub proof fn lemma_table_read_back(a: Seq<u8>, recs: Seq<RecordView>, start: int, i: int)
    requires
        entries_wf(recs),
        0 <= start,
        0 <= i < recs.len(),
        start + table_bytes(recs).len() <= a.len(),
        a.subrange(start, start + table_bytes(recs).len()) == table_bytes(recs),
    ensures
        entry_readable(a, slot(recs, start, i)),
        entry_at(a, slot(recs, start, i)) == recs[i].entry,
{
    let rest = lemma_table_split(recs, i);
    let head = table_bytes(recs.take(i));
    assert(entries_wf(recs.take(i))) by {
        assert forall|j: int| 0 <= j < recs.take(i).len() implies entry_wf(
            (#[trigger] recs.take(i)[j]).entry,
        ) by {
            assert(recs.take(i)[j] == recs[j]);
        }
    }
    lemma_table_bytes_len(recs.take(i));
    let e = recs[i].entry;
    let t = table_bytes(recs);
    let before = a.subrange(0, start) + head;
    let after = rest + a.subrange(start + t.len(), a.len() as int);
    assert(a =~= before + entry_bytes(e) + after) by {
        assert(a =~= a.subrange(0, start) + a.subrange(start, start + t.len()) + a.subrange(
            start + t.len(),
            a.len() as int,
        ));
    }
    lemma_entry_round_trip(e, before, after);
}

/// The record `r` stands for the same data as the record `q` did: the path,
/// the size and the checksum are those of `q`, and where the data of `q` lay
/// within `a`, the data of `r` lies within `b` and is the same bytes.
pub open spec fn carried(b: Seq<u8>, r: RecordView, a: Seq<u8>, q: RecordView) -> bool {
    &&& same_but_offset(r, q)
    &&& data_within(a, q.entry) ==> data_within(b, r.entry) && data_of(b, r.entry) == data_of(
        a,
        q.entry,
    )
}

/// Relocation keeps the records in their places and their data as it was:
/// the archive only grows, a record that is replaced or whose data starts at
/// or behind the limit is untouched, and every other record points to a copy
/// of its data behind the old end.
pub proof fn lemma_relocated(
    a: Seq<u8>,
    recs: Seq<RecordView>,
    reps: Seq<(Seq<char>, Seq<u8>)>,
    limit: u64,
    k: nat,
)
    requires
        k <= recs.len(),
        relocated(a, recs, reps, limit, k) is Ok,
        relocated(a, recs, reps, limit, k)->Ok_0.archive.len() <= u64::MAX,
    ensures
        ({
            let st = relocated(a, recs, reps, limit, k)->Ok_0;
            &&& a.is_prefix_of(st.archive)
            &&& st.records.len() == recs.len()
            &&& forall|i: int|
                0 <= i < recs.len() ==> carried(st.archive, #[trigger] st.records[i], a, recs[i])
            &&& forall|i: int|
                0 <= i < recs.len() && (i >= k || inputs_have(reps, recs[i].path)
                    || recs[i].entry.offset >= limit) ==> #[trigger] st.records[i] == recs[i]
            &&& forall|i: int|
                0 <= i < k && !inputs_have(reps, recs[i].path) && recs[i].entry.offset < limit
                    ==> (#[trigger] st.records[i]).entry.offset >= a.len()
        }),
    decreases k,
{
    let st = relocated(a, recs, reps, limit, k)->Ok_0;
    if k == 0 {
        assert(a =~= st.archive.subrange(0, a.len() as int));
    } else {
        let prev = relocated(a, recs, reps, limit, (k - 1) as nat)->Ok_0;
        let r = recs[k - 1];
        assert(prev.archive.is_prefix_of(st.archive)) by {
            assert(prev.archive =~= st.archive.subrange(0, prev.archive.len() as int));
        }
        lemma_relocated(a, recs, reps, limit, (k - 1) as nat);
        lemma_prefix_chain(a, prev.archive, st.archive);
        if !(inputs_have(reps, r.path) || r.entry.offset >= limit) {
            let moved = range_of(prev.archive, r.entry.offset, r.entry.size);
            assert(st.archive == prev.archive + moved);
            assert(prev.records[k - 1] == r);
            assert forall|i: int| 0 <= i < recs.len() implies carried(
                st.archive,
                #[trigger] st.records[i],
                a,
                recs[i],
            ) by {
                if i == k - 1 {
                    if data_within(a, r.entry) {
                        if r.entry.size > 0 {
                            lemma_prefix_range(
                                a,
                                prev.archive,
                                r.entry.offset as int,
                                r.entry.offset + r.entry.size,
                            );
                        }
                        assert(data_of(st.archive, st.records[i].entry) =~= data_of(a, r.entry));
                    }
                } else {
                    assert(st.records[i] == prev.records[i]);
                    assert(carried(prev.archive, prev.records[i], a, recs[i]));
                    if data_within(a, recs[i].entry) {
                        lemma_prefix_range(
                            prev.archive,
                            st.archive,
                            prev.records[i].entry.offset as int,
                            prev.records[i].entry.offset + prev.records[i].entry.size,
                        );
                    }
                }
            }
            assert forall|i: int|
                0 <= i < recs.len() && (i >= k || inputs_have(reps, recs[i].path)
                    || recs[i].entry.offset >= limit) implies #[trigger] st.records[i]
                == recs[i] by {
                assert(st.records[i] == prev.records[i]);
            }
            assert forall|i: int|
                0 <= i < k && !inputs_have(reps, recs[i].path) && recs[i].entry.offset
                    < limit implies (#[trigger] st.records[i]).entry.offset >= a.len() by {
                if i < k - 1 {
                    assert(st.records[i] == prev.records[i]);
                }
            }
        }
    }
}

/// The rank of an offset is a place in the list or its end.
pub proof fn lemma_rank_bounds(recs: Seq<RecordView>, off: u64)
    ensures
        0 <= rank(recs, off) <= recs.len(),
    decreases recs.len(),
{
    if recs.len() > 0 && !(recs.last().table_offset < off) {
        lemma_rank_bounds(recs.drop_last(), off);
    }
}

/// The record `r` holds the file: its path is the file's path, its size and
/// checksum are those of the file's bytes, and its data in `a` is those bytes.
pub open spec fn holds_file(a: Seq<u8>, r: RecordView, file: (Seq<char>, Seq<u8>)) -> bool {
    &&& r.path == file.0
    &&& r.entry.size == file.1.len()
    &&& r.entry.md5 == checksum(file.1)
    &&& data_within(a, r.entry)
    &&& data_of(a, r.entry) == file.1
}

/// Some record of the list is `r`.
pub open spec fn has_record(recs: Seq<RecordView>, r: RecordView) -> bool {
    exists|j: int| 0 <= j < recs.len() && #[trigger] recs[j] == r
}

/// Some record of the list holds the file.
pub open spec fn file_held(a: Seq<u8>, recs: Seq<RecordView>, file: (Seq<char>, Seq<u8>)) -> bool {
    exists|j: int| 0 <= j < recs.len() && holds_file(a, #[trigger] recs[j], file)
}

/// The record `r` was added for one of the files: it is sound, its path is
/// that of one of them, and its data starts at or behind `floor`.
pub open spec fn is_added(r: RecordView, floor: Seq<u8>, files: Seq<(Seq<char>, Seq<u8>)>) -> bool {
    &&& entry_wf(r.entry)
    &&& r.entry.path_bytes == pad4(encode_utf8(r.path))
    &&& r.entry.offset >= floor.len()
    &&& inputs_have(files, r.path)
}

/// Adding files keeps every record as it was and gives each new file one
/// record more, which holds it: the archive only grows, and the table has
/// as many records more as files were added.
pub proof fn lemma_added(st0: Patch, adds: Seq<(Seq<char>, Seq<u8>)>, next: int, k: nat)
    requires
        k <= adds.len(),
        added(st0, adds, next, k) is Ok,
        added(st0, adds, next, k)->Ok_0.0.archive.len() <= u64::MAX,
        paths_fit(adds),
    ensures
        ({
            let st = added(st0, adds, next, k)->Ok_0.0;
            &&& st0.archive.is_prefix_of(st.archive)
            &&& st.records.len() == st0.records.len() + k
            &&& forall|i: int|
                0 <= i < st0.records.len() ==> has_record(st.records, #[trigger] st0.records[i])
            &&& forall|m: int| 0 <= m < k ==> file_held(st.archive, st.records, #[trigger] adds[m])
            &&& forall|j: int|
                0 <= j < st.records.len() ==> has_record(st0.records, #[trigger] st.records[j])
                    || is_added(st.records[j], st0.archive, adds.take(k as int))
        }),
    decreases k,
{
    let st = added(st0, adds, next, k)->Ok_0.0;
    if k == 0 {
        assert(st0.archive =~= st.archive.subrange(0, st0.archive.len() as int));
        assert(adds.take(0).len() == 0);
        assert forall|i: int| 0 <= i < st0.records.len() implies has_record(
            st.records,
            #[trigger] st0.records[i],
        ) by {
            assert(st.records[i] == st0.records[i]);
        }
        assert forall|j: int| 0 <= j < st.records.len() implies has_record(
            st0.records,
            #[trigger] st.records[j],
        ) by {
            assert(st0.records[j] == st.records[j]);
        }
    } else {
        let before = added(st0, adds, next, (k - 1) as nat)->Ok_0;
        let prev = before.0;
        let free = before.1;
        let file = adds[k - 1];
        let rec = new_record(
            file.0,
            free as u64,
            prev.archive.len() as u64,
            file.1.len() as u64,
            checksum(file.1),
        );
        assert(st.archive == prev.archive + file.1);
        assert(st.records == insert_sorted(prev.records, rec));
        assert(prev.archive.is_prefix_of(st.archive)) by {
            assert(prev.archive =~= st.archive.subrange(0, prev.archive.len() as int));
        }
        lemma_added(st0, adds, next, (k - 1) as nat);
        lemma_prefix_chain(st0.archive, prev.archive, st.archive);
        lemma_rank_bounds(prev.records, rec.table_offset);
        let p = rank(prev.records, rec.table_offset);
        assert(st.records[p] == rec);
        assert forall|j: int| 0 <= j < prev.records.len() implies has_record(
            st.records,
            #[trigger] prev.records[j],
        ) by {
            if j < p {
                assert(st.records[j] == prev.records[j]);
            } else {
                assert(st.records[j + 1] == prev.records[j]);
            }
        }
        assert forall|i: int| 0 <= i < st0.records.len() implies has_record(
            st.records,
            #[trigger] st0.records[i],
        ) by {
            let j = choose|j: int| 0 <= j < prev.records.len() && #[trigger] prev.records[j]
                == st0.records[i];
            assert(has_record(st.records, prev.records[j]));
        }
        assert forall|m: int| 0 <= m < k implies file_held(
            st.archive,
            st.records,
            #[trigger] adds[m],
        ) by {
            if m < k - 1 {
                let j = choose|j: int|
                    0 <= j < prev.records.len() && holds_file(
                        prev.archive,
                        #[trigger] prev.records[j],
                        adds[m],
                    );
                let r = prev.records[j];
                lemma_prefix_range(
                    prev.archive,
                    st.archive,
                    r.entry.offset as int,
                    r.entry.offset + r.entry.size,
                );
                assert(has_record(st.records, prev.records[j]));
                let jj = choose|jj: int| 0 <= jj < st.records.len() && #[trigger] st.records[jj]
                    == r;
                assert(holds_file(st.archive, st.records[jj], adds[m]));
            } else {
                assert(data_of(st.archive, rec.entry) =~= file.1);
                assert(holds_file(st.archive, st.records[p], adds[m]));
            }
        }
        assert forall|j: int| 0 <= j < st.records.len() implies has_record(
            st0.records,
            #[trigger] st.records[j],
        ) || is_added(st.records[j], st0.archive, adds.take(k as int)) by {
            if j == p {
                assert(adds.take(k as int)[k - 1] == file);
                assert(paths_fit(adds));
                assert(padded_len(adds[k - 1].0) <= u32::MAX);
                assert(is_added(st.records[j], st0.archive, adds.take(k as int)));
            } else {
                let q = if j < p {
                    j
                } else {
                    j - 1
                };
                assert(st.records[j] == prev.records[q]);
                if !has_record(st0.records, prev.records[q]) {
                    let m = choose|m: int|
                        0 <= m < k - 1 && (#[trigger] adds.take(k - 1)[m]).0
                            == prev.records[q].path;
                    assert(adds.take(k as int)[m].0 == prev.records[q].path);
                }
            }
        }
    }
}

/// The record `r` is the record `q` but for its data: the same path at the
/// same place of the table, with the same path bytes.
pub open spec fn same_place(r: RecordView, q: RecordView) -> bool {
    &&& r.path == q.path
    &&& r.table_offset == q.table_offset
    &&& r.entry.path_len == q.entry.path_len
    &&& r.entry.path_bytes == q.entry.path_bytes
}

/// Replacing keeps every record at its place: the archive only grows, a
/// record whose path is not among the replacements is untouched, and each
/// replaced record holds its new file, behind the old end.
pub proof fn lemma_replaced(st0: Patch, reps: Seq<(Seq<char>, Seq<u8>)>, k: nat)
    requires
        k <= reps.len(),
        replaced(st0, reps, k) is Ok,
        replaced(st0, reps, k)->Ok_0.archive.len() <= u64::MAX,
        distinct_paths(st0.records),
        distinct_inputs(reps),
    ensures
        ({
            let st = replaced(st0, reps, k)->Ok_0;
            &&& st0.archive.is_prefix_of(st.archive)
            &&& st.records.len() == st0.records.len()
            &&& forall|i: int|
                0 <= i < st0.records.len() ==> same_place(#[trigger] st.records[i], st0.records[i])
            &&& forall|i: int|
                0 <= i < st0.records.len() && !inputs_have(
                    reps.take(k as int),
                    st0.records[i].path,
                ) ==> #[trigger] st.records[i] == st0.records[i]
            &&& forall|i: int|
                0 <= i < st0.records.len() && inputs_have(
                    reps.take(k as int),
                    st0.records[i].path,
                ) ==> (#[trigger] st.records[i]).entry.offset >= st0.archive.len()
                    && st.records[i].entry.md5.len() == 16
            &&& forall|m: int| 0 <= m < k ==> file_held(st.archive, st.records, #[trigger] reps[m])
            &&& forall|m: int| 0 <= m < k ==> has_path(st0.records, (#[trigger] reps[m]).0)
        }),
    decreases k,
{
    let st = replaced(st0, reps, k)->Ok_0;
    if k == 0 {
        assert(st0.archive =~= st.archive.subrange(0, st0.archive.len() as int));
        assert(reps.take(0).len() == 0);
    } else {
        let prev = replaced(st0, reps, (k - 1) as nat)->Ok_0;
        let file = reps[k - 1];
        let at = position_of(prev.records, file.0);
        assert(prev.archive.is_prefix_of(st.archive)) by {
            assert(prev.archive =~= st.archive.subrange(0, prev.archive.len() as int));
        }
        lemma_replaced(st0, reps, (k - 1) as nat);
        lemma_prefix_chain(st0.archive, prev.archive, st.archive);
        assert(0 <= at < prev.records.len() && prev.records[at].path == file.0);
        assert(st.records[at].path == file.0);
        assert(same_place(prev.records[at], st0.records[at]));
        assert(reps.take(k as int)[k - 1] == file);
        assert forall|i: int| 0 <= i < st0.records.len() implies same_place(
            #[trigger] st.records[i],
            st0.records[i],
        ) by {
            assert(same_place(prev.records[i], st0.records[i]));
        }
        assert forall|i: int|
            0 <= i < st0.records.len() && !inputs_have(
                reps.take(k as int),
                st0.records[i].path,
            ) implies #[trigger] st.records[i] == st0.records[i] by {
            assert(i != at);
            assert(!inputs_have(reps.take(k - 1), st0.records[i].path)) by {
                if inputs_have(reps.take(k - 1), st0.records[i].path) {
                    let m = choose|m: int|
                        0 <= m < k - 1 && (#[trigger] reps.take(k - 1)[m]).0
                            == st0.records[i].path;
                    assert(reps.take(k as int)[m].0 == st0.records[i].path);
                }
            }
            assert(prev.records[i] == st0.records[i]);
        }
        assert forall|i: int|
            0 <= i < st0.records.len() && inputs_have(
                reps.take(k as int),
                st0.records[i].path,
            ) implies (#[trigger] st.records[i]).entry.offset >= st0.archive.len()
            && st.records[i].entry.md5.len() == 16 by {
            if i != at {
                let m = choose|m: int|
                    0 <= m < k && (#[trigger] reps.take(k as int)[m]).0 == st0.records[i].path;
                assert(same_place(prev.records[i], st0.records[i]));
                assert(m != k - 1);
                assert(reps.take(k - 1)[m].0 == st0.records[i].path);
                assert(inputs_have(reps.take(k - 1), st0.records[i].path));
                assert(st.records[i] == prev.records[i]);
            }
        }
        assert forall|m: int| 0 <= m < k implies file_held(
            st.archive,
            st.records,
            #[trigger] reps[m],
        ) by {
            if m < k - 1 {
                let j = choose|j: int|
                    0 <= j < prev.records.len() && holds_file(
                        prev.archive,
                        #[trigger] prev.records[j],
                        reps[m],
                    );
                let r = prev.records[j];
                assert(reps[m].0 != reps[k - 1].0);
                assert(j != at);
                lemma_prefix_range(
                    prev.archive,
                    st.archive,
                    r.entry.offset as int,
                    r.entry.offset + r.entry.size,
                );
                assert(holds_file(st.archive, st.records[j], reps[m]));
            } else {
                assert(data_of(st.archive, st.records[at].entry) =~= file.1);
                assert(holds_file(st.archive, st.records[at], reps[m]));
            }
        }
        assert forall|m: int| 0 <= m < k implies has_path(st0.records, (#[trigger] reps[m]).0) by {
            if m == k - 1 {
                assert(st0.records[at].path == file.0);
            }
        }
    }
}

/// The records read through a sound index are sound: none has the path or
/// the place of another, they ascend behind the header, and each has as
/// many path bytes as its length field says.
pub proof fn lemma_built(a: Seq<u8>, pairs: Seq<(Seq<char>, u64)>)
    requires
        pairs_wf(pairs),
        built_ok(a, pairs),
    ensures
        built_records(a, pairs).len() == pairs.len(),
        entries_wf(built_records(a, pairs)),
        distinct_paths(built_records(a, pairs)),
        ascending(built_records(a, pairs)),
        forall|i: int|
            0 <= i < pairs.len() ==> (#[trigger] built_records(a, pairs)[i]).table_offset
                >= HEADER_SIZE,
        forall|i: int|
            0 <= i < pairs.len() ==> (#[trigger] built_records(a, pairs)[i]).table_offset
                + record_size(built_records(a, pairs)[i].entry.path_len) <= a.len(),
{
    let recs = built_records(a, pairs);
    assert forall|i: int| 0 <= i < recs.len() implies entry_wf((#[trigger] recs[i]).entry) by {
        assert(entry_readable(a, pairs[i].1 as int));
    }
    assert forall|i: int, j: int|
        0 <= i < recs.len() && 0 <= j < recs.len() && i != j implies (#[trigger] recs[i]).path != (
    #[trigger] recs[j]).path by {
        if i < j {
            assert(pairs[i].0 != pairs[j].0);
        } else {
            assert(pairs[j].0 != pairs[i].0);
        }
    }
    assert forall|i: int, j: int| 0 <= i < j < recs.len() implies (#[trigger] recs[i]).table_offset
        < (#[trigger] recs[j]).table_offset by {
        assert(pairs[i].1 < pairs[j].1);
    }
    assert forall|i: int| 0 <= i < pairs.len() implies (#[trigger] recs[i]).table_offset
        >= HEADER_SIZE && recs[i].table_offset + record_size(recs[i].entry.path_len)
        <= a.len() by {
        assert(pairs[i].1 >= HEADER_SIZE);
        assert(entry_readable(a, pairs[i].1 as int));
    }
}

/// What a selection holds: the files whose path is, or is not, among the
/// records, and no path twice where the files had none twice.
pub proof fn lemma_selected(
    files: Seq<(Seq<char>, Seq<u8>)>,
    recs: Seq<RecordView>,
    present: bool,
)
    ensures
        forall|p: Seq<char>| #[trigger]
            inputs_have(selected(files, recs, present), p) ==> inputs_have(files, p) && has_path(
                recs,
                p,
            ) == present,
        forall|p: Seq<char>| #[trigger]
            inputs_have(files, p) && has_path(recs, p) == present ==> inputs_have(
                selected(files, recs, present),
                p,
            ),
        forall|m: int|
            0 <= m < files.len() && has_path(recs, (#[trigger] files[m]).0) == present
                ==> exists|n: int|
                0 <= n < selected(files, recs, present).len() && #[trigger] selected(
                    files,
                    recs,
                    present,
                )[n] == files[m],
        distinct_inputs(files) ==> distinct_inputs(selected(files, recs, present)),
        selected(files, recs, present).len() <= files.len(),
        selected(files, recs, true).len() + selected(files, recs, false).len() == files.len(),
    decreases files.len(),
{
    let out = selected(files, recs, present);
    if files.len() == 0 {
        assert(selected(files, recs, true).len() == 0);
        assert(selected(files, recs, false).len() == 0);
    } else {
        let shorter = files.drop_last();
        let rest = selected(shorter, recs, present);
        lemma_selected(shorter, recs, present);
        lemma_selected(shorter, recs, !present);
        let last = files.last();
        let taken = has_path(recs, last.0) == present;
        assert forall|p: Seq<char>| inputs_have(out, p) implies inputs_have(files, p) && has_path(
            recs,
            p,
        ) == present by {
            let n = choose|n: int| 0 <= n < out.len() && (#[trigger] out[n]).0 == p;
            if n < rest.len() {
                assert(rest[n].0 == p);
                assert(inputs_have(rest, p));
                let m = choose|m: int| 0 <= m < shorter.len() && (#[trigger] shorter[m]).0 == p;
                assert(files[m].0 == p);
            } else {
                assert(files[files.len() - 1].0 == p);
            }
        }
        assert forall|p: Seq<char>|
            inputs_have(files, p) && has_path(recs, p) == present implies inputs_have(out, p) by {
            let m = choose|m: int| 0 <= m < files.len() && (#[trigger] files[m]).0 == p;
            if m < files.len() - 1 {
                assert(shorter[m].0 == p);
                assert(inputs_have(rest, p));
                let n = choose|n: int| 0 <= n < rest.len() && (#[trigger] rest[n]).0 == p;
                assert(out[n].0 == p);
            } else {
                assert(out[out.len() - 1].0 == p);
            }
        }
        assert forall|m: int|
            0 <= m < files.len() && has_path(recs, (#[trigger] files[m]).0)
                == present implies exists|n: int|
            0 <= n < out.len() && #[trigger] out[n] == files[m] by {
            if m < files.len() - 1 {
                assert(shorter[m] == files[m]);
                let n = choose|n: int| 0 <= n < rest.len() && #[trigger] rest[n] == shorter[m];
                assert(out[n] == files[m]);
            } else {
                assert(out[out.len() - 1] == files[m]);
            }
        }
        if distinct_inputs(files) {
            assert(distinct_inputs(shorter)) by {
                assert forall|i: int, j: int| 0 <= i < j < shorter.len() implies (
                #[trigger] shorter[i]).0 != (#[trigger] shorter[j]).0 by {
                    assert(files[i].0 != files[j].0);
                }
            }
            assert forall|i: int, j: int| 0 <= i < j < out.len() implies (#[trigger] out[i]).0 != (
            #[trigger] out[j]).0 by {
                if j < rest.len() {
                    assert(rest[i].0 != rest[j].0);
                } else {
                    assert(out[i] == rest[i]);
                    assert(inputs_have(rest, rest[i].0));
                    let m = choose|m: int|
                        0 <= m < shorter.len() && (#[trigger] shorter[m]).0 == rest[i].0;
                    assert(files[m].0 != files[files.len() - 1].0);
                }
            }
        }
        if present {
            assert(selected(files, recs, true).len() + selected(files, recs, false).len()
                == files.len());
        } else {
            assert(selected(files, recs, true).len() + selected(files, recs, false).len()
                == files.len());
        }
    }
}

/// Relocation only appends.
pub proof fn lemma_relocated_grows(
    a: Seq<u8>,
    recs: Seq<RecordView>,
    reps: Seq<(Seq<char>, Seq<u8>)>,
    limit: u64,
    k: nat,
)
    requires
        relocated(a, recs, reps, limit, k) is Ok,
    ensures
        a.is_prefix_of(relocated(a, recs, reps, limit, k)->Ok_0.archive),
    decreases k,
{
    let st = relocated(a, recs, reps, limit, k)->Ok_0;
    if k == 0 {
        assert(a =~= st.archive.subrange(0, a.len() as int));
    } else {
        let prev = relocated(a, recs, reps, limit, (k - 1) as nat)->Ok_0;
        lemma_relocated_grows(a, recs, reps, limit, (k - 1) as nat);
        assert(prev.archive =~= st.archive.subrange(0, prev.archive.len() as int));
        lemma_prefix_chain(a, prev.archive, st.archive);
    }
}

/// Adding only appends, and leaves no path twice where there was none twice.
pub proof fn lemma_added_grows(st0: Patch, adds: Seq<(Seq<char>, Seq<u8>)>, next: int, k: nat)
    requires
        added(st0, adds, next, k) is Ok,
    ensures
        st0.archive.is_prefix_of(added(st0, adds, next, k)->Ok_0.0.archive),
        distinct_paths(st0.records) ==> distinct_paths(added(st0, adds, next, k)->Ok_0.0.records),
    decreases k,
{
    let st = added(st0, adds, next, k)->Ok_0.0;
    if k == 0 {
        assert(st0.archive =~= st.archive.subrange(0, st0.archive.len() as int));
    } else {
        let prev = added(st0, adds, next, (k - 1) as nat)->Ok_0.0;
        lemma_added_grows(st0, adds, next, (k - 1) as nat);
        assert(prev.archive =~= st.archive.subrange(0, prev.archive.len() as int));
        lemma_prefix_chain(st0.archive, prev.archive, st.archive);
        if distinct_paths(st0.records) {
            let free = added(st0, adds, next, (k - 1) as nat)->Ok_0.1;
            let rec = new_record(
                adds[k - 1].0,
                free as u64,
                prev.archive.len() as u64,
                adds[k - 1].1.len() as u64,
                checksum(adds[k - 1].1),
            );
            lemma_rank_bounds(prev.records, rec.table_offset);
            let p = rank(prev.records, rec.table_offset);
            assert forall|i: int, j: int|
                0 <= i < st.records.len() && 0 <= j < st.records.len() && i != j implies (
            #[trigger] st.records[i]).path != (#[trigger] st.records[j]).path by {
                let x = if i < p {
                    i
                } else {
                    i - 1
                };
                let y = if j < p {
                    j
                } else {
                    j - 1
                };
                if i == p {
                    assert(st.records[j] == prev.records[y]);
                } else if j == p {
                    assert(st.records[i] == prev.records[x]);
                } else {
                    assert(st.records[i] == prev.records[x] && st.records[j] == prev.records[y]);
                }
            }
        }
    }
}

/// Replacing only appends.
pub proof fn lemma_replaced_grows(st0: Patch, reps: Seq<(Seq<char>, Seq<u8>)>, k: nat)
    requires
        replaced(st0, reps, k) is Ok,
    ensures
        st0.archive.is_prefix_of(replaced(st0, reps, k)->Ok_0.archive),
    decreases k,
{
    let st = replaced(st0, reps, k)->Ok_0;
    if k == 0 {
        assert(st0.archive =~= st.archive.subrange(0, st0.archive.len() as int));
    } else {
        let prev = replaced(st0, reps, (k - 1) as nat)->Ok_0;
        lemma_replaced_grows(st0, reps, (k - 1) as nat);
        assert(prev.archive =~= st.archive.subrange(0, prev.archive.len() as int));
        lemma_prefix_chain(st0.archive, prev.archive, st.archive);
    }
}

/// Some record of the list stands for the same data as the record `q` did
/// in the archive `a`.
pub open spec fn kept(b: Seq<u8>, recs: Seq<RecordView>, a: Seq<u8>, q: RecordView) -> bool {
    exists|j: int| 0 <= j < recs.len() && carried(b, #[trigger] recs[j], a, q)
}

/// What replacing and adding does to an archive, before the header and
/// the table are written. The archive only grows. The table has one record
/// more for each new file and no other. Every incoming file is held by a
/// record: under its path, with the size and the checksum of its bytes, and
/// with those bytes as its data. Every entry that is not replaced keeps its
/// path, its size and its checksum, and its data is the bytes that it was,
/// whether it was moved or not.
pub proof fn lemma_replace_patch(
    a: Seq<u8>,
    pairs: Seq<(Seq<char>, u64)>,
    files: Seq<(Seq<char>, Seq<u8>)>,
)
    requires
        pairs_wf(pairs),
        replace_patch(a, pairs, files) is Ok,
        replace_patch(a, pairs, files)->Ok_0.archive.len() <= u64::MAX,
    ensures
        ({
            let recs = built_records(a, pairs);
            let st = replace_patch(a, pairs, files)->Ok_0;
            &&& a.is_prefix_of(st.archive)
            &&& st.records.len() == recs.len() + selected(files, recs, false).len()
            &&& forall|m: int|
                0 <= m < files.len() ==> file_held(st.archive, st.records, #[trigger] files[m])
            &&& forall|i: int|
                0 <= i < recs.len() && !inputs_have(files, recs[i].path) ==> kept(
                    st.archive,
                    st.records,
                    a,
                    #[trigger] recs[i],
                )
            &&& forall|i: int|
                0 <= i < recs.len() ==> has_path(st.records, (#[trigger] recs[i]).path)
            &&& forall|j: int|
                0 <= j < st.records.len() ==> has_path(recs, (#[trigger] st.records[j]).path)
                    || inputs_have(files, st.records[j].path)
            &&& entries_wf(st.records)
            &&& distinct_paths(st.records)
        }),
{
    let recs = built_records(a, pairs);
    let reps = selected(files, recs, true);
    let adds = selected(files, recs, false);
    let plan = plan_of(recs, adds)->Ok_0;
    let limit = plan.table_end_after;
    let moved = relocated(a, recs, reps, limit, recs.len())->Ok_0;
    let next = plan.next_new_table_offset as int;
    let grown = added(moved, adds, next, adds.len())->Ok_0.0;
    let st = replaced(grown, reps, reps.len())->Ok_0;
    assert(st == replace_patch(a, pairs, files)->Ok_0);
    lemma_built(a, pairs);
    lemma_selected(files, recs, true);
    lemma_selected(files, recs, false);
    lemma_relocated_grows(a, recs, reps, limit, recs.len());
    lemma_added_grows(moved, adds, next, adds.len());
    lemma_replaced_grows(grown, reps, reps.len());
    lemma_prefix_chain(a, moved.archive, grown.archive);
    lemma_prefix_chain(a, grown.archive, st.archive);
    lemma_prefix_chain(moved.archive, grown.archive, st.archive);
    lemma_relocated(a, recs, reps, limit, recs.len());
    assert(distinct_paths(moved.records)) by {
        assert forall|i: int, j: int|
            0 <= i < moved.records.len() && 0 <= j < moved.records.len() && i != j implies (
        #[trigger] moved.records[i]).path != (#[trigger] moved.records[j]).path by {
            assert(carried(moved.archive, moved.records[i], a, recs[i]));
            assert(carried(moved.archive, moved.records[j], a, recs[j]));
            assert(recs[i].path != recs[j].path);
        }
    }
    lemma_added(moved, adds, next, adds.len());
    lemma_replaced(grown, reps, reps.len());
    assert(adds.take(adds.len() as int) =~= adds);
    assert(reps.take(reps.len() as int) =~= reps);
    // every incoming file is held
    assert forall|m: int| 0 <= m < files.len() implies file_held(
        st.archive,
        st.records,
        #[trigger] files[m],
    ) by {
        if has_path(recs, files[m].0) {
            let n = choose|n: int| 0 <= n < reps.len() && #[trigger] reps[n] == files[m];
            assert(file_held(st.archive, st.records, reps[n]));
        } else {
            let n = choose|n: int| 0 <= n < adds.len() && #[trigger] adds[n] == files[m];
            assert(file_held(grown.archive, grown.records, adds[n]));
            let j = choose|j: int|
                0 <= j < grown.records.len() && holds_file(
                    grown.archive,
                    #[trigger] grown.records[j],
                    adds[n],
                );
            let r = grown.records[j];
            assert(!inputs_have(reps, r.path));
            assert(st.records[j] == r);
            lemma_prefix_range(
                grown.archive,
                st.archive,
                r.entry.offset as int,
                r.entry.offset + r.entry.size,
            );
            assert(holds_file(st.archive, st.records[j], files[m]));
        }
    }
    // entries that are not replaced are carried over
    assert forall|i: int|
        0 <= i < recs.len() && !inputs_have(files, recs[i].path) implies kept(
        st.archive,
        st.records,
        a,
        #[trigger] recs[i],
    ) by {
        let r = moved.records[i];
        assert(carried(moved.archive, r, a, recs[i]));
        assert(has_record(grown.records, moved.records[i]));
        let j = choose|j: int| 0 <= j < grown.records.len() && #[trigger] grown.records[j] == r;
        assert(!inputs_have(reps, r.path));
        assert(st.records[j] == r);
        if data_within(a, recs[i].entry) {
            lemma_prefix_range(
                moved.archive,
                st.archive,
                r.entry.offset as int,
                r.entry.offset + r.entry.size,
            );
        }
        assert(carried(st.archive, st.records[j], a, recs[i]));
    }
    // every old path is still there
    assert forall|i: int| 0 <= i < recs.len() implies has_path(
        st.records,
        (#[trigger] recs[i]).path,
    ) by {
        let r = moved.records[i];
        assert(carried(moved.archive, r, a, recs[i]));
        assert(has_record(grown.records, moved.records[i]));
        let j = choose|j: int| 0 <= j < grown.records.len() && #[trigger] grown.records[j] == r;
        assert(same_place(st.records[j], grown.records[j]));
        assert(st.records[j].path == recs[i].path);
    }
    // no stranger, and every record is sound
    assert forall|j: int| 0 <= j < st.records.len() implies (has_path(
        recs,
        (#[trigger] st.records[j]).path,
    ) || inputs_have(files, st.records[j].path)) && entry_wf(st.records[j].entry) by {
        let g = grown.records[j];
        assert(same_place(st.records[j], g));
        if has_record(moved.records, g) {
            let i = choose|i: int| 0 <= i < moved.records.len() && #[trigger] moved.records[i]
                == g;
            assert(carried(moved.archive, moved.records[i], a, recs[i]));
            assert(recs[i].path == g.path);
            assert(entry_wf(recs[i].entry));
            assert(entry_wf(g.entry));
        } else {
            assert(is_added(g, moved.archive, adds));
        }
        if !inputs_have(reps, g.path) {
            assert(st.records[j] == g);
        }
    }
    lemma_added_grows(moved, adds, next, adds.len());
    assert(distinct_paths(st.records)) by {
        assert forall|i: int, j: int|
            0 <= i < st.records.len() && 0 <= j < st.records.len() && i != j implies (
        #[trigger] st.records[i]).path != (#[trigger] st.records[j]).path by {
            assert(same_place(st.records[i], grown.records[i]));
            assert(same_place(st.records[j], grown.records[j]));
            assert(grown.records[i].path != grown.records[j].path);
        }
    }
}

/// What writing the header and the table over an archive leaves: the
/// header with the number of records, the table from its start on, record by
/// record, and all data of the records untouched, since the table ends before
/// any of it starts.
pub proof fn lemma_written_back(a: Seq<u8>, recs: Seq<RecordView>, header: Header, start: u64)
    requires
        entries_wf(recs),
        start >= HEADER_SIZE,
        finish_error(recs, start) is None,
    ensures
        ({
            let b = written_back(a, recs, header, start);
            let count = with_count(header, recs.len() as u32);
            &&& b.len() >= a.len()
            &&& b.len() >= start + table_size(recs)
            &&& header_fields_at(count, b)
            &&& count.file_count == recs.len()
            &&& header.version == 1 ==> header_error(b) is None
            &&& forall|j: int|
                0 <= j < recs.len() ==> (#[trigger] recs[j]).entry.offset >= start + table_size(
                    recs,
                )
            &&& forall|j: int|
                0 <= j < recs.len() && data_within(a, (#[trigger] recs[j]).entry) ==> data_within(
                    b,
                    recs[j].entry,
                ) && data_of(b, recs[j].entry) == data_of(a, recs[j].entry)
            &&& forall|j: int|
                0 <= j < recs.len() ==> entry_readable(b, #[trigger] slot(recs, start as int, j))
                    && entry_at(b, slot(recs, start as int, j)) == recs[j].entry
        }),
{
    let count = with_count(header, recs.len() as u32);
    let head = header_bytes(count);
    let table = table_bytes(recs);
    let mid = overwrite(a, 0, head);
    let b = overwrite(mid, start as int, table);
    lemma_header_layout(count);
    lemma_table_bytes_len(recs);
    let end = start + table_size(recs);
    lemma_overwrite_holds(a, 0, head);
    lemma_overwrite_holds(mid, start as int, table);
    assert(b.subrange(0, 88) =~= head) by {
        assert(mid.subrange(0, 88) == head);
        assert(b.subrange(0, 88) =~= mid.subrange(0, 88));
    }
    assert(b =~= head + b.subrange(88, b.len() as int));
    lemma_header_round_trip(count, b.subrange(88, b.len() as int));
    assert forall|j: int| 0 <= j < recs.len() implies (#[trigger] recs[j]).entry.offset
        >= end by {
        if recs[j].entry.offset < end {
            assert(data_below(recs, end));
        }
    }
    assert forall|j: int|
        0 <= j < recs.len() && data_within(a, (#[trigger] recs[j]).entry) implies data_within(
        b,
        recs[j].entry,
    ) && data_of(b, recs[j].entry) == data_of(a, recs[j].entry) by {
        let e = recs[j].entry;
        assert(e.offset >= end);
        lemma_overwrite_keeps(a, 0, head, e.offset as int, e.offset + e.size);
        lemma_overwrite_keeps(mid, start as int, table, e.offset as int, e.offset + e.size);
    }
    assert forall|j: int| 0 <= j < recs.len() implies entry_readable(
        b,
        #[trigger] slot(recs, start as int, j),
    ) && entry_at(b, slot(recs, start as int, j)) == recs[j].entry by {
        lemma_table_read_back(b, recs, start as int, j);
    }
}

/// What replacing and adding leaves in the archive. Its header counts one
/// entry more for each new file. Its table stands where it stood, holds the
/// records in the order of their table offsets, and ends before any data.
/// Every incoming file is held by a record of the table, with its size, its
/// checksum and its bytes; every entry that is not replaced has its path, its
/// size, its checksum and the bytes that it had, moved or not.
pub proof fn lemma_replace_outcome(
    a: Seq<u8>,
    header: Header,
    pairs: Seq<(Seq<char>, u64)>,
    files: Seq<(Seq<char>, Seq<u8>)>,
)
    requires
        pairs_wf(pairs),
        files.len() > 0,
        replace_outcome(a, header, pairs, files) is Ok,
        replace_outcome(a, header, pairs, files)->Ok_0.len() <= u64::MAX,
    ensures
        ({
            let b = replace_outcome(a, header, pairs, files)->Ok_0;
            let recs = built_records(a, pairs);
            let table = replace_patch(a, pairs, files)->Ok_0.records;
            let start = recs[0].table_offset;
            &&& replace_patch(a, pairs, files) is Ok
            &&& b.len() >= a.len()
            &&& header_fields_at(with_count(header, table.len() as u32), b)
            &&& header.version == 1 ==> header_error(b) is None
            &&& table.len() == recs.len() + selected(files, recs, false).len()
            &&& table.len() <= u32::MAX
            &&& forall|j: int|
                0 <= j < table.len() ==> entry_readable(b, #[trigger] slot(table, start as int, j))
                    && entry_at(b, slot(table, start as int, j)) == table[j].entry
            &&& forall|j: int|
                0 <= j < table.len() ==> (#[trigger] table[j]).entry.offset >= start + table_size(
                    table,
                )
            &&& forall|m: int| 0 <= m < files.len() ==> file_held(b, table, #[trigger] files[m])
            &&& forall|i: int|
                0 <= i < recs.len() && !inputs_have(files, recs[i].path) ==> kept(
                    b,
                    table,
                    a,
                    #[trigger] recs[i],
                )
        }),
{
    let b = replace_outcome(a, header, pairs, files)->Ok_0;
    let recs = built_records(a, pairs);
    let st = replace_patch(a, pairs, files)->Ok_0;
    let table = st.records;
    let start = recs[0].table_offset;
    assert(finished(st, header, start) == Ok::<Seq<u8>, PckError>(b));
    assert(b == written_back(st.archive, table, header, start));
    lemma_built(a, pairs);
    assert(recs.len() > 0) by {
        assert(plan_of(recs, selected(files, recs, false)) is Ok);
    }
    assert(start >= HEADER_SIZE);
    assert(st.archive.len() <= b.len()) by {
        let mid = overwrite(st.archive, 0, header_bytes(with_count(header, table.len() as u32)));
        assert(mid.len() >= st.archive.len());
        assert(b == overwrite(mid, start as int, table_bytes(table)));
        assert(b.len() >= mid.len());
    }
    lemma_replace_patch(a, pairs, files);
    lemma_written_back(st.archive, table, header, start);
    assert forall|m: int| 0 <= m < files.len() implies file_held(b, table, #[trigger] files[m]) by {
        let j = choose|j: int|
            0 <= j < table.len() && holds_file(st.archive, #[trigger] table[j], files[m]);
        assert(holds_file(b, table[j], files[m]));
    }
    assert forall|i: int|
        0 <= i < recs.len() && !inputs_have(files, recs[i].path) implies kept(
        b,
        table,
        a,
        #[trigger] recs[i],
    ) by {
        let j = choose|j: int|
            0 <= j < table.len() && carried(st.archive, #[trigger] table[j], a, recs[i]);
        assert(carried(b, table[j], a, recs[i]));
    }
}

/// How many records of the list have a path that `paths` names.
pub open spec fn listed_count(recs: Seq<RecordView>, paths: Seq<Seq<char>>) -> int
    decreases recs.len(),
{
    if recs.len() == 0 {
        0
    } else if listed(paths, recs.last().path) {
        listed_count(recs.drop_last(), paths) + 1
    } else {
        listed_count(recs.drop_last(), paths)
    }
}

/// How many of the paths are the path of a record of the list.
pub open spec fn present_count(recs: Seq<RecordView>, paths: Seq<Seq<char>>) -> int
    decreases paths.len(),
{
    if paths.len() == 0 {
        0
    } else if has_path(recs, paths.last()) {
        present_count(recs, paths.drop_last()) + 1
    } else {
        present_count(recs, paths.drop_last())
    }
}

/// How many records of the list have the path `p`.
pub open spec fn path_count(recs: Seq<RecordView>, p: Seq<char>) -> int
    decreases recs.len(),
{
    if recs.len() == 0 {
        0
    } else if recs.last().path == p {
        path_count(recs.drop_last(), p) + 1
    } else {
        path_count(recs.drop_last(), p)
    }
}

/// A list without a path twice is still one when its last record is dropped.
pub proof fn lemma_distinct_shorter(recs: Seq<RecordView>)
    requires
        recs.len() > 0,
        distinct_paths(recs),
    ensures
        distinct_paths(recs.drop_last()),
        !has_path(recs.drop_last(), recs.last().path),
{
    let shorter = recs.drop_last();
    assert forall|i: int, j: int|
        0 <= i < shorter.len() && 0 <= j < shorter.len() && i != j implies (
    #[trigger] shorter[i]).path != (#[trigger] shorter[j]).path by {
        assert(shorter[i] == recs[i] && shorter[j] == recs[j]);
    }
    if has_path(shorter, recs.last().path) {
        let i = choose|i: int| 0 <= i < shorter.len() && (#[trigger] shorter[i]).path
            == recs.last().path;
        assert(recs[i].path == recs[recs.len() - 1].path);
    }
}

/// Where no path occurs twice, a path has one record or none.
pub proof fn lemma_path_count(recs: Seq<RecordView>, p: Seq<char>)
    requires
        distinct_paths(recs),
    ensures
        path_count(recs, p) == (if has_path(recs, p) {
            1int
        } else {
            0int
        }),
    decreases recs.len(),
{
    if recs.len() > 0 {
        let shorter = recs.drop_last();
        lemma_distinct_shorter(recs);
        lemma_path_count(shorter, p);
        if recs.last().path == p {
            assert(recs[recs.len() - 1].path == p);
        } else if has_path(recs, p) {
            let i = choose|i: int| 0 <= i < recs.len() && (#[trigger] recs[i]).path == p;
            assert(shorter[i].path == p);
        } else if has_path(shorter, p) {
            let i = choose|i: int| 0 <= i < shorter.len() && (#[trigger] shorter[i]).path == p;
            assert(recs[i].path == p);
        }
    }
}

/// One path more in the list names as many records more as have that path.
pub proof fn lemma_listed_one_more(recs: Seq<RecordView>, paths: Seq<Seq<char>>, p: Seq<char>)
    requires
        !listed(paths, p),
    ensures
        listed_count(recs, paths.push(p)) == listed_count(recs, paths) + path_count(recs, p),
    decreases recs.len(),
{
    if recs.len() > 0 {
        lemma_listed_one_more(recs.drop_last(), paths, p);
        let q = recs.last().path;
        let more = paths.push(p);
        if listed(more, q) {
            let i = choose|i: int| 0 <= i < more.len() && #[trigger] more[i] == q;
            if i < paths.len() {
                assert(paths[i] == q);
            }
        }
        if listed(paths, q) {
            let i = choose|i: int| 0 <= i < paths.len() && #[trigger] paths[i] == q;
            assert(more[i] == q);
        }
        if q == p {
            assert(more[paths.len() as int] == q);
        }
    }
}

/// Where no path occurs twice, among the records or in the list, the list
/// names as many records as it holds paths of records.
pub proof fn lemma_counts_agree(recs: Seq<RecordView>, paths: Seq<Seq<char>>)
    requires
        distinct_paths(recs),
        distinct_listed(paths),
    ensures
        listed_count(recs, paths) == present_count(recs, paths),
    decreases paths.len(),
{
    if paths.len() == 0 {
        assert(paths =~= Seq::<Seq<char>>::empty());
        lemma_none_listed(recs);
    } else {
        let shorter = paths.drop_last();
        let p = paths.last();
        assert(distinct_listed(shorter)) by {
            assert forall|i: int, j: int| 0 <= i < j < shorter.len() implies #[trigger] shorter[i]
                != #[trigger] shorter[j] by {
                assert(paths[i] != paths[j]);
            }
        }
        assert(!listed(shorter, p)) by {
            if listed(shorter, p) {
                let i = choose|i: int| 0 <= i < shorter.len() && #[trigger] shorter[i] == p;
                assert(paths[i] == paths[paths.len() - 1]);
            }
        }
        lemma_counts_agree(recs, shorter);
        assert(shorter.push(p) =~= paths);
        lemma_listed_one_more(recs, shorter, p);
        lemma_path_count(recs, p);
    }
}

/// An empty list names no record.
pub proof fn lemma_none_listed(recs: Seq<RecordView>)
    ensures
        listed_count(recs, Seq::<Seq<char>>::empty()) == 0,
    decreases recs.len(),
{
    if recs.len() > 0 {
        lemma_none_listed(recs.drop_last());
    }
}

/// The record `r` is the record `q` at another place of the table.
pub open spec fn same_entry(r: RecordView, q: RecordView) -> bool {
    r.path == q.path && r.entry == q.entry
}

/// What a deletion keeps: each record that the list does not name, with its
/// entry as it was, and no other; as many records fewer as the list names.
pub proof fn lemma_remaining_keeps(recs: Seq<RecordView>, paths: Seq<Seq<char>>, start: u64)
    ensures
        remaining(recs, paths, start).len() + listed_count(recs, paths) == recs.len(),
        forall|j: int|
            0 <= j < remaining(recs, paths, start).len() ==> !listed(
                paths,
                (#[trigger] remaining(recs, paths, start)[j]).path,
            ) && exists|i: int|
                0 <= i < recs.len() && same_entry(remaining(recs, paths, start)[j], #[trigger] recs[i]),
        forall|i: int|
            0 <= i < recs.len() && !listed(paths, (#[trigger] recs[i]).path) ==> exists|j: int|
                0 <= j < remaining(recs, paths, start).len() && same_entry(
                    #[trigger] remaining(recs, paths, start)[j],
                    recs[i],
                ),
    decreases recs.len(),
{
    let out = remaining(recs, paths, start);
    if recs.len() > 0 {
        let shorter = recs.drop_last();
        let rest = remaining(shorter, paths, start);
        lemma_remaining_keeps(shorter, paths, start);
        let last = recs.last();
        assert forall|j: int| 0 <= j < out.len() implies !listed(paths, (#[trigger] out[j]).path)
            && exists|i: int| 0 <= i < recs.len() && same_entry(out[j], #[trigger] recs[i]) by {
            if j < rest.len() {
                assert(out[j] == rest[j]);
                let i = choose|i: int|
                    0 <= i < shorter.len() && same_entry(rest[j], #[trigger] shorter[i]);
                assert(same_entry(out[j], recs[i]));
            } else {
                assert(same_entry(out[j], recs[recs.len() - 1]));
            }
        }
        assert forall|i: int|
            0 <= i < recs.len() && !listed(paths, (#[trigger] recs[i]).path) implies exists|j: int|
            0 <= j < out.len() && same_entry(#[trigger] out[j], recs[i]) by {
            if i < shorter.len() {
                assert(shorter[i] == recs[i]);
                let j = choose|j: int|
                    0 <= j < rest.len() && same_entry(#[trigger] rest[j], shorter[i]);
                assert(same_entry(out[j], recs[i]));
            } else {
                assert(same_entry(out[out.len() - 1], recs[i]));
            }
        }
    }
}

/// No data of the list ends behind the furthest data end.
pub proof fn lemma_max_data_end(recs: Seq<RecordView>, j: int)
    requires
        0 <= j < recs.len(),
    ensures
        recs[j].entry.offset + recs[j].entry.size <= max_data_end(recs),
    decreases recs.len(),
{
    if j < recs.len() - 1 {
        lemma_max_data_end(recs.drop_last(), j);
    }
}

/// What writing back and cutting leaves: the archive ends where its table
/// or its last data ends, its header counts the records, its table holds them
/// record by record, and the data of each record that lay within the archive
/// is untouched.
pub proof fn lemma_cut_back(a: Seq<u8>, table: Seq<RecordView>, header: Header, start: u64)
    requires
        entries_wf(table),
        start >= HEADER_SIZE,
        finish_error(table, start) is None,
    ensures
        ({
            let b = resized(written_back(a, table, header, start), length_after(table, start));
            &&& b.len() == length_after(table, start)
            &&& header_fields_at(with_count(header, table.len() as u32), b)
            &&& header.version == 1 ==> header_error(b) is None
            &&& forall|j: int|
                0 <= j < table.len() ==> entry_readable(b, #[trigger] slot(table, start as int, j))
                    && entry_at(b, slot(table, start as int, j)) == table[j].entry
            &&& forall|j: int|
                0 <= j < table.len() && data_within(a, (#[trigger] table[j]).entry)
                    ==> data_within(b, table[j].entry) && data_of(b, table[j].entry) == data_of(
                    a,
                    table[j].entry,
                )
        }),
{
    let full = written_back(a, table, header, start);
    let len = length_after(table, start);
    let b = resized(full, len);
    let count = with_count(header, table.len() as u32);
    let end = start + table_size(table);
    lemma_table_bytes_len(table);
    lemma_max_data_end_floor(table);
    lemma_table_size_floor(table);
    assert(b.len() == len && len >= end && end >= 88 + 36);
    let mid = overwrite(a, 0, header_bytes(count));
    lemma_header_layout(count);
    lemma_overwrite_holds(a, 0, header_bytes(count));
    lemma_overwrite_holds(mid, start as int, table_bytes(table));
    assert(full.len() >= end && full.len() >= a.len());
    assert forall|k: int| 0 <= k < len && k < full.len() implies b[k] == full[k] by {}
    assert(header_fields_at(count, b) && (header.version == 1 ==> header_error(b) is None)) by {
        assert(full.subrange(0, 88) =~= mid.subrange(0, 88));
        assert(b.subrange(0, 88) =~= full.subrange(0, 88));
        assert(b =~= header_bytes(count) + b.subrange(88, b.len() as int));
        lemma_header_round_trip(count, b.subrange(88, b.len() as int));
    }
    assert(b.subrange(start as int, end) == table_bytes(table)) by {
        assert(b.subrange(start as int, end) =~= full.subrange(start as int, end));
    }
    assert forall|j: int| 0 <= j < table.len() implies entry_readable(
        b,
        #[trigger] slot(table, start as int, j),
    ) && entry_at(b, slot(table, start as int, j)) == table[j].entry by {
        lemma_table_read_back(b, table, start as int, j);
    }
    assert forall|j: int|
        0 <= j < table.len() && data_within(a, (#[trigger] table[j]).entry) implies data_within(
        b,
        table[j].entry,
    ) && data_of(b, table[j].entry) == data_of(a, table[j].entry) by {
        let e = table[j].entry;
        lemma_max_data_end(table, j);
        assert(e.offset >= end) by {
            if e.offset < end {
                assert(data_below(table, end));
            }
        }
        lemma_overwrite_keeps(a, 0, header_bytes(count), e.offset as int, e.offset + e.size);
        lemma_overwrite_keeps(
            mid,
            start as int,
            table_bytes(table),
            e.offset as int,
            e.offset + e.size,
        );
        assert(data_of(b, e) =~= data_of(full, e));
    }
}

/// What a deletion leaves in the archive, where the list names at least one
/// entry. The header counts as many entries fewer as paths of entries were
/// named. The table stands where it stood and holds the entries that stay, in
/// their order, back to back. Each of them has its path, its size, its
/// checksum and the bytes that it had. The archive ends where its table or
/// its last data ends, whichever is later.
pub proof fn lemma_delete_outcome(
    a: Seq<u8>,
    header: Header,
    pairs: Seq<(Seq<char>, u64)>,
    paths: Seq<Seq<char>>,
)
    requires
        pairs_wf(pairs),
        built_ok(a, pairs),
        any_present(built_records(a, pairs), paths),
        delete_outcome(a, header, pairs, paths) is Ok,
    ensures
        ({
            let b = delete_outcome(a, header, pairs, paths)->Ok_0;
            let recs = built_records(a, pairs);
            let start = recs[0].table_offset;
            let table = remaining(recs, paths, start);
            &&& b.len() == length_after(table, start)
            &&& header_fields_at(with_count(header, table.len() as u32), b)
            &&& header.version == 1 ==> header_error(b) is None
            &&& table.len() == recs.len() - present_count(recs, paths)
            &&& 0 < table.len() <= u32::MAX
            &&& forall|j: int|
                0 <= j < table.len() ==> entry_readable(b, #[trigger] slot(table, start as int, j))
                    && entry_at(b, slot(table, start as int, j)) == table[j].entry
            &&& forall|j: int| 0 <= j < table.len() ==> !listed(paths, (#[trigger] table[j]).path)
            &&& forall|i: int|
                0 <= i < recs.len() && !listed(paths, (#[trigger] recs[i]).path) ==> exists|j: int|
                    0 <= j < table.len() && same_entry(#[trigger] table[j], recs[i]) && (
                    data_within(a, recs[i].entry) ==> data_within(b, table[j].entry) && data_of(
                        b,
                        table[j].entry,
                    ) == data_of(a, recs[i].entry))
        }),
{
    let b = delete_outcome(a, header, pairs, paths)->Ok_0;
    let recs = built_records(a, pairs);
    let start = recs[0].table_offset;
    let table = remaining(recs, paths, start);
    lemma_built(a, pairs);
    assert(recs.len() > 0) by {
        let i = choose|i: int| 0 <= i < paths.len() && has_path(recs, #[trigger] paths[i]);
    }
    assert(b == resized(written_back(a, table, header, start), length_after(table, start)));
    lemma_remaining_keeps(recs, paths, start);
    lemma_counts_agree(recs, paths);
    assert(entries_wf(table)) by {
        assert forall|j: int| 0 <= j < table.len() implies entry_wf((#[trigger] table[j]).entry) by {
            let i = choose|i: int| 0 <= i < recs.len() && same_entry(table[j], #[trigger] recs[i]);
            assert(entry_wf(recs[i].entry));
        }
    }
    lemma_cut_back(a, table, header, start);
    assert forall|i: int|
        0 <= i < recs.len() && !listed(paths, (#[trigger] recs[i]).path) implies exists|j: int|
        0 <= j < table.len() && same_entry(#[trigger] table[j], recs[i]) && (data_within(
            a,
            recs[i].entry,
        ) ==> data_within(b, table[j].entry) && data_of(b, table[j].entry) == data_of(
            a,
            recs[i].entry,
        )) by {
        let j = choose|j: int| 0 <= j < table.len() && same_entry(#[trigger] table[j], recs[i]);
        assert(table[j].entry == recs[i].entry);
    }
}

/// The image of an archive: its header, its table and what follows.
pub open spec fn archive_image(h: Header, recs: Seq<RecordView>, data: Seq<u8>) -> Seq<u8> {
    header_bytes(h) + table_bytes(recs) + data
}

/// Each record goes by the path that its path bytes spell.
pub open spec fn paths_spelled(recs: Seq<RecordView>) -> bool {
    forall|i: int|
        0 <= i < recs.len() ==> entry_path((#[trigger] recs[i]).entry.path_bytes) == Some(
            recs[i].path,
        )
}

/// The bytes `s` hold the table of the records behind the header: each
/// record can be read at its slot, and what is read is the record.
pub open spec fn table_at(s: Seq<u8>, recs: Seq<RecordView>) -> bool {
    forall|i: int|
        0 <= i < recs.len() ==> entry_readable(s, #[trigger] slot(recs, HEADER_SIZE as int, i))
            && entry_at(s, slot(recs, HEADER_SIZE as int, i)) == recs[i].entry
}

/// Where bytes hold a table behind the header, the reader finds the records
/// at their slots, and none of the first `k` fails to be read.
pub proof fn lemma_scan_table(s: Seq<u8>, recs: Seq<RecordView>, k: nat)
    requires
        paths_spelled(recs),
        table_at(s, recs),
        k <= recs.len(),
    ensures
        table_pos(s, k) == slot(recs, HEADER_SIZE as int, k as int),
        scan_error(s, k) is None,
    decreases k,
{
    if k > 0 {
        lemma_scan_table(s, recs, (k - 1) as nat);
        let at = slot(recs, HEADER_SIZE as int, k - 1);
        assert(entry_readable(s, at) && entry_at(s, at) == recs[k - 1].entry);
        assert(recs.take(k as int).drop_last() =~= recs.take(k - 1));
        assert(recs.take(k as int).last() == recs[k - 1]);
        assert(entry_path(recs[k - 1].entry.path_bytes) is Some);
    } else {
        assert(recs.take(0).len() == 0);
    }
}

/// Reading again. Bytes with an accepted header that counts the records of
/// a table with unique paths, and that hold that table behind the header, are
/// read as that table: the index names each path once with the slot of its
/// record, in table order, and the record read at that slot is the record of
/// the table.
pub proof fn lemma_reread(s: Seq<u8>, recs: Seq<RecordView>)
    requires
        header_error(s) is None,
        le_u32_at(s, 84) == recs.len(),
        paths_spelled(recs),
        distinct_paths(recs),
        table_at(s, recs),
        s.len() <= u64::MAX,
    ensures
        ({
            let index = last_wins(scanned_pairs(s, recs.len()));
            &&& read_error(s) is None
            &&& index.len() == recs.len()
            &&& forall|i: int|
                0 <= i < recs.len() ==> (#[trigger] index[i]).0 == recs[i].path && index[i].1
                    == slot(recs, HEADER_SIZE as int, i)
            &&& built_ok(s, index)
            &&& forall|i: int|
                0 <= i < recs.len() ==> (#[trigger] built_records(s, index)[i]).path
                    == recs[i].path && built_records(s, index)[i].entry == recs[i].entry
        }),
{
    let n = recs.len();
    let all = scanned_pairs(s, n);
    lemma_scan_table(s, recs, n);
    assert forall|i: int| 0 <= i < n implies (#[trigger] all[i]).0 == recs[i].path && all[i].1
        == slot(recs, HEADER_SIZE as int, i) by {
        lemma_scan_table(s, recs, i as nat);
        assert(entry_readable(s, slot(recs, HEADER_SIZE as int, i)));
        assert(all[i] == pair_at(s, i as nat));
    }
    assert forall|i: int, j: int| 0 <= i < j < all.len() implies (#[trigger] all[i]).0 != (
    #[trigger] all[j]).0 by {
        assert(recs[i].path != recs[j].path);
    }
    lemma_all_kept(all, n);
    assert(all.take(n as int) =~= all);
    let index = last_wins(all);
    assert(index == all);
    assert forall|i: int| 0 <= i < index.len() implies entry_readable(
        s,
        (#[trigger] index[i]).1 as int,
    ) by {
        assert(entry_readable(s, slot(recs, HEADER_SIZE as int, i)));
    }
    assert forall|i: int| 0 <= i < n implies (#[trigger] built_records(s, index)[i]).path
        == recs[i].path && built_records(s, index)[i].entry == recs[i].entry by {
        assert(entry_at(s, slot(recs, HEADER_SIZE as int, i)) == recs[i].entry);
    }
}

/// Where no path comes twice, every pair is kept.
pub proof fn lemma_all_kept(all: Seq<(Seq<char>, u64)>, k: nat)
    requires
        k <= all.len(),
        forall|i: int, j: int|
            0 <= i < j < all.len() ==> (#[trigger] all[i]).0 != (#[trigger] all[j]).0,
    ensures
        kept_upto(all, k) == all.take(k as int),
    decreases k,
{
    if k == 0 {
        assert(all.take(0) =~= Seq::<(Seq<char>, u64)>::empty());
    } else {
        lemma_all_kept(all, (k - 1) as nat);
        assert(is_last(all, k - 1)) by {
            assert forall|j: int| k - 1 < j < all.len() implies (#[trigger] all[j]).0 != all[k
                - 1].0 by {
                assert(all[k - 1].0 != all[j].0);
            }
        }
        assert(all.take(k as int) =~= all.take(k - 1).push(all[k - 1]));
    }
}

/// Writing and reading again. An archive made of a header, the records of
/// a table with unique paths, and data is read as what was written: the
/// header is accepted and has its fields, the index names each path once with
/// the place of its record, in table order, and the record read at that place
/// has the size, the checksum and all other fields that were written.
pub proof fn lemma_archive_round_trip(h: Header, recs: Seq<RecordView>, data: Seq<u8>)
    requires
        h.version == 1,
        h.file_count == recs.len(),
        recs.len() > 0,
        entries_wf(recs),
        paths_spelled(recs),
        distinct_paths(recs),
        archive_image(h, recs, data).len() <= u64::MAX,
    ensures
        ({
            let s = archive_image(h, recs, data);
            let index = last_wins(scanned_pairs(s, recs.len()));
            &&& read_error(s) is None
            &&& header_fields_at(h, s)
            &&& index.len() == recs.len()
            &&& forall|i: int|
                0 <= i < recs.len() ==> (#[trigger] index[i]).0 == recs[i].path && index[i].1
                    == slot(recs, HEADER_SIZE as int, i)
            &&& built_ok(s, index)
            &&& forall|i: int|
                0 <= i < recs.len() ==> (#[trigger] built_records(s, index)[i]).path
                    == recs[i].path && built_records(s, index)[i].entry == recs[i].entry
        }),
{
    let s = archive_image(h, recs, data);
    lemma_header_layout(h);
    assert(s =~= header_bytes(h) + (table_bytes(recs) + data));
    lemma_header_round_trip(h, table_bytes(recs) + data);
    assert(le_u32_at(s, 84) == h.file_count);
    assert(s.subrange(88, 88 + table_bytes(recs).len() as int) =~= table_bytes(recs));
    assert(table_at(s, recs)) by {
        assert forall|i: int| 0 <= i < recs.len() implies entry_readable(
            s,
            #[trigger] slot(recs, HEADER_SIZE as int, i),
        ) && entry_at(s, slot(recs, HEADER_SIZE as int, i)) == recs[i].entry by {
            lemma_table_read_back(s, recs, 88, i);
        }
    }
    lemma_reread(s, recs);
}

/// A batch that names a path twice is rejected, whatever the archive holds.
pub proof fn lemma_duplicate_batch_rejected(
    a: Seq<u8>,
    header: Header,
    pairs: Seq<(Seq<char>, u64)>,
    files: Seq<(Seq<char>, Seq<u8>)>,
)
    requires
        !distinct_inputs(files),
    ensures
        replace_outcome(a, header, pairs, files) == Err::<Seq<u8>, PckError>(
            PckError::DuplicatePathInBatch,
        ),
{
}

/// A list of deletions that names a path twice is rejected, whatever the
/// archive holds.
pub proof fn lemma_duplicate_list_rejected(
    a: Seq<u8>,
    header: Header,
    pairs: Seq<(Seq<char>, u64)>,
    paths: Seq<Seq<char>>,
)
    requires
        !distinct_listed(paths),
    ensures
        delete_outcome(a, header, pairs, paths) == Err::<Seq<u8>, PckError>(
            PckError::DuplicatePathInBatch,
        ),
{
}

/// The guard of the table. Where, after all data was moved and appended,
/// the table would end behind the start of some record's data, the change
/// fails with the overflow error and the table is not written.
pub proof fn lemma_overflow_guard(
    a: Seq<u8>,
    header: Header,
    pairs: Seq<(Seq<char>, u64)>,
    files: Seq<(Seq<char>, Seq<u8>)>,
)
    requires
        files.len() > 0,
        replace_patch(a, pairs, files) is Ok,
        built_records(a, pairs)[0].table_offset + table_size(
            replace_patch(a, pairs, files)->Ok_0.records,
        ) <= u64::MAX,
        data_below(
            replace_patch(a, pairs, files)->Ok_0.records,
            built_records(a, pairs)[0].table_offset + table_size(
                replace_patch(a, pairs, files)->Ok_0.records,
            ),
        ),
    ensures
        replace_outcome(a, header, pairs, files) == Err::<Seq<u8>, PckError>(
            PckError::TableOverflow,
        ),
{
}

/// A path that the archive does not hold makes no difference to a deletion.
pub proof fn lemma_absent_path_ignored(
    recs: Seq<RecordView>,
    paths: Seq<Seq<char>>,
    p: Seq<char>,
    start: u64,
)
    requires
        !has_path(recs, p),
    ensures
        remaining(recs, paths.push(p), start) == remaining(recs, paths, start),
    decreases recs.len(),
{
    if recs.len() > 0 {
        let shorter = recs.drop_last();
        assert(!has_path(shorter, p)) by {
            if has_path(shorter, p) {
                let i = choose|i: int| 0 <= i < shorter.len() && (#[trigger] shorter[i]).path == p;
                assert(recs[i].path == p);
            }
        }
        lemma_absent_path_ignored(shorter, paths, p, start);
        let q = recs.last().path;
        assert(q != p) by {
            assert(recs[recs.len() - 1].path == q);
        }
        let more = paths.push(p);
        if listed(more, q) {
            let i = choose|i: int| 0 <= i < more.len() && #[trigger] more[i] == q;
            assert(paths[i] == q);
        }
        if listed(paths, q) {
            let i = choose|i: int| 0 <= i < paths.len() && #[trigger] paths[i] == q;
            assert(more[i] == q);
        }
    }
}

/// A list that names no entry of the archive leaves the archive as it is.
pub proof fn lemma_absent_paths_noop(
    a: Seq<u8>,
    header: Header,
    pairs: Seq<(Seq<char>, u64)>,
    paths: Seq<Seq<char>>,
)
    requires
        distinct_listed(paths),
        built_ok(a, pairs),
        !any_present(built_records(a, pairs), paths),
    ensures
        delete_outcome(a, header, pairs, paths) == Ok::<Seq<u8>, PckError>(a),
{
}

/// The text does not end with a NUL character.
pub open spec fn no_nul_end(path: Seq<char>) -> bool {
    path.len() == 0 || path.last() != '\0'
}

/// After replacing and adding, each record still goes by the path that its
/// path bytes spell, where that held before and no new path ends with NUL.
pub proof fn lemma_patch_spelled(
    a: Seq<u8>,
    pairs: Seq<(Seq<char>, u64)>,
    files: Seq<(Seq<char>, Seq<u8>)>,
)
    requires
        pairs_wf(pairs),
        replace_patch(a, pairs, files) is Ok,
        replace_patch(a, pairs, files)->Ok_0.archive.len() <= u64::MAX,
        paths_spelled(built_records(a, pairs)),
        forall|m: int| 0 <= m < files.len() ==> no_nul_end((#[trigger] files[m]).0),
    ensures
        paths_spelled(replace_patch(a, pairs, files)->Ok_0.records),
{
    let recs = built_records(a, pairs);
    let reps = selected(files, recs, true);
    let adds = selected(files, recs, false);
    let plan = plan_of(recs, adds)->Ok_0;
    let limit = plan.table_end_after;
    let moved = relocated(a, recs, reps, limit, recs.len())->Ok_0;
    let next = plan.next_new_table_offset as int;
    let grown = added(moved, adds, next, adds.len())->Ok_0.0;
    let st = replaced(grown, reps, reps.len())->Ok_0;
    lemma_built(a, pairs);
    lemma_selected(files, recs, true);
    lemma_selected(files, recs, false);
    lemma_relocated_grows(a, recs, reps, limit, recs.len());
    lemma_added_grows(moved, adds, next, adds.len());
    lemma_replaced_grows(grown, reps, reps.len());
    lemma_relocated(a, recs, reps, limit, recs.len());
    assert(distinct_paths(moved.records)) by {
        assert forall|i: int, j: int|
            0 <= i < moved.records.len() && 0 <= j < moved.records.len() && i != j implies (
        #[trigger] moved.records[i]).path != (#[trigger] moved.records[j]).path by {
            assert(carried(moved.archive, moved.records[i], a, recs[i]));
            assert(carried(moved.archive, moved.records[j], a, recs[j]));
            assert(recs[i].path != recs[j].path);
        }
    }
    lemma_added(moved, adds, next, adds.len());
    lemma_replaced(grown, reps, reps.len());
    assert(adds.take(adds.len() as int) =~= adds);
    assert forall|j: int| 0 <= j < st.records.len() implies entry_path(
        (#[trigger] st.records[j]).entry.path_bytes,
    ) == Some(st.records[j].path) by {
        let g = grown.records[j];
        assert(same_place(st.records[j], g));
        if has_record(moved.records, g) {
            let i = choose|i: int| 0 <= i < moved.records.len() && #[trigger] moved.records[i]
                == g;
            assert(carried(moved.archive, moved.records[i], a, recs[i]));
            assert(entry_path(recs[i].entry.path_bytes) == Some(recs[i].path));
        } else {
            assert(is_added(g, moved.archive, adds));
            assert(inputs_have(files, g.path));
            let m = choose|m: int| 0 <= m < files.len() && (#[trigger] files[m]).0 == g.path;
            assert(no_nul_end(files[m].0));
            lemma_padded_path(g.path);
        }
    }
}

/// Replacing, adding, and reading again. Where the table starts behind the
/// header, the records go by the paths that their bytes spell and no new path
/// ends with NUL, the patched archive is read without failure, and its index
/// names each record of the new table once, with its slot, in table order;
/// the record read there is the record of the new table.
pub proof fn lemma_replace_reread(
    a: Seq<u8>,
    header: Header,
    pairs: Seq<(Seq<char>, u64)>,
    files: Seq<(Seq<char>, Seq<u8>)>,
)
    requires
        pairs_wf(pairs),
        files.len() > 0,
        header.version == 1,
        replace_outcome(a, header, pairs, files) is Ok,
        replace_outcome(a, header, pairs, files)->Ok_0.len() <= u64::MAX,
        built_records(a, pairs)[0].table_offset == HEADER_SIZE,
        paths_spelled(built_records(a, pairs)),
        forall|m: int| 0 <= m < files.len() ==> no_nul_end((#[trigger] files[m]).0),
    ensures
        ({
            let b = replace_outcome(a, header, pairs, files)->Ok_0;
            let table = replace_patch(a, pairs, files)->Ok_0.records;
            let index = last_wins(scanned_pairs(b, table.len()));
            &&& read_error(b) is None
            &&& le_u32_at(b, 84) == table.len()
            &&& index.len() == table.len()
            &&& forall|i: int|
                0 <= i < table.len() ==> (#[trigger] index[i]).0 == table[i].path && index[i].1
                    == slot(table, HEADER_SIZE as int, i)
            &&& built_ok(b, index)
            &&& forall|i: int|
                0 <= i < table.len() ==> (#[trigger] built_records(b, index)[i]).path
                    == table[i].path && built_records(b, index)[i].entry == table[i].entry
        }),
{
    let b = replace_outcome(a, header, pairs, files)->Ok_0;
    let st = replace_patch(a, pairs, files)->Ok_0;
    let table = st.records;
    lemma_replace_outcome(a, header, pairs, files);
    assert(st.archive.len() <= b.len()) by {
        let start = built_records(a, pairs)[0].table_offset;
        let mid = overwrite(st.archive, 0, header_bytes(with_count(header, table.len() as u32)));
        assert(mid.len() >= st.archive.len());
        assert(b == overwrite(mid, start as int, table_bytes(table)));
    }
    lemma_replace_patch(a, pairs, files);
    lemma_patch_spelled(a, pairs, files);
    assert(table_at(b, table));
    lemma_reread(b, table);
}

/// Deleting, and reading again. Where the table starts behind the header
/// and the records go by the paths that their bytes spell, the archive after
/// a deletion is read without failure, and its index names each record that
/// stays once, with its slot, in table order; the record read there is the
/// record that stayed.
pub proof fn lemma_delete_reread(
    a: Seq<u8>,
    header: Header,
    pairs: Seq<(Seq<char>, u64)>,
    paths: Seq<Seq<char>>,
)
    requires
        pairs_wf(pairs),
        built_ok(a, pairs),
        header.version == 1,
        any_present(built_records(a, pairs), paths),
        delete_outcome(a, header, pairs, paths) is Ok,
        delete_outcome(a, header, pairs, paths)->Ok_0.len() <= u64::MAX,
        built_records(a, pairs)[0].table_offset == HEADER_SIZE,
        paths_spelled(built_records(a, pairs)),
    ensures
        ({
            let b = delete_outcome(a, header, pairs, paths)->Ok_0;
            let table = remaining(built_records(a, pairs), paths, HEADER_SIZE as u64);
            let index = last_wins(scanned_pairs(b, table.len()));
            &&& read_error(b) is None
            &&& le_u32_at(b, 84) == table.len()
            &&& index.len() == table.len()
            &&& forall|i: int|
                0 <= i < table.len() ==> (#[trigger] index[i]).0 == table[i].path && index[i].1
                    == slot(table, HEADER_SIZE as int, i)
            &&& built_ok(b, index)
            &&& forall|i: int|
                0 <= i < table.len() ==> (#[trigger] built_records(b, index)[i]).path
                    == table[i].path && built_records(b, index)[i].entry == table[i].entry
        }),
{
    let recs = built_records(a, pairs);
    let table = remaining(recs, paths, HEADER_SIZE as u64);
    let b = delete_outcome(a, header, pairs, paths)->Ok_0;
    lemma_built(a, pairs);
    lemma_delete_outcome(a, header, pairs, paths);
    lemma_remaining_keeps(recs, paths, HEADER_SIZE as u64);
    assert(finish_error(table, HEADER_SIZE as u64) is None);
    lemma_remaining(recs, paths, HEADER_SIZE as u64);
    assert(paths_spelled(table)) by {
        assert forall|j: int| 0 <= j < table.len() implies entry_path(
            (#[trigger] table[j]).entry.path_bytes,
        ) == Some(table[j].path) by {
            let i = choose|i: int| 0 <= i < recs.len() && same_entry(table[j], #[trigger] recs[i]);
            assert(entry_path(recs[i].entry.path_bytes) == Some(recs[i].path));
        }
    }
    assert(table_at(b, table));
    lemma_reread(b, table);
}

/// Records that are read without failure can each be read, have UTF-8 path
/// bytes, and lie within the bytes.
pub proof fn lemma_scanned(s: Seq<u8>, n: nat, i: nat)
    requires
        scan_error(s, n) is None,
        i < n,
    ensures
        entry_readable(s, table_pos(s, i)),
        entry_path(entry_at(s, table_pos(s, i)).path_bytes) is Some,
        HEADER_SIZE <= table_pos(s, i) <= s.len(),
    decreases n,
{
    if i + 1 < n {
        lemma_scanned(s, (n - 1) as nat, i);
    } else {
        lemma_table_pos_grows(s, i, n);
    }
}

/// What the reader's index holds. The index of an archive that is read
/// without failure is sound, every record that it names can be read, and each
/// goes by the path that its path bytes spell. Where no path comes twice in
/// the archive, the index names all its records, the first right behind the
/// header.
pub proof fn lemma_index_read(s: Seq<u8>, n: nat)
    requires
        scan_error(s, n) is None,
        s.len() <= u64::MAX,
    ensures
        ({
            let index = last_wins(scanned_pairs(s, n));
            &&& pairs_wf(index)
            &&& built_ok(s, index)
            &&& paths_spelled(built_records(s, index))
            &&& (forall|i: int, j: int|
                0 <= i < j < n ==> (#[trigger] scanned_pairs(s, n)[i]).0 != (
                #[trigger] scanned_pairs(s, n)[j]).0) ==> index == scanned_pairs(s, n) && (n > 0
                ==> built_records(s, index)[0].table_offset == HEADER_SIZE)
        }),
{
    let all = scanned_pairs(s, n);
    let index = last_wins(all);
    assert forall|i: int| 0 <= i < n implies (#[trigger] all[i]).1 == table_pos(s, i as nat)
        && entry_readable(s, all[i].1 as int) && entry_path(
        entry_at(s, all[i].1 as int).path_bytes,
    ) == Some(all[i].0) by {
        lemma_scanned(s, n, i as nat);
    }
    assert forall|i: int, j: int| 0 <= i < j < all.len() implies (#[trigger] all[i]).1 < (
    #[trigger] all[j]).1 by {
        lemma_table_pos_grows(s, i as nat, j as nat);
    }
    assert forall|i: int| 0 <= i < all.len() implies (#[trigger] all[i]).1 >= HEADER_SIZE by {
        lemma_scanned(s, n, i as nat);
    }
    lemma_last_wins_wf(all);
    let src = lemma_kept(all, n);
    assert forall|j: int| 0 <= j < index.len() implies entry_readable(
        s,
        (#[trigger] index[j]).1 as int,
    ) by {
        assert(index[j] == all[src[j]]);
    }
    assert forall|j: int| 0 <= j < index.len() implies entry_path(
        (#[trigger] built_records(s, index)[j]).entry.path_bytes,
    ) == Some(built_records(s, index)[j].path) by {
        assert(index[j] == all[src[j]]);
    }
    if forall|i: int, j: int| 0 <= i < j < n ==> (#[trigger] all[i]).0 != (#[trigger] all[j]).0 {
        lemma_all_kept(all, n);
        assert(all.take(n as int) =~= all);
    }
}

} // verus!
