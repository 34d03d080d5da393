//! The archive mutator: replaces, adds and deletes entries of an archive
//! in place. Data is moved and appended first; the header and the entry
//! table are written over last.
use vstd::prelude::*;
use vstd::hash_map::StringHashMap;
use vstd::string::*;
use vstd::utf8::encode_utf8;
use crate::channel::{AppendCtx, move_error, overwrite, range_of, resized, set_len, write_at};
use crate::codec::{
    ENTRY_FIXED_SIZE, EntryView, Header, header_bytes, normalized_path_bytes, pad4, RawFileEntry,
    record_size, serialize_header,
};
use crate::digest::{checksum, checksum_of};
use crate::error::PckError;
use crate::index::{
    ascending, distinct_paths, EntryIndex, EntryRecord, has_offset, has_path, insert_sorted,
    position_of, rank, RecordView, with_data,
};
use crate::planner::{
    added_size, files_view, inputs_view, lemma_added_size_floor, lemma_added_size_grows,
    lemma_table_size_floor, lemma_table_size_grows, padded_len, paths_fit, plan_of, plan_table,
    selected, split_inputs, TablePlan,
};
use crate::table::{
    build_entry_map, built_ok, built_records, data_below, PathIndex, serialize_table, table_bytes,
    table_size,
};

verus! {

/// An archive on the way: its bytes and the records that its table will hold.
pub struct Patch {
    pub archive: Seq<u8>,
    pub records: Seq<RecordView>,
}

/// Some file of the list has the path `p`.
pub open spec fn inputs_have(files: Seq<(Seq<char>, Seq<u8>)>, p: Seq<char>) -> bool {
    exists|i: int| 0 <= i < files.len() && (#[trigger] files[i]).0 == p
}

/// No path occurs twice among the files.
pub open spec fn distinct_inputs(files: Seq<(Seq<char>, Seq<u8>)>) -> bool {
    forall|i: int, j: int|
        0 <= i < j < files.len() ==> (#[trigger] files[i]).0 != (#[trigger] files[j]).0
}

/// The archive after the first `k` records were looked at for relocation:
/// a record that is not replaced and whose data starts below `limit` has its
/// data copied to the end and points there. The records are taken as `recs`
/// names them, in table order.
pub open spec fn relocated(
    a: Seq<u8>,
    recs: Seq<RecordView>,
    reps: Seq<(Seq<char>, Seq<u8>)>,
    limit: u64,
    k: nat,
) -> Result<Patch, PckError>
    decreases k,
{
    if k == 0 {
        Ok(Patch { archive: a, records: recs })
    } else {
        match relocated(a, recs, reps, limit, (k - 1) as nat) {
            Err(e) => Err(e),
            Ok(st) => {
                let r = recs[k - 1];
                if inputs_have(reps, r.path) || r.entry.offset >= limit {
                    Ok(st)
                } else {
                    match move_error(st.archive.len() as int, r.entry.offset, r.entry.size) {
                        Some(e) => Err(e),
                        None => Ok(
                            Patch {
                                archive: st.archive + range_of(
                                    st.archive,
                                    r.entry.offset,
                                    r.entry.size,
                                ),
                                records: st.records.update(
                                    k - 1,
                                    with_data(
                                        r,
                                        st.archive.len() as u64,
                                        r.entry.size,
                                        r.entry.md5,
                                    ),
                                ),
                            },
                        ),
                    }
                }
            },
        }
    }
}

/// The set of the paths of a list of files.
fn path_set(files: &Vec<(String, &[u8])>) -> (set: StringHashMap<bool>)
    ensures
        forall|p: Seq<char>| set@.contains_key(p) <==> inputs_have(inputs_view(files@), p),
{
    let ghost all = inputs_view(files@);
    let mut set: StringHashMap<bool> = StringHashMap::new();
    let mut i: usize = 0;
    while i < files.len()
        invariant
            i <= files@.len(),
            all == inputs_view(files@),
            forall|p: Seq<char>| set@.contains_key(p) <==> inputs_have(all.take(i as int), p),
        decreases files@.len() - i,
    {
        let ghost before = set@;
        set.insert(files[i].0.clone(), true);
        proof {
            let was = all.take(i as int);
            let now = all.take(i + 1);
            assert forall|p: Seq<char>| set@.contains_key(p) implies inputs_have(now, p) by {
                if p == all[i as int].0 {
                    assert(now[i as int].0 == p);
                } else {
                    assert(before.contains_key(p));
                    let j = choose|j: int| 0 <= j < was.len() && (#[trigger] was[j]).0 == p;
                    assert(now[j].0 == p);
                }
            }
            assert forall|p: Seq<char>| inputs_have(now, p) implies set@.contains_key(p) by {
                let j = choose|j: int| 0 <= j < now.len() && (#[trigger] now[j]).0 == p;
                if j < i {
                    assert(was[j].0 == p);
                }
            }
        }
        i += 1;
    }
    assert(all.take(i as int) =~= all);
    set
}

/// Moves to the end the data of each record that is not replaced and whose
/// data starts below `limit`, and lets the record point to the copy. It stops
/// at the first record whose data cannot be read; what was moved before stays.
pub fn relocate(
    archive: &mut Vec<u8>,
    append: &mut AppendCtx,
    entry_map: &mut EntryIndex,
    replace_inputs: &Vec<(String, &[u8])>,
    limit: u64,
) -> (r: Result<(), PckError>)
    requires
        old(entry_map).wf(),
        old(append).position() == old(archive)@.len(),
    ensures
        final(entry_map).wf(),
        final(append).position() == final(archive)@.len(),
        old(archive)@.is_prefix_of(final(archive)@),
        match r {
            Ok(()) => relocated(
                old(archive)@,
                old(entry_map)@,
                inputs_view(replace_inputs@),
                limit,
                old(entry_map)@.len(),
            ) == Ok::<Patch, PckError>(
                Patch { archive: final(archive)@, records: final(entry_map)@ },
            ),
            Err(e) => relocated(
                old(archive)@,
                old(entry_map)@,
                inputs_view(replace_inputs@),
                limit,
                old(entry_map)@.len(),
            ) == Err::<Patch, PckError>(e),
        },
{
    let ghost a0 = archive@;
    let ghost recs = entry_map@;
    let ghost reps = inputs_view(replace_inputs@);
    let replace_paths = path_set(replace_inputs);
    let count: usize = entry_map.len();
    let mut i: usize = 0;
    while i < count
        invariant
            i <= count,
            count == recs.len(),
            a0 == old(archive)@,
            recs == old(entry_map)@,
            reps == inputs_view(replace_inputs@),
            forall|p: Seq<char>| replace_paths@.contains_key(p) <==> inputs_have(reps, p),
            entry_map.wf(),
            append.position() == archive@.len(),
            a0.is_prefix_of(archive@),
            entry_map@.len() == count,
            forall|j: int| 0 <= j < count ==> (#[trigger] entry_map@[j]).path == recs[j].path,
            forall|j: int| i <= j < count ==> #[trigger] entry_map@[j] == recs[j],
            relocated(a0, recs, reps, limit, i as nat) == Ok::<Patch, PckError>(
                Patch { archive: archive@, records: entry_map@ },
            ),
        decreases count - i,
    {
        let rec: &EntryRecord = entry_map.record(i);
        let offset: u64 = rec.entry.offset;
        let size: u64 = rec.entry.size;
        if !replace_paths.contains_key(rec.path.as_str()) && offset < limit {
            let path: String = rec.path.clone();
            let ghost before = entry_map@;
            let ghost bytes_before = archive@;
            match append.move_range(archive, offset, size) {
                Err(e) => {
                    proof {
                        lemma_relocated_stays(a0, recs, reps, limit, (i + 1) as nat, count as nat);
                    }
                    return Err(e);
                },
                Ok(new_offset) => {
                    proof {
                        entry_map.lemma_wf();
                        assert(has_path(before, path@));
                        assert(position_of(before, path@) == i);
                    }
                    let ok: bool = entry_map.set_offset(path.as_str(), new_offset);
                    assert(ok);
                    proof {
                        assert forall|j: int| 0 <= j < count implies (
                        #[trigger] entry_map@[j]).path == recs[j].path by {
                            assert(before[j].path == recs[j].path);
                        }
                        assert forall|j: int| i + 1 <= j < count implies #[trigger] entry_map@[j]
                            == recs[j] by {
                            assert(before[j] == recs[j]);
                        }
                    }
                },
            }
        }
        i += 1;
    }
    Ok(())
}

/// A relocation that failed at some record has failed for good.
pub proof fn lemma_relocated_stays(
    a: Seq<u8>,
    recs: Seq<RecordView>,
    reps: Seq<(Seq<char>, Seq<u8>)>,
    limit: u64,
    k: nat,
    n: nat,
)
    requires
        k <= n,
        relocated(a, recs, reps, limit, k) is Err,
    ensures
        relocated(a, recs, reps, limit, n) == relocated(a, recs, reps, limit, k),
    decreases n,
{
    if k < n {
        lemma_relocated_stays(a, recs, reps, limit, k, (n - 1) as nat);
    }
}

/// The record of a new file: its path bytes are the path, padded with NUL
/// to a multiple of four.
pub open spec fn new_record(
    path: Seq<char>,
    table_offset: u64,
    offset: u64,
    size: u64,
    md5: Seq<u8>,
) -> RecordView {
    RecordView {
        path,
        table_offset,
        entry: EntryView {
            path_len: padded_len(path) as u32,
            path_bytes: pad4(encode_utf8(path)),
            offset,
            size,
            md5,
        },
    }
}

/// Builds the record of a new file whose padded path bytes are at hand.
fn build_record(
    path: &str,
    path_bytes: Vec<u8>,
    table_offset: u64,
    offset: u64,
    size: u64,
    digest: [u8; 16],
) -> (rec: EntryRecord)
    requires
        path_bytes@ == pad4(encode_utf8(path@)),
        padded_len(path@) <= u32::MAX,
    ensures
        rec@ == new_record(path@, table_offset, offset, size, digest@),
{
    let path_len: u32 = path_bytes.len() as u32;
    EntryRecord {
        path: path.to_owned(),
        table_offset,
        entry: RawFileEntry { path_len, path_bytes, offset, size, md5: digest },
    }
}

/// Builds the record of a new file from its path, its place in the table,
/// the place and size of its data and the checksum of its data. There is
/// none where the padded path is longer than the length field can say.
pub fn make_record(path: &str, table_offset: u64, offset: u64, size: u64, digest: [u8; 16]) -> (r:
    Result<EntryRecord, PckError>)
    ensures
        match r {
            Ok(rec) => padded_len(path@) <= u32::MAX && rec@ == new_record(
                path@,
                table_offset,
                offset,
                size,
                digest@,
            ),
            Err(e) => e == PckError::FileTooLarge && padded_len(path@) > u32::MAX,
        },
{
    let path_bytes: Vec<u8> = normalized_path_bytes(path);
    if path_bytes.len() > u32::MAX as usize {
        return Err(PckError::FileTooLarge);
    }
    Ok(build_record(path, path_bytes, table_offset, offset, size, digest))
}

/// The archive after the first `k` new files were taken in: the data of each
/// is appended, and its record goes to the next free place of the table,
/// which `next` counts on from. A place or a path that is taken ends it.
pub open spec fn added(st: Patch, adds: Seq<(Seq<char>, Seq<u8>)>, next: int, k: nat) -> Result<
    (Patch, int),
    PckError,
>
    decreases k,
{
    if k == 0 {
        Ok((st, next))
    } else {
        match added(st, adds, next, (k - 1) as nat) {
            Err(e) => Err(e),
            Ok((s, free)) => {
                let rec = new_record(
                    adds[k - 1].0,
                    free as u64,
                    s.archive.len() as u64,
                    adds[k - 1].1.len() as u64,
                    checksum(adds[k - 1].1),
                );
                if has_path(s.records, rec.path) || has_offset(s.records, rec.table_offset) {
                    Err(PckError::TableOverflow)
                } else {
                    Ok(
                        (
                            Patch {
                                archive: s.archive + adds[k - 1].1,
                                records: insert_sorted(s.records, rec),
                            },
                            free + record_size(rec.entry.path_len),
                        ),
                    )
                }
            },
        }
    }
}

/// The archive after the first `k` replacements: the new data of each is
/// appended, and its record points to it, with its size and checksum.
pub open spec fn replaced(st: Patch, reps: Seq<(Seq<char>, Seq<u8>)>, k: nat) -> Result<
    Patch,
    PckError,
>
    decreases k,
{
    if k == 0 {
        Ok(st)
    } else {
        match replaced(st, reps, (k - 1) as nat) {
            Err(e) => Err(e),
            Ok(s) => {
                let path = reps[k - 1].0;
                let data = reps[k - 1].1;
                if !has_path(s.records, path) {
                    Err(PckError::EntryNotFound)
                } else {
                    Ok(
                        Patch {
                            archive: s.archive + data,
                            records: s.records.update(
                                position_of(s.records, path),
                                with_data(
                                    s.records[position_of(s.records, path)],
                                    s.archive.len() as u64,
                                    data.len() as u64,
                                    checksum(data),
                                ),
                            ),
                        },
                    )
                }
            },
        }
    }
}

/// A failure among the first new files is the failure of all.
pub proof fn lemma_added_stays(
    st: Patch,
    adds: Seq<(Seq<char>, Seq<u8>)>,
    next: int,
    k: nat,
    n: nat,
)
    requires
        k <= n,
        added(st, adds, next, k) is Err,
    ensures
        added(st, adds, next, n) == added(st, adds, next, k),
    decreases n,
{
    if k < n {
        lemma_added_stays(st, adds, next, k, (n - 1) as nat);
    }
}

/// A failure among the first replacements is the failure of all.
pub proof fn lemma_replaced_stays(st: Patch, reps: Seq<(Seq<char>, Seq<u8>)>, k: nat, n: nat)
    requires
        k <= n,
        replaced(st, reps, k) is Err,
    ensures
        replaced(st, reps, n) == replaced(st, reps, k),
    decreases n,
{
    if k < n {
        lemma_replaced_stays(st, reps, k, (n - 1) as nat);
    }
}

/// Appends the data of each new file and puts its record into the index,
/// from the table offset `next` on.
fn append_new(
    archive: &mut Vec<u8>,
    append: &mut AppendCtx,
    entry_map: &mut EntryIndex,
    add_inputs: &Vec<(String, &[u8])>,
    next: u64,
) -> (r: Result<(), PckError>)
    requires
        old(entry_map).wf(),
        old(append).position() == old(archive)@.len(),
        paths_fit(inputs_view(add_inputs@)),
        next + added_size(inputs_view(add_inputs@)) <= u64::MAX,
    ensures
        final(entry_map).wf(),
        final(append).position() == final(archive)@.len(),
        old(archive)@.is_prefix_of(final(archive)@),
        match r {
            Ok(()) => {
                let end = added(
                    Patch { archive: old(archive)@, records: old(entry_map)@ },
                    inputs_view(add_inputs@),
                    next as int,
                    add_inputs@.len(),
                );
                end is Ok && end->Ok_0.0 == (Patch {
                    archive: final(archive)@,
                    records: final(entry_map)@,
                })
            },
            Err(e) => added(
                Patch { archive: old(archive)@, records: old(entry_map)@ },
                inputs_view(add_inputs@),
                next as int,
                add_inputs@.len(),
            ) == Err::<(Patch, int), PckError>(e),
        },
{
    let ghost st0 = Patch { archive: archive@, records: entry_map@ };
    let ghost adds = inputs_view(add_inputs@);
    let mut free: u64 = next;
    let mut i: usize = 0;
    proof {
        assert(adds.take(0).len() == 0);
    }
    while i < add_inputs.len()
        invariant
            i <= adds.len(),
            adds == inputs_view(add_inputs@),
            st0 == (Patch { archive: old(archive)@, records: old(entry_map)@ }),
            paths_fit(adds),
            next + added_size(adds) <= u64::MAX,
            free == next + added_size(adds.take(i as int)),
            entry_map.wf(),
            append.position() == archive@.len(),
            st0.archive.is_prefix_of(archive@),
            added(st0, adds, next as int, i as nat) == Ok::<(Patch, int), PckError>(
                (Patch { archive: archive@, records: entry_map@ }, free as int),
            ),
        decreases adds.len() - i,
    {
        let path: &str = add_inputs[i].0.as_str();
        let data: &[u8] = add_inputs[i].1;
        let ghost before = Patch { archive: archive@, records: entry_map@ };
        let new_offset: u64 = append.append_bytes(archive, data);
        let digest: [u8; 16] = checksum_of(data);
        proof {
            assert(adds.take(i + 1).drop_last() =~= adds.take(i as int));
            assert(adds.take(i + 1).last() == adds[i as int]);
            lemma_added_size_grows(adds, i + 1);
        }
        let rec = build_record(
            path,
            normalized_path_bytes(path),
            free,
            new_offset,
            data.len() as u64,
            digest,
        );
        let size: u64 = ENTRY_FIXED_SIZE + rec.entry.path_len as u64;
        let ok: bool = entry_map.insert(rec);
        if !ok {
            proof {
                lemma_added_stays(st0, adds, next as int, (i + 1) as nat, adds.len());
            }
            return Err(PckError::TableOverflow);
        }
        free = free + size;
        i += 1;
    }
    Ok(())
}

/// Appends the new data of each replaced file and lets its record point to
/// it, with its size and checksum. It stops at the first file whose path the
/// index does not hold, after that file's data was appended.
pub fn append_replacements(
    archive: &mut Vec<u8>,
    append: &mut AppendCtx,
    entry_map: &mut EntryIndex,
    replace_inputs: &Vec<(String, &[u8])>,
) -> (r: Result<(), PckError>)
    requires
        old(entry_map).wf(),
        old(append).position() == old(archive)@.len(),
    ensures
        final(entry_map).wf(),
        final(append).position() == final(archive)@.len(),
        old(archive)@.is_prefix_of(final(archive)@),
        match r {
            Ok(()) => replaced(
                Patch { archive: old(archive)@, records: old(entry_map)@ },
                inputs_view(replace_inputs@),
                replace_inputs@.len(),
            ) == Ok::<Patch, PckError>(
                Patch { archive: final(archive)@, records: final(entry_map)@ },
            ),
            Err(e) => replaced(
                Patch { archive: old(archive)@, records: old(entry_map)@ },
                inputs_view(replace_inputs@),
                replace_inputs@.len(),
            ) == Err::<Patch, PckError>(e),
        },
{
    let ghost st0 = Patch { archive: archive@, records: entry_map@ };
    let ghost reps = inputs_view(replace_inputs@);
    let mut i: usize = 0;
    while i < replace_inputs.len()
        invariant
            i <= reps.len(),
            reps == inputs_view(replace_inputs@),
            st0 == (Patch { archive: old(archive)@, records: old(entry_map)@ }),
            entry_map.wf(),
            append.position() == archive@.len(),
            st0.archive.is_prefix_of(archive@),
            replaced(st0, reps, i as nat) == Ok::<Patch, PckError>(
                Patch { archive: archive@, records: entry_map@ },
            ),
        decreases reps.len() - i,
    {
        let path: &str = replace_inputs[i].0.as_str();
        let data: &[u8] = replace_inputs[i].1;
        let new_offset: u64 = append.append_bytes(archive, data);
        let digest: [u8; 16] = checksum_of(data);
        let ok: bool = entry_map.update_data(path, new_offset, data.len() as u64, digest);
        if !ok {
            proof {
                lemma_replaced_stays(st0, reps, (i + 1) as nat, reps.len());
            }
            return Err(PckError::EntryNotFound);
        }
        i += 1;
    }
    Ok(())
}

/// The header `header` with another entry count.
pub open spec fn with_count(header: Header, count: u32) -> Header {
    Header { file_count: count, ..header }
}

/// Why the header and the table cannot be written, if they cannot: no
/// record, a table that ends beyond what 64 bits count, a record whose data
/// starts before the table's end, more records than 32 bits count, or a table
/// that ends beyond what memory can address.
pub open spec fn finish_error(recs: Seq<RecordView>, table_start: u64) -> Option<PckError> {
    if recs.len() == 0 {
        Some(PckError::EmptyArchive)
    } else if table_start + table_size(recs) > u64::MAX {
        Some(PckError::FileTooLarge)
    } else if data_below(recs, table_start + table_size(recs)) {
        Some(PckError::TableOverflow)
    } else if recs.len() > u32::MAX || table_start + table_bytes(recs).len() > usize::MAX {
        Some(PckError::FileTooLarge)
    } else {
        None
    }
}

/// The archive with its header and its entry table written over: the header
/// with the number of records at the start, the records from `table_start` on.
pub open spec fn written_back(a: Seq<u8>, recs: Seq<RecordView>, header: Header, table_start: u64)
    -> Seq<u8> {
    overwrite(
        overwrite(a, 0, header_bytes(with_count(header, recs.len() as u32))),
        table_start as int,
        table_bytes(recs),
    )
}

/// The archive at the end of a change, or why the change cannot be finished.
pub open spec fn finished(st: Patch, header: Header, table_start: u64) -> Result<
    Seq<u8>,
    PckError,
> {
    match finish_error(st.records, table_start) {
        Some(e) => Err(e),
        None => Ok(written_back(st.archive, st.records, header, table_start)),
    }
}

/// Checks that the table of the index ends before any record's data starts
/// and that its size and count fit, and returns the bytes of the table.
fn checked_table(entry_map: &EntryIndex, table_start: u64) -> (r: Result<Vec<u8>, PckError>)
    ensures
        match r {
            Ok(table) => finish_error(entry_map@, table_start) is None && table@ == table_bytes(
                entry_map@,
            ),
            Err(e) => finish_error(entry_map@, table_start) == Some(e),
        },
{
    let ghost recs = entry_map@;
    let count: usize = entry_map.len();
    if count == 0 {
        return Err(PckError::EmptyArchive);
    }
    let mut min_data_offset: u64 = entry_map.record(0).entry.offset;
    let mut end: u64 = table_start;
    let mut i: usize = 0;
    while i < count
        invariant
            i <= count,
            count == recs.len(),
            count > 0,
            recs == entry_map@,
            end == table_start + table_size(recs.take(i as int)),
            forall|j: int| 0 <= j < i ==> min_data_offset <= (#[trigger] recs[j]).entry.offset,
            exists|j: int| 0 <= j < count && (#[trigger] recs[j]).entry.offset == min_data_offset,
        decreases count - i,
    {
        let rec: &EntryRecord = entry_map.record(i);
        let size: u64 = ENTRY_FIXED_SIZE + rec.entry.path_len as u64;
        proof {
            assert(recs.take(i + 1).drop_last() =~= recs.take(i as int));
            lemma_table_size_grows(recs, i + 1);
        }
        if size > u64::MAX - end {
            return Err(PckError::FileTooLarge);
        }
        end = end + size;
        if rec.entry.offset < min_data_offset {
            min_data_offset = rec.entry.offset;
        }
        i += 1;
    }
    assert(recs.take(i as int) =~= recs);
    if end > min_data_offset {
        return Err(PckError::TableOverflow);
    }
    if count > u32::MAX as usize {
        return Err(PckError::FileTooLarge);
    }
    let table: Vec<u8> = serialize_table(entry_map);
    if table_start > usize::MAX as u64 || table.len() > usize::MAX - table_start as usize {
        return Err(PckError::FileTooLarge);
    }
    Ok(table)
}

/// Writes the header, with the number of records of the index as its entry
/// count, and the table of the index over the archive. Nothing is written
/// where the table would reach into the data or a count does not fit.
pub fn write_back(archive: &mut Vec<u8>, header: &Header, entry_map: &EntryIndex, table_start: u64)
    -> (r: Result<(), PckError>)
    ensures
        match r {
            Ok(()) => finished(
                Patch { archive: old(archive)@, records: entry_map@ },
                *header,
                table_start,
            ) == Ok::<Seq<u8>, PckError>(final(archive)@),
            Err(e) => finished(
                Patch { archive: old(archive)@, records: entry_map@ },
                *header,
                table_start,
            ) == Err::<Seq<u8>, PckError>(e) && final(archive)@ == old(archive)@,
        },
{
    let table: Vec<u8> = match checked_table(entry_map, table_start) {
        Ok(table) => table,
        Err(e) => {
            return Err(e);
        },
    };
    let new_header = Header {
        version: header.version,
        godot_version_major: header.godot_version_major,
        godot_version_minor: header.godot_version_minor,
        godot_version_patch: header.godot_version_patch,
        reserved: header.reserved,
        file_count: entry_map.len() as u32,
    };
    assert(new_header == with_count(*header, entry_map@.len() as u32));
    let head: Vec<u8> = serialize_header(&new_header);
    write_at(archive, 0, head.as_slice());
    write_at(archive, table_start as usize, table.as_slice());
    Ok(())
}

/// The archive and the records after relocation, additions and
/// replacements, before the header and the table are written; or the failure
/// that ends the change before that.
pub open spec fn replace_patch(
    a: Seq<u8>,
    pairs: Seq<(Seq<char>, u64)>,
    files: Seq<(Seq<char>, Seq<u8>)>,
) -> Result<Patch, PckError> {
    if !distinct_inputs(files) {
        Err(PckError::DuplicatePathInBatch)
    } else if !built_ok(a, pairs) {
        Err(PckError::IOFailure)
    } else {
        let recs = built_records(a, pairs);
        let reps = selected(files, recs, true);
        let adds = selected(files, recs, false);
        match plan_of(recs, adds) {
            Err(e) => Err(e),
            Ok(plan) => match relocated(a, recs, reps, plan.table_end_after, recs.len()) {
                Err(e) => Err(e),
                Ok(moved) => match added(
                    moved,
                    adds,
                    plan.next_new_table_offset as int,
                    adds.len(),
                ) {
                    Err(e) => Err(e),
                    Ok((grown, free)) => replaced(grown, reps, reps.len()),
                },
            },
        }
    }
}

/// What replacing and adding the files `files` makes of the archive `a`
/// whose records the index `pairs` names: the new archive, or the failure.
/// An empty batch changes nothing.
pub open spec fn replace_outcome(
    a: Seq<u8>,
    header: Header,
    pairs: Seq<(Seq<char>, u64)>,
    files: Seq<(Seq<char>, Seq<u8>)>,
) -> Result<Seq<u8>, PckError> {
    if files.len() == 0 {
        Ok(a)
    } else {
        match replace_patch(a, pairs, files) {
            Err(e) => Err(e),
            Ok(st) => finished(st, header, built_records(a, pairs)[0].table_offset),
        }
    }
}

/// Whether a path occurs twice among the files.
fn has_duplicate_path(files: &Vec<(&str, &[u8])>) -> (found: bool)
    ensures
        found == !distinct_inputs(files_view(files@)),
{
    let ghost all = files_view(files@);
    let mut seen: StringHashMap<bool> = StringHashMap::new();
    let mut i: usize = 0;
    while i < files.len()
        invariant
            i <= files@.len(),
            all == files_view(files@),
            distinct_inputs(all.take(i as int)),
            forall|p: Seq<char>| seen@.contains_key(p) <==> inputs_have(all.take(i as int), p),
        decreases files@.len() - i,
    {
        let path: &str = files[i].0;
        let ghost was = all.take(i as int);
        let ghost now = all.take(i + 1);
        if seen.contains_key(path) {
            proof {
                let j = choose|j: int| 0 <= j < was.len() && (#[trigger] was[j]).0 == path@;
                assert(all[j].0 == all[i as int].0);
            }
            return true;
        }
        let ghost before = seen@;
        seen.insert(path.to_owned(), true);
        proof {
            assert forall|a: int, b: int| 0 <= a < b < now.len() implies (#[trigger] now[a]).0 != (
            #[trigger] now[b]).0 by {
                if b < i {
                    assert(was[a].0 != was[b].0);
                } else {
                    if now[a].0 == now[b].0 {
                        assert(was[a].0 == path@);
                        assert(inputs_have(was, path@));
                    }
                }
            }
            assert forall|p: Seq<char>| seen@.contains_key(p) implies inputs_have(now, p) by {
                if p == path@ {
                    assert(now[i as int].0 == p);
                } else {
                    assert(before.contains_key(p));
                    let j = choose|j: int| 0 <= j < was.len() && (#[trigger] was[j]).0 == p;
                    assert(now[j].0 == p);
                }
            }
            assert forall|p: Seq<char>| inputs_have(now, p) implies seen@.contains_key(p) by {
                let j = choose|j: int| 0 <= j < now.len() && (#[trigger] now[j]).0 == p;
                if j < i {
                    assert(was[j].0 == p);
                }
            }
        }
        i += 1;
    }
    assert(all.take(i as int) =~= all);
    false
}

/// Replaces and adds files in an archive. A file whose path the index knows
/// replaces that entry's data; any other is added as a new entry. Data that
/// the grown table would cover is moved to the end first, then the new data
/// is appended, and last the header and the table are written over. After a
/// failure the archive holds what it held, and at most more bytes behind it;
/// it is unchanged where a path comes twice, a record cannot be read or no
/// table can be planned.
pub fn replace_files_in_pck(
    archive: &mut Vec<u8>,
    header: &Header,
    entry_offsets: &PathIndex,
    files: Vec<(&str, &[u8])>,
) -> (r: Result<(), PckError>)
    requires
        entry_offsets.wf(),
    ensures
        match r {
            Ok(()) => replace_outcome(
                old(archive)@,
                *header,
                entry_offsets@,
                files_view(files@),
            ) == Ok::<Seq<u8>, PckError>(final(archive)@),
            Err(e) => {
                &&& replace_outcome(old(archive)@, *header, entry_offsets@, files_view(files@))
                    == Err::<Seq<u8>, PckError>(e)
                &&& old(archive)@.is_prefix_of(final(archive)@)
                &&& (!distinct_inputs(files_view(files@)) || !built_ok(
                    old(archive)@,
                    entry_offsets@,
                ) || plan_of(
                    built_records(old(archive)@, entry_offsets@),
                    selected(
                        files_view(files@),
                        built_records(old(archive)@, entry_offsets@),
                        false,
                    ),
                ) is Err) ==> final(archive)@ == old(archive)@
            },
        },
{
    let ghost a0 = archive@;
    let ghost all = files_view(files@);
    if files.len() == 0 {
        return Ok(());
    }
    if has_duplicate_path(&files) {
        return Err(PckError::DuplicatePathInBatch);
    }
    let mut entry_map = match build_entry_map(archive.as_slice(), entry_offsets) {
        Ok(index) => index,
        Err(e) => {
            return Err(e);
        },
    };
    let ghost recs = entry_map@;
    let (replace_inputs, add_inputs) = split_inputs(files, &entry_map);
    let plan: TablePlan = match plan_table(&entry_map, &add_inputs) {
        Ok(plan) => plan,
        Err(e) => {
            return Err(e);
        },
    };
    proof {
        lemma_table_size_floor(recs);
        lemma_added_size_floor(inputs_view(add_inputs@));
    }
    let mut append = AppendCtx::new(archive);
    match relocate(archive, &mut append, &mut entry_map, &replace_inputs, plan.table_end_after) {
        Ok(()) => {},
        Err(e) => {
            return Err(e);
        },
    }
    let ghost a1 = archive@;
    match append_new(
        archive,
        &mut append,
        &mut entry_map,
        &add_inputs,
        plan.next_new_table_offset,
    ) {
        Ok(()) => {},
        Err(e) => {
            return Err(e);
        },
    }
    let ghost a2 = archive@;
    match append_replacements(archive, &mut append, &mut entry_map, &replace_inputs) {
        Ok(()) => {},
        Err(e) => {
            return Err(e);
        },
    }
    write_back(archive, header, &entry_map, plan.table_start)
}

/// The paths of a list, each as plain text.
pub open spec fn paths_view(paths: Seq<&str>) -> Seq<Seq<char>> {
    Seq::new(paths.len(), |i: int| paths[i]@)
}

/// No path occurs twice in the list.
pub open spec fn distinct_listed(paths: Seq<Seq<char>>) -> bool {
    forall|i: int, j: int| 0 <= i < j < paths.len() ==> #[trigger] paths[i] != #[trigger] paths[j]
}

/// The list names the path `p`.
pub open spec fn listed(paths: Seq<Seq<char>>, p: Seq<char>) -> bool {
    exists|i: int| 0 <= i < paths.len() && #[trigger] paths[i] == p
}

/// Some path of the list is the path of a record.
pub open spec fn any_present(recs: Seq<RecordView>, paths: Seq<Seq<char>>) -> bool {
    exists|i: int| 0 <= i < paths.len() && has_path(recs, #[trigger] paths[i])
}

/// The record `r` at another place of the table.
pub open spec fn moved_to(r: RecordView, table_offset: u64) -> RecordView {
    RecordView { path: r.path, table_offset, entry: r.entry }
}

/// The records whose path the list does not name, in their order, laid out
/// back to back from `start` on.
pub open spec fn remaining(recs: Seq<RecordView>, paths: Seq<Seq<char>>, start: u64) -> Seq<
    RecordView,
>
    decreases recs.len(),
{
    if recs.len() == 0 {
        Seq::empty()
    } else {
        let rest = remaining(recs.drop_last(), paths, start);
        if listed(paths, recs.last().path) {
            rest
        } else {
            rest.push(moved_to(recs.last(), (start + table_size(rest)) as u64))
        }
    }
}

/// The end of the data that lies furthest back, and 0 where there is no record.
pub open spec fn max_data_end(recs: Seq<RecordView>) -> int
    decreases recs.len(),
{
    if recs.len() == 0 {
        0
    } else {
        let before = max_data_end(recs.drop_last());
        let end = recs.last().entry.offset + recs.last().entry.size;
        if end > before {
            end
        } else {
            before
        }
    }
}

/// The length of an archive after a deletion: it ends with its table or with
/// the data that lies furthest back, whichever ends later.
pub open spec fn length_after(recs: Seq<RecordView>, table_start: u64) -> int {
    if table_start + table_size(recs) > max_data_end(recs) {
        table_start + table_size(recs)
    } else {
        max_data_end(recs)
    }
}

/// What deleting the entries with the paths `paths` makes of the archive `a`
/// whose records the index `pairs` names: the new archive, or the failure.
/// An empty list, and one that names no entry of the archive, change nothing.
pub open spec fn delete_outcome(
    a: Seq<u8>,
    header: Header,
    pairs: Seq<(Seq<char>, u64)>,
    paths: Seq<Seq<char>>,
) -> Result<Seq<u8>, PckError> {
    if paths.len() == 0 {
        Ok(a)
    } else if !distinct_listed(paths) {
        Err(PckError::DuplicatePathInBatch)
    } else if !built_ok(a, pairs) {
        Err(PckError::IOFailure)
    } else if !any_present(built_records(a, pairs), paths) {
        Ok(a)
    } else {
        let recs = built_records(a, pairs);
        let start = recs[0].table_offset;
        let rest = remaining(recs, paths, start);
        match finish_error(rest, start) {
            Some(e) => Err(e),
            None => if length_after(rest, start) > usize::MAX {
                Err(PckError::FileTooLarge)
            } else {
                Ok(resized(written_back(a, rest, header, start), length_after(rest, start)))
            },
        }
    }
}

/// The set of the paths of a list, and nothing where a path occurs twice.
fn collect_paths(paths: &Vec<&str>) -> (r: Option<StringHashMap<bool>>)
    ensures
        match r {
            Some(set) => distinct_listed(paths_view(paths@)) && forall|p: Seq<char>|
                set@.contains_key(p) <==> listed(paths_view(paths@), p),
            None => !distinct_listed(paths_view(paths@)),
        },
{
    let ghost all = paths_view(paths@);
    let mut seen: StringHashMap<bool> = StringHashMap::new();
    let mut i: usize = 0;
    while i < paths.len()
        invariant
            i <= paths@.len(),
            all == paths_view(paths@),
            distinct_listed(all.take(i as int)),
            forall|p: Seq<char>| seen@.contains_key(p) <==> listed(all.take(i as int), p),
        decreases paths@.len() - i,
    {
        let path: &str = paths[i];
        let ghost was = all.take(i as int);
        let ghost now = all.take(i + 1);
        if seen.contains_key(path) {
            proof {
                let j = choose|j: int| 0 <= j < was.len() && #[trigger] was[j] == path@;
                assert(all[j] == all[i as int]);
            }
            return None;
        }
        let ghost before = seen@;
        seen.insert(path.to_owned(), true);
        proof {
            assert forall|a: int, b: int| 0 <= a < b < now.len() implies #[trigger] now[a]
                != #[trigger] now[b] by {
                if b < i {
                    assert(was[a] != was[b]);
                } else {
                    if now[a] == now[b] {
                        assert(was[a] == path@);
                        assert(listed(was, path@));
                    }
                }
            }
            assert forall|p: Seq<char>| seen@.contains_key(p) implies listed(now, p) by {
                if p == path@ {
                    assert(now[i as int] == p);
                } else {
                    assert(before.contains_key(p));
                    let j = choose|j: int| 0 <= j < was.len() && #[trigger] was[j] == p;
                    assert(now[j] == p);
                }
            }
            assert forall|p: Seq<char>| listed(now, p) implies seen@.contains_key(p) by {
                let j = choose|j: int| 0 <= j < now.len() && #[trigger] now[j] == p;
                if j < i {
                    assert(was[j] == p);
                }
            }
        }
        i += 1;
    }
    assert(all.take(i as int) =~= all);
    Some(seen)
}

/// Whether some path of the list is the path of a record of the index.
fn any_path_present(entry_map: &EntryIndex, paths: &Vec<&str>) -> (found: bool)
    requires
        entry_map.wf(),
    ensures
        found == any_present(entry_map@, paths_view(paths@)),
{
    let ghost all = paths_view(paths@);
    let mut i: usize = 0;
    while i < paths.len()
        invariant
            i <= paths@.len(),
            all == paths_view(paths@),
            entry_map.wf(),
            forall|j: int| 0 <= j < i ==> !has_path(entry_map@, #[trigger] all[j]),
        decreases paths@.len() - i,
    {
        if entry_map.contains_path(paths[i]) {
            assert(has_path(entry_map@, all[i as int]));
            return true;
        }
        i += 1;
    }
    false
}

/// What `remaining` keeps: each kept record has the path of a record of the
/// list, and stands before the end of what is kept.
pub proof fn lemma_remaining(recs: Seq<RecordView>, paths: Seq<Seq<char>>, start: u64)
    requires
        distinct_paths(recs),
        start + table_size(remaining(recs, paths, start)) <= u64::MAX,
    ensures
        forall|j: int|
            0 <= j < remaining(recs, paths, start).len() ==> has_path(
                recs,
                (#[trigger] remaining(recs, paths, start)[j]).path,
            ),
        forall|j: int|
            0 <= j < remaining(recs, paths, start).len() ==> (#[trigger] remaining(
                recs,
                paths,
                start,
            )[j]).table_offset < start + table_size(remaining(recs, paths, start)),
        ascending(remaining(recs, paths, start)),
        distinct_paths(remaining(recs, paths, start)),
    decreases recs.len(),
{
    let out = remaining(recs, paths, start);
    if recs.len() > 0 {
        let shorter = recs.drop_last();
        let rest = remaining(shorter, paths, start);
        assert(distinct_paths(shorter)) by {
            assert forall|i: int, j: int|
                0 <= i < shorter.len() && 0 <= j < shorter.len() && i != j implies (
            #[trigger] shorter[i]).path != (#[trigger] shorter[j]).path by {
                assert(shorter[i] == recs[i] && shorter[j] == recs[j]);
            }
        }
        lemma_table_size_floor(rest);
        if !listed(paths, recs.last().path) {
            assert(out.drop_last() =~= rest);
            assert(table_size(out) == table_size(rest) + record_size(
                recs.last().entry.path_len,
            ));
        }
        lemma_remaining(shorter, paths, start);
        assert forall|j: int| 0 <= j < out.len() implies has_path(recs, (#[trigger] out[j]).path)
            && out[j].table_offset < start + table_size(out) by {
            if j < rest.len() {
                assert(out[j] == rest[j]);
                let k = choose|k: int| 0 <= k < shorter.len() && (#[trigger] shorter[k]).path
                    == rest[j].path;
                assert(recs[k].path == out[j].path);
            } else {
                assert(recs[recs.len() - 1].path == out[j].path);
            }
        }
        assert forall|i: int, j: int| 0 <= i < j < out.len() implies (#[trigger] out[i]).table_offset
            < (#[trigger] out[j]).table_offset by {
            if j < rest.len() {
                assert(out[i] == rest[i] && out[j] == rest[j]);
            } else {
                assert(out[i] == rest[i]);
            }
        }
        assert forall|i: int, j: int|
            0 <= i < out.len() && 0 <= j < out.len() && i != j implies (#[trigger] out[i]).path != (
        #[trigger] out[j]).path by {
            if i < rest.len() && j < rest.len() {
                assert(out[i] == rest[i] && out[j] == rest[j]);
            } else {
                let m = if i < j {
                    i
                } else {
                    j
                };
                assert(out[m] == rest[m]);
                let k = choose|k: int| 0 <= k < shorter.len() && (#[trigger] shorter[k]).path
                    == rest[m].path;
                assert(recs[k].path != recs[recs.len() - 1].path);
            }
        }
    }
}

/// The size of what is kept grows with the list.
pub proof fn lemma_remaining_grows(
    recs: Seq<RecordView>,
    paths: Seq<Seq<char>>,
    start: u64,
    k: int,
)
    requires
        0 <= k <= recs.len(),
    ensures
        table_size(remaining(recs.take(k), paths, start)) <= table_size(
            remaining(recs, paths, start),
        ),
        remaining(recs.take(k), paths, start).len() <= remaining(recs, paths, start).len(),
    decreases recs.len() - k,
{
    if k < recs.len() {
        assert(recs.take(k + 1).drop_last() =~= recs.take(k));
        let rest = remaining(recs.take(k), paths, start);
        let next = remaining(recs.take(k + 1), paths, start);
        if !listed(paths, recs.take(k + 1).last().path) {
            assert(next.drop_last() =~= rest);
        }
        lemma_remaining_grows(recs, paths, start, k + 1);
    } else {
        assert(recs.take(k) =~= recs);
    }
}

/// The records of the index that the set does not name, laid out back to
/// back from `start` on; none where their table would end beyond what 64
/// bits count.
fn keep_unlisted(
    entry_map: &EntryIndex,
    to_remove: &StringHashMap<bool>,
    Ghost(paths): Ghost<Seq<Seq<char>>>,
    start: u64,
) -> (r: Option<EntryIndex>)
    requires
        entry_map.wf(),
        forall|p: Seq<char>| to_remove@.contains_key(p) <==> listed(paths, p),
    ensures
        match r {
            Some(rest) => {
                &&& rest.wf()
                &&& rest@ == remaining(entry_map@, paths, start)
                &&& start + table_size(rest@) <= u64::MAX
            },
            None => start + table_size(remaining(entry_map@, paths, start)) > u64::MAX,
        },
{
    let ghost recs = entry_map@;
    let mut rest = EntryIndex::new();
    let mut current: u64 = start;
    let mut i: usize = 0;
    proof {
        entry_map.lemma_wf();
        assert(rest@ =~= remaining(recs.take(0), paths, start));
    }
    while i < entry_map.len()
        invariant
            i <= recs.len(),
            recs == entry_map@,
            distinct_paths(recs),
            forall|p: Seq<char>| to_remove@.contains_key(p) <==> listed(paths, p),
            rest.wf(),
            rest@ == remaining(recs.take(i as int), paths, start),
            current == start + table_size(rest@),
        decreases recs.len() - i,
    {
        let rec: &EntryRecord = entry_map.record(i);
        proof {
            assert(recs.take(i + 1).drop_last() =~= recs.take(i as int));
            assert(recs.take(i + 1).last() == recs[i as int]);
            lemma_remaining_grows(recs, paths, start, i + 1);
        }
        if !to_remove.contains_key(rec.path.as_str()) {
            let size: u64 = ENTRY_FIXED_SIZE + rec.entry.path_len as u64;
            let ghost kept = rest@;
            let ghost next = remaining(recs.take(i + 1), paths, start);
            proof {
                assert(next.drop_last() =~= kept);
                assert(table_size(next) == table_size(kept) + size);
            }
            if size > u64::MAX - current {
                return None;
            }
            let moved = EntryRecord {
                path: rec.path.clone(),
                table_offset: current,
                entry: rec.entry.clone(),
            };
            proof {
                assert(distinct_paths(recs.take(i as int))) by {
                    assert forall|a: int, b: int|
                        0 <= a < i && 0 <= b < i && a != b implies (#[trigger] recs.take(
                        i as int,
                    )[a]).path != (#[trigger] recs.take(i as int)[b]).path by {
                        assert(recs[a].path != recs[b].path);
                    }
                }
                lemma_remaining(recs.take(i as int), paths, start);
                assert(!has_path(kept, moved@.path)) by {
                    if has_path(kept, moved@.path) {
                        let j = choose|j: int| 0 <= j < kept.len() && (#[trigger] kept[j]).path
                            == moved@.path;
                        let k = choose|k: int|
                            0 <= k < i && (#[trigger] recs.take(i as int)[k]).path
                                == kept[j].path;
                        assert(recs[k].path == recs[i as int].path);
                    }
                }
                assert(!has_offset(kept, current)) by {
                    if has_offset(kept, current) {
                        let j = choose|j: int|
                            0 <= j < kept.len() && (#[trigger] kept[j]).table_offset == current;
                        assert(kept[j].table_offset < start + table_size(kept));
                    }
                }
                assert(rank(kept, current) == kept.len()) by {
                    if kept.len() > 0 {
                        assert(kept[kept.len() - 1].table_offset < start + table_size(kept));
                    }
                }
                assert(insert_sorted(kept, moved@) =~= next);
            }
            let ok: bool = rest.insert(moved);
            assert(ok);
            current = current + size;
        }
        i += 1;
    }
    assert(recs.take(i as int) =~= recs);
    Some(rest)
}

/// The length that the archive has after a deletion, and nothing where it
/// is beyond what memory can address.
fn final_length(rest: &EntryIndex, table_start: u64) -> (r: Option<usize>)
    requires
        table_start + table_size(rest@) <= u64::MAX,
    ensures
        match r {
            Some(len) => len == length_after(rest@, table_start),
            None => length_after(rest@, table_start) > usize::MAX,
        },
{
    let ghost recs = rest@;
    let mut table_end: u64 = table_start;
    let mut data_end: u64 = 0;
    let mut i: usize = 0;
    while i < rest.len()
        invariant
            i <= recs.len(),
            recs == rest@,
            table_start + table_size(recs) <= u64::MAX,
            table_end == table_start + table_size(recs.take(i as int)),
            data_end == max_data_end(recs.take(i as int)),
        decreases recs.len() - i,
    {
        let rec: &EntryRecord = rest.record(i);
        proof {
            assert(recs.take(i + 1).drop_last() =~= recs.take(i as int));
            lemma_table_size_grows(recs, i + 1);
            lemma_max_data_end_grows(recs, i + 1);
        }
        if rec.entry.size > u64::MAX - rec.entry.offset {
            return None;
        }
        let end: u64 = rec.entry.offset + rec.entry.size;
        if end > data_end {
            data_end = end;
        }
        table_end = table_end + (ENTRY_FIXED_SIZE + rec.entry.path_len as u64);
        i += 1;
    }
    assert(recs.take(i as int) =~= recs);
    let length: u64 = if table_end > data_end {
        table_end
    } else {
        data_end
    };
    if length > usize::MAX as u64 {
        return None;
    }
    Some(length as usize)
}

/// The furthest data end grows with the list.
pub proof fn lemma_max_data_end_grows(recs: Seq<RecordView>, k: int)
    requires
        0 <= k <= recs.len(),
    ensures
        0 <= max_data_end(recs.take(k)) <= max_data_end(recs),
    decreases recs.len() - k,
{
    lemma_max_data_end_floor(recs.take(k));
    if k < recs.len() {
        assert(recs.take(k + 1).drop_last() =~= recs.take(k));
        lemma_max_data_end_grows(recs, k + 1);
    } else {
        assert(recs.take(k) =~= recs);
    }
}

/// The furthest data end is not negative.
pub proof fn lemma_max_data_end_floor(recs: Seq<RecordView>)
    ensures
        0 <= max_data_end(recs),
    decreases recs.len(),
{
    if recs.len() > 0 {
        lemma_max_data_end_floor(recs.drop_last());
    }
}

/// Deletes the entries with the given paths from an archive. The entries
/// that stay are laid out anew from the start of the table, in their order;
/// the header and the table are written over, and the archive is cut where
/// its table or its last data ends. A path that the archive does not hold is
/// passed over. After a failure the archive is unchanged.
pub fn delete_files_in_pck(
    archive: &mut Vec<u8>,
    header: &Header,
    entry_offsets: &PathIndex,
    paths: Vec<&str>,
) -> (r: Result<(), PckError>)
    requires
        entry_offsets.wf(),
    ensures
        match r {
            Ok(()) => delete_outcome(
                old(archive)@,
                *header,
                entry_offsets@,
                paths_view(paths@),
            ) == Ok::<Seq<u8>, PckError>(final(archive)@),
            Err(e) => {
                &&& delete_outcome(old(archive)@, *header, entry_offsets@, paths_view(paths@))
                    == Err::<Seq<u8>, PckError>(e)
                &&& final(archive)@ == old(archive)@
            },
        },
{
    let ghost all = paths_view(paths@);
    if paths.len() == 0 {
        return Ok(());
    }
    let to_remove = match collect_paths(&paths) {
        Some(set) => set,
        None => {
            return Err(PckError::DuplicatePathInBatch);
        },
    };
    let entry_map = match build_entry_map(archive.as_slice(), entry_offsets) {
        Ok(index) => index,
        Err(e) => {
            return Err(e);
        },
    };
    if !any_path_present(&entry_map, &paths) {
        return Ok(());
    }
    proof {
        let i = choose|i: int| 0 <= i < all.len() && has_path(entry_map@, #[trigger] all[i]);
        assert(entry_map@.len() > 0);
    }
    let table_start: u64 = entry_map.record(0).table_offset;
    let rest = match keep_unlisted(&entry_map, &to_remove, Ghost(all), table_start) {
        Some(rest) => rest,
        None => {
            proof {
                lemma_table_size_floor(remaining(entry_map@, all, table_start));
            }
            return Err(PckError::FileTooLarge);
        },
    };
    let table: Vec<u8> = match checked_table(&rest, table_start) {
        Ok(table) => table,
        Err(e) => {
            return Err(e);
        },
    };
    let length: usize = match final_length(&rest, table_start) {
        Some(length) => length,
        None => {
            return Err(PckError::FileTooLarge);
        },
    };
    let new_header = Header {
        version: header.version,
        godot_version_major: header.godot_version_major,
        godot_version_minor: header.godot_version_minor,
        godot_version_patch: header.godot_version_patch,
        reserved: header.reserved,
        file_count: rest.len() as u32,
    };
    assert(new_header == with_count(*header, rest@.len() as u32));
    let head: Vec<u8> = serialize_header(&new_header);
    write_at(archive, 0, head.as_slice());
    write_at(archive, table_start as usize, table.as_slice());
    set_len(archive, length);
    Ok(())
}

} // verus!
