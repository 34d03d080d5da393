//! The mutation planner: which incoming files replace an entry and which
//! are new, and how far the entry table will reach once the new records
//! are in it.
use vstd::prelude::*;
use vstd::string::*;
use vstd::utf8::encode_utf8;
use crate::codec::{ENTRY_FIXED_SIZE, pad4};
use crate::error::PckError;
use crate::index::{EntryIndex, has_path, RecordView};
use crate::table::table_size;

verus! {

/// Where the entry table starts, where it will end once the new records are
/// in it, and where the first new record goes.
#[derive(Clone, Copy, Debug)]
pub struct TablePlan {
    pub table_start: u64,
    pub table_end_after: u64,
    pub next_new_table_offset: u64,
}

/// The incoming files as plain values: each a path and its bytes.
pub open spec fn files_view(files: Seq<(&str, &[u8])>) -> Seq<(Seq<char>, Seq<u8>)> {
    Seq::new(files.len(), |i: int| (files[i].0@, files[i].1@))
}

/// Files with owned paths, as plain values.
pub open spec fn inputs_view(files: Seq<(String, &[u8])>) -> Seq<(Seq<char>, Seq<u8>)> {
    Seq::new(files.len(), |i: int| (files[i].0@, files[i].1@))
}

/// The files whose path is in the list of records (`present`), or those
/// whose path is not, in their order.
pub open spec fn selected(
    files: Seq<(Seq<char>, Seq<u8>)>,
    recs: Seq<RecordView>,
    present: bool,
) -> Seq<(Seq<char>, Seq<u8>)>
    decreases files.len(),
{
    if files.len() == 0 {
        Seq::empty()
    } else if has_path(recs, files.last().0) == present {
        selected(files.drop_last(), recs, present).push(files.last())
    } else {
        selected(files.drop_last(), recs, present)
    }
}

/// The length of the path bytes that a new record for `path` holds.
pub open spec fn padded_len(path: Seq<char>) -> int {
    pad4(encode_utf8(path)).len() as int
}

/// The bytes that the records of the new files take in the table.
pub open spec fn added_size(adds: Seq<(Seq<char>, Seq<u8>)>) -> int
    decreases adds.len(),
{
    if adds.len() == 0 {
        0
    } else {
        added_size(adds.drop_last()) + ENTRY_FIXED_SIZE + padded_len(adds.last().0)
    }
}

/// The path of every new file fits the 32-bit length field of a record.
pub open spec fn paths_fit(adds: Seq<(Seq<char>, Seq<u8>)>) -> bool {
    forall|i: int| 0 <= i < adds.len() ==> padded_len((#[trigger] adds[i]).0) <= u32::MAX
}

/// The plan for a table with the records `recs` that is to take the new
/// files `adds`, or why there is none: no record to start from, or a path or
/// the table's end beyond what the fields hold.
pub open spec fn plan_of(recs: Seq<RecordView>, adds: Seq<(Seq<char>, Seq<u8>)>) -> Result<
    TablePlan,
    PckError,
> {
    if recs.len() == 0 {
        Err(PckError::EmptyArchive)
    } else if !paths_fit(adds) || recs[0].table_offset + table_size(recs) + added_size(adds)
        > u64::MAX {
        Err(PckError::FileTooLarge)
    } else {
        Ok(
            TablePlan {
                table_start: recs[0].table_offset,
                table_end_after: (recs[0].table_offset + table_size(recs) + added_size(
                    adds,
                )) as u64,
                next_new_table_offset: (recs[0].table_offset + table_size(recs)) as u64,
            },
        )
    }
}

/// The size of a table is not negative and grows with the list.
pub proof fn lemma_table_size_grows(recs: Seq<RecordView>, k: int)
    requires
        0 <= k <= recs.len(),
    ensures
        0 <= table_size(recs.take(k)) <= table_size(recs),
        ENTRY_FIXED_SIZE * k <= table_size(recs.take(k)),
    decreases recs.len() - k,
{
    lemma_table_size_floor(recs.take(k));
    if k < recs.len() {
        assert(recs.take(k + 1).drop_last() =~= recs.take(k));
        lemma_table_size_grows(recs, k + 1);
    } else {
        assert(recs.take(k) =~= recs);
    }
}

/// Each record takes at least its fixed part.
pub proof fn lemma_table_size_floor(recs: Seq<RecordView>)
    ensures
        ENTRY_FIXED_SIZE * recs.len() <= table_size(recs),
    decreases recs.len(),
{
    if recs.len() > 0 {
        lemma_table_size_floor(recs.drop_last());
    }
}

/// The size of the new records is not negative and grows with the list.
pub proof fn lemma_added_size_grows(adds: Seq<(Seq<char>, Seq<u8>)>, k: int)
    requires
        0 <= k <= adds.len(),
    ensures
        0 <= added_size(adds.take(k)) <= added_size(adds),
    decreases adds.len() - k,
{
    lemma_added_size_floor(adds.take(k));
    if k < adds.len() {
        assert(adds.take(k + 1).drop_last() =~= adds.take(k));
        lemma_added_size_grows(adds, k + 1);
    } else {
        assert(adds.take(k) =~= adds);
    }
}

/// Each new record takes at least its fixed part.
pub proof fn lemma_added_size_floor(adds: Seq<(Seq<char>, Seq<u8>)>)
    ensures
        0 <= added_size(adds),
    decreases adds.len(),
{
    if adds.len() > 0 {
        lemma_added_size_floor(adds.drop_last());
    }
}

/// Splits the incoming files into those that replace an entry of the index
/// and those that are new, each in the order in which they came.
pub fn split_inputs<'a>(files: Vec<(&'a str, &'a [u8])>, entry_map: &EntryIndex) -> (r: (
    Vec<(String, &'a [u8])>,
    Vec<(String, &'a [u8])>,
))
    requires
        entry_map.wf(),
    ensures
        inputs_view(r.0@) == selected(files_view(files@), entry_map@, true),
        inputs_view(r.1@) == selected(files_view(files@), entry_map@, false),
{
    let ghost all = files_view(files@);
    let mut replace_inputs: Vec<(String, &'a [u8])> = Vec::new();
    let mut add_inputs: Vec<(String, &'a [u8])> = Vec::new();
    let mut i: usize = 0;
    assert(inputs_view(replace_inputs@) =~= selected(all.take(0), entry_map@, true));
    assert(inputs_view(add_inputs@) =~= selected(all.take(0), entry_map@, false));
    while i < files.len()
        invariant
            i <= files@.len(),
            all == files_view(files@),
            entry_map.wf(),
            inputs_view(replace_inputs@) == selected(all.take(i as int), entry_map@, true),
            inputs_view(add_inputs@) == selected(all.take(i as int), entry_map@, false),
        decreases files@.len() - i,
    {
        let path: &str = files[i].0;
        let data: &[u8] = files[i].1;
        assert(all.take(i + 1).drop_last() =~= all.take(i as int));
        assert(all.take(i + 1).last() == (path@, data@));
        if entry_map.contains_path(path) {
            replace_inputs.push((path.to_owned(), data));
            assert(inputs_view(replace_inputs@) =~= selected(
                all.take(i + 1),
                entry_map@,
                true,
            ));
        } else {
            add_inputs.push((path.to_owned(), data));
            assert(inputs_view(add_inputs@) =~= selected(all.take(i + 1), entry_map@, false));
        }
        i += 1;
    }
    assert(all.take(i as int) =~= all);
    (replace_inputs, add_inputs)
}

/// Plans the table for the records of the index and the new files.
pub fn plan_table(entry_map: &EntryIndex, add_inputs: &Vec<(String, &[u8])>) -> (r: Result<
    TablePlan,
    PckError,
>)
    requires
        entry_map.wf(),
    ensures
        r == plan_of(entry_map@, inputs_view(add_inputs@)),
{
    let ghost recs = entry_map@;
    let ghost adds = inputs_view(add_inputs@);
    if entry_map.len() == 0 {
        return Err(PckError::EmptyArchive);
    }
    let table_start: u64 = entry_map.record(0).table_offset;
    let mut end: u64 = table_start;
    let mut i: usize = 0;
    while i < entry_map.len()
        invariant
            i <= recs.len(),
            recs == entry_map@,
            adds == inputs_view(add_inputs@),
            recs.len() > 0,
            table_start == recs[0].table_offset,
            end == table_start + table_size(recs.take(i as int)),
        decreases recs.len() - i,
    {
        let size: u64 = ENTRY_FIXED_SIZE + entry_map.record(i).entry.path_len as u64;
        proof {
            assert(recs.take(i + 1).drop_last() =~= recs.take(i as int));
            lemma_table_size_grows(recs, i + 1);
            lemma_added_size_floor(adds);
        }
        if size > u64::MAX - end {
            return Err(PckError::FileTooLarge);
        }
        end = end + size;
        i += 1;
    }
    assert(recs.take(i as int) =~= recs);
    let next_new_table_offset: u64 = end;
    let mut j: usize = 0;
    while j < add_inputs.len()
        invariant
            j <= adds.len(),
            adds == inputs_view(add_inputs@),
            recs == entry_map@,
            recs.len() > 0,
            table_start == recs[0].table_offset,
            next_new_table_offset == table_start + table_size(recs),
            end == next_new_table_offset + added_size(adds.take(j as int)),
            paths_fit(adds.take(j as int)),
        decreases adds.len() - j,
    {
        let len: usize = add_inputs[j].0.as_str().as_bytes().len();
        proof {
            assert(adds.take(j + 1).drop_last() =~= adds.take(j as int));
            assert(adds.take(j + 1).last() == adds[j as int]);
            assert(len == encode_utf8(adds[j as int].0).len());
            lemma_added_size_grows(adds, j + 1);
        }
        if len > u32::MAX as usize {
            assert(!paths_fit(adds));
            return Err(PckError::FileTooLarge);
        }
        let padded: u64 = len as u64 + ((4 - (len % 4) as u64) % 4);
        assert(padded == padded_len(adds[j as int].0));
        if padded > u32::MAX as u64 {
            assert(!paths_fit(adds));
            return Err(PckError::FileTooLarge);
        }
        let size: u64 = ENTRY_FIXED_SIZE + padded;
        if size > u64::MAX - end {
            return Err(PckError::FileTooLarge);
        }
        end = end + size;
        proof {
            assert forall|k: int| 0 <= k < j + 1 implies padded_len(
                (#[trigger] adds.take(j + 1)[k]).0,
            ) <= u32::MAX by {
                if k < j {
                    assert(adds.take(j + 1)[k] == adds.take(j as int)[k]);
                }
            }
        }
        j += 1;
    }
    assert(adds.take(j as int) =~= adds);
    Ok(TablePlan { table_start, table_end_after: end, next_new_table_offset })
}

} // verus!
