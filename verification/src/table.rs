//! The entry table as a whole: reading the header and the paths of an
//! archive, and the list of paths with the table offsets of their records.
use vstd::prelude::*;
use vstd::hash_map::StringHashMap;
use vstd::string::*;
use vstd::utf8::valid_utf8;
use crate::codec::{
    entry_at, entry_binary_size, entry_bytes, entry_path, entry_readable, Header, header_error,
    header_fields_at, HEADER_SIZE, le_u32_at, parse_header, push_entry, read_entry, record_size,
};
use crate::error::PckError;
use crate::index::{
    ascending, EntryIndex, EntryRecord, has_offset, has_path, insert_sorted, rank, RecordView,
};

verus! {

/// Where the record number `k` of the table starts, if the records before it
/// stand back to back behind the header.
pub open spec fn table_pos(s: Seq<u8>, k: nat) -> int
    decreases k,
{
    if k == 0 {
        HEADER_SIZE as int
    } else {
        table_pos(s, (k - 1) as nat) + record_size(le_u32_at(s, table_pos(s, (k - 1) as nat)))
    }
}

/// Why the first `k` records cannot be read, if they cannot: the first record
/// that is cut short or whose path is not UTF-8 decides.
pub open spec fn scan_error(s: Seq<u8>, k: nat) -> Option<PckError>
    decreases k,
{
    if k == 0 {
        None
    } else if scan_error(s, (k - 1) as nat) is Some {
        scan_error(s, (k - 1) as nat)
    } else if !entry_readable(s, table_pos(s, (k - 1) as nat)) {
        Some(PckError::IOFailure)
    } else if !valid_utf8(entry_at(s, table_pos(s, (k - 1) as nat)).path_bytes) {
        Some(PckError::InvalidPathEncoding)
    } else {
        None
    }
}

/// The path of the record number `i` and the offset of that record.
pub open spec fn pair_at(s: Seq<u8>, i: nat) -> (Seq<char>, u64) {
    (entry_path(entry_at(s, table_pos(s, i)).path_bytes).unwrap(), table_pos(s, i) as u64)
}

/// The paths and record offsets of the first `n` records, in table order.
pub open spec fn scanned_pairs(s: Seq<u8>, n: nat) -> Seq<(Seq<char>, u64)> {
    Seq::new(n, |i: int| pair_at(s, i as nat))
}

/// No later pair of the list has the path of the pair at `i`.
pub open spec fn is_last(all: Seq<(Seq<char>, u64)>, i: int) -> bool {
    forall|j: int| i < j < all.len() ==> (#[trigger] all[j]).0 != all[i].0
}

/// Of the first `k` pairs, those whose path does not come again later.
pub open spec fn kept_upto(all: Seq<(Seq<char>, u64)>, k: nat) -> Seq<(Seq<char>, u64)>
    decreases k,
{
    if k == 0 {
        Seq::empty()
    } else if is_last(all, k - 1) {
        kept_upto(all, (k - 1) as nat).push(all[k - 1])
    } else {
        kept_upto(all, (k - 1) as nat)
    }
}

/// The list with one pair for each path: where a path comes twice, the later
/// pair stays.
pub open spec fn last_wins(all: Seq<(Seq<char>, u64)>) -> Seq<(Seq<char>, u64)> {
    kept_upto(all, all.len())
}

/// Why an archive cannot be read, if it cannot: its header first, then its
/// records in table order.
pub open spec fn read_error(s: Seq<u8>) -> Option<PckError> {
    if header_error(s) is Some {
        header_error(s)
    } else {
        scan_error(s, le_u32_at(s, 84) as nat)
    }
}

/// The pairs of a list, each as plain values.
pub open spec fn pairs_view(v: Seq<(String, u64)>) -> Seq<(Seq<char>, u64)> {
    Seq::new(v.len(), |i: int| (v[i].0@, v[i].1))
}

/// No path occurs twice and the offsets grow strictly, starting behind the
/// header.
pub open spec fn pairs_wf(pairs: Seq<(Seq<char>, u64)>) -> bool {
    &&& forall|i: int, j: int|
        0 <= i < j < pairs.len() ==> (#[trigger] pairs[i]).0 != (#[trigger] pairs[j]).0
    &&& forall|i: int, j: int|
        0 <= i < j < pairs.len() ==> (#[trigger] pairs[i]).1 < (#[trigger] pairs[j]).1
    &&& forall|i: int| 0 <= i < pairs.len() ==> (#[trigger] pairs[i]).1 >= HEADER_SIZE
}

/// Some pair of the list has the path `p`.
pub open spec fn pairs_have(pairs: Seq<(Seq<char>, u64)>, p: Seq<char>) -> bool {
    exists|i: int| 0 <= i < pairs.len() && (#[trigger] pairs[i]).0 == p
}

/// The paths of an archive, each with the table offset of its record, in
/// the order of those offsets.
pub struct PathIndex {
    pairs: Vec<(String, u64)>,
    lookup: StringHashMap<u64>,
}

impl View for PathIndex {
    type V = Seq<(Seq<char>, u64)>;

    closed spec fn view(&self) -> Seq<(Seq<char>, u64)> {
        pairs_view(self.pairs@)
    }
}

/// The map leads from each path of the list to its offset, and to nothing else.
pub open spec fn offsets_of(lookup: Map<Seq<char>, u64>, pairs: Seq<(Seq<char>, u64)>) -> bool {
    &&& forall|i: int|
        0 <= i < pairs.len() ==> lookup.contains_key((#[trigger] pairs[i]).0)
            && lookup[pairs[i].0] == pairs[i].1
    &&& forall|p: Seq<char>| #[trigger] lookup.contains_key(p) ==> pairs_have(pairs, p)
}

impl PathIndex {
    /// The index is sound: no path twice, offsets ascending behind the header.
    pub closed spec fn wf(&self) -> bool {
        pairs_wf(self@) && offsets_of(self.lookup@, self@)
    }

    /// In a sound index no path occurs twice and the offsets ascend.
    pub proof fn lemma_wf(&self)
        requires
            self.wf(),
        ensures
            pairs_wf(self@),
    {
    }

    /// The number of paths.
    pub fn len(&self) -> (n: usize)
        ensures
            n == self@.len(),
    {
        self.pairs.len()
    }

    /// The path at place `i`.
    pub fn path(&self, i: usize) -> (p: &str)
        requires
            i < self@.len(),
        ensures
            p@ == self@[i as int].0,
    {
        self.pairs[i].0.as_str()
    }

    /// The table offset of the record at place `i`.
    pub fn offset(&self, i: usize) -> (off: u64)
        requires
            i < self@.len(),
        ensures
            off == self@[i as int].1,
    {
        self.pairs[i].1
    }

    /// The table offset of the record with the path `path`.
    pub fn get(&self, path: &str) -> (r: Option<u64>)
        requires
            self.wf(),
        ensures
            match r {
                Some(off) => exists|i: int|
                    0 <= i < self@.len() && #[trigger] self@[i] == (path@, off),
                None => !pairs_have(self@, path@),
            },
    {
        match self.lookup.get(path) {
            Some(off) => {
                proof {
                    let i = choose|i: int|
                        0 <= i < self@.len() && (#[trigger] self@[i]).0 == path@;
                    assert(self@[i] == (path@, *off));
                }
                Some(*off)
            },
            None => None,
        }
    }
}

/// The pairs kept of the first `k` come from the list in its order, each the
/// last of its path.
pub proof fn lemma_kept(all: Seq<(Seq<char>, u64)>, k: nat) -> (src: Seq<int>)
    requires
        k <= all.len(),
    ensures
        src.len() == kept_upto(all, k).len(),
        forall|a: int|
            0 <= a < src.len() ==> 0 <= #[trigger] src[a] < k && kept_upto(all, k)[a]
                == all[src[a]] && is_last(all, src[a]),
        forall|a: int, b: int| 0 <= a < b < src.len() ==> #[trigger] src[a] < #[trigger] src[b],
        forall|j: int|
            0 <= j < k && is_last(all, j) ==> exists|a: int|
                0 <= a < src.len() && #[trigger] src[a] == j,
    decreases k,
{
    if k == 0 {
        Seq::empty()
    } else {
        let before = lemma_kept(all, (k - 1) as nat);
        if is_last(all, k - 1) {
            let src = before.push(k - 1);
            assert forall|j: int| 0 <= j < k && is_last(all, j) implies exists|a: int|
                0 <= a < src.len() && #[trigger] src[a] == j by {
                if j < k - 1 {
                    let a = choose|a: int| 0 <= a < before.len() && #[trigger] before[a] == j;
                    assert(src[a] == j);
                } else {
                    assert(src[before.len() as int] == j);
                }
            }
            src
        } else {
            assert forall|j: int| 0 <= j < k && is_last(all, j) implies exists|a: int|
                0 <= a < before.len() && #[trigger] before[a] == j by {
                let a = choose|a: int| 0 <= a < before.len() && #[trigger] before[a] == j;
                assert(before[a] == j);
            }
            before
        }
    }
}

/// Keeping the last pair of each path leaves no path twice, and keeps the
/// offsets ascending where they were.
pub proof fn lemma_last_wins_wf(all: Seq<(Seq<char>, u64)>)
    requires
        forall|i: int, j: int|
            0 <= i < j < all.len() ==> (#[trigger] all[i]).1 < (#[trigger] all[j]).1,
        forall|i: int| 0 <= i < all.len() ==> (#[trigger] all[i]).1 >= HEADER_SIZE,
    ensures
        pairs_wf(last_wins(all)),
        forall|p: Seq<char>| pairs_have(all, p) <==> pairs_have(last_wins(all), p),
{
    let kept = last_wins(all);
    let src = lemma_kept(all, all.len());
    assert forall|i: int, j: int| 0 <= i < j < kept.len() implies (#[trigger] kept[i]).0 != (
    #[trigger] kept[j]).0 by {
        assert(src[i] < src[j]);
        assert(is_last(all, src[i]));
        assert(all[src[j]].0 != all[src[i]].0);
    }
    assert forall|i: int, j: int| 0 <= i < j < kept.len() implies (#[trigger] kept[i]).1 < (
    #[trigger] kept[j]).1 by {
        assert(src[i] < src[j]);
        assert(all[src[i]].1 < all[src[j]].1);
    }
    assert forall|i: int| 0 <= i < kept.len() implies (#[trigger] kept[i]).1 >= HEADER_SIZE by {
        assert(all[src[i]].1 >= HEADER_SIZE);
    }
    assert forall|p: Seq<char>| pairs_have(all, p) implies pairs_have(kept, p) by {
        let j = lemma_last_occurrence(all, p, all.len());
        assert(is_last(all, j));
        let a = choose|a: int| 0 <= a < src.len() && #[trigger] src[a] == j;
        assert(kept[a].0 == p);
    }
    assert forall|p: Seq<char>| pairs_have(kept, p) implies pairs_have(all, p) by {
        let a = choose|a: int| 0 <= a < kept.len() && (#[trigger] kept[a]).0 == p;
        assert(all[src[a]].0 == p);
    }
}

/// A path that occurs among the first `k` pairs has a last place among them.
pub proof fn lemma_last_occurrence(all: Seq<(Seq<char>, u64)>, p: Seq<char>, k: nat) -> (j: int)
    requires
        k <= all.len(),
        exists|i: int| 0 <= i < k && (#[trigger] all[i]).0 == p,
    ensures
        0 <= j < k,
        all[j].0 == p,
        forall|m: int| j < m < k ==> (#[trigger] all[m]).0 != p,
    decreases k,
{
    if all[k - 1].0 == p {
        k - 1
    } else {
        let i = choose|i: int| 0 <= i < k && (#[trigger] all[i]).0 == p;
        assert(i < k - 1);
        lemma_last_occurrence(all, p, (k - 1) as nat)
    }
}

/// Each record starts behind the one before it, and none before the end of
/// the header.
pub proof fn lemma_table_pos_grows(s: Seq<u8>, i: nat, j: nat)
    requires
        i < j,
    ensures
        HEADER_SIZE <= table_pos(s, i) < table_pos(s, j),
    decreases j,
{
    if i + 1 < j {
        lemma_table_pos_grows(s, i, (j - 1) as nat);
    } else if i > 0 {
        lemma_table_pos_grows(s, (i - 1) as nat, i);
    }
}

/// A record that cannot be read stops the reading of all that follow.
pub proof fn lemma_scan_error_stays(s: Seq<u8>, k: nat, n: nat)
    requires
        k <= n,
        scan_error(s, k) is Some,
    ensures
        scan_error(s, n) == scan_error(s, k),
    decreases n,
{
    if k < n {
        lemma_scan_error_stays(s, k, (n - 1) as nat);
    }
}

/// Reads the header and the paths of an archive: the header, and each path
/// with the table offset of its record. Where a path occurs twice, the later
/// record stands for it.
pub fn read_header_and_index(bytes: &[u8]) -> (r: Result<(Header, PathIndex), PckError>)
    ensures
        match r {
            Ok((h, index)) => {
                &&& read_error(bytes@) is None
                &&& header_fields_at(h, bytes@)
                &&& index.wf()
                &&& index@ == last_wins(scanned_pairs(bytes@, h.file_count as nat))
            },
            Err(e) => read_error(bytes@) == Some(e),
        },
{
    let header: Header = match parse_header(bytes) {
        Ok(h) => h,
        Err(e) => {
            return Err(e);
        },
    };
    let ghost s = bytes@;
    let count: u32 = header.file_count;
    let total: usize = bytes.len();
    let mut all: Vec<(String, u64)> = Vec::new();
    let mut last: StringHashMap<usize> = StringHashMap::new();
    let mut pos: u64 = HEADER_SIZE as u64;
    let mut i: u32 = 0;
    assert(pairs_view(all@) =~= scanned_pairs(s, 0));
    while i < count
        invariant
            s == bytes@,
            total == s.len(),
            i <= count,
            count == le_u32_at(s, 84),
            header_error(s) is None,
            scan_error(s, i as nat) is None,
            pos == table_pos(s, i as nat),
            pos <= total,
            all@.len() == i,
            pairs_view(all@) == scanned_pairs(s, i as nat),
            forall|j: nat| j < i ==> #[trigger] table_pos(s, j) <= total,
            forall|j: int|
                0 <= j < i ==> last@.contains_key((#[trigger] pairs_view(all@)[j]).0),
            forall|p: Seq<char>| #[trigger]
                last@.contains_key(p) ==> {
                    &&& 0 <= last@[p] < i
                    &&& pairs_view(all@)[last@[p] as int].0 == p
                    &&& forall|j: int|
                        last@[p] < j < i ==> (#[trigger] pairs_view(all@)[j]).0 != p
                },
        decreases count - i,
    {
        let entry = match read_entry(bytes, pos) {
            Ok(e) => e,
            Err(e) => {
                proof {
                    lemma_scan_error_stays(s, (i + 1) as nat, count as nat);
                }
                return Err(e);
            },
        };
        let path: String = match entry.path() {
            Ok(p) => p,
            Err(e) => {
                proof {
                    lemma_scan_error_stays(s, (i + 1) as nat, count as nat);
                }
                return Err(e);
            },
        };
        let ghost before = last@;
        let ghost was = pairs_view(all@);
        all.push((path.clone(), pos));
        last.insert(path, i as usize);
        proof {
            let now = pairs_view(all@);
            assert(entry@.path_bytes == entry_at(s, pos as int).path_bytes);
            assert(now[i as int] == pair_at(s, i as nat));
            assert forall|j: int| 0 <= j < i implies now[j] == pair_at(s, j as nat) by {
                assert(now[j] == was[j]);
                assert(was[j] == scanned_pairs(s, i as nat)[j]);
            }
            assert(now =~= scanned_pairs(s, (i + 1) as nat));
            assert forall|j: int| 0 <= j < i + 1 implies last@.contains_key(
                (#[trigger] now[j]).0,
            ) by {
                if j < i {
                    assert(now[j] == was[j]);
                }
            }
            assert forall|p: Seq<char>| #[trigger] last@.contains_key(p) implies {
                &&& 0 <= last@[p] < i + 1
                &&& now[last@[p] as int].0 == p
                &&& forall|j: int| last@[p] < j < i + 1 ==> (#[trigger] now[j]).0 != p
            } by {
                if p != now[i as int].0 {
                    assert(before.contains_key(p));
                    assert(now[before[p] as int] == was[before[p] as int]);
                    assert forall|j: int| last@[p] < j < i + 1 implies (#[trigger] now[j]).0
                        != p by {
                        if j < i {
                            assert(now[j] == was[j]);
                        }
                    }
                }
            }
        }
        pos = pos + entry_binary_size(entry.path_len);
        i += 1;
    }
    let ghost allv = pairs_view(all@);
    let mut pairs: Vec<(String, u64)> = Vec::new();
    let mut lookup: StringHashMap<u64> = StringHashMap::new();
    let mut k: usize = 0;
    assert(pairs_view(pairs@) =~= kept_upto(allv, 0));
    while k < all.len()
        invariant
            k <= all@.len(),
            allv == pairs_view(all@),
            all@.len() == count,
            pairs_view(pairs@) == kept_upto(allv, k as nat),
            forall|j: int| 0 <= j < count ==> last@.contains_key((#[trigger] allv[j]).0),
            forall|p: Seq<char>| #[trigger]
                last@.contains_key(p) ==> {
                    &&& 0 <= last@[p] < count
                    &&& allv[last@[p] as int].0 == p
                    &&& forall|j: int| last@[p] < j < count ==> (#[trigger] allv[j]).0 != p
                },
            forall|a: int|
                0 <= a < pairs@.len() ==> lookup@.contains_key(
                    (#[trigger] pairs_view(pairs@)[a]).0,
                ) && lookup@[pairs_view(pairs@)[a].0] == pairs_view(pairs@)[a].1,
            forall|p: Seq<char>| #[trigger]
                lookup@.contains_key(p) ==> pairs_have(pairs_view(pairs@), p),
        decreases all@.len() - k,
    {
        let keep: bool = match last.get(all[k].0.as_str()) {
            Some(place) => *place == k,
            None => false,
        };
        proof {
            let p = allv[k as int].0;
            assert(last@.contains_key(p));
            if last@[p] == k {
                assert(is_last(allv, k as int));
            } else {
                let j = last@[p] as int;
                assert(allv[j].0 == p);
                if j < k {
                    assert(allv[k as int].0 != p);
                }
                assert(!is_last(allv, k as int));
            }
        }
        if keep {
            let ghost was = pairs_view(pairs@);
            let ghost before = lookup@;
            pairs.push((all[k].0.clone(), all[k].1));
            lookup.insert(all[k].0.clone(), all[k].1);
            proof {
                let now = pairs_view(pairs@);
                assert(now =~= kept_upto(allv, (k + 1) as nat));
                let src = lemma_kept(allv, k as nat);
                assert forall|a: int| 0 <= a < now.len() implies lookup@.contains_key(
                    (#[trigger] now[a]).0,
                ) && lookup@[now[a].0] == now[a].1 by {
                    if a < was.len() {
                        assert(now[a] == was[a]);
                        assert(was[a] == allv[src[a]]);
                        assert(is_last(allv, src[a]));
                        assert(allv[k as int].0 != allv[src[a]].0);
                    }
                }
                assert forall|p: Seq<char>| #[trigger] lookup@.contains_key(p) implies pairs_have(
                    now,
                    p,
                ) by {
                    if p == allv[k as int].0 {
                        assert(now[was.len() as int].0 == p);
                    } else {
                        assert(before.contains_key(p));
                        let a = choose|a: int| 0 <= a < was.len() && (#[trigger] was[a]).0 == p;
                        assert(now[a] == was[a]);
                    }
                }
            }
        }
        k += 1;
    }
    proof {
        assert forall|a: int, b: int| 0 <= a < b < allv.len() implies (#[trigger] allv[a]).1 < (
        #[trigger] allv[b]).1 by {
            lemma_table_pos_grows(s, a as nat, b as nat);
        }
        assert forall|a: int| 0 <= a < allv.len() implies (#[trigger] allv[a]).1
            >= HEADER_SIZE by {
            lemma_table_pos_grows(s, a as nat, (a + 1) as nat);
        }
        lemma_last_wins_wf(allv);
    }
    Ok((header, PathIndex { pairs, lookup }))
}

/// Every record that the list names can be read from `s`.
pub open spec fn built_ok(s: Seq<u8>, pairs: Seq<(Seq<char>, u64)>) -> bool {
    forall|i: int| 0 <= i < pairs.len() ==> entry_readable(s, (#[trigger] pairs[i]).1 as int)
}

/// The records that the list names, as `s` holds them: each under the path
/// that the list gives it.
pub open spec fn built_records(s: Seq<u8>, pairs: Seq<(Seq<char>, u64)>) -> Seq<RecordView> {
    Seq::new(
        pairs.len(),
        |i: int|
            RecordView {
                path: pairs[i].0,
                table_offset: pairs[i].1,
                entry: entry_at(s, pairs[i].1 as int),
            },
    )
}

/// The bytes that the records of a list take in the table.
pub open spec fn table_size(recs: Seq<RecordView>) -> int
    decreases recs.len(),
{
    if recs.len() == 0 {
        0
    } else {
        table_size(recs.drop_last()) + record_size(recs.last().entry.path_len)
    }
}

/// The bytes of a table: the records of a list written back to back.
pub open spec fn table_bytes(recs: Seq<RecordView>) -> Seq<u8>
    decreases recs.len(),
{
    if recs.len() == 0 {
        Seq::empty()
    } else {
        table_bytes(recs.drop_last()) + entry_bytes(recs.last().entry)
    }
}

/// Some record has its data below `limit`.
pub open spec fn data_below(recs: Seq<RecordView>, limit: int) -> bool {
    exists|i: int| 0 <= i < recs.len() && (#[trigger] recs[i]).entry.offset < limit
}

/// Reads the records that an index names into an entry index.
pub fn build_entry_map(bytes: &[u8], entry_offsets: &PathIndex) -> (r: Result<
    EntryIndex,
    PckError,
>)
    requires
        entry_offsets.wf(),
    ensures
        match r {
            Ok(index) => {
                &&& built_ok(bytes@, entry_offsets@)
                &&& index.wf()
                &&& index@ == built_records(bytes@, entry_offsets@)
            },
            Err(e) => e == PckError::IOFailure && !built_ok(bytes@, entry_offsets@),
        },
{
    let ghost s = bytes@;
    let ghost pairs = entry_offsets@;
    let ghost target = built_records(s, pairs);
    let mut index = EntryIndex::new();
    let mut i: usize = 0;
    assert(index@ =~= target.take(0));
    while i < entry_offsets.len()
        invariant
            i <= pairs.len(),
            s == bytes@,
            pairs == entry_offsets@,
            pairs_wf(pairs),
            entry_offsets.wf(),
            target == built_records(s, pairs),
            index.wf(),
            index@ == target.take(i as int),
            forall|j: int| 0 <= j < i ==> entry_readable(s, (#[trigger] pairs[j]).1 as int),
        decreases pairs.len() - i,
    {
        let offset: u64 = entry_offsets.offset(i);
        let entry = match read_entry(bytes, offset) {
            Ok(e) => e,
            Err(e) => {
                return Err(e);
            },
        };
        let rec = EntryRecord {
            path: entry_offsets.path(i).to_owned(),
            table_offset: offset,
            entry,
        };
        proof {
            let recs = index@;
            assert(rec@ == target[i as int]);
            assert(!has_path(recs, rec@.path)) by {
                if has_path(recs, rec@.path) {
                    let j = choose|j: int| 0 <= j < recs.len() && (#[trigger] recs[j]).path
                        == rec@.path;
                    assert(recs[j] == target[j]);
                    assert(pairs[j].0 != pairs[i as int].0);
                }
            }
            assert(!has_offset(recs, rec.table_offset)) by {
                if has_offset(recs, rec.table_offset) {
                    let j = choose|j: int|
                        0 <= j < recs.len() && (#[trigger] recs[j]).table_offset
                            == rec.table_offset;
                    assert(recs[j] == target[j]);
                    assert(pairs[j].1 < pairs[i as int].1);
                }
            }
            assert(rank(recs, rec.table_offset) == recs.len()) by {
                if recs.len() > 0 {
                    assert(recs.last() == target[i - 1]);
                    assert(pairs[i - 1].1 < pairs[i as int].1);
                }
            }
            assert(insert_sorted(recs, rec@) =~= target.take(i + 1));
        }
        let ok: bool = index.insert(rec);
        assert(ok);
        i += 1;
    }
    assert(target.take(i as int) =~= target);
    Ok(index)
}

/// The bytes of the table that the index holds, in table order.
pub fn serialize_table(index: &EntryIndex) -> (out: Vec<u8>)
    ensures
        out@ == table_bytes(index@),
{
    let mut out: Vec<u8> = Vec::new();
    let mut i: usize = 0;
    while i < index.len()
        invariant
            i <= index@.len(),
            out@ == table_bytes(index@.take(i as int)),
        decreases index@.len() - i,
    {
        push_entry(&mut out, &index.record(i).entry);
        assert(index@.take(i + 1).drop_last() =~= index@.take(i as int));
        i += 1;
    }
    assert(index@.take(i as int) =~= index@);
    out
}

} // verus!
