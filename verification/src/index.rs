//! The entry index: the records of an archive, found by path and walked in
//! the order of their place in the entry table.
use vstd::prelude::*;
use vstd::hash_map::StringHashMap;
use vstd::string::*;
use crate::codec::{EntryView, RawFileEntry};

verus! {

/// An entry record together with its path and its place in the table.
#[derive(Debug)]
pub struct EntryRecord {
    pub path: String,
    pub table_offset: u64,
    pub entry: RawFileEntry,
}

/// What an indexed record holds, as plain values.
pub struct RecordView {
    pub path: Seq<char>,
    pub table_offset: u64,
    pub entry: EntryView,
}

impl View for EntryRecord {
    type V = RecordView;

    open spec fn view(&self) -> RecordView {
        RecordView { path: self.path@, table_offset: self.table_offset, entry: self.entry@ }
    }
}

impl Clone for EntryRecord {
    fn clone(&self) -> (c: Self)
        ensures
            c@ == self@,
    {
        EntryRecord {
            path: self.path.clone(),
            table_offset: self.table_offset,
            entry: self.entry.clone(),
        }
    }
}

/// The records of a list, each as plain values.
pub open spec fn records_view(v: Seq<EntryRecord>) -> Seq<RecordView> {
    Seq::new(v.len(), |i: int| v[i]@)
}

/// The table offsets grow strictly along the list.
pub open spec fn ascending(recs: Seq<RecordView>) -> bool {
    forall|i: int, j: int|
        0 <= i < j < recs.len() ==> (#[trigger] recs[i]).table_offset < (
        #[trigger] recs[j]).table_offset
}

/// No path occurs twice in the list.
pub open spec fn distinct_paths(recs: Seq<RecordView>) -> bool {
    forall|i: int, j: int|
        0 <= i < recs.len() && 0 <= j < recs.len() && i != j ==> (#[trigger] recs[i]).path != (
        #[trigger] recs[j]).path
}

/// Some record of the list has the path `p`.
pub open spec fn has_path(recs: Seq<RecordView>, p: Seq<char>) -> bool {
    exists|i: int| 0 <= i < recs.len() && (#[trigger] recs[i]).path == p
}

/// Some record of the list stands at the table offset `off`.
pub open spec fn has_offset(recs: Seq<RecordView>, off: u64) -> bool {
    exists|i: int| 0 <= i < recs.len() && (#[trigger] recs[i]).table_offset == off
}

/// The place of a record with the path `p` in the list.
pub open spec fn position_of(recs: Seq<RecordView>, p: Seq<char>) -> int {
    choose|i: int| 0 <= i < recs.len() && (#[trigger] recs[i]).path == p
}

/// How many records at the end of the list are to be passed, going backwards,
/// to reach the place of the table offset `off`: the number of records whose
/// offset is below `off`, if the list is ascending.
pub open spec fn rank(recs: Seq<RecordView>, off: u64) -> int
    decreases recs.len(),
{
    if recs.len() == 0 {
        0
    } else if recs.last().table_offset < off {
        recs.len() as int
    } else {
        rank(recs.drop_last(), off)
    }
}

/// The list with `r` put at the place that its table offset gives it.
pub open spec fn insert_sorted(recs: Seq<RecordView>, r: RecordView) -> Seq<RecordView> {
    recs.insert(rank(recs, r.table_offset), r)
}

/// The record `r` with other data behind it: a new data offset, size and checksum.
pub open spec fn with_data(r: RecordView, offset: u64, size: u64, md5: Seq<u8>) -> RecordView {
    RecordView {
        path: r.path,
        table_offset: r.table_offset,
        entry: EntryView {
            path_len: r.entry.path_len,
            path_bytes: r.entry.path_bytes,
            offset,
            size,
            md5,
        },
    }
}

/// The rank is a place in the list; what stands before it is below `off`,
/// what stands from it on is not.
pub proof fn lemma_rank(recs: Seq<RecordView>, off: u64)
    requires
        ascending(recs),
    ensures
        0 <= rank(recs, off) <= recs.len(),
        forall|i: int| 0 <= i < rank(recs, off) ==> (#[trigger] recs[i]).table_offset < off,
        forall|i: int|
            rank(recs, off) <= i < recs.len() ==> (#[trigger] recs[i]).table_offset >= off,
    decreases recs.len(),
{
    if recs.len() == 0 {
    } else if recs.last().table_offset < off {
        assert forall|i: int| 0 <= i < recs.len() implies (#[trigger] recs[i]).table_offset
            < off by {
            if i < recs.len() - 1 {
                assert(recs[i].table_offset < recs[recs.len() - 1].table_offset);
            }
        }
    } else {
        let shorter = recs.drop_last();
        assert(ascending(shorter)) by {
            assert forall|i: int, j: int| 0 <= i < j < shorter.len() implies (
            #[trigger] shorter[i]).table_offset < (#[trigger] shorter[j]).table_offset by {
                assert(shorter[i] == recs[i] && shorter[j] == recs[j]);
            }
        }
        lemma_rank(shorter, off);
        assert forall|i: int| 0 <= i < rank(recs, off) implies (#[trigger] recs[i]).table_offset
            < off by {
            assert(shorter[i] == recs[i]);
        }
        assert forall|i: int| rank(recs, off) <= i < recs.len() implies (
        #[trigger] recs[i]).table_offset >= off by {
            if i < recs.len() - 1 {
                assert(shorter[i] == recs[i]);
            }
        }
    }
}

/// Putting a record at its rank keeps the list ascending, if no record
/// stands at its table offset yet.
pub proof fn lemma_insert_sorted_ascending(recs: Seq<RecordView>, r: RecordView)
    requires
        ascending(recs),
        !has_offset(recs, r.table_offset),
    ensures
        ascending(insert_sorted(recs, r)),
{
    lemma_rank(recs, r.table_offset);
    let p = rank(recs, r.table_offset);
    let out = insert_sorted(recs, r);
    assert forall|i: int, j: int| 0 <= i < j < out.len() implies (#[trigger] out[i]).table_offset
        < (#[trigger] out[j]).table_offset by {
        if j < p {
            assert(out[i] == recs[i] && out[j] == recs[j]);
        } else if j == p {
            assert(out[i] == recs[i]);
        } else if i < p {
            assert(out[i] == recs[i] && out[j] == recs[j - 1]);
            assert(recs[j - 1].table_offset >= r.table_offset);
            assert(recs[i].table_offset < r.table_offset);
        } else if i == p {
            assert(out[j] == recs[j - 1]);
            assert(recs[j - 1].table_offset >= r.table_offset);
            assert(recs[j - 1].table_offset != r.table_offset);
        } else {
            assert(out[i] == recs[i - 1] && out[j] == recs[j - 1]);
        }
    }
}

/// The records of an archive under two keys: found by path through a hash
/// map, and kept in the order of their table offsets.
pub struct EntryIndex {
    records: Vec<EntryRecord>,
    by_path: StringHashMap<usize>,
}

impl View for EntryIndex {
    type V = Seq<RecordView>;

    closed spec fn view(&self) -> Seq<RecordView> {
        records_view(self.records@)
    }
}

/// The map leads from each path of the list to its place, and to nothing else.
pub open spec fn places(lookup: Map<Seq<char>, usize>, recs: Seq<RecordView>) -> bool {
    &&& forall|i: int|
        0 <= i < recs.len() ==> lookup.contains_key((#[trigger] recs[i]).path)
            && lookup[recs[i].path] == i
    &&& forall|p: Seq<char>| #[trigger]
        lookup.contains_key(p) ==> 0 <= lookup[p] < recs.len() && recs[lookup[p] as int].path
            == p
}

/// A list whose paths all have their place in a map holds no path twice.
pub proof fn lemma_places_distinct(lookup: Map<Seq<char>, usize>, recs: Seq<RecordView>)
    requires
        places(lookup, recs),
    ensures
        distinct_paths(recs),
        forall|p: Seq<char>| has_path(recs, p) <==> lookup.contains_key(p),
        forall|p: Seq<char>| has_path(recs, p) ==> position_of(recs, p) == lookup[p],
{
    assert forall|p: Seq<char>| has_path(recs, p) implies lookup.contains_key(p)
        && position_of(recs, p) == lookup[p] by {
        let i = position_of(recs, p);
        assert(recs[i].path == p);
    }
    assert forall|p: Seq<char>| lookup.contains_key(p) implies has_path(recs, p) by {
        assert(recs[lookup[p] as int].path == p);
    }
}

/// Builds the map from each path to its place.
fn build_lookup(records: &Vec<EntryRecord>) -> (lookup: StringHashMap<usize>)
    requires
        distinct_paths(records_view(records@)),
    ensures
        places(lookup@, records_view(records@)),
{
    let ghost recs = records_view(records@);
    let mut lookup: StringHashMap<usize> = StringHashMap::new();
    let mut i: usize = 0;
    while i < records.len()
        invariant
            i <= records@.len(),
            recs == records_view(records@),
            distinct_paths(recs),
            places(lookup@, recs.take(i as int)),
        decreases records@.len() - i,
    {
        let ghost before = lookup@;
        lookup.insert(records[i].path.clone(), i);
        proof {
            let now = recs.take(i + 1);
            let was = recs.take(i as int);
            assert forall|j: int| 0 <= j < now.len() implies lookup@.contains_key(
                (#[trigger] now[j]).path,
            ) && lookup@[now[j].path] == j by {
                if j < i {
                    assert(was[j] == now[j]);
                    assert(recs[j].path != recs[i as int].path);
                }
            }
            assert forall|p: Seq<char>| #[trigger] lookup@.contains_key(p) implies 0
                <= lookup@[p] < now.len() && now[lookup@[p] as int].path == p by {
                if p != recs[i as int].path {
                    assert(before.contains_key(p));
                    assert(was[before[p] as int] == now[before[p] as int]);
                }
            }
        }
        i += 1;
    }
    assert(recs.take(i as int) =~= recs);
    lookup
}

impl EntryIndex {
    /// The index is sound: its records ascend by table offset and each path
    /// leads to its record.
    pub closed spec fn wf(&self) -> bool {
        &&& ascending(self@)
        &&& places(self.by_path@, self@)
    }

    /// In a sound index the table offsets ascend and no path occurs twice.
    pub proof fn lemma_wf(&self)
        requires
            self.wf(),
        ensures
            ascending(self@),
            distinct_paths(self@),
    {
        lemma_places_distinct(self.by_path@, self@);
    }

    /// An index without records.
    pub fn new() -> (index: Self)
        ensures
            index.wf(),
            index@ == Seq::<RecordView>::empty(),
    {
        let index = EntryIndex { records: Vec::new(), by_path: StringHashMap::new() };
        assert(index@ =~= Seq::<RecordView>::empty());
        index
    }

    /// The number of records.
    pub fn len(&self) -> (n: usize)
        ensures
            n == self@.len(),
    {
        self.records.len()
    }

    /// The record at place `i` in the order of the table offsets.
    pub fn record(&self, i: usize) -> (r: &EntryRecord)
        requires
            i < self@.len(),
        ensures
            r@ == self@[i as int],
    {
        &self.records[i]
    }

    /// Whether a record has the path `path`.
    pub fn contains_path(&self, path: &str) -> (found: bool)
        requires
            self.wf(),
        ensures
            found == has_path(self@, path@),
    {
        proof {
            lemma_places_distinct(self.by_path@, self@);
        }
        self.by_path.contains_key(path)
    }

    /// The record with the path `path`.
    pub fn get_by_path(&self, path: &str) -> (r: Option<&EntryRecord>)
        requires
            self.wf(),
        ensures
            match r {
                Some(rec) => has_path(self@, path@) && rec@ == self@[position_of(
                    self@,
                    path@,
                )],
                None => !has_path(self@, path@),
            },
    {
        proof {
            lemma_places_distinct(self.by_path@, self@);
        }
        match self.by_path.get(path) {
            Some(place) => Some(&self.records[*place]),
            None => None,
        }
    }

    /// Puts a record at the place that its table offset gives it. Nothing
    /// changes, and the answer is `false`, where its path or its table offset
    /// is taken.
    pub fn insert(&mut self, rec: EntryRecord) -> (ok: bool)
        requires
            old(self).wf(),
        ensures
            final(self).wf(),
            ok == (!has_path(old(self)@, rec@.path) && !has_offset(
                old(self)@,
                rec.table_offset,
            )),
            ok ==> final(self)@ == insert_sorted(old(self)@, rec@),
            !ok ==> final(self)@ == old(self)@,
    {
        let ghost recs = self@;
        proof {
            lemma_places_distinct(self.by_path@, recs);
        }
        if self.by_path.contains_key(rec.path.as_str()) {
            return false;
        }
        let count: usize = self.records.len();
        let mut place: usize = count;
        assert(recs.take(place as int) =~= recs);
        while place > 0 && self.records[place - 1].table_offset >= rec.table_offset
            invariant
                place <= count,
                count == self.records@.len(),
                recs == records_view(self.records@),
                rank(recs, rec.table_offset) == rank(recs.take(place as int), rec.table_offset),
            decreases place,
        {
            assert(recs.take(place as int).drop_last() =~= recs.take(place - 1));
            place -= 1;
        }
        proof {
            lemma_rank(recs, rec.table_offset);
            assert(rank(recs, rec.table_offset) == place);
        }
        if place < count && self.records[place].table_offset == rec.table_offset {
            assert(recs[place as int].table_offset == rec.table_offset);
            return false;
        }
        proof {
            assert(!has_offset(recs, rec.table_offset)) by {
                if has_offset(recs, rec.table_offset) {
                    let i = choose|i: int|
                        0 <= i < recs.len() && (#[trigger] recs[i]).table_offset
                            == rec.table_offset;
                    if i > place {
                        assert(recs[place as int].table_offset < recs[i].table_offset);
                    }
                }
            }
            lemma_insert_sorted_ascending(recs, rec@);
        }
        let key: String = rec.path.clone();
        let ghost new_rec = rec@;
        self.records.insert(place, rec);
        assert(records_view(self.records@) =~= insert_sorted(recs, new_rec));
        if place == count {
            let ghost before = self.by_path@;
            self.by_path.insert(key, place);
            proof {
                let now = insert_sorted(recs, new_rec);
                assert forall|i: int| 0 <= i < now.len() implies self.by_path@.contains_key(
                    (#[trigger] now[i]).path,
                ) && self.by_path@[now[i].path] == i by {
                    if i < count {
                        assert(now[i] == recs[i]);
                    }
                }
                assert forall|p: Seq<char>| #[trigger]
                    self.by_path@.contains_key(p) implies 0 <= self.by_path@[p] < now.len()
                    && now[self.by_path@[p] as int].path == p by {
                    if p != new_rec.path {
                        assert(before.contains_key(p));
                        assert(now[before[p] as int] == recs[before[p] as int]);
                    }
                }
            }
        } else {
            proof {
                let now = insert_sorted(recs, new_rec);
                assert forall|i: int, j: int|
                    0 <= i < now.len() && 0 <= j < now.len() && i != j implies (
                #[trigger] now[i]).path != (#[trigger] now[j]).path by {
                    let a = if i < place {
                        i
                    } else {
                        i - 1
                    };
                    let b = if j < place {
                        j
                    } else {
                        j - 1
                    };
                    if i == place {
                        assert(now[j] == recs[b]);
                    } else if j == place {
                        assert(now[i] == recs[a]);
                    } else {
                        assert(now[i] == recs[a] && now[j] == recs[b]);
                    }
                }
            }
            self.by_path = build_lookup(&self.records);
        }
        true
    }

    /// Gives the record with the path `path` other data: a new data offset,
    /// size and checksum. The answer is `false`, and nothing changes, where no
    /// record has that path.
    pub fn update_data(&mut self, path: &str, offset: u64, size: u64, md5: [u8; 16]) -> (ok:
        bool)
        requires
            old(self).wf(),
        ensures
            final(self).wf(),
            ok == has_path(old(self)@, path@),
            ok ==> final(self)@ == old(self)@.update(
                position_of(old(self)@, path@),
                with_data(old(self)@[position_of(old(self)@, path@)], offset, size, md5@),
            ),
            !ok ==> final(self)@ == old(self)@,
    {
        let ghost recs = self@;
        proof {
            lemma_places_distinct(self.by_path@, recs);
        }
        let place: usize = match self.by_path.get(path) {
            Some(found) => *found,
            None => {
                return false;
            },
        };
        let current: &EntryRecord = &self.records[place];
        let changed = EntryRecord {
            path: current.path.clone(),
            table_offset: current.table_offset,
            entry: RawFileEntry {
                path_len: current.entry.path_len,
                path_bytes: current.entry.clone().path_bytes,
                offset,
                size,
                md5,
            },
        };
        self.records.set(place, changed);
        proof {
            let now = recs.update(place as int, with_data(recs[place as int], offset, size, md5@));
            assert(records_view(self.records@) =~= now);
            assert forall|i: int, j: int| 0 <= i < j < now.len() implies (
            #[trigger] now[i]).table_offset < (#[trigger] now[j]).table_offset by {
                assert(now[i].table_offset == recs[i].table_offset);
                assert(now[j].table_offset == recs[j].table_offset);
            }
            assert forall|i: int| 0 <= i < now.len() implies self.by_path@.contains_key(
                (#[trigger] now[i]).path,
            ) && self.by_path@[now[i].path] == i by {
                assert(now[i].path == recs[i].path);
            }
            assert forall|p: Seq<char>| #[trigger]
                self.by_path@.contains_key(p) implies 0 <= self.by_path@[p] < now.len()
                && now[self.by_path@[p] as int].path == p by {
                assert(now[self.by_path@[p] as int].path == recs[self.by_path@[p] as int].path);
            }
        }
        true
    }

    /// Gives the record with the path `path` another data offset. The answer
    /// is `false`, and nothing changes, where no record has that path.
    pub fn set_offset(&mut self, path: &str, offset: u64) -> (ok: bool)
        requires
            old(self).wf(),
        ensures
            final(self).wf(),
            ok == has_path(old(self)@, path@),
            ok ==> final(self)@ == old(self)@.update(
                position_of(old(self)@, path@),
                with_data(
                    old(self)@[position_of(old(self)@, path@)],
                    offset,
                    old(self)@[position_of(old(self)@, path@)].entry.size,
                    old(self)@[position_of(old(self)@, path@)].entry.md5,
                ),
            ),
            !ok ==> final(self)@ == old(self)@,
    {
        let ghost recs = self@;
        proof {
            lemma_places_distinct(self.by_path@, recs);
        }
        let (size, md5): (u64, [u8; 16]) = match self.get_by_path(path) {
            Some(rec) => (rec.entry.size, rec.entry.md5),
            None => {
                return false;
            },
        };
        self.update_data(path, offset, size, md5)
    }
}

} // verus!
