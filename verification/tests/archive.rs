use bpb_enhance::channel::{set_len, write_at, AppendCtx};
use bpb_enhance::codec::{
    entry_binary_size, normalized_path_bytes, parse_header, push_entry, read_entry,
    serialize_header, Header, RawFileEntry,
};
use bpb_enhance::digest::checksum_of;
use bpb_enhance::error::PckError;
use bpb_enhance::index::{EntryIndex, EntryRecord};
use bpb_enhance::mutator::{
    append_replacements, delete_files_in_pck, make_record, relocate, replace_files_in_pck,
    write_back,
};
use bpb_enhance::planner::{plan_table, split_inputs};
use bpb_enhance::table::{build_entry_map, read_header_and_index, serialize_table};

fn header_with(count: u32) -> Header {
    Header {
        version: 1,
        godot_version_major: 3,
        godot_version_minor: 5,
        godot_version_patch: 1,
        reserved: [0; 16],
        file_count: count,
    }
}

fn table_len(paths: &[&str]) -> usize {
    paths.iter().map(|p| 36 + normalized_path_bytes(p).len()).sum()
}

/// An archive whose data starts `gap` bytes behind its table.
fn archive_with_gap(entries: &[(&str, &[u8])], gap: usize) -> Vec<u8> {
    let paths: Vec<&str> = entries.iter().map(|e| e.0).collect();
    let mut data_at = 88 + table_len(&paths) + gap;
    let mut out = serialize_header(&header_with(entries.len() as u32));
    for (path, data) in entries {
        let path_bytes = normalized_path_bytes(path);
        let entry = RawFileEntry {
            path_len: path_bytes.len() as u32,
            path_bytes,
            offset: data_at as u64,
            size: data.len() as u64,
            md5: md5::compute(data).0,
        };
        push_entry(&mut out, &entry);
        data_at += data.len();
    }
    out.extend(std::iter::repeat(0u8).take(gap));
    for (_, data) in entries {
        out.extend_from_slice(data);
    }
    out
}

fn archive(entries: &[(&str, &[u8])]) -> Vec<u8> {
    archive_with_gap(entries, 0)
}

/// The entries of an archive as it is read: path, data, checksum, in table order.
fn contents(bytes: &[u8]) -> Vec<(String, Vec<u8>, [u8; 16])> {
    let (header, index) = read_header_and_index(bytes).unwrap();
    assert_eq!(header.file_count as usize, index.len());
    let map = build_entry_map(bytes, &index).unwrap();
    let mut out = Vec::new();
    for i in 0..map.len() {
        let rec = map.record(i);
        let from = rec.entry.offset as usize;
        let to = from + rec.entry.size as usize;
        out.push((rec.path.clone(), bytes[from..to].to_vec(), rec.entry.md5));
    }
    out
}

fn check_round_trip(n: usize) {
    let names: Vec<String> = (0..n).map(|i| format!("res://dir/file_{}.gd", i)).collect();
    let payloads: Vec<Vec<u8>> = (0..n).map(|i| format!("payload {}", i).into_bytes()).collect();
    let entries: Vec<(&str, &[u8])> =
        names.iter().zip(payloads.iter()).map(|(p, d)| (p.as_str(), d.as_slice())).collect();
    let bytes = archive(&entries);
    let (header, index) = read_header_and_index(&bytes).unwrap();
    assert_eq!(header.file_count as usize, n);
    assert_eq!(index.len(), n);
    let mut at = 88u64;
    for i in 0..n {
        assert_eq!(index.path(i), names[i]);
        assert_eq!(index.offset(i), at);
        assert_eq!(index.get(&names[i]), Some(at));
        at += entry_binary_size(normalized_path_bytes(&names[i]).len() as u32);
    }
    let read = contents(&bytes);
    for i in 0..n {
        assert_eq!(read[i].0, names[i]);
        assert_eq!(read[i].1, payloads[i]);
        assert_eq!(read[i].2, md5::compute(&payloads[i]).0);
    }
}

#[test]
fn round_trip_of_one_entry() {
    check_round_trip(1);
}

#[test]
fn round_trip_of_two_entries() {
    check_round_trip(2);
}

#[test]
fn round_trip_of_a_thousand_entries() {
    check_round_trip(1000);
}

#[test]
fn header_round_trip_keeps_fields() {
    let mut header = header_with(9);
    header.reserved = [7; 16];
    header.reserved[3] = 0xdead_beef;
    let bytes = serialize_header(&header);
    assert_eq!(bytes.len(), 88);
    assert_eq!(&bytes[0..4], b"GDPC");
    assert_eq!(&bytes[4..8], &[1, 0, 0, 0]);
    assert_eq!(&bytes[84..88], &[9, 0, 0, 0]);
    let back = parse_header(&bytes).unwrap();
    assert_eq!(back.version, 1);
    assert_eq!(back.godot_version_major, 3);
    assert_eq!(back.godot_version_minor, 5);
    assert_eq!(back.godot_version_patch, 1);
    assert_eq!(back.reserved, header.reserved);
    assert_eq!(back.file_count, 9);
}

#[test]
fn header_errors_come_in_order() {
    assert_eq!(parse_header(&[]).unwrap_err(), PckError::MalformedHeader);
    assert_eq!(parse_header(b"GDPC").unwrap_err(), PckError::MalformedHeader);
    let good = serialize_header(&header_with(1));
    assert_eq!(parse_header(&good[..87]).unwrap_err(), PckError::MalformedHeader);
    let mut bad_magic = good.clone();
    bad_magic[3] = b'X';
    bad_magic[4] = 2;
    assert_eq!(parse_header(&bad_magic).unwrap_err(), PckError::MalformedHeader);
    let mut version_two = good.clone();
    version_two[4] = 2;
    version_two[84] = 0;
    assert_eq!(parse_header(&version_two).unwrap_err(), PckError::UnsupportedVersion);
    let mut no_files = good.clone();
    no_files[84] = 0;
    assert_eq!(parse_header(&no_files).unwrap_err(), PckError::EmptyArchive);
}

#[test]
fn entry_record_is_written_field_by_field() {
    let entry = RawFileEntry {
        path_len: 4,
        path_bytes: b"a.gd".to_vec(),
        offset: 0x0102_0304_0506_0708,
        size: 3,
        md5: [9; 16],
    };
    let mut out = vec![0xffu8];
    push_entry(&mut out, &entry);
    let mut expected = vec![0xffu8, 4, 0, 0, 0];
    expected.extend_from_slice(b"a.gd");
    expected.extend_from_slice(&[8, 7, 6, 5, 4, 3, 2, 1]);
    expected.extend_from_slice(&[3, 0, 0, 0, 0, 0, 0, 0]);
    expected.extend_from_slice(&[9; 16]);
    assert_eq!(out, expected);
    let back = read_entry(&out, 1).unwrap();
    assert_eq!(back.path_len, 4);
    assert_eq!(back.path_bytes, b"a.gd");
    assert_eq!(back.offset, 0x0102_0304_0506_0708);
    assert_eq!(back.size, 3);
    assert_eq!(back.md5, [9; 16]);
    assert_eq!(read_entry(&out, 2).unwrap_err(), PckError::IOFailure);
    assert_eq!(read_entry(&out, u64::MAX).unwrap_err(), PckError::IOFailure);
    assert_eq!(read_entry(&out[..out.len() - 1], 1).unwrap_err(), PckError::IOFailure);
}

#[test]
fn entry_size_and_padding_follow_the_format() {
    assert_eq!(entry_binary_size(0), 36);
    assert_eq!(entry_binary_size(8), 44);
    assert_eq!(entry_binary_size(u32::MAX), 36 + u32::MAX as u64);
    assert_eq!(normalized_path_bytes(""), Vec::<u8>::new());
    assert_eq!(normalized_path_bytes("res://x"), b"res://x\0".to_vec());
    assert_eq!(normalized_path_bytes("abcd"), b"abcd".to_vec());
    assert_eq!(normalized_path_bytes("abcde"), b"abcde\0\0\0".to_vec());
    assert_eq!(normalized_path_bytes("\u{e9}"), vec![0xc3, 0xa9, 0, 0]);
}

#[test]
fn entry_path_strips_the_padding() {
    let mut entry = RawFileEntry {
        path_len: 8,
        path_bytes: b"res://x\0".to_vec(),
        offset: 0,
        size: 0,
        md5: [0; 16],
    };
    assert_eq!(entry.path().unwrap(), "res://x");
    entry.path_bytes = b"a\0b\0\0\0".to_vec();
    assert_eq!(entry.path().unwrap(), "a\0b");
    entry.path_bytes = vec![0, 0, 0, 0];
    assert_eq!(entry.path().unwrap(), "");
    entry.path_bytes = vec![0xc3, 0xa9, 0, 0];
    assert_eq!(entry.path().unwrap(), "\u{e9}");
    entry.path_bytes = vec![0xff, 0xfe, 0, 0];
    assert_eq!(entry.path().unwrap_err(), PckError::InvalidPathEncoding);
}

#[test]
fn checksum_is_the_md5_digest() {
    assert_eq!(
        checksum_of(b"abc"),
        [0x90, 0x01, 0x50, 0x98, 0x3c, 0xd2, 0x4f, 0xb0, 0xd6, 0x96, 0x3f, 0x7d, 0x28, 0xe1, 0x7f, 0x72]
    );
    assert_eq!(
        checksum_of(b""),
        [0xd4, 0x1d, 0x8c, 0xd9, 0x8f, 0x00, 0xb2, 0x04, 0xe9, 0x80, 0x09, 0x98, 0xec, 0xf8, 0x42, 0x7e]
    );
}

#[test]
fn reading_rejects_a_truncated_table_and_a_bad_path() {
    let bytes = archive(&[("res://a", b"one"), ("res://b", b"two")]);
    assert_eq!(read_header_and_index(&bytes[..140]).err(), Some(PckError::IOFailure));
    let mut bad = bytes.clone();
    bad[92] = 0xff;
    assert_eq!(read_header_and_index(&bad).err(), Some(PckError::InvalidPathEncoding));
    let mut wrong_count = bytes.clone();
    wrong_count[84] = 200;
    assert_eq!(read_header_and_index(&wrong_count).err(), Some(PckError::IOFailure));
}

#[test]
fn a_path_that_comes_twice_is_indexed_at_its_later_record() {
    let bytes = archive(&[("res://a", b"one"), ("res://b", b"two"), ("res://a", b"three")]);
    let (header, index) = read_header_and_index(&bytes).unwrap();
    assert_eq!(header.file_count, 3);
    assert_eq!(index.len(), 2);
    assert_eq!(index.path(0), "res://b");
    assert_eq!(index.offset(0), 88 + 44);
    assert_eq!(index.path(1), "res://a");
    assert_eq!(index.offset(1), 88 + 88);
    assert_eq!(index.get("res://a"), Some(88 + 88));
    assert_eq!(index.get("res://c"), None);
}

#[test]
fn entry_index_keeps_both_keys() {
    let mut index = EntryIndex::new();
    assert_eq!(index.len(), 0);
    let rec = |path: &str, at: u64| make_record(path, at, 1000, 3, [1; 16]).unwrap();
    assert!(index.insert(rec("res://b", 200)));
    assert!(index.insert(rec("res://a", 100)));
    assert!(index.insert(rec("res://c", 150)));
    assert!(!index.insert(rec("res://a", 300)));
    assert!(!index.insert(rec("res://d", 150)));
    assert_eq!(index.len(), 3);
    assert_eq!(index.record(0).path, "res://a");
    assert_eq!(index.record(1).path, "res://c");
    assert_eq!(index.record(2).path, "res://b");
    assert!(index.contains_path("res://c"));
    assert!(!index.contains_path("res://d"));
    assert_eq!(index.get_by_path("res://b").unwrap().table_offset, 200);
    assert!(index.get_by_path("res://zz").is_none());
    assert!(index.update_data("res://c", 5000, 9, [2; 16]));
    assert!(!index.update_data("res://zz", 1, 1, [0; 16]));
    let c: &EntryRecord = index.get_by_path("res://c").unwrap();
    assert_eq!((c.entry.offset, c.entry.size, c.entry.md5), (5000, 9, [2; 16]));
    assert_eq!(c.table_offset, 150);
    assert!(index.set_offset("res://a", 7000));
    assert!(!index.set_offset("res://zz", 1));
    let a = index.get_by_path("res://a").unwrap();
    assert_eq!((a.entry.offset, a.entry.size, a.entry.md5), (7000, 3, [1; 16]));
    assert_eq!(a.entry.path_bytes, b"res://a\0");
    assert_eq!(a.entry.path_len, 8);
    let table = serialize_table(&index);
    assert_eq!(table.len(), 3 * 44);
    assert_eq!(&table[4..12], b"res://a\0");
    assert_eq!(&table[48..56], b"res://c\0");
}

#[test]
fn planner_splits_and_measures() {
    let bytes = archive(&[("res://a", b"one"), ("res://long/name.gd", b"two")]);
    let (_, index) = read_header_and_index(&bytes).unwrap();
    let map = build_entry_map(&bytes, &index).unwrap();
    let files: Vec<(&str, &[u8])> =
        vec![("res://n1", b"1"), ("res://a", b"22"), ("res://n2/abc", b"333")];
    let (replace, add) = split_inputs(files, &map);
    assert_eq!(replace, vec![("res://a".to_string(), &b"22"[..])]);
    assert_eq!(add, vec![("res://n1".to_string(), &b"1"[..]), ("res://n2/abc".to_string(), &b"333"[..])]);
    let plan = plan_table(&map, &add).unwrap();
    assert_eq!(plan.table_start, 88);
    assert_eq!(plan.next_new_table_offset, 88 + 44 + 56);
    assert_eq!(plan.table_end_after, 88 + 44 + 56 + 44 + 48);
    assert_eq!(plan_table(&EntryIndex::new(), &add).unwrap_err(), PckError::EmptyArchive);
}

#[test]
fn append_channel_tracks_the_end() {
    let mut bytes = b"0123456789".to_vec();
    let mut ctx = AppendCtx::new(&bytes);
    assert_eq!(ctx.append_bytes(&mut bytes, b"ab"), 10);
    assert_eq!(ctx.move_range(&mut bytes, 2, 3), Ok(12));
    assert_eq!(bytes, b"0123456789ab234");
    assert_eq!(ctx.move_range(&mut bytes, 14, 2), Err(PckError::IOFailure));
    assert_eq!(ctx.move_range(&mut bytes, 99, 0), Ok(15));
    assert_eq!(ctx.move_range(&mut bytes, 10, 5), Ok(15));
    assert_eq!(bytes, b"0123456789ab234ab234");
    write_at(&mut bytes, 1, b"XY");
    assert_eq!(bytes, b"0XY3456789ab234ab234");
    write_at(&mut bytes, 19, b"PQ");
    assert_eq!(bytes, b"0XY3456789ab234ab23PQ");
    write_at(&mut bytes, 23, b"Z");
    assert_eq!(bytes, b"0XY3456789ab234ab23PQ\0\0Z");
    set_len(&mut bytes, 3);
    assert_eq!(bytes, b"0XY");
    set_len(&mut bytes, 5);
    assert_eq!(bytes, b"0XY\0\0");
}

#[test]
fn replace_changes_only_its_target() {
    let mut bytes = archive(&[("res://a", b"one"), ("res://b", b"two"), ("res://c", b"three")]);
    let before = contents(&bytes);
    let old_len = bytes.len();
    let (header, index) = read_header_and_index(&bytes).unwrap();
    let new_b: &[u8] = b"a much longer payload for b";
    replace_files_in_pck(&mut bytes, &header, &index, vec![("res://b", new_b)]).unwrap();
    let (header_after, index_after) = read_header_and_index(&bytes).unwrap();
    assert_eq!(header_after.file_count, 3);
    for i in 0..3 {
        assert_eq!(index_after.path(i), index.path(i));
        assert_eq!(index_after.offset(i), index.offset(i));
    }
    let after = contents(&bytes);
    assert_eq!(after[0], before[0]);
    assert_eq!(after[2], before[2]);
    assert_eq!(after[1].0, "res://b");
    assert_eq!(after[1].1, new_b);
    assert_eq!(after[1].2, md5::compute(new_b).0);
    let map = build_entry_map(&bytes, &index_after).unwrap();
    assert_eq!(map.get_by_path("res://b").unwrap().entry.offset, old_len as u64);
    assert_eq!(map.get_by_path("res://b").unwrap().entry.size, new_b.len() as u64);
    assert_eq!(bytes.len(), old_len + new_b.len());
    assert_eq!(&bytes[88 + 132..old_len], b"onetwothree");
}

#[test]
fn add_increases_the_count_and_relocates_covered_data() {
    let first = [b'a'; 60];
    let last = [b'z'; 300];
    let mut bytes = archive_with_gap(
        &[("res://a", &first), ("res://b", b"second data"), ("res://z", &last)],
        40,
    );
    let before = contents(&bytes);
    let old_len = bytes.len();
    assert_eq!(old_len, 88 + 132 + 40 + 60 + 11 + 300);
    let (header, index) = read_header_and_index(&bytes).unwrap();
    let old_map = build_entry_map(&bytes, &index).unwrap();
    assert_eq!(old_map.get_by_path("res://a").unwrap().entry.offset, 260);
    assert_eq!(old_map.get_by_path("res://b").unwrap().entry.offset, 320);
    assert_eq!(old_map.get_by_path("res://z").unwrap().entry.offset, 331);
    let files: Vec<(&str, &[u8])> = vec![("res://new1", b"n1"), ("res://new2", b"n22")];
    replace_files_in_pck(&mut bytes, &header, &index, files).unwrap();
    let (header_after, index_after) = read_header_and_index(&bytes).unwrap();
    assert_eq!(header_after.file_count, 5);
    assert_eq!(index_after.len(), 5);
    let after = contents(&bytes);
    assert_eq!(after[0], before[0]);
    assert_eq!(after[1], before[1]);
    assert_eq!(after[2], before[2]);
    assert_eq!(after[3], ("res://new1".to_string(), b"n1".to_vec(), md5::compute(b"n1").0));
    assert_eq!(after[4], ("res://new2".to_string(), b"n22".to_vec(), md5::compute(b"n22").0));
    // the table grew by two records of 48 bytes and now ends at 316: it
    // covers the start of the first entry's data, and no other
    let map = build_entry_map(&bytes, &index_after).unwrap();
    assert_eq!(map.get_by_path("res://a").unwrap().entry.offset, old_len as u64);
    assert_eq!(map.get_by_path("res://a").unwrap().entry.md5, md5::compute(first).0);
    assert_eq!(map.get_by_path("res://b").unwrap().entry.offset, 320);
    assert_eq!(map.get_by_path("res://z").unwrap().entry.offset, 331);
    assert_eq!(map.get_by_path("res://new1").unwrap().entry.offset, old_len as u64 + 60);
    assert_eq!(map.get_by_path("res://new2").unwrap().entry.offset, old_len as u64 + 62);
    assert_eq!(map.get_by_path("res://new1").unwrap().table_offset, 220);
    assert_eq!(map.get_by_path("res://new2").unwrap().table_offset, 268);
    assert_eq!(bytes.len(), old_len + 60 + 5);
    assert_eq!(&bytes[old_len..old_len + 60], &first[..]);
}

#[test]
fn add_leaves_data_behind_the_grown_table_in_place() {
    let mut bytes = archive_with_gap(&[("res://a", b"first"), ("res://b", b"second")], 200);
    let (header, index) = read_header_and_index(&bytes).unwrap();
    let old_len = bytes.len();
    replace_files_in_pck(&mut bytes, &header, &index, vec![("res://n", &b"new"[..])]).unwrap();
    let (_, index_after) = read_header_and_index(&bytes).unwrap();
    let map = build_entry_map(&bytes, &index_after).unwrap();
    assert_eq!(map.get_by_path("res://a").unwrap().entry.offset, 88 + 88 + 200);
    assert_eq!(map.get_by_path("res://b").unwrap().entry.offset, 88 + 88 + 205);
    assert_eq!(map.get_by_path("res://n").unwrap().entry.offset, old_len as u64);
    assert_eq!(bytes.len(), old_len + 3);
}

#[test]
fn replace_and_add_in_one_batch() {
    // two entries with their data at 200 and 260; the first gets a larger
    // payload, and "res://x" is added
    let one = [b'1'; 60];
    let two = [b'2'; 40];
    let mut bytes = archive_with_gap(&[("res://1", &one), ("res://2", &two)], 24);
    let old_len = bytes.len();
    assert_eq!(old_len, 300);
    let (header, index) = read_header_and_index(&bytes).unwrap();
    assert_eq!((index.offset(0), index.offset(1)), (88, 132));
    let old_map = build_entry_map(&bytes, &index).unwrap();
    assert_eq!(old_map.get_by_path("res://1").unwrap().entry.offset, 200);
    assert_eq!(old_map.get_by_path("res://2").unwrap().entry.offset, 260);
    let larger = [b'L'; 100];
    let files: Vec<(&str, &[u8])> = vec![("res://1", &larger), ("res://x", b"abc")];
    replace_files_in_pck(&mut bytes, &header, &index, files).unwrap();
    let (header_after, index_after) = read_header_and_index(&bytes).unwrap();
    assert_eq!(header_after.file_count, 3);
    assert_eq!(index_after.path(0), "res://1");
    assert_eq!(index_after.path(1), "res://2");
    assert_eq!(index_after.path(2), "res://x");
    assert_eq!(
        (index_after.offset(0), index_after.offset(1), index_after.offset(2)),
        (88, 132, 176)
    );
    let map = build_entry_map(&bytes, &index_after).unwrap();
    // the table now ends at 220, before the data of the second entry
    let second = &map.get_by_path("res://2").unwrap().entry;
    assert_eq!(second.offset, 260);
    assert_eq!(second.md5, md5::compute(two).0);
    let added = &map.get_by_path("res://x").unwrap().entry;
    assert_eq!(added.offset, 300);
    assert_eq!(added.size, 3);
    assert_eq!(
        added.md5,
        [0x90, 0x01, 0x50, 0x98, 0x3c, 0xd2, 0x4f, 0xb0, 0xd6, 0x96, 0x3f, 0x7d, 0x28, 0xe1, 0x7f, 0x72]
    );
    assert_eq!(added.path_bytes, b"res://x\0");
    let first = &map.get_by_path("res://1").unwrap().entry;
    assert_eq!(first.offset, 303);
    assert_eq!(first.size, 100);
    assert_eq!(first.md5, md5::compute(larger).0);
    let after = contents(&bytes);
    assert_eq!(after[0].1, larger);
    assert_eq!(after[1].1, two);
    assert_eq!(after[2].1, b"abc");
    assert_eq!(bytes.len(), 403);
}

#[test]
fn empty_batches_change_nothing() {
    let intact = archive(&[("res://a", b"one")]);
    let (header, index) = read_header_and_index(&intact).unwrap();
    let mut bytes = intact.clone();
    assert_eq!(replace_files_in_pck(&mut bytes, &header, &index, Vec::new()), Ok(()));
    assert_eq!(bytes, intact);
    assert_eq!(delete_files_in_pck(&mut bytes, &header, &index, Vec::new()), Ok(()));
    assert_eq!(bytes, intact);
}

#[test]
fn duplicate_paths_are_rejected_before_any_write() {
    let intact = archive(&[("res://a", b"one"), ("res://b", b"two")]);
    let (header, index) = read_header_and_index(&intact).unwrap();
    let mut bytes = intact.clone();
    let files: Vec<(&str, &[u8])> = vec![("res://a", b"x"), ("res://n", b"y"), ("res://a", b"z")];
    assert_eq!(
        replace_files_in_pck(&mut bytes, &header, &index, files),
        Err(PckError::DuplicatePathInBatch)
    );
    assert_eq!(bytes, intact);
    assert_eq!(
        delete_files_in_pck(&mut bytes, &header, &index, vec!["res://b", "res://b"]),
        Err(PckError::DuplicatePathInBatch)
    );
    assert_eq!(bytes, intact);
}

#[test]
fn a_table_that_would_reach_into_data_is_refused() {
    // the data of the only entry is moved behind the old end, which still
    // lies below the end of the grown table
    let intact = archive(&[("res://a", b"x")]);
    let (header, index) = read_header_and_index(&intact).unwrap();
    let mut bytes = intact.clone();
    let files: Vec<(&str, &[u8])> = vec![("res://a/rather/long/path/of/a/new/file.gd", b"y")];
    assert_eq!(
        replace_files_in_pck(&mut bytes, &header, &index, files),
        Err(PckError::TableOverflow)
    );
    assert_eq!(&bytes[..intact.len()], &intact[..]);
    assert_eq!(read_header_and_index(&bytes).unwrap().0.file_count, 1);
    assert_eq!(contents(&bytes), contents(&intact));
}

#[test]
fn delete_refuses_a_table_over_data() {
    let mut intact = archive(&[("res://a", b"one"), ("res://b", b"two")]);
    // let the second entry claim data inside the table
    intact[88 + 44 + 12] = 100;
    for i in 1..8 {
        intact[88 + 44 + 12 + i] = 0;
    }
    let (header, index) = read_header_and_index(&intact).unwrap();
    let mut bytes = intact.clone();
    assert_eq!(
        delete_files_in_pck(&mut bytes, &header, &index, vec!["res://a"]),
        Err(PckError::TableOverflow)
    );
    assert_eq!(bytes, intact);
}

#[test]
fn delete_decreases_the_count_and_cuts_the_archive() {
    let mut bytes = archive(&[
        ("res://a", b"first"),
        ("res://b", b"second"),
        ("res://c", b"third!!"),
        ("res://d", b"4"),
    ]);
    let (header, index) = read_header_and_index(&bytes).unwrap();
    let data_start = 88 + 4 * 44;
    delete_files_in_pck(&mut bytes, &header, &index, vec!["res://d", "res://nope", "res://b"])
        .unwrap();
    let (header_after, index_after) = read_header_and_index(&bytes).unwrap();
    assert_eq!(header_after.file_count, 2);
    assert_eq!(index_after.len(), 2);
    assert_eq!((index_after.path(0), index_after.offset(0)), ("res://a", 88));
    assert_eq!((index_after.path(1), index_after.offset(1)), ("res://c", 132));
    let after = contents(&bytes);
    assert_eq!(after[0], ("res://a".to_string(), b"first".to_vec(), md5::compute(b"first").0));
    assert_eq!(after[1], ("res://c".to_string(), b"third!!".to_vec(), md5::compute(b"third!!").0));
    // the data of "res://c" ends last: 5 + 6 + 7 bytes behind the old table
    assert_eq!(bytes.len(), data_start + 5 + 6 + 7);
}

#[test]
fn delete_cuts_at_the_table_where_no_data_ends_later() {
    let mut bytes = archive(&[("res://a", b""), ("res://b", b"tail")]);
    let (header, index) = read_header_and_index(&bytes).unwrap();
    delete_files_in_pck(&mut bytes, &header, &index, vec!["res://b"]).unwrap();
    // the entry that stays has no data: its data end is the old table end
    assert_eq!(bytes.len(), 88 + 88);
    assert_eq!(read_header_and_index(&bytes).unwrap().0.file_count, 1);
}

#[test]
fn deleting_an_absent_path_is_a_no_op() {
    let intact = archive(&[("res://a", b"one"), ("res://b", b"two")]);
    let (header, index) = read_header_and_index(&intact).unwrap();
    let mut bytes = intact.clone();
    assert_eq!(delete_files_in_pck(&mut bytes, &header, &index, vec!["res://zz", "res://A"]), Ok(()));
    assert_eq!(bytes, intact);
}

#[test]
fn deleting_every_entry_is_an_error() {
    let intact = archive(&[("res://a", b"one"), ("res://b", b"two")]);
    let (header, index) = read_header_and_index(&intact).unwrap();
    let mut bytes = intact.clone();
    assert_eq!(
        delete_files_in_pck(&mut bytes, &header, &index, vec!["res://b", "res://a"]),
        Err(PckError::EmptyArchive)
    );
    assert_eq!(bytes, intact);
}

#[test]
fn data_that_ends_beyond_what_can_be_counted_is_too_large() {
    let mut intact = archive(&[("res://a", b"one"), ("res://b", b"two")]);
    // the first entry claims data at the very end of the 64-bit range
    for i in 0..8 {
        intact[88 + 12 + i] = 0xff;
    }
    let (header, index) = read_header_and_index(&intact).unwrap();
    let mut bytes = intact.clone();
    assert_eq!(
        delete_files_in_pck(&mut bytes, &header, &index, vec!["res://b"]),
        Err(PckError::FileTooLarge)
    );
    assert_eq!(bytes, intact);
}

#[test]
fn an_index_that_points_outside_the_archive_fails_to_read() {
    let intact = archive(&[("res://a", b"one"), ("res://b", b"two")]);
    let (header, index) = read_header_and_index(&intact).unwrap();
    let mut bytes = intact[..100].to_vec();
    assert_eq!(
        replace_files_in_pck(&mut bytes, &header, &index, vec![("res://a", &b"x"[..])]),
        Err(PckError::IOFailure)
    );
    assert_eq!(bytes, &intact[..100]);
    assert_eq!(
        delete_files_in_pck(&mut bytes, &header, &index, vec!["res://a"]),
        Err(PckError::IOFailure)
    );
}

#[test]
fn relocation_fails_where_the_data_cannot_be_read() {
    let mut intact = archive_with_gap(&[("res://a", b"one"), ("res://b", b"two")], 8);
    // the first entry claims more data than the archive holds
    intact[88 + 20] = 0xff;
    let (header, index) = read_header_and_index(&intact).unwrap();
    let mut bytes = intact.clone();
    assert_eq!(
        replace_files_in_pck(&mut bytes, &header, &index, vec![("res://n", &b"x"[..])]),
        Err(PckError::IOFailure)
    );
    assert_eq!(&bytes[..intact.len()], &intact[..]);
}

#[test]
fn error_messages_name_the_failure() {
    assert_eq!(PckError::UnsupportedVersion.message(), "only PCK version 1 is supported");
    assert_eq!(PckError::EmptyArchive.message(), "no files in PCK");
    assert_ne!(PckError::TableOverflow.message(), PckError::FileTooLarge.message());
    assert_ne!(PckError::EntryNotFound.message(), PckError::IOFailure.message());
}

#[test]
fn a_replacement_without_an_entry_is_not_found() {
    let mut bytes = archive(&[("res://a", b"one"), ("res://b", b"two")]);
    let old_len = bytes.len();
    let (_, index) = read_header_and_index(&bytes).unwrap();
    let mut map = build_entry_map(&bytes, &index).unwrap();
    let mut ctx = AppendCtx::new(&bytes);
    let inputs: Vec<(String, &[u8])> =
        vec![("res://b".to_string(), b"new b"), ("res://missing".to_string(), b"lost")];
    assert_eq!(
        append_replacements(&mut bytes, &mut ctx, &mut map, &inputs),
        Err(PckError::EntryNotFound)
    );
    // the first replacement was made, and the data of the second was appended
    assert_eq!(map.get_by_path("res://b").unwrap().entry.offset, old_len as u64);
    assert_eq!(map.get_by_path("res://b").unwrap().entry.md5, md5::compute(b"new b").0);
    assert_eq!(&bytes[old_len..], b"new blost");
}

#[test]
fn relocation_moves_what_lies_below_the_limit() {
    let mut bytes = archive(&[("res://a", b"one"), ("res://b", b"two!"), ("res://c", b"three")]);
    let old_len = bytes.len();
    let (_, index) = read_header_and_index(&bytes).unwrap();
    let mut map = build_entry_map(&bytes, &index).unwrap();
    let mut ctx = AppendCtx::new(&bytes);
    let data_start = 88 + 3 * 44;
    let replaced: Vec<(String, &[u8])> = vec![("res://a".to_string(), b"x")];
    // "res://a" is to be replaced, "res://b" starts below the limit, "res://c" at it
    assert_eq!(
        relocate(&mut bytes, &mut ctx, &mut map, &replaced, data_start as u64 + 7),
        Ok(())
    );
    assert_eq!(map.get_by_path("res://a").unwrap().entry.offset, data_start as u64);
    assert_eq!(map.get_by_path("res://b").unwrap().entry.offset, old_len as u64);
    assert_eq!(map.get_by_path("res://b").unwrap().entry.size, 4);
    assert_eq!(map.get_by_path("res://b").unwrap().entry.md5, md5::compute(b"two!").0);
    assert_eq!(map.get_by_path("res://c").unwrap().entry.offset, data_start as u64 + 7);
    assert_eq!(&bytes[old_len..], b"two!");
}

#[test]
fn write_back_needs_a_record_and_room() {
    let intact = archive(&[("res://a", b"one")]);
    let (header, index) = read_header_and_index(&intact).unwrap();
    let map = build_entry_map(&intact, &index).unwrap();
    let mut bytes = intact.clone();
    assert_eq!(write_back(&mut bytes, &header, &EntryIndex::new(), 88), Err(PckError::EmptyArchive));
    assert_eq!(write_back(&mut bytes, &header, &map, 89), Err(PckError::TableOverflow));
    assert_eq!(write_back(&mut bytes, &header, &map, u64::MAX - 10), Err(PckError::FileTooLarge));
    assert_eq!(bytes, intact);
    let mut other = header;
    other.godot_version_minor = 9;
    assert_eq!(write_back(&mut bytes, &other, &map, 88), Ok(()));
    assert_eq!(bytes[12], 9);
    assert_eq!(&bytes[88..], &intact[88..]);
}
