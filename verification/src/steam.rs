//! Finding the game's archive in the Steam libraries: the pure part of the
//! search. It reads the text of `libraryfolders.vdf`, builds the paths to
//! probe and picks from what the probes found.
use vstd::prelude::*;
use vstd::hash_map::StringHashMap;
use vstd::string::*;
use crate::text::{chars_of, push_char, text_of, trim, trimmed_range};

verus! {

/// The text that `str::to_lowercase` gives for `s`.
pub uninterp spec fn lowercase_of(s: Seq<char>) -> Seq<char>;

/// `str::to_lowercase`: the lower-case form of `s`, which depends on `s` alone.
#[verifier::external_body]
fn lowercase(s: &str) -> (r: String)
    ensures
        r@ == lowercase_of(s@),
{
    s.to_lowercase()
}

/// The place of the first quote at or behind `i`, or the length of `s`.
pub open spec fn skip_to_quote(s: Seq<char>, i: int) -> int
    decreases s.len() - i,
{
    if i < 0 || i >= s.len() {
        s.len() as int
    } else if s[i] == '"' {
        i
    } else {
        skip_to_quote(s, i + 1)
    }
}

/// The text of a quoted string whose inside starts at `i`: up to the closing
/// quote or the end of `s`, where a backslash gives way to the character
/// behind it.
pub open spec fn quoted_text(s: Seq<char>, i: int) -> Seq<char>
    decreases s.len() - i,
{
    if i < 0 || i >= s.len() {
        Seq::empty()
    } else if s[i] == '\\' {
        if i + 1 < s.len() {
            seq![s[i + 1]] + quoted_text(s, i + 2)
        } else {
            Seq::empty()
        }
    } else if s[i] == '"' {
        Seq::empty()
    } else {
        seq![s[i]] + quoted_text(s, i + 1)
    }
}

/// The place behind the closing quote of a quoted string whose inside starts
/// at `i`, or the length of `s` where it is not closed.
pub open spec fn quoted_end(s: Seq<char>, i: int) -> int
    decreases s.len() - i,
{
    if i < 0 || i >= s.len() {
        s.len() as int
    } else if s[i] == '\\' {
        if i + 1 < s.len() {
            quoted_end(s, i + 2)
        } else {
            s.len() as int
        }
    } else if s[i] == '"' {
        i + 1
    } else {
        quoted_end(s, i + 1)
    }
}

/// The first two quoted strings of a line, as key and value; none where the
/// line holds fewer than two opening quotes.
pub open spec fn kv_pair(s: Seq<char>) -> Option<(Seq<char>, Seq<char>)> {
    let first = skip_to_quote(s, 0);
    if first >= s.len() {
        None
    } else {
        let second = skip_to_quote(s, quoted_end(s, first + 1));
        if second >= s.len() {
            None
        } else {
            Some((quoted_text(s, first + 1), quoted_text(s, second + 1)))
        }
    }
}

/// Finds the first quote at or behind `from`.
fn find_quote(s: &Vec<char>, from: usize) -> (at: usize)
    requires
        from <= s@.len(),
    ensures
        at == skip_to_quote(s@, from as int),
        from <= at <= s@.len(),
{
    let mut i: usize = from;
    while i < s.len() && s[i] != '"'
        invariant
            from <= i <= s@.len(),
            skip_to_quote(s@, from as int) == skip_to_quote(s@, i as int),
        decreases s@.len() - i,
    {
        i += 1;
    }
    i
}

/// Reads a quoted string whose inside starts at `from`: its text and the
/// place behind it.
fn read_quoted(s: &Vec<char>, from: usize) -> (r: (Vec<char>, usize))
    requires
        from <= s@.len(),
    ensures
        r.0@ == quoted_text(s@, from as int),
        r.1 == quoted_end(s@, from as int),
        from <= r.1 <= s@.len(),
{
    let mut out: Vec<char> = Vec::new();
    let mut i: usize = from;
    let mut open: bool = true;
    while open && i < s.len()
        invariant
            from <= i <= s@.len(),
            open ==> quoted_text(s@, from as int) == out@ + quoted_text(s@, i as int),
            open ==> quoted_end(s@, from as int) == quoted_end(s@, i as int),
            !open ==> quoted_text(s@, from as int) == out@,
            !open ==> quoted_end(s@, from as int) == i,
        decreases s@.len() - i + (if open { 1int } else { 0int }),
    {
        let c: char = s[i];
        let ghost before = out@;
        if c == '\\' {
            if i + 1 < s.len() {
                out.push(s[i + 1]);
                assert(before + (seq![s@[i + 1]] + quoted_text(s@, i + 2)) =~= out@ + quoted_text(
                    s@,
                    i + 2,
                ));
                i += 2;
            } else {
                assert(before + Seq::<char>::empty() =~= out@);
                i = s.len();
                open = false;
            }
        } else if c == '"' {
            assert(before + Seq::<char>::empty() =~= out@);
            i += 1;
            open = false;
        } else {
            out.push(c);
            assert(before + (seq![c] + quoted_text(s@, i + 1)) =~= out@ + quoted_text(s@, i + 1));
            i += 1;
        }
    }
    proof {
        if open {
            assert(out@ + Seq::<char>::empty() =~= out@);
        }
    }
    (out, i)
}

/// Reads the first two quoted strings of a line of characters.
fn parse_kv_chars(s: &Vec<char>) -> (r: Option<(Vec<char>, Vec<char>)>)
    ensures
        match r {
            Some((key, value)) => kv_pair(s@) == Some((key@, value@)),
            None => kv_pair(s@) is None,
        },
{
    let first: usize = find_quote(s, 0);
    if first >= s.len() {
        return None;
    }
    let (key, behind) = read_quoted(s, first + 1);
    let second: usize = find_quote(s, behind);
    if second >= s.len() {
        return None;
    }
    let (value, _end) = read_quoted(s, second + 1);
    Some((key, value))
}

/// Reads a line that holds two quoted strings, `"key" "value"`, and returns
/// them without their quotes. Inside the quotes a backslash stands before a
/// character that is taken as it is.
pub fn parse_quoted_kv_pair(line: &str) -> (r: Option<(String, String)>)
    ensures
        match r {
            Some((key, value)) => kv_pair(line@) == Some((key@, value@)),
            None => kv_pair(line@) is None,
        },
{
    let chars: Vec<char> = chars_of(line);
    match parse_kv_chars(&chars) {
        Some((key, value)) => Some((text_of(&key), text_of(&value))),
        None => None,
    }
}

/// Some place of `s` holds `a` with `b` right behind it.
pub open spec fn has_pair(s: Seq<char>, a: char, b: char) -> bool {
    exists|i: int| 0 <= i && i + 1 < s.len() && #[trigger] s[i] == a && s[i + 1] == b
}

/// The value looks like a path: it starts with a slash or with two
/// backslashes, or holds a colon before a slash or a backslash.
pub open spec fn path_like(v: Seq<char>) -> bool {
    ||| (v.len() >= 1 && v[0] == '/')
    ||| (v.len() >= 2 && v[0] == '\\' && v[1] == '\\')
    ||| has_pair(v, ':', '\\')
    ||| has_pair(v, ':', '/')
}

/// The key is `path`, in upper or lower case letters.
pub open spec fn is_path_key(k: Seq<char>) -> bool {
    &&& k.len() == 4
    &&& (k[0] == 'p' || k[0] == 'P')
    &&& (k[1] == 'a' || k[1] == 'A')
    &&& (k[2] == 't' || k[2] == 'T')
    &&& (k[3] == 'h' || k[3] == 'H')
}

/// Every character of the key is one of the digits 0 to 9.
pub open spec fn all_digits(k: Seq<char>) -> bool {
    forall|i: int| 0 <= i < k.len() ==> 0x30 <= (#[trigger] k[i]) as u32 <= 0x39
}

/// The library path that a line of `libraryfolders.vdf` names, if it names
/// one: the value of a `path` key, unless it is empty, or the value of a
/// numbered key if it looks like a path.
pub open spec fn line_path(line: Seq<char>) -> Option<Seq<char>> {
    match kv_pair(line) {
        None => None,
        Some((key, value)) => if is_path_key(key) {
            if value.len() > 0 {
                Some(value)
            } else {
                None
            }
        } else if all_digits(key) && path_like(value) {
            Some(value)
        } else {
            None
        },
    }
}

/// What a line gives to the list of paths: its path, or nothing.
pub open spec fn line_paths(line: Seq<char>) -> Seq<Seq<char>> {
    match line_path(trim(line)) {
        Some(p) => seq![p],
        None => Seq::empty(),
    }
}

/// The library paths of the text from `i` on, where the line that `i` lies
/// in starts at `start`. Lines end with a line feed.
pub open spec fn vdf_scan(s: Seq<char>, start: int, i: int) -> Seq<Seq<char>>
    decreases s.len() - i,
{
    if i < 0 || i >= s.len() {
        line_paths(s.subrange(start, s.len() as int))
    } else if s[i] == '\n' {
        line_paths(s.subrange(start, i)) + vdf_scan(s, i + 1, i + 1)
    } else {
        vdf_scan(s, start, i + 1)
    }
}

/// The library paths that the text of `libraryfolders.vdf` names, in the
/// order of its lines.
pub open spec fn vdf_paths(s: Seq<char>) -> Seq<Seq<char>> {
    vdf_scan(s, 0, 0)
}

/// The texts of a list.
pub open spec fn strings_view(v: Seq<String>) -> Seq<Seq<char>> {
    Seq::new(v.len(), |i: int| v[i]@)
}

/// Whether `s` holds `a` with `b` right behind it.
fn contains_pair(s: &Vec<char>, a: char, b: char) -> (found: bool)
    ensures
        found == has_pair(s@, a, b),
{
    let mut i: usize = 0;
    if s.len() < 2 {
        return false;
    }
    while i < s.len() - 1
        invariant
            s@.len() >= 2,
            forall|j: int| 0 <= j < i && j + 1 < s@.len() ==> !(#[trigger] s@[j] == a && s@[j + 1]
                == b),
        decreases s@.len() - i,
    {
        if s[i] == a && s[i + 1] == b {
            return true;
        }
        i += 1;
    }
    false
}

/// Whether a run of characters looks like a path.
fn path_like_chars(v: &Vec<char>) -> (b: bool)
    ensures
        b == path_like(v@),
{
    (v.len() >= 1 && v[0] == '/') || (v.len() >= 2 && v[0] == '\\' && v[1] == '\\')
        || contains_pair(v, ':', '\\') || contains_pair(v, ':', '/')
}

/// Whether the value looks like a path. The test is wide on purpose: what
/// is no directory is sorted out by whoever probes the paths.
pub fn looks_like_path(value: &str) -> (b: bool)
    ensures
        b == path_like(value@),
{
    let chars: Vec<char> = chars_of(value);
    path_like_chars(&chars)
}

/// Whether the key is `path`, whatever the case of its letters.
fn is_path_key_chars(k: &Vec<char>) -> (b: bool)
    ensures
        b == is_path_key(k@),
{
    k.len() == 4 && (k[0] == 'p' || k[0] == 'P') && (k[1] == 'a' || k[1] == 'A') && (k[2] == 't'
        || k[2] == 'T') && (k[3] == 'h' || k[3] == 'H')
}

/// Whether the key is made of digits alone.
fn all_digits_chars(k: &Vec<char>) -> (b: bool)
    ensures
        b == all_digits(k@),
{
    let mut i: usize = 0;
    while i < k.len()
        invariant
            i <= k@.len(),
            forall|j: int| 0 <= j < i ==> 0x30 <= (#[trigger] k@[j]) as u32 <= 0x39,
        decreases k@.len() - i,
    {
        let code: u32 = k[i] as u32;
        if code < 0x30 || code > 0x39 {
            return false;
        }
        i += 1;
    }
    true
}

/// Adds to `paths` what the line from `lo` up to `hi` gives.
fn take_line(s: &Vec<char>, lo: usize, hi: usize, paths: &mut Vec<String>)
    requires
        lo <= hi <= s@.len(),
    ensures
        strings_view(final(paths)@) == strings_view(old(paths)@) + line_paths(
            s@.subrange(lo as int, hi as int),
        ),
{
    let line: Vec<char> = trimmed_range(s, lo, hi);
    let ghost before = strings_view(paths@);
    match parse_kv_chars(&line) {
        None => {
            assert(before + Seq::<Seq<char>>::empty() =~= before);
        },
        Some((key, value)) => {
            let keep: bool = if is_path_key_chars(&key) {
                value.len() > 0
            } else {
                all_digits_chars(&key) && path_like_chars(&value)
            };
            if keep {
                paths.push(text_of(&value));
                assert(strings_view(paths@) =~= before + seq![value@]);
            } else {
                assert(before + Seq::<Seq<char>>::empty() =~= before);
            }
        },
    }
}

/// Reads the library paths out of the text of `libraryfolders.vdf`, in both
/// of its forms: `"path" "D:\\Lib"` inside a numbered block, and the older
/// `"1" "D:\\Lib"`.
pub fn parse_libraryfolders_vdf(content: &str) -> (paths: Vec<String>)
    ensures
        strings_view(paths@) == vdf_paths(content@),
{
    let s: Vec<char> = chars_of(content);
    let mut paths: Vec<String> = Vec::new();
    let mut start: usize = 0;
    let mut i: usize = 0;
    assert(strings_view(paths@) + vdf_scan(s@, 0, 0) =~= vdf_scan(s@, 0, 0));
    while i < s.len()
        invariant
            start <= i <= s@.len(),
            s@ == content@,
            vdf_paths(s@) == strings_view(paths@) + vdf_scan(s@, start as int, i as int),
        decreases s@.len() - i,
    {
        if s[i] == '\n' {
            let ghost before = strings_view(paths@);
            take_line(&s, start, i, &mut paths);
            assert(before + (line_paths(s@.subrange(start as int, i as int)) + vdf_scan(
                s@,
                i + 1,
                i + 1,
            )) =~= strings_view(paths@) + vdf_scan(s@, i + 1, i + 1));
            start = i + 1;
        }
        i += 1;
    }
    take_line(&s, start, i, &mut paths);
    paths
}

/// The key under which two paths count as the same: the path itself, or its
/// lower-case form where the file system does not tell cases apart.
pub open spec fn path_key(p: Seq<char>, fold_case: bool) -> Seq<char> {
    if fold_case {
        lowercase_of(p)
    } else {
        p
    }
}

/// No key before place `i` is the key at `i`.
pub open spec fn first_of_key(keys: Seq<Seq<char>>, i: int) -> bool {
    forall|j: int| 0 <= j < i ==> #[trigger] keys[j] != keys[i]
}

/// Of the first `k` items, those whose key no earlier item has, in order.
/// The keys stand one for each item.
pub open spec fn deduped_by(items: Seq<Seq<char>>, keys: Seq<Seq<char>>, k: nat) -> Seq<Seq<char>>
    decreases k,
{
    if k == 0 {
        Seq::empty()
    } else if first_of_key(keys, k - 1) {
        deduped_by(items, keys, (k - 1) as nat).push(items[k - 1])
    } else {
        deduped_by(items, keys, (k - 1) as nat)
    }
}

/// The keys of the paths of a list.
pub open spec fn path_keys(items: Seq<Seq<char>>, fold_case: bool) -> Seq<Seq<char>> {
    Seq::new(items.len(), |i: int| path_key(items[i], fold_case))
}

/// Of the first `k` paths, those that are the first of their key, in order.
pub open spec fn deduped(items: Seq<Seq<char>>, fold_case: bool, k: nat) -> Seq<Seq<char>> {
    deduped_by(items, path_keys(items, fold_case), k)
}

/// The key under which a path is compared with others.
pub fn normalize_path_key(path: &str, fold_case: bool) -> (key: String)
    ensures
        key@ == path_key(path@, fold_case),
{
    if fold_case {
        lowercase(path)
    } else {
        path.to_owned()
    }
}

/// Drops each item whose key an earlier item has, and keeps the others in
/// their order. The keys stand one for each item.
pub fn dedup_by_keys(items: Vec<String>, keys: &Vec<String>) -> (out: Vec<String>)
    requires
        keys@.len() == items@.len(),
    ensures
        strings_view(out@) == deduped_by(strings_view(items@), strings_view(keys@), items@.len()),
{
    let ghost all = strings_view(items@);
    let ghost names = strings_view(keys@);
    let mut seen: StringHashMap<bool> = StringHashMap::new();
    let mut out: Vec<String> = Vec::new();
    let mut i: usize = 0;
    assert(strings_view(out@) =~= deduped_by(all, names, 0));
    while i < items.len()
        invariant
            i <= items@.len(),
            keys@.len() == items@.len(),
            all == strings_view(items@),
            names == strings_view(keys@),
            strings_view(out@) == deduped_by(all, names, i as nat),
            forall|k: Seq<char>|
                seen@.contains_key(k) <==> exists|j: int| 0 <= j < i && #[trigger] names[j] == k,
        decreases items@.len() - i,
    {
        let ghost before = seen@;
        let ghost kept = strings_view(out@);
        if !seen.contains_key(keys[i].as_str()) {
            assert(first_of_key(names, i as int));
            seen.insert(keys[i].clone(), true);
            out.push(items[i].clone());
            assert(strings_view(out@) =~= kept.push(all[i as int]));
        } else {
            proof {
                let j = choose|j: int| 0 <= j < i && #[trigger] names[j] == names[i as int];
                assert(!first_of_key(names, i as int));
            }
        }
        proof {
            assert forall|k: Seq<char>| seen@.contains_key(k) implies exists|j: int|
                0 <= j < i + 1 && #[trigger] names[j] == k by {
                if before.contains_key(k) {
                    let j = choose|j: int| 0 <= j < i && #[trigger] names[j] == k;
                    assert(names[j] == k);
                } else {
                    assert(names[i as int] == k);
                }
            }
            assert forall|k: Seq<char>|
                (exists|j: int| 0 <= j < i + 1 && #[trigger] names[j] == k) implies seen@.contains_key(
                k,
            ) by {
                let j = choose|j: int| 0 <= j < i + 1 && #[trigger] names[j] == k;
                if j < i {
                    assert(before.contains_key(k));
                }
            }
        }
        i += 1;
    }
    out
}

/// Drops each path whose key an earlier path of the list has, and keeps the
/// others in their order.
pub fn dedup_paths(paths: Vec<String>, fold_case: bool) -> (out: Vec<String>)
    ensures
        strings_view(out@) == deduped(strings_view(paths@), fold_case, paths@.len()),
{
    let mut keys: Vec<String> = Vec::new();
    let mut i: usize = 0;
    while i < paths.len()
        invariant
            i <= paths@.len(),
            strings_view(keys@) == path_keys(strings_view(paths@), fold_case).take(i as int),
        decreases paths@.len() - i,
    {
        let ghost before = strings_view(keys@);
        let key: String = normalize_path_key(paths[i].as_str(), fold_case);
        assert(key@ == path_key(strings_view(paths@)[i as int], fold_case));
        keys.push(key);
        assert(strings_view(keys@) =~= before.push(key@));
        assert(strings_view(keys@) =~= path_keys(strings_view(paths@), fold_case).take(i + 1));
        i += 1;
    }
    assert(path_keys(strings_view(paths@), fold_case).take(i as int) =~= path_keys(
        strings_view(paths@),
        fold_case,
    ));
    dedup_by_keys(paths, &keys)
}

/// The paths of a list that were found to be there, without those that an
/// earlier one stands for. A path without an answer counts as not there.
pub open spec fn existing(items: Seq<Seq<char>>, found: Seq<bool>, k: nat) -> Seq<Seq<char>>
    decreases k,
{
    if k == 0 {
        Seq::empty()
    } else if k - 1 < found.len() && found[k - 1] {
        existing(items, found, (k - 1) as nat).push(items[k - 1])
    } else {
        existing(items, found, (k - 1) as nat)
    }
}

/// Keeps the candidates that a probe found to be directories, each key once.
pub fn keep_existing(candidates: Vec<String>, is_dir: &Vec<bool>, fold_case: bool) -> (out: Vec<
    String,
>)
    ensures
        strings_view(out@) == deduped(
            existing(strings_view(candidates@), is_dir@, candidates@.len()),
            fold_case,
            existing(strings_view(candidates@), is_dir@, candidates@.len()).len(),
        ),
{
    let ghost items = strings_view(candidates@);
    let mut there: Vec<String> = Vec::new();
    let mut i: usize = 0;
    assert(strings_view(there@) =~= existing(items, is_dir@, 0));
    while i < candidates.len()
        invariant
            i <= candidates@.len(),
            items == strings_view(candidates@),
            strings_view(there@) == existing(items, is_dir@, i as nat),
        decreases candidates@.len() - i,
    {
        let ghost kept = strings_view(there@);
        if i < is_dir.len() && is_dir[i] {
            there.push(candidates[i].clone());
            assert(strings_view(there@) =~= kept.push(items[i as int]));
        }
        i += 1;
    }
    dedup_paths(there, fold_case)
}

/// A path with one more part: the separator stands between them unless the
/// path is empty or ends with it.
pub open spec fn joined(base: Seq<char>, part: Seq<char>, sep: char) -> Seq<char> {
    if base.len() > 0 && base.last() != sep {
        base.push(sep) + part
    } else {
        base + part
    }
}

/// Appends a part to a path.
pub fn join_path(base: &str, part: &str, sep: char) -> (out: String)
    ensures
        out@ == joined(base@, part@, sep),
{
    let chars: Vec<char> = chars_of(base);
    let mut out: String = base.to_owned();
    if chars.len() > 0 && chars[chars.len() - 1] != sep {
        push_char(&mut out, sep);
    }
    out.append(part);
    out
}

/// Where the game's archive lies below a library root.
pub open spec fn pck_below(root: Seq<char>, sep: char) -> Seq<char> {
    joined(
        joined(joined(joined(root, "steamapps"@, sep), "common"@, sep), "Backpack Battles"@, sep),
        "BackpackBattles.pck"@,
        sep,
    )
}

/// The path of the game's archive below a library root.
pub fn pck_candidate(library_root: &str, sep: char) -> (out: String)
    ensures
        out@ == pck_below(library_root@, sep),
{
    let apps: String = join_path(library_root, "steamapps", sep);
    let common: String = join_path(apps.as_str(), "common", sep);
    let game: String = join_path(common.as_str(), "Backpack Battles", sep);
    join_path(game.as_str(), "BackpackBattles.pck", sep)
}

/// The place `i` is the first for which the probe found a file.
pub open spec fn first_hit(is_file: Seq<bool>, i: int) -> bool {
    &&& 0 <= i < is_file.len()
    &&& is_file[i]
    &&& forall|j: int| 0 <= j < i ==> !#[trigger] is_file[j]
}

/// Picks the game's archive from the library roots: the archive below the
/// first root for which the probe found it. `is_file` holds, for each root,
/// whether `pck_candidate` of it is a file; a root without an answer counts
/// as a miss.
pub fn detect_backpack_battles_pck(library_roots: &Vec<String>, is_file: &Vec<bool>, sep: char)
    -> (r: Option<String>)
    ensures
        match r {
            Some(path) => exists|i: int|
                first_hit(is_file@, i) && i < library_roots@.len() && path@ == pck_below(
                    #[trigger] library_roots@[i]@,
                    sep,
                ),
            None => forall|i: int|
                0 <= i < library_roots@.len() && i < is_file@.len() ==> !#[trigger] is_file@[i],
        },
{
    let mut i: usize = 0;
    while i < library_roots.len() && i < is_file.len()
        invariant
            forall|j: int| 0 <= j < i && j < is_file@.len() ==> !#[trigger] is_file@[j],
        decreases library_roots@.len() - i,
    {
        if is_file[i] {
            let path: String = pck_candidate(library_roots[i].as_str(), sep);
            assert(first_hit(is_file@, i as int));
            return Some(path);
        }
        i += 1;
    }
    None
}

/// The system whose usual Steam places are asked for.
#[derive(Clone, Copy, Debug, PartialEq, Eq, Structural)]
pub enum Platform {
    Windows,
    MacOs,
    Linux,
    Other,
}

/// The usual places of a Steam installation: on Windows what the registry
/// names, then the two program folders; on macOS and Linux the places below
/// the home directory, if it is known.
pub open spec fn root_candidates(
    platform: Platform,
    registry_root: Option<Seq<char>>,
    home: Option<Seq<char>>,
) -> Seq<Seq<char>> {
    match platform {
        Platform::Windows => {
            let usual = seq!["C:\\Program Files (x86)\\Steam"@, "C:\\Program Files\\Steam"@];
            match registry_root {
                Some(root) => seq![root] + usual,
                None => usual,
            }
        },
        Platform::MacOs => match home {
            Some(dir) => seq![joined(dir, "Library/Application Support/Steam"@, '/')],
            None => Seq::empty(),
        },
        Platform::Linux => match home {
            Some(dir) => seq![
                joined(dir, ".local/share/Steam"@, '/'),
                joined(dir, ".steam/steam"@, '/'),
            ],
            None => Seq::empty(),
        },
        Platform::Other => Seq::empty(),
    }
}

/// The places where a Steam installation is looked for, before any of them
/// is probed.
pub fn steam_root_candidates(
    platform: Platform,
    registry_root: Option<String>,
    home: Option<String>,
) -> (candidates: Vec<String>)
    ensures
        strings_view(candidates@) == root_candidates(
            platform,
            match registry_root {
                Some(root) => Some(root@),
                None => None,
            },
            match home {
                Some(dir) => Some(dir@),
                None => None,
            },
        ),
{
    let mut candidates: Vec<String> = Vec::new();
    match platform {
        Platform::Windows => {
            match registry_root {
                Some(root) => {
                    candidates.push(root);
                },
                None => {},
            }
            candidates.push("C:\\Program Files (x86)\\Steam".to_owned());
            candidates.push("C:\\Program Files\\Steam".to_owned());
        },
        Platform::MacOs => {
            match home {
                Some(dir) => {
                    candidates.push(
                        join_path(dir.as_str(), "Library/Application Support/Steam", '/'),
                    );
                },
                None => {},
            }
        },
        Platform::Linux => {
            match home {
                Some(dir) => {
                    candidates.push(join_path(dir.as_str(), ".local/share/Steam", '/'));
                    candidates.push(join_path(dir.as_str(), ".steam/steam", '/'));
                },
                None => {},
            }
        },
        Platform::Other => {},
    }
    assert(strings_view(candidates@) =~= root_candidates(
        platform,
        match registry_root {
            Some(root) => Some(root@),
            None => None,
        },
        match home {
            Some(dir) => Some(dir@),
            None => None,
        },
    ));
    candidates
}

/// The library roots of a Steam installation, before any of them is probed:
/// the installation itself, then what its `libraryfolders.vdf` names, if
/// that file could be read.
pub fn steam_library_roots(steam_root: &str, vdf_content: Option<&str>) -> (roots: Vec<String>)
    ensures
        strings_view(roots@) == seq![steam_root@] + (match vdf_content {
            Some(text) => vdf_paths(text@),
            None => Seq::empty(),
        }),
{
    let mut roots: Vec<String> = Vec::new();
    roots.push(steam_root.to_owned());
    match vdf_content {
        Some(text) => {
            let mut named: Vec<String> = parse_libraryfolders_vdf(text);
            let ghost first = strings_view(roots@);
            let ghost rest = strings_view(named@);
            roots.append(&mut named);
            assert(strings_view(roots@) =~= first + rest);
            assert(first =~= seq![steam_root@]);
        },
        None => {
            assert(strings_view(roots@) =~= seq![steam_root@] + Seq::<Seq<char>>::empty());
        },
    }
    roots
}

/// Why no archive could be made out from what was typed.
#[derive(Clone, Copy, Debug, PartialEq, Eq, Structural)]
pub enum ResolveError {
    /// Nothing was typed.
    EmptyInput,
    /// What was typed is no file, and no folder that holds the archive.
    NotFound,
}

/// What was typed, without the white space around it: the path that is
/// probed.
pub fn trimmed_input(input: &str) -> (out: String)
    ensures
        out@ == trim(input@),
{
    let chars: Vec<char> = chars_of(input);
    assert(chars@.subrange(0, chars@.len() as int) =~= chars@);
    let trimmed: Vec<char> = trimmed_range(&chars, 0, chars.len());
    text_of(&trimmed)
}

/// Makes out the archive from what was typed: the path itself if it is a
/// file, or `BackpackBattles.pck` in it if it is a folder that holds that
/// file. The three answers are those of a probe of `trimmed_input` and of
/// the archive's path in it.
pub fn resolve_pck_path(
    input: &str,
    is_file: bool,
    is_dir: bool,
    holds_pck: bool,
    sep: char,
) -> (r: Result<String, ResolveError>)
    ensures
        match r {
            Ok(path) => {
                &&& trim(input@).len() > 0
                &&& is_file || (is_dir && holds_pck)
                &&& path@ == (if is_file {
                    trim(input@)
                } else {
                    joined(trim(input@), "BackpackBattles.pck"@, sep)
                })
            },
            Err(e) => if trim(input@).len() == 0 {
                e == ResolveError::EmptyInput
            } else {
                e == ResolveError::NotFound && !is_file && !(is_dir && holds_pck)
            },
        },
{
    let path: String = trimmed_input(input);
    let chars: Vec<char> = chars_of(path.as_str());
    if chars.len() == 0 {
        return Err(ResolveError::EmptyInput);
    }
    if is_file {
        return Ok(path);
    }
    if is_dir && holds_pck {
        return Ok(join_path(path.as_str(), "BackpackBattles.pck", sep));
    }
    Err(ResolveError::NotFound)
}

/// The archive at the usual place of the game on Windows.
pub open spec fn default_pck() -> Seq<char> {
    joined(
        "C:\\Program Files (x86)\\Steam\\steamapps\\common\\Backpack Battles"@,
        "BackpackBattles.pck"@,
        '\\',
    )
}

/// The path of the archive at the usual place of the game.
pub fn default_pck_path() -> (path: String)
    ensures
        path@ == default_pck(),
{
    join_path(
        "C:\\Program Files (x86)\\Steam\\steamapps\\common\\Backpack Battles",
        "BackpackBattles.pck",
        '\\',
    )
}

/// The archive at the usual place, if a probe found it there.
pub fn detect_default_path(found: bool) -> (r: Option<String>)
    ensures
        match r {
            Some(path) => found && path@ == default_pck(),
            None => !found,
        },
{
    if found {
        Some(default_pck_path())
    } else {
        None
    }
}

} // verus!
