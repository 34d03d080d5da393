//! The Windows registry as a source of the place of Steam: what is asked,
//! and how the answers of the registry tool are read.
use vstd::prelude::*;
use vstd::string::*;
use crate::text::{
    chars_of, split_words, starts_with_chars, text_of, trim, trimmed_range, words, words_view,
};

verus! {

/// The text with a backslash where it has a slash.
pub open spec fn backslashed(s: Seq<char>) -> Seq<char> {
    Seq::new(s.len(), |i: int| if s[i] == '/' { '\\' } else { s[i] })
}

/// The path that an answer of the registry stands for: trimmed, with
/// backslashes for slashes.
pub open spec fn registry_path(answer: Seq<char>) -> Seq<char> {
    backslashed(trim(answer))
}

/// The answer at place `i` is the first that names a path.
pub open spec fn first_answer(answers: Seq<Option<String>>, i: int) -> bool {
    &&& 0 <= i < answers.len()
    &&& answers[i] is Some
    &&& registry_path(answers[i]->Some_0@).len() > 0
    &&& forall|j: int|
        0 <= j < i ==> (#[trigger] answers[j]) is None || registry_path(answers[j]->Some_0@).len()
            == 0
}

/// The registry keys and values that are asked for the place of Steam, in
/// the order in which their answers count.
pub fn registry_queries() -> (queries: Vec<(&'static str, &'static str)>)
    ensures
        queries@.len() == 4,
        queries@[0].0@ == "HKCU\\Software\\Valve\\Steam"@ && queries@[0].1@ == "SteamPath"@,
        queries@[1].0@ == "HKCU\\Software\\Valve\\Steam"@ && queries@[1].1@ == "InstallPath"@,
        queries@[2].0@ == "HKLM\\SOFTWARE\\WOW6432Node\\Valve\\Steam"@ && queries@[2].1@
            == "InstallPath"@,
        queries@[3].0@ == "HKLM\\SOFTWARE\\Valve\\Steam"@ && queries@[3].1@ == "InstallPath"@,
{
    let mut queries: Vec<(&'static str, &'static str)> = Vec::new();
    queries.push(("HKCU\\Software\\Valve\\Steam", "SteamPath"));
    queries.push(("HKCU\\Software\\Valve\\Steam", "InstallPath"));
    queries.push(("HKLM\\SOFTWARE\\WOW6432Node\\Valve\\Steam", "InstallPath"));
    queries.push(("HKLM\\SOFTWARE\\Valve\\Steam", "InstallPath"));
    queries
}

/// Picks the place of Steam from the answers of the registry, one for each
/// of `registry_queries`: the first answer that is not empty once trimmed,
/// with backslashes for slashes.
pub fn steam_root_from_registry(answers: &Vec<Option<String>>) -> (r: Option<String>)
    ensures
        match r {
            Some(path) => exists|i: int|
                first_answer(answers@, i) && path@ == registry_path(
                    (#[trigger] answers@[i])->Some_0@,
                ),
            None => forall|i: int|
                0 <= i < answers@.len() ==> (#[trigger] answers@[i]) is None || registry_path(
                    answers@[i]->Some_0@,
                ).len() == 0,
        },
{
    let mut i: usize = 0;
    while i < answers.len()
        invariant
            i <= answers@.len(),
            forall|j: int|
                0 <= j < i ==> (#[trigger] answers@[j]) is None || registry_path(
                    answers@[j]->Some_0@,
                ).len() == 0,
        decreases answers@.len() - i,
    {
        match &answers[i] {
            Some(answer) => {
                let chars: Vec<char> = chars_of(answer.as_str());
                let trimmed: Vec<char> = trimmed_range(&chars, 0, chars.len());
                assert(chars@.subrange(0, chars@.len() as int) =~= chars@);
                let mut normalized: Vec<char> = Vec::new();
                let mut k: usize = 0;
                while k < trimmed.len()
                    invariant
                        k <= trimmed@.len(),
                        normalized@ == backslashed(trimmed@).take(k as int),
                    decreases trimmed@.len() - k,
                {
                    let c: char = trimmed[k];
                    normalized.push(if c == '/' { '\\' } else { c });
                    assert(normalized@ =~= backslashed(trimmed@).take(k + 1));
                    k += 1;
                }
                assert(normalized@ =~= backslashed(trimmed@));
                if normalized.len() > 0 {
                    assert(first_answer(answers@, i as int));
                    return Some(text_of(&normalized));
                }
            },
            None => {},
        }
        i += 1;
    }
    None
}

/// The words from place `from` on, with one space between them.
pub open spec fn spaced(w: Seq<Seq<char>>, from: int) -> Seq<char>
    decreases w.len() - from,
{
    if from < 0 || from >= w.len() {
        Seq::empty()
    } else if from == w.len() - 1 {
        w[from]
    } else {
        w[from] + seq![' '] + spaced(w, from + 1)
    }
}

/// The data that a line of the registry tool's answer gives for the value
/// `value`: the line names the value at its start, then a type, then the
/// data, which is taken with single spaces between its words.
pub open spec fn reg_data(line: Seq<char>, value: Seq<char>) -> Option<Seq<char>> {
    let t = trim(line);
    if t.len() == 0 || !value.is_prefix_of(t) || words(t).len() < 3 {
        None
    } else {
        Some(spaced(words(t), 2))
    }
}

/// The data of the first line, from `i` on, that gives some, where the line
/// that `i` lies in starts at `start`.
pub open spec fn reg_scan(s: Seq<char>, value: Seq<char>, start: int, i: int) -> Option<Seq<char>>
    decreases s.len() - i,
{
    if i < 0 || i >= s.len() {
        reg_data(s.subrange(start, s.len() as int), value)
    } else if s[i] == '\n' {
        if reg_data(s.subrange(start, i), value) is Some {
            reg_data(s.subrange(start, i), value)
        } else {
            reg_scan(s, value, i + 1, i + 1)
        }
    } else {
        reg_scan(s, value, start, i + 1)
    }
}

/// The words from place 2 on, with one space between them.
fn join_from_third(w: &Vec<Vec<char>>) -> (out: Vec<char>)
    requires
        w@.len() >= 3,
    ensures
        out@ == spaced(words_view(w@), 2),
{
    let ghost all = words_view(w@);
    let mut out: Vec<char> = Vec::new();
    let mut k: usize = w.len();
    while k > 2
        invariant
            2 <= k <= w@.len(),
            all == words_view(w@),
            out@ == spaced(all, k as int),
        decreases k,
    {
        k -= 1;
        let mut next: Vec<char> = Vec::new();
        let mut j: usize = 0;
        while j < w[k].len()
            invariant
                k < w@.len(),
                j <= w@[k as int]@.len(),
                next@ == w@[k as int]@.take(j as int),
            decreases w@[k as int]@.len() - j,
        {
            next.push(w[k][j]);
            assert(w@[k as int]@.take(j + 1) =~= w@[k as int]@.take(j as int).push(
                w@[k as int]@[j as int],
            ));
            j += 1;
        }
        assert(w@[k as int]@.take(j as int) =~= w@[k as int]@);
        assert(next@ == all[k as int]);
        if k + 1 < w.len() {
            let ghost tail = out@;
            next.push(' ');
            let mut m: usize = 0;
            while m < out.len()
                invariant
                    m <= out@.len(),
                    tail == out@,
                    next@ == all[k as int] + seq![' '] + tail.take(m as int),
                decreases out@.len() - m,
            {
                next.push(out[m]);
                assert(tail.take(m + 1) =~= tail.take(m as int).push(tail[m as int]));
                m += 1;
            }
            assert(tail.take(m as int) =~= tail);
        }
        out = next;
    }
    out
}

/// What the line from `lo` up to `hi` gives for the value.
fn reg_line(s: &Vec<char>, lo: usize, hi: usize, value: &Vec<char>) -> (r: Option<Vec<char>>)
    requires
        lo <= hi <= s@.len(),
    ensures
        match r {
            Some(data) => reg_data(s@.subrange(lo as int, hi as int), value@) == Some(data@),
            None => reg_data(s@.subrange(lo as int, hi as int), value@) is None,
        },
{
    let line: Vec<char> = trimmed_range(s, lo, hi);
    if line.len() == 0 || !starts_with_chars(&line, value) {
        return None;
    }
    let parts: Vec<Vec<char>> = split_words(&line);
    if parts.len() < 3 {
        return None;
    }
    Some(join_from_third(&parts))
}

/// Reads the data of a value out of what the registry tool printed: the
/// first line that names the value at its start, then a type, then the data.
/// The data may hold spaces; its words are joined by single spaces.
pub fn parse_reg_output(stdout: &str, value: &str) -> (r: Option<String>)
    ensures
        match r {
            Some(data) => reg_scan(stdout@, value@, 0, 0) == Some(data@),
            None => reg_scan(stdout@, value@, 0, 0) is None,
        },
{
    let s: Vec<char> = chars_of(stdout);
    let name: Vec<char> = chars_of(value);
    let mut start: usize = 0;
    let mut i: usize = 0;
    while i < s.len()
        invariant
            start <= i <= s@.len(),
            s@ == stdout@,
            name@ == value@,
            reg_scan(s@, name@, 0, 0) == reg_scan(s@, name@, start as int, i as int),
        decreases s@.len() - i,
    {
        if s[i] == '\n' {
            match reg_line(&s, start, i, &name) {
                Some(data) => {
                    return Some(text_of(&data));
                },
                None => {},
            }
            start = i + 1;
        }
        i += 1;
    }
    match reg_line(&s, start, i, &name) {
        Some(data) => Some(text_of(&data)),
        None => None,
    }
}

} // verus!
