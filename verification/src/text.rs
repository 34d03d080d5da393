//! Texts as runs of characters: trimming white space and splitting into
//! words.
use vstd::prelude::*;
use vstd::string::*;

verus! {

/// Whether `char::is_whitespace` holds of `c`: it has the Unicode property
/// White_Space.
pub uninterp spec fn char_is_whitespace(c: char) -> bool;

/// `char::is_whitespace`: whether `c` is white space. The answer depends on
/// `c` alone.
#[verifier::external_body]
fn is_space(c: char) -> (b: bool)
    ensures
        b == char_is_whitespace(c),
{
    c.is_whitespace()
}

/// `String::push`: appends one character.
#[verifier::external_body]
pub(crate) fn push_char(text: &mut String, c: char)
    ensures
        final(text)@ == old(text)@.push(c),
{
    text.push(c)
}

/// The characters of a text.
pub fn chars_of(s: &str) -> (v: Vec<char>)
    ensures
        v@ == s@,
{
    let mut v: Vec<char> = Vec::new();
    for c in it: s.chars()
        invariant
            v@ == it.seq().take(it.index() as int),
            it.seq() == s@,
    {
        v.push(c);
    }
    v
}

/// The text that a run of characters spells.
pub fn text_of(chars: &Vec<char>) -> (s: String)
    ensures
        s@ == chars@,
{
    let mut s: String = String::new();
    let mut i: usize = 0;
    assert(s@ =~= chars@.take(0));
    while i < chars.len()
        invariant
            i <= chars@.len(),
            s@ == chars@.take(i as int),
        decreases chars@.len() - i,
    {
        push_char(&mut s, chars[i]);
        assert(chars@.take(i + 1) =~= chars@.take(i as int).push(chars@[i as int]));
        i += 1;
    }
    assert(chars@.take(i as int) =~= chars@);
    s
}

/// For each character of a text, whether it is white space.
pub open spec fn marked(s: Seq<char>) -> Seq<bool> {
    Seq::new(s.len(), |i: int| char_is_whitespace(s[i]))
}

/// How many marks at the start of the list are set.
pub open spec fn lead(marks: Seq<bool>) -> int
    decreases marks.len(),
{
    if marks.len() > 0 && marks[0] {
        1 + lead(marks.drop_first())
    } else {
        0
    }
}

/// How many marks at the end of the list are set.
pub open spec fn trail(marks: Seq<bool>) -> int
    decreases marks.len(),
{
    if marks.len() > 0 && marks.last() {
        1 + trail(marks.drop_last())
    } else {
        0
    }
}

/// A text without the marked characters at its start and at its end; the
/// marks stand one for each character.
pub open spec fn trimmed_by(s: Seq<char>, marks: Seq<bool>) -> Seq<char> {
    if lead(marks) + trail(marks) >= s.len() {
        Seq::empty()
    } else {
        s.subrange(lead(marks), s.len() - trail(marks))
    }
}

/// A text without the white space at its start and at its end.
pub open spec fn trim(s: Seq<char>) -> Seq<char> {
    trimmed_by(s, marked(s))
}

/// Marks the white space among the characters.
fn space_marks(chars: &Vec<char>) -> (marks: Vec<bool>)
    ensures
        marks@ == marked(chars@),
{
    let mut marks: Vec<bool> = Vec::new();
    let mut i: usize = 0;
    while i < chars.len()
        invariant
            i <= chars@.len(),
            marks@ == marked(chars@).take(i as int),
        decreases chars@.len() - i,
    {
        marks.push(is_space(chars[i]));
        assert(marks@ =~= marked(chars@).take(i + 1));
        i += 1;
    }
    assert(marked(chars@).take(i as int) =~= marked(chars@));
    marks
}

/// The characters without those at the start and at the end that are
/// marked. The marks stand one for each character.
pub fn trim_marked(chars: &Vec<char>, marks: &Vec<bool>) -> (out: Vec<char>)
    requires
        marks@.len() == chars@.len(),
    ensures
        out@ == trimmed_by(chars@, marks@),
{
    let total: usize = chars.len();
    let mut from: usize = 0;
    assert(marks@.subrange(0, total as int) =~= marks@);
    while from < total && marks[from]
        invariant
            from <= total,
            total == marks@.len(),
            lead(marks@) == from + lead(marks@.subrange(from as int, total as int)),
        decreases total - from,
    {
        assert(marks@.subrange(from as int, total as int).drop_first() =~= marks@.subrange(
            from + 1,
            total as int,
        ));
        from += 1;
    }
    let mut to: usize = total;
    while to > 0 && marks[to - 1]
        invariant
            to <= total,
            total == marks@.len(),
            trail(marks@) == (total - to) + trail(marks@.subrange(0, to as int)),
        decreases to,
    {
        assert(marks@.subrange(0, to as int).drop_last() =~= marks@.subrange(0, to - 1));
        to -= 1;
    }
    let mut out: Vec<char> = Vec::new();
    if from >= to {
        return out;
    }
    let mut i: usize = from;
    while i < to
        invariant
            from <= i <= to <= chars@.len(),
            out@ == chars@.subrange(from as int, i as int),
        decreases to - i,
    {
        out.push(chars[i]);
        assert(chars@.subrange(from as int, i + 1) =~= chars@.subrange(from as int, i as int).push(
            chars@[i as int],
        ));
        i += 1;
    }
    out
}

/// The characters of `s` from `lo` up to `hi`, without the white space at
/// both ends.
pub(crate) fn trimmed_range(s: &Vec<char>, lo: usize, hi: usize) -> (out: Vec<char>)
    requires
        lo <= hi <= s@.len(),
    ensures
        out@ == trim(s@.subrange(lo as int, hi as int)),
{
    let mut line: Vec<char> = Vec::new();
    let mut i: usize = lo;
    while i < hi
        invariant
            lo <= i <= hi <= s@.len(),
            line@ == s@.subrange(lo as int, i as int),
        decreases hi - i,
    {
        line.push(s[i]);
        assert(s@.subrange(lo as int, i + 1) =~= s@.subrange(lo as int, i as int).push(
            s@[i as int],
        ));
        i += 1;
    }
    let marks: Vec<bool> = space_marks(&line);
    trim_marked(&line, &marks)
}

/// The runs of unmarked characters of a text, in their order; the marks
/// stand one for each character.
pub open spec fn words_by(s: Seq<char>, marks: Seq<bool>) -> Seq<Seq<char>>
    decreases s.len(),
{
    if s.len() == 0 || marks.len() != s.len() {
        Seq::empty()
    } else if marks.last() {
        words_by(s.drop_last(), marks.drop_last())
    } else if s.len() >= 2 && !marks[marks.len() - 2] {
        words_by(s.drop_last(), marks.drop_last()).drop_last().push(
            words_by(s.drop_last(), marks.drop_last()).last().push(s.last()),
        )
    } else {
        words_by(s.drop_last(), marks.drop_last()).push(seq![s.last()])
    }
}

/// The words of a text: its runs of characters that are no white space, in
/// their order.
pub open spec fn words(s: Seq<char>) -> Seq<Seq<char>> {
    words_by(s, marked(s))
}

/// The lists of characters of a list, as texts.
pub open spec fn words_view(v: Seq<Vec<char>>) -> Seq<Seq<char>> {
    Seq::new(v.len(), |i: int| v[i]@)
}

/// Splits a run of characters into its runs of unmarked characters. The
/// marks stand one for each character.
pub fn split_marked(s: &Vec<char>, marks: &Vec<bool>) -> (out: Vec<Vec<char>>)
    requires
        marks@.len() == s@.len(),
    ensures
        words_view(out@) == words_by(s@, marks@),
{
    let mut out: Vec<Vec<char>> = Vec::new();
    let mut word: Vec<char> = Vec::new();
    let mut i: usize = 0;
    assert(s@.take(0).len() == 0);
    assert(words_view(out@) =~= words_by(s@.take(0), marks@.take(0)));
    while i < s.len()
        invariant
            i <= s@.len(),
            marks@.len() == s@.len(),
            word@.len() > 0 <==> (i > 0 && !marks@[i - 1]),
            word@.len() == 0 ==> words_view(out@) == words_by(
                s@.take(i as int),
                marks@.take(i as int),
            ),
            word@.len() > 0 ==> words_view(out@).push(word@) == words_by(
                s@.take(i as int),
                marks@.take(i as int),
            ),
        decreases s@.len() - i,
    {
        let c: char = s[i];
        let ghost now = s@.take(i + 1);
        let ghost flags = marks@.take(i + 1);
        let ghost done = words_view(out@);
        assert(now.drop_last() =~= s@.take(i as int));
        assert(flags.drop_last() =~= marks@.take(i as int));
        assert(now.last() == c);
        assert(flags.last() == marks@[i as int]);
        if marks[i] {
            if word.len() > 0 {
                let ghost w = word@;
                out.push(word);
                word = Vec::new();
                assert(words_view(out@) =~= done.push(w));
            }
        } else {
            if word.len() > 0 {
                let ghost w = word@;
                assert(flags[flags.len() - 2] == marks@[i - 1]);
                word.push(c);
                assert(done.push(w).drop_last() =~= done);
            } else {
                if i > 0 {
                    assert(flags[flags.len() - 2] == marks@[i - 1]);
                }
                word.push(c);
                assert(word@ =~= seq![c]);
            }
        }
        i += 1;
    }
    assert(s@.take(i as int) =~= s@);
    assert(marks@.take(i as int) =~= marks@);
    if word.len() > 0 {
        let ghost done = words_view(out@);
        let ghost w = word@;
        out.push(word);
        assert(words_view(out@) =~= done.push(w));
    }
    out
}

/// Splits a run of characters into its words.
pub(crate) fn split_words(s: &Vec<char>) -> (out: Vec<Vec<char>>)
    ensures
        words_view(out@) == words(s@),
{
    let marks: Vec<bool> = space_marks(s);
    split_marked(s, &marks)
}

/// Whether `s` starts with `prefix`.
pub(crate) fn starts_with_chars(s: &Vec<char>, prefix: &Vec<char>) -> (b: bool)
    ensures
        b == prefix@.is_prefix_of(s@),
{
    if prefix.len() > s.len() {
        return false;
    }
    let mut i: usize = 0;
    while i < prefix.len()
        invariant
            i <= prefix@.len() <= s@.len(),
            forall|j: int| 0 <= j < i ==> s@[j] == prefix@[j],
        decreases prefix@.len() - i,
    {
        if s[i] != prefix[i] {
            assert(s@.subrange(0, prefix@.len() as int)[i as int] != prefix@[i as int]);
            return false;
        }
        i += 1;
    }
    assert(s@.subrange(0, prefix@.len() as int) =~= prefix@);
    true
}

} // verus!
