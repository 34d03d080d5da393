//! The container codec: the fixed header and the entry records, little-endian.
use vstd::prelude::*;
use vstd::slice::{slice_subrange, slice_to_vec};
use vstd::string::*;
use vstd::utf8::{
    decode_utf8, encode_scalar, encode_utf8, encode_utf8_decode_utf8, encode_utf8_valid_utf8,
    valid_utf8,
};
use crate::error::PckError;

verus! {

/// Bytes that the header occupies at the start of an archive.
pub const HEADER_SIZE: usize = 88;

/// Bytes of an entry record besides its path bytes.
pub const ENTRY_FIXED_SIZE: u64 = 36;

/// The unsigned 32-bit number that four bytes at `at` hold, lowest byte first.
#[verifier::opaque]
pub open spec fn le_u32_at(s: Seq<u8>, at: int) -> u32 {
    (s[at] as int + s[at + 1] as int * 0x100 + s[at + 2] as int * 0x1_0000 + s[at + 3] as int
        * 0x100_0000) as u32
}

/// The unsigned 64-bit number that eight bytes at `at` hold, lowest byte first.
#[verifier::opaque]
pub open spec fn le_u64_at(s: Seq<u8>, at: int) -> u64 {
    (le_u32_at(s, at) as int + le_u32_at(s, at + 4) as int * 0x1_0000_0000) as u64
}

/// The four bytes of `x`, lowest byte first.
#[verifier::opaque]
pub open spec fn u32_le_bytes(x: u32) -> Seq<u8> {
    seq![
        (x as int % 0x100) as u8,
        (x as int / 0x100 % 0x100) as u8,
        (x as int / 0x1_0000 % 0x100) as u8,
        (x as int / 0x100_0000 % 0x100) as u8,
    ]
}

/// The eight bytes of `x`, lowest byte first.
#[verifier::opaque]
pub open spec fn u64_le_bytes(x: u64) -> Seq<u8> {
    u32_le_bytes((x as int % 0x1_0000_0000) as u32) + u32_le_bytes(
        (x as int / 0x1_0000_0000) as u32,
    )
}

/// A 32-bit number is written as four bytes.
pub proof fn lemma_u32_le_len(x: u32)
    ensures
        u32_le_bytes(x).len() == 4,
{
    reveal(u32_le_bytes);
}

/// A 64-bit number is written as eight bytes.
pub proof fn lemma_u64_le_len(x: u64)
    ensures
        u64_le_bytes(x).len() == 8,
{
    reveal(u64_le_bytes);
    lemma_u32_le_len((x as int % 0x1_0000_0000) as u32);
    lemma_u32_le_len((x as int / 0x1_0000_0000) as u32);
}

/// Four bytes that are those of `x` decode to `x`.
pub proof fn lemma_u32_decode(s: Seq<u8>, at: int, x: u32)
    requires
        0 <= at,
        at + 4 <= s.len(),
        s.subrange(at, at + 4) == u32_le_bytes(x),
    ensures
        le_u32_at(s, at) == x,
{
    reveal(u32_le_bytes);
    reveal(le_u32_at);
    let w = s.subrange(at, at + 4);
    assert(w[0] == s[at]);
    assert(w[1] == s[at + 1]);
    assert(w[2] == s[at + 2]);
    assert(w[3] == s[at + 3]);
}

/// Eight bytes that are those of `x` decode to `x`.
pub proof fn lemma_u64_decode(s: Seq<u8>, at: int, x: u64)
    requires
        0 <= at,
        at + 8 <= s.len(),
        s.subrange(at, at + 8) == u64_le_bytes(x),
    ensures
        le_u64_at(s, at) == x,
{
    let lo = (x as int % 0x1_0000_0000) as u32;
    let hi = (x as int / 0x1_0000_0000) as u32;
    lemma_u32_le_len(lo);
    lemma_u32_le_len(hi);
    assert(u64_le_bytes(x) == u32_le_bytes(lo) + u32_le_bytes(hi)) by {
        reveal(u64_le_bytes);
    }
    assert(s.subrange(at, at + 4) =~= s.subrange(at, at + 8).subrange(0, 4));
    assert(s.subrange(at + 4, at + 8) =~= s.subrange(at, at + 8).subrange(4, 8));
    assert((u32_le_bytes(lo) + u32_le_bytes(hi)).subrange(0, 4) =~= u32_le_bytes(lo));
    assert((u32_le_bytes(lo) + u32_le_bytes(hi)).subrange(4, 8) =~= u32_le_bytes(hi));
    lemma_u32_decode(s, at, lo);
    lemma_u32_decode(s, at + 4, hi);
    assert(le_u64_at(s, at) == x) by {
        reveal(le_u64_at);
    }
}

/// Decodes four bytes at `at`.
pub fn read_u32_le(bytes: &[u8], at: usize) -> (x: u32)
    requires
        at + 4 <= bytes.len(),
    ensures
        x == le_u32_at(bytes@, at as int),
{
    proof {
        reveal(le_u32_at);
    }
    let b0: u32 = bytes[at] as u32;
    let b1: u32 = bytes[at + 1] as u32;
    let b2: u32 = bytes[at + 2] as u32;
    let b3: u32 = bytes[at + 3] as u32;
    b0 + b1 * 0x100 + b2 * 0x1_0000 + b3 * 0x100_0000
}

/// Decodes eight bytes at `at`.
pub fn read_u64_le(bytes: &[u8], at: usize) -> (x: u64)
    requires
        at + 8 <= bytes.len(),
    ensures
        x == le_u64_at(bytes@, at as int),
{
    proof {
        reveal(le_u64_at);
    }
    let lo: u64 = read_u32_le(bytes, at) as u64;
    let hi: u64 = read_u32_le(bytes, at + 4) as u64;
    lo + hi * 0x1_0000_0000
}

/// Appends the four bytes of `x` to `out`.
pub fn push_u32_le(out: &mut Vec<u8>, x: u32)
    ensures
        final(out)@ == old(out)@ + u32_le_bytes(x),
{
    proof {
        reveal(u32_le_bytes);
    }
    out.push((x % 0x100) as u8);
    out.push((x / 0x100 % 0x100) as u8);
    out.push((x / 0x1_0000 % 0x100) as u8);
    out.push((x / 0x100_0000 % 0x100) as u8);
}

/// Appends the eight bytes of `x` to `out`.
pub fn push_u64_le(out: &mut Vec<u8>, x: u64)
    ensures
        final(out)@ == old(out)@ + u64_le_bytes(x),
{
    proof {
        reveal(u64_le_bytes);
        lemma_u32_le_len((x % 0x1_0000_0000) as u32);
        lemma_u32_le_len((x / 0x1_0000_0000) as u32);
    }
    push_u32_le(out, (x % 0x1_0000_0000) as u32);
    push_u32_le(out, (x / 0x1_0000_0000) as u32);
}

/// The fixed header at the start of an archive.
#[derive(Clone, Copy, Debug)]
pub struct Header {
    pub version: u32,
    pub godot_version_major: u32,
    pub godot_version_minor: u32,
    pub godot_version_patch: u32,
    pub reserved: [u32; 16],
    pub file_count: u32,
}

/// The magic bytes `GDPC`.
pub open spec fn magic() -> Seq<u8> {
    seq![0x47u8, 0x44u8, 0x50u8, 0x43u8]
}

/// The bytes of a run of 32-bit words, each lowest byte first.
pub open spec fn words_le_bytes(words: Seq<u32>) -> Seq<u8> {
    Seq::new(4 * words.len(), |i: int| u32_le_bytes(words[i / 4])[i % 4])
}

/// The 88 bytes that a header is written as.
pub open spec fn header_bytes(h: Header) -> Seq<u8> {
    magic() + u32_le_bytes(h.version) + u32_le_bytes(h.godot_version_major) + u32_le_bytes(
        h.godot_version_minor,
    ) + u32_le_bytes(h.godot_version_patch) + words_le_bytes(h.reserved@) + u32_le_bytes(
        h.file_count,
    )
}

/// Why the start of `s` is no acceptable header, if it is none: a short or
/// wrongly marked header first, then the version, then the entry count.
pub open spec fn header_error(s: Seq<u8>) -> Option<PckError> {
    if s.len() < HEADER_SIZE || s.subrange(0, 4) != magic() {
        Some(PckError::MalformedHeader)
    } else if le_u32_at(s, 4) != 1 {
        Some(PckError::UnsupportedVersion)
    } else if le_u32_at(s, 84) == 0 {
        Some(PckError::EmptyArchive)
    } else {
        None
    }
}

/// `h` holds the fields that the first 88 bytes of `s` encode.
pub open spec fn header_fields_at(h: Header, s: Seq<u8>) -> bool {
    &&& h.version == le_u32_at(s, 4)
    &&& h.godot_version_major == le_u32_at(s, 8)
    &&& h.godot_version_minor == le_u32_at(s, 12)
    &&& h.godot_version_patch == le_u32_at(s, 16)
    &&& forall|i: int| 0 <= i < 16 ==> #[trigger] h.reserved@[i] == le_u32_at(s, 20 + 4 * i)
    &&& h.file_count == le_u32_at(s, 84)
}

/// Decodes the header at the start of `bytes`.
pub fn parse_header(bytes: &[u8]) -> (r: Result<Header, PckError>)
    ensures
        match r {
            Ok(h) => header_error(bytes@) is None && header_fields_at(h, bytes@),
            Err(e) => header_error(bytes@) == Some(e),
        },
{
    if bytes.len() < HEADER_SIZE {
        return Err(PckError::MalformedHeader);
    }
    if bytes[0] != 0x47 || bytes[1] != 0x44 || bytes[2] != 0x50 || bytes[3] != 0x43 {
        assert(bytes@.subrange(0, 4)[0] == bytes@[0]);
        assert(bytes@.subrange(0, 4)[1] == bytes@[1]);
        assert(bytes@.subrange(0, 4)[2] == bytes@[2]);
        assert(bytes@.subrange(0, 4)[3] == bytes@[3]);
        return Err(PckError::MalformedHeader);
    }
    assert(bytes@.subrange(0, 4) =~= magic());
    let version: u32 = read_u32_le(bytes, 4);
    let file_count: u32 = read_u32_le(bytes, 84);
    if version != 1 {
        return Err(PckError::UnsupportedVersion);
    }
    if file_count == 0 {
        return Err(PckError::EmptyArchive);
    }
    let reserved: [u32; 16] = [
        read_u32_le(bytes, 20),
        read_u32_le(bytes, 24),
        read_u32_le(bytes, 28),
        read_u32_le(bytes, 32),
        read_u32_le(bytes, 36),
        read_u32_le(bytes, 40),
        read_u32_le(bytes, 44),
        read_u32_le(bytes, 48),
        read_u32_le(bytes, 52),
        read_u32_le(bytes, 56),
        read_u32_le(bytes, 60),
        read_u32_le(bytes, 64),
        read_u32_le(bytes, 68),
        read_u32_le(bytes, 72),
        read_u32_le(bytes, 76),
        read_u32_le(bytes, 80),
    ];
    Ok(
        Header {
            version,
            godot_version_major: read_u32_le(bytes, 8),
            godot_version_minor: read_u32_le(bytes, 12),
            godot_version_patch: read_u32_le(bytes, 16),
            reserved,
            file_count,
        },
    )
}

/// Encodes a header as its 88 bytes.
pub fn serialize_header(h: &Header) -> (out: Vec<u8>)
    ensures
        out@ == header_bytes(*h),
        out@.len() == HEADER_SIZE,
{
    let mut out: Vec<u8> = Vec::new();
    out.push(0x47);
    out.push(0x44);
    out.push(0x50);
    out.push(0x43);
    assert(out@ =~= magic());
    push_u32_le(&mut out, h.version);
    push_u32_le(&mut out, h.godot_version_major);
    push_u32_le(&mut out, h.godot_version_minor);
    push_u32_le(&mut out, h.godot_version_patch);
    proof {
        lemma_u32_le_len(h.version);
        lemma_u32_le_len(h.godot_version_major);
        lemma_u32_le_len(h.godot_version_minor);
        lemma_u32_le_len(h.godot_version_patch);
        lemma_u32_le_len(h.file_count);
    }
    let ghost head = out@;
    let mut i: usize = 0;
    while i < 16
        invariant
            i <= 16,
            out@ == head + words_le_bytes(h.reserved@.take(i as int)),
            head.len() == 20,
        decreases 16 - i,
    {
        proof {
            lemma_u32_le_len(h.reserved@[i as int]);
        }
        push_u32_le(&mut out, h.reserved[i]);
        assert(out@ =~= head + words_le_bytes(h.reserved@.take(i + 1)));
        i += 1;
    }
    assert(h.reserved@.take(16) =~= h.reserved@);
    push_u32_le(&mut out, h.file_count);
    out
}

/// A header that is written and read again is the header that was written,
/// whatever follows it; it is accepted if it has version 1 and counts at
/// least one entry.
pub proof fn lemma_header_round_trip(h: Header, rest: Seq<u8>)
    ensures
        h.version == 1 && h.file_count > 0 ==> header_error(header_bytes(h) + rest) is None,
        header_fields_at(h, header_bytes(h) + rest),
{
    let s = header_bytes(h) + rest;
    lemma_header_layout(h);
    assert(s.subrange(0, 4) =~= magic());
    assert(s.subrange(4, 8) =~= u32_le_bytes(h.version));
    assert(s.subrange(8, 12) =~= u32_le_bytes(h.godot_version_major));
    assert(s.subrange(12, 16) =~= u32_le_bytes(h.godot_version_minor));
    assert(s.subrange(16, 20) =~= u32_le_bytes(h.godot_version_patch));
    assert(s.subrange(84, 88) =~= u32_le_bytes(h.file_count));
    lemma_u32_decode(s, 4, h.version);
    lemma_u32_decode(s, 8, h.godot_version_major);
    lemma_u32_decode(s, 12, h.godot_version_minor);
    lemma_u32_decode(s, 16, h.godot_version_patch);
    lemma_u32_decode(s, 84, h.file_count);
    assert forall|i: int| 0 <= i < 16 implies #[trigger] h.reserved@[i] == le_u32_at(
        s,
        20 + 4 * i,
    ) by {
        lemma_u32_le_len(h.reserved@[i]);
        assert(s.subrange(20 + 4 * i, 24 + 4 * i) =~= u32_le_bytes(h.reserved@[i])) by {
            assert forall|k: int| 0 <= k < 4 implies s[20 + 4 * i + k] == u32_le_bytes(
                h.reserved@[i],
            )[k] by {
                assert(s[20 + 4 * i + k] == words_le_bytes(h.reserved@)[4 * i + k]);
                assert((4 * i + k) / 4 == i && (4 * i + k) % 4 == k);
            }
        }
        lemma_u32_decode(s, 20 + 4 * i, h.reserved@[i]);
    }
}

/// The lengths of the parts of a written header.
pub proof fn lemma_header_layout(h: Header)
    ensures
        header_bytes(h).len() == HEADER_SIZE,
        header_bytes(h).subrange(0, 4) == magic(),
        header_bytes(h).subrange(4, 8) == u32_le_bytes(h.version),
        header_bytes(h).subrange(8, 12) == u32_le_bytes(h.godot_version_major),
        header_bytes(h).subrange(12, 16) == u32_le_bytes(h.godot_version_minor),
        header_bytes(h).subrange(16, 20) == u32_le_bytes(h.godot_version_patch),
        header_bytes(h).subrange(20, 84) == words_le_bytes(h.reserved@),
        header_bytes(h).subrange(84, 88) == u32_le_bytes(h.file_count),
{
    lemma_u32_le_len(h.version);
    lemma_u32_le_len(h.godot_version_major);
    lemma_u32_le_len(h.godot_version_minor);
    lemma_u32_le_len(h.godot_version_patch);
    lemma_u32_le_len(h.file_count);
    let b = header_bytes(h);
    assert(words_le_bytes(h.reserved@).len() == 64);
    assert(b.subrange(0, 4) =~= magic());
    assert(b.subrange(4, 8) =~= u32_le_bytes(h.version));
    assert(b.subrange(8, 12) =~= u32_le_bytes(h.godot_version_major));
    assert(b.subrange(12, 16) =~= u32_le_bytes(h.godot_version_minor));
    assert(b.subrange(16, 20) =~= u32_le_bytes(h.godot_version_patch));
    assert(b.subrange(20, 84) =~= words_le_bytes(h.reserved@));
    assert(b.subrange(84, 88) =~= u32_le_bytes(h.file_count));
}

/// One record of the entry table.
#[derive(Debug)]
pub struct RawFileEntry {
    pub path_len: u32,
    pub path_bytes: Vec<u8>,
    pub offset: u64,
    pub size: u64,
    pub md5: [u8; 16],
}

/// What an entry record holds, as plain values.
pub struct EntryView {
    pub path_len: u32,
    pub path_bytes: Seq<u8>,
    pub offset: u64,
    pub size: u64,
    pub md5: Seq<u8>,
}

impl View for RawFileEntry {
    type V = EntryView;

    open spec fn view(&self) -> EntryView {
        EntryView {
            path_len: self.path_len,
            path_bytes: self.path_bytes@,
            offset: self.offset,
            size: self.size,
            md5: self.md5@,
        }
    }
}

impl Clone for RawFileEntry {
    fn clone(&self) -> (c: Self)
        ensures
            c@ == self@,
    {
        RawFileEntry {
            path_len: self.path_len,
            path_bytes: slice_to_vec(self.path_bytes.as_slice()),
            offset: self.offset,
            size: self.size,
            md5: self.md5,
        }
    }
}

/// The bytes of a record on disk: 36 besides the path bytes.
pub open spec fn record_size(path_len: u32) -> int {
    ENTRY_FIXED_SIZE + path_len
}

/// The bytes that an entry record is written as.
pub open spec fn entry_bytes(e: EntryView) -> Seq<u8> {
    u32_le_bytes(e.path_len) + e.path_bytes + u64_le_bytes(e.offset) + u64_le_bytes(e.size)
        + e.md5
}

/// A whole record lies in `s` from `at` on.
pub open spec fn entry_readable(s: Seq<u8>, at: int) -> bool {
    &&& 0 <= at
    &&& at + 4 <= s.len()
    &&& at + record_size(le_u32_at(s, at)) <= s.len()
}

/// The record that `s` holds at `at`.
pub open spec fn entry_at(s: Seq<u8>, at: int) -> EntryView {
    let n = le_u32_at(s, at) as int;
    EntryView {
        path_len: le_u32_at(s, at),
        path_bytes: s.subrange(at + 4, at + 4 + n),
        offset: le_u64_at(s, at + 4 + n),
        size: le_u64_at(s, at + 12 + n),
        md5: s.subrange(at + 20 + n, at + 36 + n),
    }
}

/// A record whose path length field counts its path bytes, with a checksum
/// of 16 bytes.
pub open spec fn entry_wf(e: EntryView) -> bool {
    e.path_bytes.len() == e.path_len && e.md5.len() == 16
}

/// A text without the NUL characters at its end.
pub open spec fn trim_nul(s: Seq<char>) -> Seq<char>
    decreases s.len(),
{
    if s.len() > 0 && s.last() == '\0' {
        trim_nul(s.drop_last())
    } else {
        s
    }
}

/// The path that the path bytes of a record stand for: their text without
/// the NUL padding, if they are UTF-8.
pub open spec fn entry_path(path_bytes: Seq<u8>) -> Option<Seq<char>> {
    if valid_utf8(path_bytes) {
        Some(trim_nul(decode_utf8(path_bytes)))
    } else {
        None
    }
}

/// `bytes` with NUL bytes added up to the next multiple of four.
pub open spec fn pad4(bytes: Seq<u8>) -> Seq<u8> {
    bytes + Seq::new(((4 - bytes.len() % 4) % 4) as nat, |i: int| 0u8)
}

/// `String::from_utf8`: the text that `bytes` encode, and nothing where they
/// are not UTF-8.
#[verifier::external_body]
fn string_from_utf8(bytes: Vec<u8>) -> (r: Option<String>)
    ensures
        match r {
            Some(text) => valid_utf8(bytes@) && text@ == decode_utf8(bytes@),
            None => !valid_utf8(bytes@),
        },
{
    match String::from_utf8(bytes) {
        Ok(text) => Some(text),
        Err(_) => None,
    }
}

impl RawFileEntry {
    /// The entry's path: its path bytes as text, without the NUL padding.
    pub fn path(&self) -> (r: Result<String, PckError>)
        ensures
            match r {
                Ok(p) => entry_path(self.path_bytes@) == Some(p@),
                Err(e) => e == PckError::InvalidPathEncoding && entry_path(self.path_bytes@)
                    is None,
            },
    {
        match string_from_utf8(slice_to_vec(self.path_bytes.as_slice())) {
            None => Err(PckError::InvalidPathEncoding),
            Some(text) => {
                let full: &str = text.as_str();
                let mut end: usize = full.unicode_len();
                assert(full@.take(end as int) =~= full@);
                while end > 0 && full.get_char(end - 1) == '\0'
                    invariant
                        end <= full@.len(),
                        trim_nul(full@) == trim_nul(full@.take(end as int)),
                    decreases end,
                {
                    assert(full@.take(end as int).drop_last() =~= full@.take(end - 1));
                    end -= 1;
                }
                Ok(full.substring_char(0, end).to_owned())
            },
        }
    }
}

/// Bytes that the record of a path of `path_len` bytes takes in the table.
pub fn entry_binary_size(path_len: u32) -> (n: u64)
    ensures
        n == record_size(path_len),
{
    4 + path_len as u64 + 8 + 8 + 16
}

/// The bytes of `path`, padded with NUL to a multiple of four.
pub fn normalized_path_bytes(path: &str) -> (out: Vec<u8>)
    ensures
        out@ == pad4(path.spec_bytes()),
        out@.len() % 4 == 0,
{
    let mut out: Vec<u8> = path.as_bytes_vec();
    let ghost base = out@;
    while out.len() % 4 != 0
        invariant
            out@.len() >= base.len(),
            out@.len() < base.len() + 4,
            out@.len() <= base.len() + (4 - base.len() % 4) % 4,
            out@ == base + Seq::new((out@.len() - base.len()) as nat, |i: int| 0u8),
        decreases base.len() + 4 - out@.len(),
    {
        out.push(0);
        assert(out@ =~= base + Seq::new((out@.len() - base.len()) as nat, |i: int| 0u8));
    }
    assert(out@ =~= pad4(base));
    out
}

/// Decodes the record that starts at `at`.
pub fn read_entry(bytes: &[u8], at: u64) -> (r: Result<RawFileEntry, PckError>)
    ensures
        match r {
            Ok(e) => entry_readable(bytes@, at as int) && e@ == entry_at(bytes@, at as int)
                && entry_wf(e@),
            Err(e) => e == PckError::IOFailure && !entry_readable(bytes@, at as int),
        },
{
    let total: usize = bytes.len();
    if at > (usize::MAX - 4) as u64 {
        return Err(PckError::IOFailure);
    }
    let start: usize = at as usize;
    if start + 4 > total {
        return Err(PckError::IOFailure);
    }
    let path_len: u32 = read_u32_le(bytes, start);
    let rest: usize = total - start - 4;
    if rest < 32 || path_len as u64 > (rest - 32) as u64 {
        return Err(PckError::IOFailure);
    }
    let n: usize = path_len as usize;
    let path_bytes: Vec<u8> = slice_to_vec(slice_subrange(bytes, start + 4, start + 4 + n));
    let offset: u64 = read_u64_le(bytes, start + 4 + n);
    let size: u64 = read_u64_le(bytes, start + 12 + n);
    let m: usize = start + 20 + n;
    let md5: [u8; 16] = [
        bytes[m],
        bytes[m + 1],
        bytes[m + 2],
        bytes[m + 3],
        bytes[m + 4],
        bytes[m + 5],
        bytes[m + 6],
        bytes[m + 7],
        bytes[m + 8],
        bytes[m + 9],
        bytes[m + 10],
        bytes[m + 11],
        bytes[m + 12],
        bytes[m + 13],
        bytes[m + 14],
        bytes[m + 15],
    ];
    assert(md5@ =~= bytes@.subrange(m as int, m + 16));
    Ok(RawFileEntry { path_len, path_bytes, offset, size, md5 })
}

/// Appends the bytes of a record to `out`.
pub fn push_entry(out: &mut Vec<u8>, e: &RawFileEntry)
    ensures
        final(out)@ == old(out)@ + entry_bytes(e@),
{
    push_u32_le(out, e.path_len);
    let mut i: usize = 0;
    while i < e.path_bytes.len()
        invariant
            i <= e.path_bytes@.len(),
            out@ == old(out)@ + u32_le_bytes(e.path_len) + e.path_bytes@.take(i as int),
        decreases e.path_bytes@.len() - i,
    {
        out.push(e.path_bytes[i]);
        assert(e.path_bytes@.take(i + 1) =~= e.path_bytes@.take(i as int).push(
            e.path_bytes@[i as int],
        ));
        i += 1;
    }
    assert(e.path_bytes@.take(i as int) =~= e.path_bytes@);
    push_u64_le(out, e.offset);
    push_u64_le(out, e.size);
    let ghost mid = out@;
    let mut j: usize = 0;
    while j < 16
        invariant
            j <= 16,
            out@ == mid + e.md5@.take(j as int),
        decreases 16 - j,
    {
        out.push(e.md5[j]);
        assert(e.md5@.take(j + 1) =~= e.md5@.take(j as int).push(e.md5@[j as int]));
        j += 1;
    }
    assert(e.md5@.take(16) =~= e.md5@);
}

/// A record that is written and read again is the record that was written,
/// whatever stands before and after it.
pub proof fn lemma_entry_round_trip(e: EntryView, before: Seq<u8>, after: Seq<u8>)
    requires
        entry_wf(e),
    ensures
        entry_readable(before + entry_bytes(e) + after, before.len() as int),
        entry_at(before + entry_bytes(e) + after, before.len() as int) == e,
{
    let s = before + entry_bytes(e) + after;
    let at = before.len() as int;
    let n = e.path_len as int;
    lemma_u32_le_len(e.path_len);
    lemma_u64_le_len(e.offset);
    lemma_u64_le_len(e.size);
    assert(s.subrange(at, at + 4) =~= u32_le_bytes(e.path_len));
    lemma_u32_decode(s, at, e.path_len);
    assert(s.subrange(at + 4 + n, at + 12 + n) =~= u64_le_bytes(e.offset));
    assert(s.subrange(at + 12 + n, at + 20 + n) =~= u64_le_bytes(e.size));
    lemma_u64_decode(s, at + 4 + n, e.offset);
    lemma_u64_decode(s, at + 12 + n, e.size);
    assert(s.subrange(at + 4, at + 4 + n) =~= e.path_bytes);
    assert(s.subrange(at + 20 + n, at + 36 + n) =~= e.md5);
}

/// A run of `n` NUL characters.
pub open spec fn nuls(n: int) -> Seq<char> {
    Seq::new(n as nat, |i: int| '\0')
}

/// A text without the NUL characters at its end is not changed by more of
/// them at its end.
pub proof fn lemma_trim_nul_padded(s: Seq<char>, n: nat)
    ensures
        trim_nul(s + nuls(n as int)) == trim_nul(s),
    decreases n,
{
    if n == 0 {
        assert(s + nuls(0) =~= s);
    } else {
        let padded = s + nuls(n as int);
        assert(padded.last() == '\0');
        assert(padded.drop_last() =~= s + nuls(n - 1));
        lemma_trim_nul_padded(s, (n - 1) as nat);
    }
}

/// The bytes of two texts, one behind the other, are the bytes of the texts
/// one behind the other.
pub proof fn lemma_encode_concat(a: Seq<char>, b: Seq<char>)
    ensures
        encode_utf8(a + b) == encode_utf8(a) + encode_utf8(b),
    decreases a.len(),
{
    if a.len() == 0 {
        assert(a + b =~= b);
        assert(encode_utf8(a) + encode_utf8(b) =~= encode_utf8(b));
    } else {
        assert((a + b).drop_first() =~= a.drop_first() + b);
        assert((a + b)[0] == a[0]);
        lemma_encode_concat(a.drop_first(), b);
        assert(encode_utf8(a + b) =~= encode_utf8(a) + encode_utf8(b));
    }
}

/// A NUL character is written as one NUL byte.
pub proof fn lemma_encode_nul()
    ensures
        encode_scalar('\0' as u32) == seq![0u8],
{
    assert(0u32 & 0x7F == 0u32) by (bit_vector);
    assert('\0' as u32 == 0u32);
    assert(encode_scalar(0u32) =~= seq![0u8]);
}

/// NUL characters are written as as many NUL bytes.
pub proof fn lemma_encode_nuls(n: nat)
    ensures
        encode_utf8(nuls(n as int)) == Seq::new(n, |i: int| 0u8),
    decreases n,
{
    if n == 0 {
        assert(encode_utf8(nuls(0)) =~= Seq::new(0, |i: int| 0u8));
    } else {
        lemma_encode_nul();
        lemma_encode_nuls((n - 1) as nat);
        assert(nuls(n as int).drop_first() =~= nuls(n - 1));
        assert(nuls(n as int)[0] == '\0');
        assert(encode_utf8(nuls(n as int)) =~= Seq::new(n, |i: int| 0u8));
    }
}

/// The padded bytes of a path spell the path: they are UTF-8, and what they
/// stand for is the path without the NUL characters at its end.
pub proof fn lemma_padded_path(path: Seq<char>)
    ensures
        valid_utf8(pad4(encode_utf8(path))),
        entry_path(pad4(encode_utf8(path))) == Some(trim_nul(path)),
{
    let bytes = encode_utf8(path);
    let n = ((4 - bytes.len() % 4) % 4) as nat;
    lemma_encode_nuls(n);
    lemma_encode_concat(path, nuls(n as int));
    assert(pad4(bytes) == encode_utf8(path + nuls(n as int)));
    encode_utf8_valid_utf8(path + nuls(n as int));
    encode_utf8_decode_utf8(path + nuls(n as int));
    lemma_trim_nul_padded(path, n);
}

} // verus!
