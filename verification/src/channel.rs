//! The append channel: new and moved data goes behind the end of the
//! archive, and the header and the table are written over in place.
use vstd::prelude::*;
use vstd::slice::{slice_subrange, slice_to_vec};
use crate::error::PckError;

verus! {

/// A run of `n` NUL bytes.
pub open spec fn zeros(n: int) -> Seq<u8> {
    Seq::new(n as nat, |i: int| 0u8)
}

/// The bytes `a` with `data` written from `pos` on: what lies under `data`
/// is replaced, a gap between the end of `a` and `pos` is NUL, the rest stays.
pub open spec fn overwrite(a: Seq<u8>, pos: int, data: Seq<u8>) -> Seq<u8> {
    Seq::new(
        if a.len() >= pos + data.len() {
            a.len()
        } else {
            (pos + data.len()) as nat
        },
        |i: int|
            if pos <= i < pos + data.len() {
                data[i - pos]
            } else if i < a.len() {
                a[i]
            } else {
                0u8
            },
    )
}

/// The bytes `a` cut or extended with NUL bytes to the length `n`.
pub open spec fn resized(a: Seq<u8>, n: int) -> Seq<u8> {
    if n <= a.len() {
        a.take(n)
    } else {
        a + zeros(n - a.len())
    }
}

/// The bytes of a range that is moved: none for an empty range, wherever it
/// is said to start.
pub open spec fn range_of(a: Seq<u8>, offset: u64, size: u64) -> Seq<u8> {
    if size == 0 {
        Seq::<u8>::empty()
    } else {
        a.subrange(offset as int, offset + size)
    }
}

/// Why a range cannot be moved, if it cannot: it is longer than memory can
/// hold, or it is not empty and leaves the archive.
pub open spec fn move_error(len: int, offset: u64, size: u64) -> Option<PckError> {
    if size > usize::MAX {
        Some(PckError::FileTooLarge)
    } else if size > 0 && offset + size > len {
        Some(PckError::IOFailure)
    } else {
        None
    }
}

/// Appends `data` to `archive`.
pub fn extend_bytes(archive: &mut Vec<u8>, data: &[u8])
    ensures
        final(archive)@ == old(archive)@ + data@,
{
    let mut i: usize = 0;
    while i < data.len()
        invariant
            i <= data@.len(),
            archive@ == old(archive)@ + data@.take(i as int),
        decreases data@.len() - i,
    {
        archive.push(data[i]);
        assert(data@.take(i + 1) =~= data@.take(i as int).push(data@[i as int]));
        i += 1;
    }
    assert(data@.take(i as int) =~= data@);
}

/// Writes `data` into `archive` from `pos` on, over what is there and beyond
/// its end.
pub fn write_at(archive: &mut Vec<u8>, pos: usize, data: &[u8])
    requires
        pos + data@.len() <= usize::MAX,
    ensures
        final(archive)@ == overwrite(old(archive)@, pos as int, data@),
{
    while archive.len() < pos
        invariant
            archive@.len() >= old(archive)@.len(),
            archive@.len() <= pos || archive@ == old(archive)@,
            archive@ == old(archive)@ + zeros(archive@.len() - old(archive)@.len()),
        decreases pos - archive@.len(),
    {
        archive.push(0);
        assert(archive@ =~= old(archive)@ + zeros(archive@.len() - old(archive)@.len()));
    }
    assert(archive@ =~= old(archive)@ + zeros(archive@.len() - old(archive)@.len()));
    let ghost padded = archive@;
    let mut i: usize = 0;
    while i < data.len()
        invariant
            i <= data@.len(),
            pos + data@.len() <= usize::MAX,
            padded.len() >= pos,
            archive@ == overwrite(padded, pos as int, data@.take(i as int)),
        decreases data@.len() - i,
    {
        if pos + i < archive.len() {
            archive.set(pos + i, data[i]);
        } else {
            archive.push(data[i]);
        }
        assert(archive@ =~= overwrite(padded, pos as int, data@.take(i + 1)));
        i += 1;
    }
    assert(data@.take(i as int) =~= data@);
    assert(archive@ =~= overwrite(old(archive)@, pos as int, data@));
}

/// Cuts `archive` to the length `n`, or extends it with NUL bytes to it.
pub fn set_len(archive: &mut Vec<u8>, n: usize)
    ensures
        final(archive)@ == resized(old(archive)@, n as int),
{
    if n <= archive.len() {
        archive.truncate(n);
    } else {
        while archive.len() < n
            invariant
                archive@.len() >= old(archive)@.len(),
                archive@.len() <= n,
                archive@ == old(archive)@ + zeros(archive@.len() - old(archive)@.len()),
            decreases n - archive@.len(),
        {
            archive.push(0);
            assert(archive@ =~= old(archive)@ + zeros(archive@.len() - old(archive)@.len()));
        }
    }
}

/// The place behind the end of the archive where the next data goes.
pub struct AppendCtx {
    append_pos: u64,
}

impl AppendCtx {
    /// The offset at which the next data will start.
    pub closed spec fn position(&self) -> u64 {
        self.append_pos
    }

    /// A channel that appends at the end of `archive`.
    pub fn new(archive: &Vec<u8>) -> (ctx: Self)
        ensures
            ctx.position() == archive@.len(),
    {
        AppendCtx { append_pos: archive.len() as u64 }
    }

    /// Appends `data` and returns the offset at which it now starts.
    pub fn append_bytes(&mut self, archive: &mut Vec<u8>, data: &[u8]) -> (offset: u64)
        requires
            old(self).position() == old(archive)@.len(),
        ensures
            offset == old(archive)@.len(),
            final(archive)@ == old(archive)@ + data@,
            final(self).position() == final(archive)@.len(),
    {
        let offset: u64 = self.append_pos;
        extend_bytes(archive, data);
        self.append_pos = archive.len() as u64;
        offset
    }

    /// Copies the `size` bytes at `offset` to the end and returns the offset
    /// at which the copy starts. Nothing changes where the range cannot be read.
    pub fn move_range(&mut self, archive: &mut Vec<u8>, offset: u64, size: u64) -> (r: Result<
        u64,
        PckError,
    >)
        requires
            old(self).position() == old(archive)@.len(),
        ensures
            final(self).position() == final(archive)@.len(),
            match r {
                Ok(moved_to) => {
                    &&& move_error(old(archive)@.len() as int, offset, size) is None
                    &&& moved_to == old(archive)@.len()
                    &&& final(archive)@ == old(archive)@ + range_of(old(archive)@, offset, size)
                },
                Err(e) => {
                    &&& move_error(old(archive)@.len() as int, offset, size) == Some(e)
                    &&& final(archive)@ == old(archive)@
                },
            },
    {
        if size > usize::MAX as u64 {
            return Err(PckError::FileTooLarge);
        }
        let total: usize = archive.len();
        if size == 0 {
            let data: Vec<u8> = Vec::new();
            assert(data@ =~= range_of(archive@, offset, size));
            return Ok(self.append_bytes(archive, data.as_slice()));
        }
        if offset > total as u64 || size > (total as u64) - offset {
            return Err(PckError::IOFailure);
        }
        let from: usize = offset as usize;
        let data: Vec<u8> = slice_to_vec(
            slice_subrange(archive.as_slice(), from, from + size as usize),
        );
        Ok(self.append_bytes(archive, data.as_slice()))
    }
}

} // verus!
