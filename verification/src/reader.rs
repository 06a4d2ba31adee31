//! Reader tracking.
//!
//! The cache infers active sequential readers from the stream of byte-range
//! requests, so that read-ahead can be sized by how long a reader has been
//! active rather than by the size of any single request. A request merges
//! into an existing reader when it lands within `MAX_READER_MERGE_GAP` of
//! that reader's position; otherwise it opens a new reader. Readers are
//! never removed: a stale reader is harmless, because it is consulted only
//! while one of its own reads is in flight.

use vstd::prelude::*;

use crate::chunk::spec_abs_diff;

verus! {

/// A request merges into a reader when it lands within this many bytes of
/// the reader's position: larger than player re-buffer jitter, smaller than
/// a user seek.
pub const MAX_READER_MERGE_GAP: u64 = 16 * 1024 * 1024;

/// `a + b`, stopping at the top of `u64`.
pub open spec fn spec_saturating_add(a: u64, b: u64) -> u64 {
    if a as int + b as int <= u64::MAX as int {
        (a + b) as u64
    } else {
        u64::MAX
    }
}

/// One inferred sequential reader: the byte offset just past its last read,
/// its monotonic byte total, and the time of its last read.
#[derive(Clone, Copy, Debug, PartialEq, Eq, Structural)]
pub struct Reader {
    pub position: u64,
    pub last_read: u64,
    pub bytes_read: u64,
}

impl Reader {
    pub fn new(offset: u64, size: u64, now_secs: u64) -> (r: Reader)
        requires
            offset as int + size as int <= u64::MAX as int,
        ensures
            r == (Reader { position: (offset + size) as u64, last_read: now_secs, bytes_read: size }),
    {
        Reader { position: offset + size, last_read: now_secs, bytes_read: size }
    }

    /// Whether a read at `offset` belongs to this reader: the gap between
    /// the reader's position and the offset is at most `MAX_READER_MERGE_GAP`.
    pub open spec fn spec_matches(self, offset: u64) -> bool {
        spec_abs_diff(self.position, offset) <= MAX_READER_MERGE_GAP
    }

    pub fn matches(&self, offset: u64) -> (r: bool)
        ensures
            r == self.spec_matches(offset),
    {
        let gap = if self.position >= offset {
            self.position - offset
        } else {
            offset - self.position
        };
        gap <= MAX_READER_MERGE_GAP
    }

    /// The reader after a read of `size` bytes at `offset`: position just
    /// past the read, byte total grown by `size` (stopping at the top of
    /// `u64`), last read now.
    pub open spec fn spec_updated(self, offset: u64, size: u64, now_secs: u64) -> Reader {
        Reader {
            position: (offset + size) as u64,
            last_read: now_secs,
            bytes_read: spec_saturating_add(self.bytes_read, size),
        }
    }

    /// Advance the reader past a read of `size` bytes at `offset`.
    pub fn update(&mut self, offset: u64, size: u64, now_secs: u64)
        requires
            offset as int + size as int <= u64::MAX as int,
        ensures
            *final(self) == old(self).spec_updated(offset, size, now_secs),
    {
        self.position = offset + size;
        self.bytes_read = if self.bytes_read <= u64::MAX - size {
            self.bytes_read + size
        } else {
            u64::MAX
        };
        self.last_read = now_secs;
    }
}

/// Index of the first reader at or past `k` that a read at `offset` merges
/// into, if any.
pub open spec fn spec_first_match_from(readers: Seq<Reader>, offset: u64, k: int) -> Option<int>
    decreases readers.len() - k,
{
    if k < 0 || k >= readers.len() {
        None
    } else if readers[k].spec_matches(offset) {
        Some(k)
    } else {
        spec_first_match_from(readers, offset, k + 1)
    }
}

/// Index of the first reader that a read at `offset` merges into, if any.
pub open spec fn spec_first_match(readers: Seq<Reader>, offset: u64) -> Option<int> {
    spec_first_match_from(readers, offset, 0)
}

/// Snapshot that a read at `(offset, size)` leaves behind: the first
/// matching reader after its advance, or the freshly opened reader.
pub open spec fn spec_snapshot(rs: Seq<Reader>, offset: u64, size: u64, now_secs: u64) -> Reader {
    match spec_first_match(rs, offset) {
        Some(i) => rs[i].spec_updated(offset, size, now_secs),
        None => Reader {
            position: (offset + size) as u64,
            last_read: now_secs,
            bytes_read: size,
        },
    }
}

/// The reader list after a read at `(offset, size)` has been merged in.
pub open spec fn spec_after_read(rs: Seq<Reader>, offset: u64, size: u64, now_secs: u64) -> Seq<
    Reader,
> {
    match spec_first_match(rs, offset) {
        Some(i) => rs.update(i, spec_snapshot(rs, offset, size, now_secs)),
        None => rs.push(spec_snapshot(rs, offset, size, now_secs)),
    }
}

/// The set of readers inferred for one cache entry.
#[derive(Debug)]
pub struct Readers {
    readers: Vec<Reader>,
}

impl Readers {
    pub closed spec fn view(self) -> Seq<Reader> {
        self.readers@
    }

    pub fn new() -> (r: Readers)
        ensures
            r@ =~= Seq::<Reader>::empty(),
    {
        Readers { readers: Vec::new() }
    }

    /// Merge a read at `(offset, size)` into the first matching reader, or
    /// open a new one; return a snapshot of the reader after the merge.
    pub fn get_reader(&mut self, offset: u64, size: u64, now_secs: u64) -> (r: Reader)
        requires
            offset as int + size as int <= u64::MAX as int,
        ensures
            r == spec_snapshot(old(self)@, offset, size, now_secs),
            final(self)@ =~= spec_after_read(old(self)@, offset, size, now_secs),
    {
        let n = self.readers.len();
        let mut k: usize = 0;
        while k < n
            invariant
                self == old(self),
                n == self@.len(),
                0 <= k <= n,
                spec_first_match(self@, offset) == spec_first_match_from(self@, offset, k as int),
                offset as int + size as int <= u64::MAX as int,
            decreases n - k,
        {
            if self.readers[k].matches(offset) {
                proof {
                    assert(spec_first_match(self@, offset) == Some(k as int));
                }
                let mut reader = self.readers[k];
                reader.update(offset, size, now_secs);
                self.readers.set(k, reader);
                return reader;
            }
            k = k + 1;
        }
        proof {
            assert(spec_first_match(self@, offset) is None);
        }
        let new_reader = Reader::new(offset, size, now_secs);
        self.readers.push(new_reader);
        new_reader
    }
}

} // verus!
