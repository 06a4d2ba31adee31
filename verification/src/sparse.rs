//! In-memory model of the sparse backing file.
//!
//! On disk, each cached file is backed by `<file_id>.bin`: a sparse file of
//! the logical length whose holes are the uncached regions. This model keeps
//! the byte content together with the set of positions written since the
//! file was created, which is what chunk residency promises: a cached chunk's
//! extent has been written at least once. The caller mirrors every operation
//! onto the real file: writes while downloading, reads for `read_bytes`,
//! hole punching on eviction.

use vstd::prelude::*;

verus! {

/// The set of positions in `[offset, offset + len)`.
pub open spec fn range_set(offset: int, len: int) -> Set<int> {
    Set::new(|i: int| offset <= i < offset + len)
}

/// A sparse file: its byte content, and the positions written at least once
/// since creation. Holes read as zero.
pub struct SparseFile {
    data: Vec<u8>,
    written: Ghost<Set<int>>,
}

impl SparseFile {
    pub closed spec fn view(self) -> Seq<u8> {
        self.data@
    }

    /// Positions written at least once since the file was created.
    pub closed spec fn spec_written(self) -> Set<int> {
        self.written@
    }

    /// A fresh file: all zero, nothing written.
    pub fn new(len: usize) -> (r: SparseFile)
        ensures
            r@.len() == len,
            forall|i: int| 0 <= i < len ==> r@[i] == 0u8,
            r.spec_written() =~= Set::<int>::empty(),
    {
        let mut data: Vec<u8> = Vec::new();
        let mut i: usize = 0;
        while i < len
            invariant
                0 <= i <= len,
                data@.len() == i,
                forall|j: int| 0 <= j < i ==> data@[j] == 0u8,
            decreases len - i,
        {
            data.push(0);
            i = i + 1;
        }
        SparseFile { data, written: Ghost(Set::empty()) }
    }

    pub fn len(&self) -> (r: usize)
        ensures
            r == self@.len(),
    {
        self.data.len()
    }

    /// Write `bytes` at `offset`.
    pub fn write_at(&mut self, offset: usize, bytes: &[u8])
        requires
            offset as int + bytes@.len() <= old(self)@.len(),
        ensures
            final(self)@.len() == old(self)@.len(),
            forall|i: int|
                0 <= i < final(self)@.len() ==> final(self)@[i] == (if offset <= i < offset
                    + bytes@.len() {
                    bytes@[i - offset]
                } else {
                    old(self)@[i]
                }),
            final(self).spec_written() =~= old(self).spec_written().union(
                range_set(offset as int, bytes@.len() as int),
            ),
    {
        let m = bytes.len();
        let n = self.data.len();
        let mut j: usize = 0;
        while j < m
            invariant
                0 <= j <= m,
                m == bytes@.len(),
                n == self@.len(),
                offset as int + m <= self@.len(),
                self@.len() == old(self)@.len(),
                self.spec_written() == old(self).spec_written(),
                forall|i: int|
                    0 <= i < self@.len() ==> self@[i] == (if offset <= i < offset + j {
                        bytes@[i - offset]
                    } else {
                        old(self)@[i]
                    }),
            decreases m - j,
        {
            self.data.set(offset + j, bytes[j]);
            j = j + 1;
        }
        proof {
            self.written@ = self.written@.union(range_set(offset as int, bytes@.len() as int));
        }
    }

    /// Read `size` bytes at `offset`.
    pub fn read_at(&self, offset: usize, size: usize) -> (r: Vec<u8>)
        requires
            offset as int + size as int <= self@.len(),
        ensures
            r@ =~= self@.subrange(offset as int, offset as int + size as int),
    {
        let mut out: Vec<u8> = Vec::new();
        let n = self.data.len();
        let mut j: usize = 0;
        while j < size
            invariant
                0 <= j <= size,
                n == self@.len(),
                offset as int + size as int <= self@.len(),
                out@ =~= self@.subrange(offset as int, offset as int + j as int),
            decreases size - j,
        {
            out.push(self.data[offset + j]);
            j = j + 1;
            proof {
                assert(out@ =~= self@.subrange(offset as int, offset as int + j as int));
            }
        }
        out
    }

    /// Punch a hole: the range reads as zero and counts as unwritten again.
    pub fn punch_hole(&mut self, offset: usize, size: usize)
        requires
            offset as int + size as int <= old(self)@.len(),
        ensures
            final(self)@.len() == old(self)@.len(),
            forall|i: int|
                0 <= i < final(self)@.len() ==> final(self)@[i] == (if offset <= i < offset + size {
                    0u8
                } else {
                    old(self)@[i]
                }),
            final(self).spec_written() =~= old(self).spec_written().difference(
                range_set(offset as int, size as int),
            ),
    {
        let n = self.data.len();
        let mut j: usize = 0;
        while j < size
            invariant
                0 <= j <= size,
                n == self@.len(),
                offset as int + size as int <= self@.len(),
                self@.len() == old(self)@.len(),
                self.spec_written() == old(self).spec_written(),
                forall|i: int|
                    0 <= i < self@.len() ==> self@[i] == (if offset <= i < offset + j {
                        0u8
                    } else {
                        old(self)@[i]
                    }),
            decreases size - j,
        {
            self.data.set(offset + j, 0);
            j = j + 1;
        }
        proof {
            self.written@ = self.written@.difference(range_set(offset as int, size as int));
        }
    }
}

/// Bytes written through a download come back unchanged: after a write of
/// `data` at `offset`, a read of that range returns exactly `data`.
pub proof fn lemma_write_then_read(old_file: Seq<u8>, new_file: Seq<u8>, offset: int, data: Seq<u8>)
    requires
        0 <= offset,
        offset + data.len() <= old_file.len(),
        new_file.len() == old_file.len(),
        forall|i: int|
            0 <= i < new_file.len() ==> new_file[i] == (if offset <= i < offset + data.len() {
                data[i - offset]
            } else {
                old_file[i]
            }),
    ensures
        new_file.subrange(offset, offset + data.len() as int) =~= data,
{
}

/// Reads of overlapping ranges from one file agree on the overlap: any two
/// `read_bytes` calls that observe the same file content return identical
/// bytes wherever their ranges intersect.
pub proof fn lemma_read_agreement(file: Seq<u8>, o1: int, s1: int, o2: int, s2: int, i: int)
    requires
        0 <= o1,
        0 <= o2,
        0 <= s1,
        0 <= s2,
        o1 + s1 <= file.len(),
        o2 + s2 <= file.len(),
        o1 <= i < o1 + s1,
        o2 <= i < o2 + s2,
    ensures
        file.subrange(o1, o1 + s1)[i - o1] == file.subrange(o2, o2 + s2)[i - o2],
{
}

} // verus!
