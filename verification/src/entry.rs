//! Cache entries: one per cached file.
//!
//! An entry owns the file's ordered chunk vector, its reader tracker and its
//! duration hint, and plans all per-file work: which chunks a read covers,
//! which preload and read-ahead chunks join it, how the missing ones are
//! coalesced into contiguous download batches, what a waiting reader should
//! do next, and when a chunk or the whole entry may be evicted. The caller
//! carries the plans out against the real backing file and the network; an
//! in-memory [`SparseFile`](crate::sparse::SparseFile) stands in for the
//! backing file wherever the library itself reads or writes bytes.

use vstd::prelude::*;

use crate::DEFAULT_CHUNK_SIZE;
use crate::cache::CacheFile;
use crate::chunk::{
    Chunk, chunk_wf, get_chunk_size_from_index, lemma_chunk_extent, lemma_chunk_offset_in_file,
    spec_chunk_size, spec_total_chunks, total_chunks,
};
use crate::dec::{
    canonical_digits, digit_run_end, lemma_dec_digits_canonical, lemma_dec_value_of_digits,
    lemma_digit_run_end_at, parse_dec_at, push_dec_i64, spec_dec_digits, spec_dec_digits_i64,
    spec_dec_value,
};
use crate::reader::{Reader, Readers, spec_after_read, spec_snapshot};
use crate::sparse::{SparseFile, range_set};

verus! {

/// Failures that a read can surface to the filesystem adapter.
#[derive(Clone, Copy, Debug, PartialEq, Eq, Structural)]
pub enum CacheError {
    /// A covering chunk is neither resident nor being downloaded: its last
    /// download failed, and the next read may queue it afresh.
    ChunkUnavailable(u64),
    /// A local file operation failed.
    Io,
    /// The remote end could not be reached or refused the request.
    RemoteUnavailable,
}

/// What a reader waiting on one covering chunk should do.
#[derive(Clone, Copy, Debug, PartialEq, Eq, Structural)]
pub enum WaitOutcome {
    /// The chunk is resident; go on to the next.
    Ready,
    /// A downloader owns the chunk and has not finished: poll again shortly.
    InProgress,
    /// No downloader owns the chunk and it is not resident: the download
    /// failed, fail the read with `ChunkUnavailable`.
    Failed,
}

/// The well-formed chunk vector of a file of `file_size` bytes: one chunk
/// per index, in order, each with its geometric place.
pub open spec fn chunks_wf(chunks: Seq<Chunk>, file_size: u64) -> bool {
    &&& chunks.len() == spec_total_chunks(file_size)
    &&& forall|i: int|
        0 <= i < chunks.len() ==> (#[trigger] chunks[i]).index as int == i && chunk_wf(
            chunks[i],
            file_size,
        )
}

/// One cache entry: the file it caches, its chunk vector, its inferred
/// readers, and an optional duration hint in seconds (zero meaning none).
pub struct CacheEntry {
    file: CacheFile,
    chunks: Vec<Chunk>,
    readers: Readers,
    duration_hint_secs: u64,
}

impl CacheEntry {
    pub closed spec fn spec_file(self) -> CacheFile {
        self.file
    }

    pub closed spec fn spec_chunks(self) -> Seq<Chunk> {
        self.chunks@
    }

    pub closed spec fn spec_readers(self) -> Seq<Reader> {
        self.readers@
    }

    pub closed spec fn spec_duration_hint(self) -> u64 {
        self.duration_hint_secs
    }

    pub open spec fn spec_file_size(self) -> u64 {
        self.spec_file().size as u64
    }

    pub open spec fn wf(self) -> bool {
        &&& 0 <= self.spec_file().size
        &&& chunks_wf(self.spec_chunks(), self.spec_file_size())
    }

    /// Chunk residency is backed by the file: every cached chunk's extent
    /// has been written to `store` at least once since it was created.
    pub open spec fn resident_ok(self, store: SparseFile) -> bool {
        forall|i: int|
            0 <= i < self.spec_chunks().len() && (#[trigger] self.spec_chunks()[i]).cached
                ==> range_set(
                self.spec_chunks()[i].offset as int,
                self.spec_chunks()[i].size as int,
            ).subset_of(store.spec_written())
    }

    /// The cold chunk vector of a file: every chunk fresh, nothing cached.
    pub open spec fn spec_cold_chunks(file_size: u64, now_secs: u64) -> Seq<Chunk> {
        Seq::new(
            spec_total_chunks(file_size) as nat,
            |i: int|
                Chunk {
                    index: i as u64,
                    offset: (i * DEFAULT_CHUNK_SIZE as int) as u64,
                    size: spec_chunk_size(i as u64, file_size) as u64,
                    accessed_at_secs: now_secs,
                    cached: false,
                    downloading: false,
                },
        )
    }

    /// Whether a persisted chunk vector fits the file it claims to describe:
    /// right length, indices in order, every chunk in its geometric place,
    /// and no download guard held (guards are never persisted).
    pub open spec fn spec_meta_valid(chunks: Seq<Chunk>, file_size: u64) -> bool {
        &&& chunks_wf(chunks, file_size)
        &&& forall|i: int| 0 <= i < chunks.len() ==> !(#[trigger] chunks[i]).downloading
    }

    /// Build the entry for `file`, from a deserialised sidecar when one is
    /// given and it fits the file, else cold. A sidecar that does not fit
    /// (wrong length or geometry) is discarded: the sparse file is the
    /// source of truth and the next flush rewrites the sidecar.
    pub fn load(file: CacheFile, meta_chunks: Option<Vec<Chunk>>, now_secs: u64) -> (r: CacheEntry)
        requires
            0 <= file.size,
            spec_total_chunks(file.size as u64) <= usize::MAX as int,
        ensures
            r.wf(),
            r.spec_file() == file,
            r.spec_duration_hint() == 0,
            r.spec_readers() =~= Seq::<Reader>::empty(),
            r.spec_chunks() =~= (match meta_chunks {
                Some(m) => {
                    if Self::spec_meta_valid(m@, file.size as u64) {
                        m@
                    } else {
                        Self::spec_cold_chunks(file.size as u64, now_secs)
                    }
                },
                None => Self::spec_cold_chunks(file.size as u64, now_secs),
            }),
            forall|st: SparseFile|
                (forall|i: int|
                    0 <= i < r.spec_chunks().len() ==> !(#[trigger] r.spec_chunks()[i]).cached)
                    ==> r.resident_ok(st),
    {
        let file_size = file.size as u64;
        let chunks: Vec<Chunk> = match meta_chunks {
            Some(m) => {
                if Self::meta_valid(&m, file_size) {
                    m
                } else {
                    Self::cold_chunks(file_size, now_secs)
                }
            },
            None => Self::cold_chunks(file_size, now_secs),
        };
        CacheEntry { file, chunks, readers: Readers::new(), duration_hint_secs: 0 }
    }

    /// Check a deserialised sidecar against the file's geometry.
    fn meta_valid(chunks: &Vec<Chunk>, file_size: u64) -> (r: bool)
        ensures
            r == Self::spec_meta_valid(chunks@, file_size),
    {
        let total = total_chunks(file_size);
        if chunks.len() as u64 != total {
            assert(!chunks_wf(chunks@, file_size));
            return false;
        }
        let n = chunks.len();
        let mut i: usize = 0;
        while i < n
            invariant
                0 <= i <= n,
                n == chunks@.len(),
                n as int == spec_total_chunks(file_size),
                forall|j: int|
                    0 <= j < i ==> (#[trigger] chunks@[j]).index as int == j && chunk_wf(
                        chunks@[j],
                        file_size,
                    ) && !chunks@[j].downloading,
            decreases n - i,
        {
            proof {
                lemma_chunk_offset_in_file(i as u64, file_size);
            }
            let c = &chunks[i];
            let expected_size = get_chunk_size_from_index(i as u64, file_size);
            if !(c.index == i as u64 && c.offset == (i as u64) * DEFAULT_CHUNK_SIZE && c.size
                == expected_size && !c.downloading) {
                return false;
            }
            i = i + 1;
        }
        true
    }

    /// The cold chunk vector, built fresh.
    fn cold_chunks(file_size: u64, now_secs: u64) -> (r: Vec<Chunk>)
        requires
            spec_total_chunks(file_size) <= usize::MAX as int,
        ensures
            r@ =~= Self::spec_cold_chunks(file_size, now_secs),
    {
        let total = total_chunks(file_size);
        let mut chunks: Vec<Chunk> = Vec::new();
        let mut i: u64 = 0;
        while i < total
            invariant
                0 <= i <= total,
                total as int == spec_total_chunks(file_size),
                total <= usize::MAX as u64,
                chunks@.len() == i,
                forall|j: int|
                    0 <= j < i ==> chunks@[j] == Self::spec_cold_chunks(file_size, now_secs)[j],
            decreases total - i,
        {
            let size = get_chunk_size_from_index(i, file_size);
            proof {
                lemma_chunk_offset_in_file(i, file_size);
            }
            let chunk = Chunk::new(i, size, now_secs);
            chunks.push(chunk);
            i = i + 1;
        }
        chunks
    }

    pub fn get_file(&self) -> (r: &CacheFile)
        ensures
            *r == self.spec_file(),
    {
        &self.file
    }

    pub fn get_chunks(&self) -> (r: &Vec<Chunk>)
        ensures
            r@ =~= self.spec_chunks(),
    {
        &self.chunks
    }

    pub fn get_remote_ids(&self) -> (r: (i64, i64))
        ensures
            r.0 == self.spec_file().torrent_debrid_id,
            r.1 == self.spec_file().file_debrid_id,
    {
        (self.file.torrent_debrid_id, self.file.file_debrid_id)
    }

    pub fn set_duration_hint_secs(&mut self, secs: u64)
        ensures
            final(self).spec_duration_hint() == secs,
            final(self).spec_file() == old(self).spec_file(),
            final(self).spec_chunks() =~= old(self).spec_chunks(),
            final(self).spec_readers() =~= old(self).spec_readers(),
    {
        self.duration_hint_secs = secs;
    }

    /// The duration hint, when one has been set (zero means none).
    pub fn get_duration_hint_secs(&self) -> (r: Option<u64>)
        ensures
            r == (if self.spec_duration_hint() > 0 {
                Some(self.spec_duration_hint())
            } else {
                None::<u64>
            }),
    {
        if self.duration_hint_secs > 0 {
            Some(self.duration_hint_secs)
        } else {
            None
        }
    }

    /// Whether any chunk is resident; lets duration probes skip cold files.
    pub fn has_cached_chunks(&self) -> (r: bool)
        ensures
            r == exists|i: int|
                0 <= i < self.spec_chunks().len() && (#[trigger] self.spec_chunks()[i]).cached,
    {
        let n = self.chunks.len();
        let mut i: usize = 0;
        while i < n
            invariant
                0 <= i <= n,
                n == self.spec_chunks().len(),
                forall|j: int| 0 <= j < i ==> !(#[trigger] self.spec_chunks()[j]).cached,
            decreases n - i,
        {
            if self.chunks[i].cached {
                return true;
            }
            i = i + 1;
        }
        false
    }

    /// Name of the sparse backing file under the cache directory:
    /// `<file_id>.bin`.
    pub fn get_cache_path(&self) -> (r: Vec<u8>)
        ensures
            r@ =~= spec_dec_digits_i64(self.spec_file().id as int) + seq![
                46u8,
                98u8,
                105u8,
                110u8,
            ],
    {
        let mut out: Vec<u8> = Vec::new();
        push_dec_i64(&mut out, self.file.id);
        out.push(46);
        out.push(98);
        out.push(105);
        out.push(110);
        out
    }

    /// Name of the sidecar under the cache directory: `<file_id>.cachemeta`.
    pub fn get_meta_path(&self) -> (r: Vec<u8>)
        ensures
            r@ =~= spec_dec_digits_i64(self.spec_file().id as int) + seq![
                46u8,
                99u8,
                97u8,
                99u8,
                104u8,
                101u8,
                109u8,
                101u8,
                116u8,
                97u8,
            ],
    {
        let mut out: Vec<u8> = Vec::new();
        push_dec_i64(&mut out, self.file.id);
        out.push(46);
        out.push(99);
        out.push(97);
        out.push(99);
        out.push(104);
        out.push(101);
        out.push(109);
        out.push(101);
        out.push(116);
        out.push(97);
        out
    }

    /// The bytes the sidecar must hold for the current chunk state; the
    /// caller rewrites the whole file with them on every state change.
    pub fn flush_cache_meta(&self) -> (r: Vec<u8>)
        ensures
            r@ =~= crate::meta::spec_chunks_bytes(self.spec_chunks()),
    {
        crate::meta::serialize_chunks(&self.chunks)
    }

    /// Whether the whole entry may be removed: only when no chunk's download
    /// guard is held. The caller then deletes the backing file and sidecar.
    pub fn try_remove(&self) -> (r: bool)
        ensures
            r == forall|i: int|
                0 <= i < self.spec_chunks().len() ==> !(
                #[trigger] self.spec_chunks()[i]).downloading,
    {
        let n = self.chunks.len();
        let mut i: usize = 0;
        while i < n
            invariant
                0 <= i <= n,
                n == self.spec_chunks().len(),
                forall|j: int| 0 <= j < i ==> !(#[trigger] self.spec_chunks()[j]).downloading,
            decreases n - i,
        {
            if self.chunks[i].downloading {
                return false;
            }
            i = i + 1;
        }
        true
    }

    /// Replace one chunk's runtime state; the chunk keeps its geometric
    /// place.
    pub(crate) fn set_chunk(&mut self, i: usize, c: Chunk)
        requires
            old(self).wf(),
            i < old(self).spec_chunks().len(),
            c.index == old(self).spec_chunks()[i as int].index,
            c.offset == old(self).spec_chunks()[i as int].offset,
            c.size == old(self).spec_chunks()[i as int].size,
        ensures
            final(self).wf(),
            final(self).spec_file() == old(self).spec_file(),
            final(self).spec_readers() =~= old(self).spec_readers(),
            final(self).spec_duration_hint() == old(self).spec_duration_hint(),
            final(self).spec_chunks() =~= old(self).spec_chunks().update(i as int, c),
    {
        self.chunks.set(i, c);
    }

    /// What a reader waiting on covering chunk `i` should do now: resident
    /// chunks are ready; a held guard means a download is under way and the
    /// reader polls again; a free guard over a non-resident chunk means the
    /// download failed.
    pub fn wait_step(&self, i: usize) -> (r: WaitOutcome)
        requires
            i < self.spec_chunks().len(),
        ensures
            r == (if self.spec_chunks()[i as int].cached {
                WaitOutcome::Ready
            } else if self.spec_chunks()[i as int].downloading {
                WaitOutcome::InProgress
            } else {
                WaitOutcome::Failed
            }),
    {
        let c = &self.chunks[i];
        if c.cached {
            WaitOutcome::Ready
        } else if c.downloading {
            WaitOutcome::InProgress
        } else {
            WaitOutcome::Failed
        }
    }

    /// Serve a read straight from the backing file. The download plan for
    /// the same range must have run to rest first: every covering chunk
    /// resident (then the bytes come back exactly as they stand in the
    /// file), or some covering chunk's download failed (then the read fails
    /// with `ChunkUnavailable` naming the first such chunk).
    pub fn read_bytes(&self, store: &SparseFile, offset: u64, size: u64) -> (r: Result<
        Vec<u8>,
        CacheError,
    >)
        requires
            self.wf(),
            store@.len() == self.spec_file_size(),
            1 <= size,
            offset as int + size as int <= self.spec_file_size() as int,
            offset as int + size as int <= usize::MAX as int,
            forall|i: int|
                spec_start_chunk(offset) <= i <= spec_end_chunk(offset, size) ==> !(
                #[trigger] self.spec_chunks()[i]).downloading || self.spec_chunks()[i].cached,
        ensures
            match r {
                Ok(bytes) => {
                    &&& bytes@ =~= store@.subrange(offset as int, offset as int + size as int)
                    &&& forall|i: int|
                        spec_start_chunk(offset) <= i <= spec_end_chunk(offset, size) ==> (
                        #[trigger] self.spec_chunks()[i]).cached
                },
                Err(e) => {
                    &&& e matches CacheError::ChunkUnavailable(k)
                    &&& spec_start_chunk(offset) <= k as int <= spec_end_chunk(offset, size)
                    &&& !self.spec_chunks()[k as int].cached
                },
            },
    {
        proof {
            lemma_covering_in_range(offset, size, self.spec_file_size());
        }
        let start_chunk = (offset / DEFAULT_CHUNK_SIZE) as usize;
        let end_chunk = ((offset + size - 1) / DEFAULT_CHUNK_SIZE) as usize;
        let n = self.chunks.len();
        let mut i: usize = start_chunk;
        while i <= end_chunk
            invariant
                start_chunk <= i <= end_chunk + 1,
                start_chunk as int == spec_start_chunk(offset),
                end_chunk as int == spec_end_chunk(offset, size),
                n == self.spec_chunks().len(),
                end_chunk < n,
                forall|j: int|
                    start_chunk <= j < i ==> (#[trigger] self.spec_chunks()[j]).cached,
            decreases end_chunk + 1 - i,
        {
            if !self.chunks[i].cached {
                return Err(CacheError::ChunkUnavailable(i as u64));
            }
            i = i + 1;
        }
        Ok(store.read_at(offset as usize, size as usize))
    }

    /// Evict one resident chunk: punch its extent out of the backing file,
    /// clear its residency, and report the freed bytes. Skipped (`Ok(None)`)
    /// while a downloader owns the chunk; an eviction of a chunk that is not
    /// resident is refused.
    pub fn try_remove_chunk(&mut self, store: &mut SparseFile, i: usize) -> (r: Result<
        Option<u64>,
        CacheError,
    >)
        requires
            old(self).wf(),
            i < old(self).spec_chunks().len(),
            old(store)@.len() == old(self).spec_file_size(),
            old(self).resident_ok(*old(store)),
        ensures
            final(self).wf(),
            final(self).spec_file() == old(self).spec_file(),
            final(self).spec_readers() =~= old(self).spec_readers(),
            final(self).spec_duration_hint() == old(self).spec_duration_hint(),
            final(store)@.len() == old(store)@.len(),
            final(self).resident_ok(*final(store)),
            match r {
                Ok(Some(freed)) => {
                    &&& !old(self).spec_chunks()[i as int].downloading
                    &&& old(self).spec_chunks()[i as int].cached
                    &&& freed == old(self).spec_chunks()[i as int].size
                    &&& final(self).spec_chunks() =~= old(self).spec_chunks().update(
                        i as int,
                        (Chunk { cached: false, ..old(self).spec_chunks()[i as int] }),
                    )
                    // the extent is punched out: deallocated and reading zero
                    &&& final(store).spec_written() =~= old(store).spec_written().difference(
                        range_set(
                            old(self).spec_chunks()[i as int].offset as int,
                            old(self).spec_chunks()[i as int].size as int,
                        ),
                    )
                    &&& forall|p: int|
                        0 <= p < final(store)@.len() ==> final(store)@[p] == (
                        if old(self).spec_chunks()[i as int].offset <= p
                            < old(self).spec_chunks()[i as int].offset
                            + old(self).spec_chunks()[i as int].size {
                            0u8
                        } else {
                            old(store)@[p]
                        })
                },
                Ok(None) => {
                    &&& old(self).spec_chunks()[i as int].downloading
                    &&& final(self).spec_chunks() =~= old(self).spec_chunks()
                    &&& *final(store) == *old(store)
                },
                Err(e) => {
                    &&& e == CacheError::ChunkUnavailable(i as u64)
                    &&& !old(self).spec_chunks()[i as int].downloading
                    &&& !old(self).spec_chunks()[i as int].cached
                    &&& final(self).spec_chunks() =~= old(self).spec_chunks()
                    &&& *final(store) == *old(store)
                },
            },
    {
        let c = self.chunks[i];
        if c.downloading {
            return Ok(None);
        }
        if !c.cached {
            return Err(CacheError::ChunkUnavailable(i as u64));
        }
        proof {
            lemma_chunk_extent(c, self.spec_file_size());
        }
        let store_len = store.len();
        assert(c.offset as int + c.size as int <= store_len as int);
        store.punch_hole(c.offset as usize, c.size as usize);
        let cleared = Chunk { cached: false, ..c };
        self.chunks.set(i, cleared);
        proof {
            lemma_chunk_ranges_disjoint(old(self).spec_chunks(), old(self).spec_file_size());
            assert forall|j: int|
                0 <= j < self.spec_chunks().len() && (#[trigger] self.spec_chunks()[j]).cached
                implies range_set(
                self.spec_chunks()[j].offset as int,
                self.spec_chunks()[j].size as int,
            ).subset_of(store.spec_written()) by {
                assert(j != i as int);
                assert(self.spec_chunks()[j] == old(self).spec_chunks()[j]);
                let rj = range_set(
                    self.spec_chunks()[j].offset as int,
                    self.spec_chunks()[j].size as int,
                );
                let ri = range_set(c.offset as int, c.size as int);
                assert(rj.disjoint(ri));
                assert(rj.subset_of(old(store).spec_written()));
                assert forall|p: int| rj.contains(p) implies store.spec_written().contains(
                    p,
                ) by {
                    assert(old(store).spec_written().contains(p));
                    assert(!ri.contains(p));
                }
            }
        }
        Ok(Some(c.size))
    }
}

/// Without a duration hint, read-ahead fires when the read head is within
/// this many bytes of an uncached chunk.
pub const READ_AHEAD_START_BYTES: u64 = 24 * 1024 * 1024;

/// Without a duration hint, read-ahead queues up to this many bytes past the
/// read head.
pub const READ_AHEAD_TARGET_BYTES: u64 = 64 * 1024 * 1024;

/// A chunk that needs no new download: resident, or owned by a downloader.
pub open spec fn spec_busy(c: Chunk) -> bool {
    c.cached || c.downloading
}

/// Membership in the configured preload pin: the first `head + 1` chunks and
/// the last `tail` chunks of the file.
pub open spec fn spec_preload_member(total: int, head: u64, tail: u64, i: int) -> bool {
    0 <= i < total && (i <= head as int || i + tail as int >= total)
}

/// Whether a read covering chunks `sc ..= ec` touches the preload pin.
pub open spec fn spec_preload_hit(total: int, head: u64, tail: u64, sc: int, ec: int) -> bool {
    sc <= head as int || ec + tail as int >= total
}

/// Chunks queued by the read before read-ahead is considered: the covering
/// range, and the whole preload pin when the covering range touches it.
pub open spec fn spec_cov_or_preload(
    total: int,
    preload: Option<(u64, u64)>,
    sc: int,
    ec: int,
    i: int,
) -> bool {
    (sc <= i <= ec) || (preload matches Some((head, tail)) && spec_preload_hit(
        total,
        head,
        tail,
        sc,
        ec,
    ) && spec_preload_member(total, head, tail, i))
}

/// Whether the read pulled in any preload chunk beyond its covering range.
pub open spec fn spec_preload_added(
    total: int,
    preload: Option<(u64, u64)>,
    sc: int,
    ec: int,
) -> bool {
    preload matches Some((head, tail)) && spec_preload_hit(total, head, tail, sc, ec) && exists|
        i: int,
    |
        spec_preload_member(total, head, tail, i) && !(sc <= i <= ec)
}

/// Read-ahead is forced even from inside the preload pin when the chunk just
/// past the covering range is not on its way: not resident, not owned by a
/// downloader, and not queued by this very read. This keeps a stream from
/// stalling as it crosses from the preloaded head into the body of the file.
pub open spec fn spec_force_read_ahead(
    chunks: Seq<Chunk>,
    preload: Option<(u64, u64)>,
    sc: int,
    ec: int,
) -> bool {
    let total = chunks.len() as int;
    ec + 1 < total && !spec_busy(chunks[ec + 1]) && !spec_cov_or_preload(
        total,
        preload,
        sc,
        ec,
        ec + 1,
    )
}

/// Bytes per second of playback that the duration hint implies, or zero
/// when there is no usable hint.
pub open spec fn spec_bps(file_size: u64, duration: u64) -> int {
    if duration > 0 {
        file_size as int / duration as int
    } else {
        0
    }
}

/// Read-ahead trigger distance in chunks. With a usable duration hint the
/// reader's tenure picks a tier: after 30 seconds of reading, the trigger
/// grows from 10 to 30 seconds of playback; without a hint a fixed byte
/// distance is used. At least one chunk either way.
pub open spec fn spec_read_ahead_trigger(file_size: u64, duration: u64, bytes_read: u64) -> int {
    let cs = DEFAULT_CHUNK_SIZE as int;
    let bps = spec_bps(file_size, duration);
    let tb = if bps > 0 {
        bps * (if bytes_read as int / bps >= 30 {
            30int
        } else {
            10int
        })
    } else {
        READ_AHEAD_START_BYTES as int
    };
    if tb / cs >= 1 {
        tb / cs
    } else {
        1
    }
}

/// Read-ahead target depth in chunks: 60 seconds of playback buffer, 120
/// after 30 seconds of reading, or a fixed byte depth without a hint. At
/// least two chunks either way.
pub open spec fn spec_read_ahead_target(file_size: u64, duration: u64, bytes_read: u64) -> int {
    let cs = DEFAULT_CHUNK_SIZE as int;
    let bps = spec_bps(file_size, duration);
    let tb = if bps > 0 {
        bps * (if bytes_read as int / bps >= 30 {
            120int
        } else {
            60int
        })
    } else {
        READ_AHEAD_TARGET_BYTES as int
    };
    if tb / cs >= 2 {
        tb / cs
    } else {
        2
    }
}

/// Read-ahead fires when one of the `trigger` chunks just past the covering
/// range is neither resident nor being downloaded.
pub open spec fn spec_read_ahead_triggered(chunks: Seq<Chunk>, ec: int, trigger: int) -> bool {
    exists|i: int|
        ec + 1 <= i < ec + 1 + trigger && 0 <= i < chunks.len() && !spec_busy(#[trigger] chunks[i])
}

/// Membership in the read-ahead window: up to `target` chunks just past the
/// covering range that are neither resident nor being downloaded.
pub open spec fn spec_ra_member(chunks: Seq<Chunk>, ec: int, target: int, i: int) -> bool {
    ec + 1 <= i < ec + 1 + target && 0 <= i < chunks.len() && !spec_busy(chunks[i])
}

/// Whether this read evaluates and fires read-ahead: it is suppressed when
/// the read pulled in preload chunks — a metadata probe must not masquerade
/// as a sequential reader — unless the chunk just past the covering range
/// forces it.
pub open spec fn spec_ra_used(
    chunks: Seq<Chunk>,
    preload: Option<(u64, u64)>,
    sc: int,
    ec: int,
    trigger: int,
) -> bool {
    let total = chunks.len() as int;
    (!spec_preload_added(total, preload, sc, ec) || spec_force_read_ahead(chunks, preload, sc, ec))
        && spec_read_ahead_triggered(chunks, ec, trigger)
}

/// The set of chunks one read queues: its covering range, the preload pin
/// when touched, and the read-ahead window when read-ahead fires.
pub open spec fn spec_queue_member(
    chunks: Seq<Chunk>,
    preload: Option<(u64, u64)>,
    sc: int,
    ec: int,
    trigger: int,
    target: int,
    i: int,
) -> bool {
    let total = chunks.len() as int;
    (spec_cov_or_preload(total, preload, sc, ec, i) && 0 <= i < total) || (spec_ra_used(
        chunks,
        preload,
        sc,
        ec,
        trigger,
    ) && spec_ra_member(chunks, ec, target, i))
}

/// A maximal run of index-adjacent chunks that one coalesced range request
/// will download: chunks `first ..= last`.
#[derive(Clone, Copy, Debug, PartialEq, Eq, Structural)]
pub struct Batch {
    pub first: u64,
    pub last: u64,
}

/// Whether chunk `i` belongs to one of the batches.
pub open spec fn in_batches(batches: Seq<Batch>, i: int) -> bool {
    exists|b: int|
        0 <= b < batches.len() && (#[trigger] batches[b]).first as int <= i <= batches[b].last as int
}

/// A chunk that a queue call accepts: in range, not resident, download
/// guard free.
pub open spec fn spec_eligible(chunks: Seq<Chunk>, i: int) -> bool {
    0 <= i < chunks.len() && !spec_busy(chunks[i])
}

/// Whether `i` occurs in a list of chunk indices.
pub open spec fn idx_member(indices: Seq<u64>, i: int) -> bool {
    exists|j: int| 0 <= j < indices.len() && (#[trigger] indices[j]) as int == i
}

/// The chunk vector after a queue call: the accepted chunks' download
/// guards are taken, everything else stands.
pub open spec fn spec_mark_queued(chunks: Seq<Chunk>, batches: Seq<Batch>) -> Seq<Chunk> {
    Seq::new(
        chunks.len(),
        |i: int|
            Chunk {
                downloading: chunks[i].downloading || in_batches(batches, i),
                ..chunks[i]
            },
    )
}

/// Adding a batch to the list covers exactly its chunks in addition.
pub proof fn lemma_in_batches_push(batches: Seq<Batch>, b: Batch, i: int)
    ensures
        in_batches(batches.push(b), i) <==> (in_batches(batches, i) || (b.first as int <= i
            <= b.last as int)),
{
    if in_batches(batches.push(b), i) {
        let j = choose|j: int|
            0 <= j < batches.push(b).len() && (#[trigger] batches.push(b)[j]).first as int <= i
                <= batches.push(b)[j].last as int;
        if j < batches.len() {
            assert(batches[j] == batches.push(b)[j]);
            assert(in_batches(batches, i));
        } else {
            assert(batches.push(b)[j] == b);
        }
    }
    if in_batches(batches, i) {
        let j = choose|j: int|
            0 <= j < batches.len() && (#[trigger] batches[j]).first as int <= i
                <= batches[j].last as int;
        assert(batches.push(b)[j] == batches[j]);
        assert(in_batches(batches.push(b), i));
    }
    if b.first as int <= i <= b.last as int {
        assert(batches.push(b)[batches.len() as int] == b);
        assert(in_batches(batches.push(b), i));
    }
}

/// Appending an index to a list extends its membership by it.
pub proof fn lemma_idx_member_push(indices: Seq<u64>, v: u64, i: int)
    ensures
        idx_member(indices.push(v), i) <==> (idx_member(indices, i) || i == v as int),
{
    if idx_member(indices.push(v), i) {
        let j = choose|j: int|
            0 <= j < indices.push(v).len() && (#[trigger] indices.push(v)[j]) as int == i;
        if j < indices.len() {
            assert(indices[j] == indices.push(v)[j]);
            assert(idx_member(indices, i));
        } else {
            assert(indices.push(v)[j] == v);
        }
    }
    if idx_member(indices, i) {
        let j = choose|j: int|
            0 <= j < indices.len() && (#[trigger] indices[j]) as int == i;
        assert(indices.push(v)[j] == indices[j]);
        assert(idx_member(indices.push(v), i));
    }
    if i == v as int {
        assert(indices.push(v)[indices.len() as int] == v);
        assert(idx_member(indices.push(v), i));
    }
}

/// Extending an index list by one element extends its membership by it.
pub proof fn lemma_idx_member_step(indices: Seq<u64>, k: int, k1: int, i: int)
    requires
        0 <= k < indices.len(),
        k1 == k + 1,
    ensures
        idx_member(indices.take(k1), i) <==> (idx_member(indices.take(k), i) || i == (
        indices[k] as int)),
{
    if idx_member(indices.take(k1), i) {
        let j = choose|j: int|
            0 <= j < indices.take(k1).len() && (#[trigger] indices.take(k1)[j]) as int == i;
        if j < k {
            assert(indices.take(k)[j] == indices.take(k1)[j]);
            assert(idx_member(indices.take(k), i));
        } else {
            assert(indices.take(k1)[j] == indices[k]);
        }
    }
    if idx_member(indices.take(k), i) {
        let j = choose|j: int|
            0 <= j < indices.take(k).len() && (#[trigger] indices.take(k)[j]) as int == i;
        assert(indices.take(k1)[j] == indices.take(k)[j]);
        assert(idx_member(indices.take(k1), i));
    }
    if i == indices[k] as int {
        assert(indices.take(k1)[k] == indices[k]);
        assert(idx_member(indices.take(k1), i));
    }
}

/// The backing-file name of file `id`: `<id>.bin`.
pub open spec fn spec_bin_name(id: i64) -> Seq<u8> {
    spec_dec_digits_i64(id as int) + seq![46u8, 98u8, 105u8, 110u8]
}

/// Where a backing-file name stands, every read the name parser makes is
/// forced: the sign, the digit run with its value, and the suffix.
proof fn lemma_bin_name_forces(name: Seq<u8>, id: i64)
    requires
        name == spec_bin_name(id),
    ensures
        ({
            let mag = if id >= 0 {
                id as int
            } else {
                -(id as int)
            };
            let st = if id >= 0 {
                0int
            } else {
                1int
            };
            let e = st + spec_dec_digits(mag).len();
            &&& name.len() == e + 4
            &&& (id < 0 ==> name[0] == 45)
            &&& (id >= 0 ==> name[0] != 45)
            &&& digit_run_end(name, st) == e
            &&& canonical_digits(name.subrange(st, e))
            &&& spec_dec_value(name.subrange(st, e)) == mag
            &&& name[e] == 46
            &&& name[e + 1] == 98
            &&& name[e + 2] == 105
            &&& name[e + 3] == 110
        }),
{
    let mag = if id >= 0 {
        id as int
    } else {
        -(id as int)
    };
    let st = if id >= 0 {
        0int
    } else {
        1int
    };
    let d = spec_dec_digits(mag);
    let e = st + d.len();
    lemma_dec_digits_canonical(mag);
    lemma_dec_value_of_digits(mag);
    if id < 0 {
        assert(spec_dec_digits_i64(id as int) == seq![45u8] + d);
        assert(name == (seq![45u8] + d) + seq![46u8, 98u8, 105u8, 110u8]);
    } else {
        assert(name == d + seq![46u8, 98u8, 105u8, 110u8]);
    }
    assert(name.subrange(st, e) =~= d);
    assert forall|i: int| st <= i < e implies crate::dec::is_digit(name[i]) by {
        assert(name.subrange(st, e)[i - st] == name[st + (i - st)]);
        assert(st + (i - st) == i);
        assert(crate::dec::is_digit(d[i - st]));
    }
    lemma_digit_run_end_at(name, st, e);
}

impl CacheEntry {
    /// Read a backing-file name back to its file id: accepts exactly the
    /// names that `get_cache_path` writes, so the startup scan can tell the
    /// cache's own files from stray ones.
    pub fn parse_cache_path(name: &[u8]) -> (r: Option<i64>)
        ensures
            r matches Some(id) ==> name@ =~= spec_bin_name(id),
            r is None ==> forall|id: i64| name@ != #[trigger] spec_bin_name(id),
    {
        let n = name.len();
        if n < 5 {
        proof {
            assert forall|id: i64| name@ != #[trigger] spec_bin_name(id) by {
                if name@ == spec_bin_name(id) {
                    lemma_bin_name_forces(name@, id);
                    assert(false);
                }
            }
        }
        return None;
        }
        let neg = name[0] == 45;
        let start: usize = if neg {
            1
        } else {
            0
        };
        let parsed = parse_dec_at(name, start);
        if parsed.is_none() {
        proof {
            assert forall|id: i64| name@ != #[trigger] spec_bin_name(id) by {
                if name@ == spec_bin_name(id) {
                    lemma_bin_name_forces(name@, id);
                    assert(false);
                }
            }
        }
        return None;
        }
        let (mag, end) = parsed.unwrap();
        proof {
            crate::dec::lemma_digit_run_end_bounds(name@, start as int);
        }
        if end != n - 4 {
        proof {
            assert forall|id: i64| name@ != #[trigger] spec_bin_name(id) by {
                if name@ == spec_bin_name(id) {
                    lemma_bin_name_forces(name@, id);
                    assert(false);
                }
            }
        }
        return None;
        }
        if !(name[end] == 46 && name[end + 1] == 98 && name[end + 2] == 105 && name[end + 3]
            == 110) {
        proof {
            assert forall|id: i64| name@ != #[trigger] spec_bin_name(id) by {
                if name@ == spec_bin_name(id) {
                    lemma_bin_name_forces(name@, id);
                    assert(false);
                }
            }
        }
        return None;
        }
        if neg {
            if mag == 0 || mag > 0x8000_0000_0000_0000u64 {
        proof {
            assert forall|id: i64| name@ != #[trigger] spec_bin_name(id) by {
                if name@ == spec_bin_name(id) {
                    lemma_bin_name_forces(name@, id);
                    assert(false);
                }
            }
        }
        return None;
            }
            let id: i64 = if mag == 0x8000_0000_0000_0000u64 {
                i64::MIN
            } else {
                -(mag as i64)
            };
            proof {
                lemma_name_assembles(name@, id);
            }
            Some(id)
        } else {
            if mag > i64::MAX as u64 {
        proof {
            assert forall|id: i64| name@ != #[trigger] spec_bin_name(id) by {
                if name@ == spec_bin_name(id) {
                    lemma_bin_name_forces(name@, id);
                    assert(false);
                }
            }
        }
        return None;
            }
            let id = mag as i64;
            proof {
                lemma_name_assembles(name@, id);
            }
            Some(id)
        }
    }
}

/// A name that spells a sign, the canonical digits of the id's magnitude and
/// the suffix is the backing-file name of that id.
proof fn lemma_name_assembles(name: Seq<u8>, id: i64)
    requires
        ({
            let mag = if id >= 0 {
                id as int
            } else {
                -(id as int)
            };
            let st = if id >= 0 {
                0int
            } else {
                1int
            };
            let e = st + spec_dec_digits(mag).len();
            &&& name.len() == e + 4
            &&& (id < 0 ==> name[0] == 45)
            &&& name.subrange(st, e) == spec_dec_digits(mag)
            &&& name[e] == 46
            &&& name[e + 1] == 98
            &&& name[e + 2] == 105
            &&& name[e + 3] == 110
        }),
    ensures
        name =~= spec_bin_name(id),
{
    let mag = if id >= 0 {
        id as int
    } else {
        -(id as int)
    };
    let st = if id >= 0 {
        0int
    } else {
        1int
    };
    let d = spec_dec_digits(mag);
    let e = st + d.len();
    assert forall|i: int| 0 <= i < name.len() implies name[i] == spec_bin_name(id)[i] by {
        if st <= i < e {
            assert(name.subrange(st, e)[i - st] == name[st + (i - st)]);
            assert(st + (i - st) == i);
        }
        if id < 0 {
            assert(spec_dec_digits_i64(id as int) == seq![45u8] + d);
        }
    }
}

/// First chunk covering a read at `offset`.
pub open spec fn spec_start_chunk(offset: u64) -> int {
    offset as int / DEFAULT_CHUNK_SIZE as int
}

/// Last chunk covering a read of `size` bytes at `offset`.
pub open spec fn spec_end_chunk(offset: u64, size: u64) -> int {
    (offset as int + size as int - 1) / DEFAULT_CHUNK_SIZE as int
}

/// A read inside the file covers chunks inside the chunk vector.
pub proof fn lemma_covering_in_range(offset: u64, size: u64, file_size: u64)
    requires
        1 <= size,
        offset as int + size as int <= file_size as int,
    ensures
        0 <= spec_start_chunk(offset) <= spec_end_chunk(offset, size) < spec_total_chunks(
            file_size,
        ),
{
    let cs = DEFAULT_CHUNK_SIZE as int;
    let last = offset as int + size as int - 1;
    vstd::arithmetic::div_mod::lemma_div_is_ordered(offset as int, last, cs);
    vstd::arithmetic::div_mod::lemma_div_is_ordered(last, file_size as int - 1, cs);
    vstd::arithmetic::div_mod::lemma_div_pos_is_pos(offset as int, cs);
    let q = file_size as int / cs;
    let m = file_size as int % cs;
    vstd::arithmetic::div_mod::lemma_fundamental_div_mod(file_size as int, cs);
    if m == 0 {
        vstd::arithmetic::div_mod::lemma_fundamental_div_mod_converse(
            file_size as int - 1,
            cs,
            q - 1,
            cs - 1,
        );
    } else {
        vstd::arithmetic::div_mod::lemma_fundamental_div_mod_converse(
            file_size as int - 1,
            cs,
            q,
            m - 1,
        );
    }
}

/// Queueing is idempotent: once a queue call has dispatched a chunk, the
/// chunk holds its download guard, so no later queue call accepts it again —
/// whatever index set the later call is given, none of its batches contains
/// a chunk of the earlier dispatch.
pub proof fn lemma_queue_idempotent(chunks: Seq<Chunk>, batches: Seq<Batch>, i: int)
    requires
        in_batches(batches, i),
    ensures
        !spec_eligible(spec_mark_queued(chunks, batches), i),
{
}

/// Coverage of the batches already closed plus the batch still being built.
spec fn in_progress(batches: Seq<Batch>, has_cur: bool, cur_first: u64, cur_last: u64, i: int) -> bool {
    in_batches(batches, i) || (has_cur && cur_first as int <= i <= cur_last as int)
}

/// Read-ahead trigger distance and target depth in chunks, from the file
/// size, the duration hint (zero for none) and the reader's byte total.
pub fn read_ahead_params(file_size: u64, duration_hint_secs: u64, reader_bytes_read: u64) -> (r: (
    u64,
    u64,
))
    ensures
        r.0 as int == spec_read_ahead_trigger(file_size, duration_hint_secs, reader_bytes_read),
        r.1 as int == spec_read_ahead_target(file_size, duration_hint_secs, reader_bytes_read),
{
    let cs = DEFAULT_CHUNK_SIZE;
    if duration_hint_secs > 0 {
        let bps = file_size / duration_hint_secs;
        if bps > 0 {
            let seconds_read = reader_bytes_read / bps;
            let trigger_bytes: u128 = if seconds_read >= 30 {
                (bps as u128) * 30
            } else {
                (bps as u128) * 10
            };
            let target_bytes: u128 = if seconds_read >= 30 {
                (bps as u128) * 120
            } else {
                (bps as u128) * 60
            };
            let tc = trigger_bytes / (cs as u128);
            let gc = target_bytes / (cs as u128);
            proof {
                if seconds_read >= 30 {
                    lemma_secs_to_chunks_bounded(bps as int, 30);
                    lemma_secs_to_chunks_bounded(bps as int, 120);
                } else {
                    lemma_secs_to_chunks_bounded(bps as int, 10);
                    lemma_secs_to_chunks_bounded(bps as int, 60);
                }
            }
            let tcu: u64 = if tc >= 1 {
                tc as u64
            } else {
                1
            };
            let gcu: u64 = if gc >= 2 {
                gc as u64
            } else {
                2
            };
            return (tcu, gcu);
        }
    }
    (READ_AHEAD_START_BYTES / cs, READ_AHEAD_TARGET_BYTES / cs)
}

/// A byte rate times a playback span of at most a chunk's worth of seconds,
/// in chunks, never exceeds the rate itself.
proof fn lemma_secs_to_chunks_bounded(bps: int, secs: int)
    requires
        0 <= bps,
        0 <= secs <= DEFAULT_CHUNK_SIZE as int,
    ensures
        bps * secs / (DEFAULT_CHUNK_SIZE as int) <= bps,
{
    let cs = DEFAULT_CHUNK_SIZE as int;
    assert(bps * secs <= bps * cs) by (nonlinear_arith)
        requires
            0 <= bps,
            secs <= cs,
    ;
    vstd::arithmetic::div_mod::lemma_div_is_ordered(bps * secs, bps * cs, cs);
    vstd::arithmetic::div_mod::lemma_div_multiples_vanish(bps, cs);
    assert(cs * bps == bps * cs) by (nonlinear_arith);
}

/// Chunks of one file occupy pairwise disjoint extents.
pub proof fn lemma_chunk_ranges_disjoint(chunks: Seq<Chunk>, file_size: u64)
    requires
        chunks_wf(chunks, file_size),
    ensures
        forall|i: int, j: int|
            0 <= i < chunks.len() && 0 <= j < chunks.len() && i != j ==> range_set(
                (#[trigger] chunks[i]).offset as int,
                chunks[i].size as int,
            ).disjoint(
                range_set((#[trigger] chunks[j]).offset as int, chunks[j].size as int),
            ),
{
    assert forall|i: int, j: int|
        0 <= i < chunks.len() && 0 <= j < chunks.len() && i != j implies range_set(
        (#[trigger] chunks[i]).offset as int,
        chunks[i].size as int,
    ).disjoint(range_set((#[trigger] chunks[j]).offset as int, chunks[j].size as int)) by {
        let cs = DEFAULT_CHUNK_SIZE as int;
        lemma_chunk_extent(chunks[i], file_size);
        lemma_chunk_extent(chunks[j], file_size);
        assert(chunks[i].size as int <= cs);
        assert(chunks[j].size as int <= cs);
        if i < j {
            assert(chunks[i].offset as int + cs <= chunks[j].offset as int) by (nonlinear_arith)
                requires
                    chunks[i].offset as int == i * cs,
                    chunks[j].offset as int == j * cs,
                    i < j,
                    cs > 0,
            ;
        } else {
            assert(chunks[j].offset as int + cs <= chunks[i].offset as int) by (nonlinear_arith)
                requires
                    chunks[i].offset as int == i * cs,
                    chunks[j].offset as int == j * cs,
                    j < i,
                    cs > 0,
            ;
        }
        assert(range_set(chunks[i].offset as int, chunks[i].size as int).disjoint(
            range_set(chunks[j].offset as int, chunks[j].size as int),
        ));
    }
}

/// The plan one read leaves behind: the chunks it covers, and the download
/// batches it dispatched.
pub struct ReadPlan {
    pub start_chunk: u64,
    pub end_chunk: u64,
    pub batches: Vec<Batch>,
}

impl CacheEntry {
    /// Queue chunks for download, coalescing them into maximal contiguous
    /// batches. Chunks already resident or already owned by a downloader are
    /// skipped — queueing is idempotent and dispatches no new work for them.
    /// Each accepted chunk's guard is taken; distinct batches are separated
    /// by at least one chunk that was not accepted.
    #[verifier::rlimit(100)]
    pub fn queue_chunks(&mut self, indices: &Vec<u64>) -> (batches: Vec<Batch>)
        requires
            old(self).wf(),
            forall|j: int|
                0 <= j < indices@.len() ==> ((#[trigger] indices@[j]) as int) < old(self).spec_chunks().len(),
            forall|j: int, k: int| 0 <= j < k < indices@.len() ==> indices@[j] < indices@[k],
        ensures
            final(self).wf(),
            final(self).spec_file() == old(self).spec_file(),
            final(self).spec_readers() =~= old(self).spec_readers(),
            final(self).spec_duration_hint() == old(self).spec_duration_hint(),
            final(self).spec_chunks() =~= spec_mark_queued(old(self).spec_chunks(), batches@),
            forall|i: int|
                #![all_triggers]
                in_batches(batches@, i) <==> (idx_member(indices@, i) && spec_eligible(
                    old(self).spec_chunks(),
                    i,
                )),
            forall|b: int|
                0 <= b < batches@.len() ==> (#[trigger] batches@[b]).first <= batches@[b].last && (
                batches@[b].last as int) < old(self).spec_chunks().len(),
            forall|b1: int, b2: int|
                0 <= b1 < b2 < batches@.len() ==> ((#[trigger] batches@[b1]).last as int) + 1 < ((
                #[trigger] batches@[b2]).first as int),
            forall|st: SparseFile| old(self).resident_ok(st) ==> final(self).resident_ok(st),
    {
        let n = self.chunks.len();
        let m = indices.len();
        let mut batches: Vec<Batch> = Vec::new();
        let mut has_cur: bool = false;
        let mut cur_first: u64 = 0;
        let mut cur_last: u64 = 0;
        let mut k: usize = 0;
        while k < m
            invariant
                0 <= k <= m,
                m == indices@.len(),
                n == old(self).spec_chunks().len(),
                self.spec_chunks().len() == n,
                self.spec_file() == old(self).spec_file(),
                self.spec_readers() =~= old(self).spec_readers(),
                self.spec_duration_hint() == old(self).spec_duration_hint(),
                forall|j: int| 0 <= j < indices@.len() ==> ((#[trigger] indices@[j]) as int) < n,
                forall|j: int, k2: int| 0 <= j < k2 < indices@.len() ==> indices@[j] < indices@[k2],
                forall|i: int|
                    0 <= i < n ==> #[trigger] self.spec_chunks()[i] == (Chunk {
                        downloading: old(self).spec_chunks()[i].downloading || in_progress(
                            batches@,
                            has_cur,
                            cur_first,
                            cur_last,
                            i,
                        ),
                        ..old(self).spec_chunks()[i]
                    }),
                forall|i: int|
                    #![all_triggers]
                    in_progress(batches@, has_cur, cur_first, cur_last, i) <==> (idx_member(
                        indices@.take(k as int),
                        i,
                    ) && spec_eligible(old(self).spec_chunks(), i)),
                forall|b: int|
                    0 <= b < batches@.len() ==> (#[trigger] batches@[b]).first <= batches@[b].last
                        && (batches@[b].last as int) < n,
                forall|b1: int, b2: int|
                    0 <= b1 < b2 < batches@.len() ==> ((#[trigger] batches@[b1]).last as int) + 1
                        < ((#[trigger] batches@[b2]).first as int),
                has_cur ==> cur_first <= cur_last && (cur_last as int) < n,
                has_cur ==> forall|b: int|
                    0 <= b < batches@.len() ==> ((#[trigger] batches@[b]).last as int) + 1
                        < cur_first as int,
                !has_cur ==> batches@.len() == 0,
                has_cur ==> idx_member(indices@.take(k as int), cur_last as int),
            decreases m - k,
        {
            let idx = indices[k];
            let iu = idx as usize;
            proof {
                // every chunk accepted so far has a smaller index
                if in_progress(batches@, has_cur, cur_first, cur_last, idx as int) {
                    let j = choose|j: int|
                        0 <= j < indices@.take(k as int).len() && (#[trigger] indices@.take(
                            k as int,
                        )[j]) as int == idx as int;
                    assert(indices@[j] < indices@[k as int]);
                    assert(false);
                }
                if has_cur {
                    let j = choose|j: int|
                        0 <= j < indices@.take(k as int).len() && (#[trigger] indices@.take(
                            k as int,
                        )[j]) as int == cur_last as int;
                    assert(indices@[j] < indices@[k as int]);
                    assert(cur_last < idx);
                }
            }
            let c = self.chunks[iu];
            let ghost pre_batches = batches@;
            let ghost pre_has_cur = has_cur;
            let ghost pre_first = cur_first;
            let ghost pre_last = cur_last;
            let accepted = !c.cached && !c.downloading;
            if accepted {
                let marked = Chunk { downloading: true, ..c };
                self.chunks.set(iu, marked);
                if has_cur {
                    if idx - cur_last == 1 {
                        cur_last = idx;
                        proof {
                            assert(idx as int == pre_last as int + 1);
                        }
                    } else {
                        batches.push(Batch { first: cur_first, last: cur_last });
                        proof {
                            assert(idx as int > pre_last as int + 1);
                        }
                        cur_first = idx;
                        cur_last = idx;
                    }
                } else {
                    has_cur = true;
                    cur_first = idx;
                    cur_last = idx;
                }
            }
            let ghost k0 = k as int;
            k = k + 1;
            proof {
                assert(spec_eligible(old(self).spec_chunks(), idx as int) == accepted);
                assert forall|i: int|
                    #![all_triggers]
                    in_progress(batches@, has_cur, cur_first, cur_last, i) <==> (idx_member(
                        indices@.take(k as int),
                        i,
                    ) && spec_eligible(old(self).spec_chunks(), i)) by {
                    lemma_idx_member_step(indices@, k0, k0 + 1, i);
                    assert(indices@.take(k as int) == indices@.take(k0 + 1));
                    assert(in_progress(pre_batches, pre_has_cur, pre_first, pre_last, i) <==> (
                    idx_member(indices@.take(k0), i) && spec_eligible(
                        old(self).spec_chunks(),
                        i,
                    )));
                    if accepted {
                        if !pre_has_cur {
                            assert(batches@ == pre_batches);
                            assert(has_cur && cur_first == idx && cur_last == idx);
                        } else if idx as int == pre_last as int + 1 {
                            assert(batches@ == pre_batches);
                            assert(has_cur && cur_first == pre_first && cur_last == idx);
                        } else {
                            let b = Batch { first: pre_first, last: pre_last };
                            assert(batches@ == pre_batches.push(b));
                            lemma_in_batches_push(pre_batches, b, i);
                            assert(in_batches(batches@, i) <==> (in_batches(pre_batches, i) || (
                            b.first as int <= i <= b.last as int)));
                            assert(has_cur && cur_first == idx && cur_last == idx);
                        }
                        if i == idx as int {
                            assert(in_progress(batches@, has_cur, cur_first, cur_last, i));
                        }
                    } else {
                        assert(batches@ == pre_batches && has_cur == pre_has_cur && cur_first
                            == pre_first && cur_last == pre_last);
                        if i == idx as int {
                            assert(!in_progress(pre_batches, pre_has_cur, pre_first, pre_last, i));
                        }
                    }
                }
            }
        }
        if has_cur {
            let ghost pre_batches = batches@;
            batches.push(Batch { first: cur_first, last: cur_last });
            proof {
                assert forall|i: int|
                    in_batches(batches@, i) <==> in_progress(
                        pre_batches,
                        true,
                        cur_first,
                        cur_last,
                        i,
                    ) by {
                    lemma_in_batches_push(
                        pre_batches,
                        Batch { first: cur_first, last: cur_last },
                        i,
                    );
                }
            }
        }
        proof {
            assert(indices@.take(m as int) =~= indices@);
            assert(self.spec_chunks() =~= spec_mark_queued(old(self).spec_chunks(), batches@));
            assert forall|i: int|
                #![all_triggers]
                in_batches(batches@, i) <==> (idx_member(indices@, i) && spec_eligible(
                    old(self).spec_chunks(),
                    i,
                )) by {
                assert(idx_member(indices@.take(m as int), i) == idx_member(indices@, i));
            }
            assert forall|st: SparseFile| old(self).resident_ok(st) implies self.resident_ok(
                st,
            ) by {
                assert forall|i: int|
                    0 <= i < self.spec_chunks().len() && (#[trigger] self.spec_chunks()[i]).cached
                    implies range_set(
                    self.spec_chunks()[i].offset as int,
                    self.spec_chunks()[i].size as int,
                ).subset_of(st.spec_written()) by {
                    assert(self.spec_chunks()[i].cached == old(self).spec_chunks()[i].cached);
                    assert(self.spec_chunks()[i].offset == old(self).spec_chunks()[i].offset);
                    assert(self.spec_chunks()[i].size == old(self).spec_chunks()[i].size);
                }
            }
        }
        batches
    }

    /// Plan one read: merge it into the reader tracker, compute the covering
    /// chunk range, widen it with the preload pin and the read-ahead window
    /// per policy, and queue every missing chunk of that set as contiguous
    /// batches. The caller dispatches one coalesced range request per batch,
    /// waits only for the covering chunks, and then reads the bytes back.
    #[verifier::rlimit(100)]
    pub fn plan_read(
        &mut self,
        offset: u64,
        size: u64,
        now_secs: u64,
        chunk_preload: Option<(u64, u64)>,
    ) -> (plan: ReadPlan)
        requires
            old(self).wf(),
            1 <= size,
            offset as int + size as int <= old(self).spec_file_size() as int,
        ensures
            final(self).wf(),
            final(self).spec_file() == old(self).spec_file(),
            final(self).spec_duration_hint() == old(self).spec_duration_hint(),
            final(self).spec_readers() =~= spec_after_read(
                old(self).spec_readers(),
                offset,
                size,
                now_secs,
            ),
            plan.start_chunk as int == spec_start_chunk(offset),
            plan.end_chunk as int == spec_end_chunk(offset, size),
            final(self).spec_chunks() =~= spec_mark_queued(old(self).spec_chunks(), plan.batches@),
            forall|i: int|
                #![all_triggers]
                in_batches(plan.batches@, i) <==> (spec_queue_member(
                    old(self).spec_chunks(),
                    chunk_preload,
                    spec_start_chunk(offset),
                    spec_end_chunk(offset, size),
                    spec_read_ahead_trigger(
                        old(self).spec_file_size(),
                        old(self).spec_duration_hint(),
                        spec_snapshot(old(self).spec_readers(), offset, size, now_secs).bytes_read,
                    ),
                    spec_read_ahead_target(
                        old(self).spec_file_size(),
                        old(self).spec_duration_hint(),
                        spec_snapshot(old(self).spec_readers(), offset, size, now_secs).bytes_read,
                    ),
                    i,
                ) && !spec_busy(old(self).spec_chunks()[i])),
            forall|b: int|
                0 <= b < plan.batches@.len() ==> (#[trigger] plan.batches@[b]).first
                    <= plan.batches@[b].last && (plan.batches@[b].last as int) < old(self).spec_chunks().len(),
            forall|b1: int, b2: int|
                0 <= b1 < b2 < plan.batches@.len() ==> ((#[trigger] plan.batches@[b1]).last as int)
                    + 1 < ((#[trigger] plan.batches@[b2]).first as int),
            forall|st: SparseFile| old(self).resident_ok(st) ==> final(self).resident_ok(st),
    {
        proof {
            lemma_covering_in_range(offset, size, old(self).spec_file_size());
        }
        let file_size = self.file.size as u64;
        let duration = self.duration_hint_secs;
        let reader = self.readers.get_reader(offset, size, now_secs);
        let sc64 = offset / DEFAULT_CHUNK_SIZE;
        let ec64 = (offset + size - 1) / DEFAULT_CHUNK_SIZE;
        let n = self.chunks.len();
        let sc = sc64 as usize;
        let ec = ec64 as usize;
        let params = read_ahead_params(file_size, duration, reader.bytes_read);
        let trigger = params.0;
        let target = params.1;
        let ghost cks = self.spec_chunks();
        let ghost sci = spec_start_chunk(offset);
        let ghost eci = spec_end_chunk(offset, size);

        // Does the covering range touch the preload pin?
        let preload_hit: bool = match chunk_preload {
            Some((head, tail)) => sc64 <= head || tail >= (n as u64) - ec64,
            None => false,
        };
        proof {
            assert(preload_hit == (chunk_preload matches Some((head, tail))
                && spec_preload_hit(n as int, head, tail, sci, eci)));
        }

        // Did the pin add any chunk beyond the covering range?
        let mut preload_added = false;
        if preload_hit {
            if let Some((head, tail)) = chunk_preload {
                let mut i: usize = 0;
                while i < n && !preload_added
                    invariant
                        0 <= i <= n,
                        n == cks.len(),
                        0 <= sci <= eci < n as int,
                        sc64 as int == sci,
                        ec64 as int == eci,
                        sc as int == sci,
                        ec as int == eci,
                        chunk_preload == Some::<(u64, u64)>((head, tail)),
                        preload_added ==> exists|j: int|
                            spec_preload_member(n as int, head, tail, j) && !(sci <= j <= eci),
                        !preload_added ==> forall|j: int|
                            0 <= j < i ==> !(spec_preload_member(n as int, head, tail, j) && !(sci
                                <= j <= eci)),
                    decreases n - i,
                {
                    let member = (i as u64) <= head || tail >= ((n - i) as u64);
                    let outside = i < sc || i > ec;
                    proof {
                        assert(member == spec_preload_member(n as int, head, tail, i as int));
                        assert(outside == !(sci <= i as int <= eci));
                    }
                    if member && outside {
                        preload_added = true;
                        proof {
                            assert(spec_preload_member(n as int, head, tail, i as int) && !(sci
                                <= i as int <= eci));
                        }
                    }
                    i = i + 1;
                }
                proof {
                    assert(preload_added == spec_preload_added(
                        n as int,
                        chunk_preload,
                        sci,
                        eci,
                    ));
                }
            }
        }
        proof {
            assert(preload_added == spec_preload_added(n as int, chunk_preload, sci, eci));
        }

        // Read-ahead forced across the preload boundary?
        let force: bool = if ec + 1 < n {
            let nxt = self.chunks[ec + 1];
            let nxt_pinned: bool = preload_hit && (match chunk_preload {
                Some((head, tail)) => ((ec + 1) as u64) <= head || tail >= ((n - (ec + 1)) as u64),
                None => false,
            });
            !nxt.cached && !nxt.downloading && !nxt_pinned
        } else {
            false
        };
        proof {
            assert(force == spec_force_read_ahead(cks, chunk_preload, sci, eci));
        }

        // Is any chunk in the trigger window missing?
        let mut triggered = false;
        let mut ti: usize = ec + 1;
        while ti < n && !triggered && ((ti - ec - 1) as u64) < trigger
            invariant
                ec + 1 <= ti <= n,
                n == cks.len(),
                cks =~= self.spec_chunks(),
                0 <= eci < n as int,
                ec as int == eci,
                triggered ==> spec_read_ahead_triggered(cks, eci, trigger as int),
                !triggered ==> forall|j: int|
                    eci + 1 <= j < ti ==> spec_busy(#[trigger] cks[j]),
            decreases n - ti,
        {
            if !self.chunks[ti].cached && !self.chunks[ti].downloading {
                triggered = true;
            }
            ti = ti + 1;
        }
        proof {
            assert(triggered == spec_read_ahead_triggered(cks, eci, trigger as int));
        }

        let ra_used = (!preload_added || force) && triggered;
        proof {
            assert(ra_used == spec_ra_used(cks, chunk_preload, sci, eci, trigger as int));
        }

        // Collect the queued set, in index order.
        let mut indices: Vec<u64> = Vec::new();
        let mut i: usize = 0;
        while i < n
            invariant
                0 <= i <= n,
                n == cks.len(),
                cks =~= self.spec_chunks(),
                0 <= sci <= eci < n as int,
                sc as int == sci,
                ec as int == eci,
                sc64 as int == sci,
                ec64 as int == eci,
                preload_hit == (chunk_preload matches Some((head, tail)) && spec_preload_hit(
                    n as int,
                    head,
                    tail,
                    sci,
                    eci,
                )),
                ra_used == spec_ra_used(cks, chunk_preload, sci, eci, trigger as int),
                forall|j: int, k: int| 0 <= j < k < indices@.len() ==> indices@[j] < indices@[k],
                forall|j: int| 0 <= j < indices@.len() ==> ((#[trigger] indices@[j]) as int) < i,
                forall|j: int|
                    #![all_triggers]
                    idx_member(indices@, j) <==> (0 <= j < i && spec_queue_member(
                        cks,
                        chunk_preload,
                        sci,
                        eci,
                        trigger as int,
                        target as int,
                        j,
                    )),
            decreases n - i,
        {
            let cov = sc <= i && i <= ec;
            let pre_mem: bool = preload_hit && (match chunk_preload {
                Some((head, tail)) => (i as u64) <= head || tail >= ((n - i) as u64),
                None => false,
            });
            let ra_mem = ra_used && i > ec && ((i - ec - 1) as u64) < target
                && !self.chunks[i].cached && !self.chunks[i].downloading;
            let ghost pre_indices = indices@;
            let member = cov || pre_mem || ra_mem;
            if member {
                indices.push(i as u64);
            }
            i = i + 1;
            proof {
                assert(member == spec_queue_member(
                    cks,
                    chunk_preload,
                    sci,
                    eci,
                    trigger as int,
                    target as int,
                    i as int - 1,
                ));
                assert forall|j: int|
                    #![all_triggers]
                    idx_member(indices@, j) <==> (0 <= j < i && spec_queue_member(
                        cks,
                        chunk_preload,
                        sci,
                        eci,
                        trigger as int,
                        target as int,
                        j,
                    )) by {
                    if member {
                        assert(indices@ == pre_indices.push((i - 1) as u64));
                        lemma_idx_member_push(pre_indices, (i - 1) as u64, j);
                    } else {
                        assert(indices@ == pre_indices);
                    }
                }
            }
        }

        let batches = self.queue_chunks(&indices);
        proof {
            assert forall|i2: int|
                #![all_triggers]
                in_batches(batches@, i2) <==> (spec_queue_member(
                    cks,
                    chunk_preload,
                    sci,
                    eci,
                    trigger as int,
                    target as int,
                    i2,
                ) && !spec_busy(cks[i2])) by {
                if spec_queue_member(cks, chunk_preload, sci, eci, trigger as int, target as int, i2) {
                    assert(0 <= i2 < cks.len());
                }
            }
        }
        ReadPlan { start_chunk: sc64, end_chunk: ec64, batches }
    }
}

} // verus!
