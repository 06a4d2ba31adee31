//! Chunk geometry and retention priorities.
//!
//! A chunk is a fixed-size aligned slice of a logical file: the unit of cache
//! residency and of transfer coalescing. The last chunk of a file may be
//! shorter. Each chunk carries its last-access time, whether its bytes are
//! resident (`cached`), and whether a downloader currently owns it
//! (`downloading`, the exclusive per-chunk guard).

use vstd::prelude::*;

use crate::DEFAULT_CHUNK_SIZE;

verus! {

/// Retention class of a chunk at eviction time, ordered from most retained
/// (`GracePeriod`) to least retained (`Low`).
#[derive(Clone, Copy, Debug, PartialEq, Eq, Structural, Hash)]
pub enum ChunkPriority {
    GracePeriod,
    Preloaded,
    FirstChunk,
    LastChunk,
    High,
    Medium,
    Low,
}

impl ChunkPriority {
    /// Position of the priority in the retention order: 0 is retained the
    /// most, 6 the least.
    pub open spec fn spec_ordinal(self) -> u64 {
        match self {
            ChunkPriority::GracePeriod => 0,
            ChunkPriority::Preloaded => 1,
            ChunkPriority::FirstChunk => 2,
            ChunkPriority::LastChunk => 3,
            ChunkPriority::High => 4,
            ChunkPriority::Medium => 5,
            ChunkPriority::Low => 6,
        }
    }

    pub fn ordinal(self) -> (r: u64)
        ensures
            r == self.spec_ordinal(),
    {
        match self {
            ChunkPriority::GracePeriod => 0,
            ChunkPriority::Preloaded => 1,
            ChunkPriority::FirstChunk => 2,
            ChunkPriority::LastChunk => 3,
            ChunkPriority::High => 4,
            ChunkPriority::Medium => 5,
            ChunkPriority::Low => 6,
        }
    }
}

/// Number of chunks of a file: `file_size / DEFAULT_CHUNK_SIZE`, rounded up.
pub open spec fn spec_total_chunks(file_size: u64) -> int {
    file_size as int / DEFAULT_CHUNK_SIZE as int + if file_size as int % DEFAULT_CHUNK_SIZE as int
        == 0 {
        0int
    } else {
        1int
    }
}

pub fn total_chunks(file_size: u64) -> (r: u64)
    ensures
        r == spec_total_chunks(file_size),
{
    let q = file_size / DEFAULT_CHUNK_SIZE;
    if file_size % DEFAULT_CHUNK_SIZE == 0 {
        q
    } else {
        q + 1
    }
}

/// Size of the chunk at `index`: every chunk is `DEFAULT_CHUNK_SIZE` bytes,
/// except the last, which holds the remainder of the file (a full chunk when
/// the file size is an exact multiple).
pub open spec fn spec_chunk_size(index: u64, file_size: u64) -> int {
    if index as int + 1 == spec_total_chunks(file_size) && file_size as int
        % DEFAULT_CHUNK_SIZE as int != 0 {
        file_size as int % DEFAULT_CHUNK_SIZE as int
    } else {
        DEFAULT_CHUNK_SIZE as int
    }
}

pub fn get_chunk_size_from_index(index: u64, file_size: u64) -> (r: u64)
    requires
        (index as int) < spec_total_chunks(file_size),
    ensures
        r as int == spec_chunk_size(index, file_size),
        index as int + 1 == spec_total_chunks(file_size) ==> r as int == (
        if file_size as int % DEFAULT_CHUNK_SIZE as int == 0 {
            DEFAULT_CHUNK_SIZE as int
        } else {
            file_size as int % DEFAULT_CHUNK_SIZE as int
        }),
{
    let total = total_chunks(file_size);
    let remainder = file_size % DEFAULT_CHUNK_SIZE;
    if index + 1 == total && remainder != 0 {
        remainder
    } else {
        DEFAULT_CHUNK_SIZE
    }
}

/// Unit of cache residency: an aligned slice of the logical file with its
/// runtime state. `downloading` stands for the exclusive per-chunk guard:
/// true while a downloader owns the chunk.
#[derive(Clone, Copy, Debug, PartialEq, Eq, Structural)]
pub struct Chunk {
    pub index: u64,
    pub offset: u64,
    pub size: u64,
    pub accessed_at_secs: u64,
    pub cached: bool,
    pub downloading: bool,
}

/// Geometric well-formedness of a chunk within a file of `file_size` bytes.
pub open spec fn chunk_wf(c: Chunk, file_size: u64) -> bool {
    &&& (c.index as int) < spec_total_chunks(file_size)
    &&& c.offset as int == c.index as int * DEFAULT_CHUNK_SIZE as int
    &&& c.size as int == spec_chunk_size(c.index, file_size)
}

/// A well-formed chunk's extent lies within the file.
pub proof fn lemma_chunk_extent(c: Chunk, file_size: u64)
    requires
        chunk_wf(c, file_size),
    ensures
        0 < c.size,
        c.offset as int + c.size as int <= file_size as int,
{
    let cs = DEFAULT_CHUNK_SIZE as int;
    let q = file_size as int / cs;
    let m = file_size as int % cs;
    vstd::arithmetic::div_mod::lemma_fundamental_div_mod(file_size as int, cs);
    assert(file_size as int == q * cs + m);
    if c.index as int + 1 == spec_total_chunks(file_size) {
        if m == 0 {
            assert(c.offset as int == (q - 1) * cs);
        }
    } else {
        assert(c.index as int + 2 <= spec_total_chunks(file_size));
        if m == 0 {
            assert(c.index as int * cs <= (q - 2) * cs) by (nonlinear_arith)
                requires
                    c.index as int <= q - 2,
                    cs > 0,
            ;
        } else {
            assert(c.index as int * cs <= (q - 1) * cs) by (nonlinear_arith)
                requires
                    c.index as int <= q - 1,
                    cs > 0,
            ;
        }
    }
}

/// A chunk's starting offset lies within the file.
pub proof fn lemma_chunk_offset_in_file(index: u64, file_size: u64)
    requires
        (index as int) < spec_total_chunks(file_size),
    ensures
        index as int * DEFAULT_CHUNK_SIZE as int <= file_size as int,
{
    let cs = DEFAULT_CHUNK_SIZE as int;
    let q = file_size as int / cs;
    let m = file_size as int % cs;
    vstd::arithmetic::div_mod::lemma_fundamental_div_mod(file_size as int, cs);
    if m == 0 {
        assert(index as int * cs <= (q - 1) * cs) by (nonlinear_arith)
            requires
                index as int <= q - 1,
                cs > 0,
        ;
    } else {
        assert(index as int * cs <= q * cs) by (nonlinear_arith)
            requires
                index as int <= q,
                cs > 0,
        ;
    }
}

impl Chunk {
    /// A fresh chunk: not resident, not owned by a downloader, last accessed
    /// at construction time.
    pub fn new(index: u64, size: u64, now_secs: u64) -> (r: Chunk)
        requires
            index as int * DEFAULT_CHUNK_SIZE as int <= u64::MAX as int,
        ensures
            r == (Chunk {
                index,
                offset: (index as int * DEFAULT_CHUNK_SIZE as int) as u64,
                size,
                accessed_at_secs: now_secs,
                cached: false,
                downloading: false,
            }),
    {
        let offset = index * DEFAULT_CHUNK_SIZE;
        Chunk { index, offset, size, accessed_at_secs: now_secs, cached: false, downloading: false }
    }

    /// True when the chunk needs no new download: its bytes are resident, or
    /// a downloader already owns its guard.
    pub fn is_cached_or_downloading(&self) -> (r: bool)
        ensures
            r == (self.cached || self.downloading),
    {
        self.cached || self.downloading
    }
}

/// Distance between two instants of the monotonic clock.
pub open spec fn spec_abs_diff(a: u64, b: u64) -> int {
    if a >= b {
        a as int - b as int
    } else {
        b as int - a as int
    }
}

/// Retention priority of a chunk, judged at `now_secs`:
/// 1. `GracePeriod` within `grace_period_secs` of the last access;
/// 2. `FirstChunk` / `LastChunk` for the ends of the file, which hold the
///    metadata that probing tools read;
/// 3. `Preloaded` for the configured head and tail pin;
/// 4. else by the percentile of the chunk's byte center in the file:
///    `High` up to 20, `Low` up to 95, `Medium` above.
pub open spec fn spec_priority(
    c: Chunk,
    file_size: u64,
    now_secs: u64,
    grace_period_secs: u64,
    chunk_preload: Option<(u64, u64)>,
) -> ChunkPriority {
    let total = spec_total_chunks(file_size);
    if spec_abs_diff(now_secs, c.accessed_at_secs) < grace_period_secs {
        ChunkPriority::GracePeriod
    } else if c.index == 0 {
        ChunkPriority::FirstChunk
    } else if c.index as int + 1 == total {
        ChunkPriority::LastChunk
    } else if chunk_preload matches Some((head, tail)) && (c.index <= head || c.index as int
        + tail as int >= total) {
        ChunkPriority::Preloaded
    } else {
        let center = c.offset as int + c.size as int / 2;
        let percent = center * 100 / file_size as int;
        if percent <= 20 {
            ChunkPriority::High
        } else if percent <= 95 {
            ChunkPriority::Low
        } else {
            ChunkPriority::Medium
        }
    }
}

impl Chunk {
    pub fn get_priority(
        &self,
        file_size: u64,
        now_secs: u64,
        grace_period_secs: u64,
        chunk_preload: Option<(u64, u64)>,
    ) -> (r: ChunkPriority)
        requires
            chunk_wf(*self, file_size),
        ensures
            r == spec_priority(*self, file_size, now_secs, grace_period_secs, chunk_preload),
    {
        let accessed_at = self.accessed_at_secs;
        let diff = if now_secs >= accessed_at {
            now_secs - accessed_at
        } else {
            accessed_at - now_secs
        };
        if diff < grace_period_secs {
            return ChunkPriority::GracePeriod;
        }
        if self.index == 0 {
            return ChunkPriority::FirstChunk;
        }
        let total = total_chunks(file_size);
        if self.index == total - 1 {
            return ChunkPriority::LastChunk;
        }
        if let Some((head, tail)) = chunk_preload {
            if self.index <= head {
                return ChunkPriority::Preloaded;
            }
            // `index >= total - tail`, phrased without underflow.
            if total - self.index <= tail {
                return ChunkPriority::Preloaded;
            }
        }
        proof {
            lemma_chunk_extent(*self, file_size);
        }
        let center = (self.offset as u128) + (self.size as u128) / 2;
        assert(center as int == spec_chunk_center(*self));
        let percent = (center * 100) / (file_size as u128);
        assert(percent as int == spec_chunk_center(*self) * 100 / file_size as int);
        if percent <= 20 {
            ChunkPriority::High
        } else if percent <= 95 {
            ChunkPriority::Low
        } else {
            ChunkPriority::Medium
        }
    }
}

/// Byte center of a chunk, the point whose percentile places it in a
/// retention band.
pub open spec fn spec_chunk_center(c: Chunk) -> int {
    c.offset as int + c.size as int / 2
}

/// A chunk's retention priority does not change while the clock advances,
/// as long as the advance does not carry the chunk across the end of its
/// grace window: within `grace_period_secs` of the last access it stays
/// `GracePeriod`, and once the window has passed, no later instant changes
/// the verdict (the other rules read no clock).
pub proof fn lemma_priority_stable(
    c: Chunk,
    file_size: u64,
    now1: u64,
    now2: u64,
    grace_period_secs: u64,
    chunk_preload: Option<(u64, u64)>,
)
    requires
        c.accessed_at_secs <= now1 <= now2,
        now2 - c.accessed_at_secs < grace_period_secs || now1 - c.accessed_at_secs
            >= grace_period_secs,
    ensures
        spec_priority(c, file_size, now1, grace_period_secs, chunk_preload) == spec_priority(
            c,
            file_size,
            now2,
            grace_period_secs,
            chunk_preload,
        ),
{
}

} // verus!
