//! The cache manager: all entries, and the eviction sweeper.
//!
//! The manager owns one entry per cached file, hands out a shared entry per
//! file id, and periodically sweeps: entries whose file has lost its
//! metadata reference are removed outright, and when the cached bytes reach
//! the configured ceiling, chunks are evicted in retention order — least
//! retained first, oldest access first within a class — until the total
//! falls below the target. Chunks inside their grace window and the
//! configured preload pin are never evicted, and chunks owned by a
//! downloader are skipped. The caller mirrors the outcome on disk: it
//! punches the evicted extents, rewrites the sidecars, and deletes the
//! files of removed entries.

use vstd::prelude::*;

use crate::chunk::{Chunk, spec_priority};
use crate::config::Config;
use crate::entry::CacheEntry;

verus! {

/// Descriptor of one remote file, as the metadata store hands it over: the
/// local file id, its byte length, its path on the remote, and the remote
/// identifiers that downloads are resolved against.
pub struct CacheFile {
    pub id: i64,
    pub size: i64,
    pub path: String,
    pub file_debrid_id: i64,
    pub torrent_debrid_id: i64,
}

/// Cached bytes of one chunk vector.
pub open spec fn spec_cached_bytes(chunks: Seq<Chunk>) -> int
    decreases chunks.len(),
{
    if chunks.len() == 0 {
        0
    } else {
        spec_cached_bytes(chunks.drop_last()) + if chunks.last().cached {
            chunks.last().size as int
        } else {
            0
        }
    }
}

/// Cached bytes over a list of entries.
pub open spec fn spec_total_cached(entries: Seq<CacheEntry>) -> int
    decreases entries.len(),
{
    if entries.len() == 0 {
        0
    } else {
        spec_total_cached(entries.drop_last()) + spec_cached_bytes(
            entries.last().spec_chunks(),
        )
    }
}

/// One more chunk adds its contribution.
proof fn lemma_cached_bytes_take_step(chunks: Seq<Chunk>, i: int)
    requires
        0 <= i < chunks.len(),
    ensures
        spec_cached_bytes(chunks.take(i + 1)) == spec_cached_bytes(chunks.take(i)) + (
        if chunks[i].cached {
            chunks[i].size as int
        } else {
            0
        }),
{
    assert(chunks.take(i + 1).drop_last() =~= chunks.take(i));
    assert(chunks.take(i + 1).last() == chunks[i]);
}

/// One more entry adds its contribution.
proof fn lemma_total_cached_take_step(entries: Seq<CacheEntry>, i: int)
    requires
        0 <= i < entries.len(),
    ensures
        spec_total_cached(entries.take(i + 1)) == spec_total_cached(entries.take(i))
            + spec_cached_bytes(entries[i].spec_chunks()),
{
    assert(entries.take(i + 1).drop_last() =~= entries.take(i));
    assert(entries.take(i + 1).last() == entries[i]);
}

/// Clearing one chunk's residency takes exactly its size out of the sum.
proof fn lemma_cached_bytes_clear(chunks: Seq<Chunk>, i: int, c: Chunk)
    requires
        0 <= i < chunks.len(),
        chunks[i].cached,
        !c.cached,
        c.size == chunks[i].size,
    ensures
        spec_cached_bytes(chunks.update(i, c)) == spec_cached_bytes(chunks) - chunks[i].size as int,
    decreases chunks.len(),
{
    if i == chunks.len() - 1 {
        assert(chunks.update(i, c).drop_last() =~= chunks.drop_last());
        assert(chunks.update(i, c).last() == c);
    } else {
        assert(chunks.update(i, c).drop_last() =~= chunks.drop_last().update(i, c));
        assert(chunks.update(i, c).last() == chunks.last());
        lemma_cached_bytes_clear(chunks.drop_last(), i, c);
    }
}

/// Replacing one entry moves the sum by the entry's own change.
proof fn lemma_total_cached_update(entries: Seq<CacheEntry>, i: int, e: CacheEntry)
    requires
        0 <= i < entries.len(),
    ensures
        spec_total_cached(entries.update(i, e)) == spec_total_cached(entries) - spec_cached_bytes(
            entries[i].spec_chunks(),
        ) + spec_cached_bytes(e.spec_chunks()),
    decreases entries.len(),
{
    if i == entries.len() - 1 {
        assert(entries.update(i, e).drop_last() =~= entries.drop_last());
        assert(entries.update(i, e).last() == e);
    } else {
        assert(entries.update(i, e).drop_last() =~= entries.drop_last().update(i, e));
        assert(entries.update(i, e).last() == entries.last());
        lemma_total_cached_update(entries.drop_last(), i, e);
    }
}

/// The sum over a chunk vector never goes negative.
proof fn lemma_cached_bytes_nonneg(chunks: Seq<Chunk>)
    ensures
        spec_cached_bytes(chunks) >= 0,
    decreases chunks.len(),
{
    if chunks.len() > 0 {
        lemma_cached_bytes_nonneg(chunks.drop_last());
    }
}

/// The sum over entries never goes negative.
proof fn lemma_total_cached_nonneg(entries: Seq<CacheEntry>)
    ensures
        spec_total_cached(entries) >= 0,
    decreases entries.len(),
{
    if entries.len() > 0 {
        lemma_total_cached_nonneg(entries.drop_last());
        lemma_cached_bytes_nonneg(entries.last().spec_chunks());
    }
}

/// The cache manager's state: every live entry, keyed by its file id.
pub struct Cache {
    entries: Vec<CacheEntry>,
}

impl Cache {
    pub closed spec fn spec_entries(self) -> Seq<CacheEntry> {
        self.entries@
    }

    pub open spec fn wf(self) -> bool {
        &&& forall|i: int|
            0 <= i < self.spec_entries().len() ==> (#[trigger] self.spec_entries()[i]).wf()
        &&& forall|i: int, j: int|
            0 <= i < j < self.spec_entries().len() ==> (#[trigger] self.spec_entries()[i]).spec_file().id
                != (#[trigger] self.spec_entries()[j]).spec_file().id
    }

    pub fn new() -> (r: Cache)
        ensures
            r.wf(),
            r.spec_entries() =~= Seq::<CacheEntry>::empty(),
    {
        Cache { entries: Vec::new() }
    }

    pub fn len(&self) -> (r: usize)
        ensures
            r == self.spec_entries().len(),
    {
        self.entries.len()
    }

    /// Borrow the entry at `i`.
    pub fn entry_at(&self, i: usize) -> (r: &CacheEntry)
        requires
            i < self.spec_entries().len(),
        ensures
            *r == self.spec_entries()[i as int],
    {
        &self.entries[i]
    }

    /// Borrow the entry at `i` for a read or a state change. The caller must
    /// leave the entry well-formed and its file untouched, as every entry
    /// operation of this library does.
    pub fn entry_mut(&mut self, i: usize) -> (r: &mut CacheEntry)
        requires
            i < old(self).spec_entries().len(),
        ensures
            *r == old(self).spec_entries()[i as int],
            final(self).spec_entries() =~= old(self).spec_entries().update(i as int, *final(r)),
    {
        &mut self.entries[i]
    }

    /// Index of the entry of file `id`, if one is live.
    pub fn find_entry(&self, id: i64) -> (r: Option<usize>)
        ensures
            match r {
                Some(i) => i < self.spec_entries().len() && self.spec_entries()[i as int].spec_file().id
                    == id,
                None => forall|i: int|
                    0 <= i < self.spec_entries().len() ==> (
                    #[trigger] self.spec_entries()[i]).spec_file().id != id,
            },
    {
        let n = self.entries.len();
        let mut i: usize = 0;
        while i < n
            invariant
                0 <= i <= n,
                n == self.spec_entries().len(),
                forall|j: int|
                    0 <= j < i ==> (#[trigger] self.spec_entries()[j]).spec_file().id != id,
            decreases n - i,
        {
            if self.entries[i].get_file().id == id {
                return Some(i);
            }
            i = i + 1;
        }
        None
    }

    /// Look the file's entry up, or build and insert one: double-checked by
    /// the caller's locking, so all concurrent readers of one file share a
    /// single entry.
    pub fn upsert_entry(
        &mut self,
        file: CacheFile,
        meta_chunks: Option<Vec<Chunk>>,
        now_secs: u64,
    ) -> (idx: usize)
        requires
            old(self).wf(),
            0 <= file.size,
            crate::chunk::spec_total_chunks(file.size as u64) <= usize::MAX as int,
            old(self).spec_entries().len() < usize::MAX,
        ensures
            final(self).wf(),
            idx < final(self).spec_entries().len(),
            final(self).spec_entries()[idx as int].spec_file().id == file.id,
            (exists|j: int|
                0 <= j < old(self).spec_entries().len() && (
                #[trigger] old(self).spec_entries()[j]).spec_file().id == file.id) ==> (final(self).spec_entries() =~= old(self).spec_entries()
                && old(self).spec_entries()[idx as int].spec_file().id == file.id),
            (forall|j: int|
                0 <= j < old(self).spec_entries().len() ==> (
                #[trigger] old(self).spec_entries()[j]).spec_file().id != file.id) ==> {
                &&& final(self).spec_entries().len() == old(self).spec_entries().len() + 1
                &&& idx as int == old(self).spec_entries().len()
                &&& final(self).spec_entries() =~= old(self).spec_entries().push(
                    final(self).spec_entries()[idx as int],
                )
                &&& final(self).spec_entries()[idx as int].spec_file() == file
                &&& final(self).spec_entries()[idx as int].spec_duration_hint() == 0
                &&& final(self).spec_entries()[idx as int].spec_chunks() =~= (match meta_chunks {
                    Some(m) => {
                        if CacheEntry::spec_meta_valid(m@, file.size as u64) {
                            m@
                        } else {
                            CacheEntry::spec_cold_chunks(file.size as u64, now_secs)
                        }
                    },
                    None => CacheEntry::spec_cold_chunks(file.size as u64, now_secs),
                })
            },
    {
        let found = self.find_entry(file.id);
        match found {
            Some(i) => i,
            None => {
                let entry = CacheEntry::load(file, meta_chunks, now_secs);
                let idx = self.entries.len();
                self.entries.push(entry);
                idx
            },
        }
    }

    /// Drop the entry at `i`: the sweeper calls this once the file has lost
    /// its metadata reference and `try_remove` found every chunk guard free;
    /// the caller then deletes the backing file and sidecar.
    pub fn remove_entry(&mut self, i: usize) -> (r: CacheEntry)
        requires
            old(self).wf(),
            i < old(self).spec_entries().len(),
        ensures
            final(self).wf(),
            r == old(self).spec_entries()[i as int],
            final(self).spec_entries() =~= old(self).spec_entries().remove(i as int),
    {
        let r = self.entries.remove(i);
        proof {
            assert forall|a: int, b: int|
                0 <= a < b < self.spec_entries().len() implies (
            #[trigger] self.spec_entries()[a]).spec_file().id != (
            #[trigger] self.spec_entries()[b]).spec_file().id by {
                let oa = if a < i as int {
                    a
                } else {
                    a + 1
                };
                let ob = if b < i as int {
                    b
                } else {
                    b + 1
                };
                assert(self.spec_entries()[a] == old(self).spec_entries()[oa]);
                assert(self.spec_entries()[b] == old(self).spec_entries()[ob]);
            }
        }
        r
    }

    /// Clear one chunk's residency in one entry.
    fn clear_chunk_cached(&mut self, e: usize, c: usize)
        requires
            old(self).wf(),
            e < old(self).spec_entries().len(),
            c < old(self).spec_entries()[e as int].spec_chunks().len(),
        ensures
            final(self).wf(),
            final(self).spec_entries().len() == old(self).spec_entries().len(),
            forall|i: int|
                0 <= i < final(self).spec_entries().len() && i != e as int ==> final(self).spec_entries()[i] == old(self).spec_entries()[i],
            ({
                let oe = old(self).spec_entries()[e as int];
                let fe = final(self).spec_entries()[e as int];
                &&& fe.spec_file() == oe.spec_file()
                &&& fe.spec_readers() =~= oe.spec_readers()
                &&& fe.spec_duration_hint() == oe.spec_duration_hint()
                &&& fe.spec_chunks() =~= oe.spec_chunks().update(
                    c as int,
                    (Chunk { cached: false, ..oe.spec_chunks()[c as int] }),
                )
            }),
    {
        let mut ent = self.entries.remove(e);
        let ch = ent.get_chunks()[c];
        let cleared = Chunk { cached: false, ..ch };
        ent.set_chunk(c, cleared);
        self.entries.insert(e, ent);
        proof {
            assert(self.spec_entries() =~= old(self).spec_entries().update(
                e as int,
                self.spec_entries()[e as int],
            ));
        }
    }
}

/// One eviction candidate, as the sweep collected it: where the chunk
/// stands, its retention class at sweep time, and the bookkeeping fields
/// the eviction order reads.
#[derive(Clone, Copy, Debug, PartialEq, Eq, Structural)]
pub struct SweepCandidate {
    pub entry_idx: usize,
    pub chunk_idx: usize,
    pub file_id: i64,
    pub ordinal: u64,
    pub accessed_at_secs: u64,
    pub size: u64,
}

/// Eviction order on raw retention keys: the least retained class first,
/// the oldest access first within a class.
pub open spec fn spec_retention_le(ord_a: u64, accessed_a: u64, ord_b: u64, accessed_b: u64) -> bool {
    ord_a > ord_b || (ord_a == ord_b && accessed_a <= accessed_b)
}

/// Eviction order between two candidates.
pub open spec fn spec_evict_le(a: SweepCandidate, b: SweepCandidate) -> bool {
    spec_retention_le(a.ordinal, a.accessed_at_secs, b.ordinal, b.accessed_at_secs)
}

fn evict_le(a: &SweepCandidate, b: &SweepCandidate) -> (r: bool)
    ensures
        r == spec_evict_le(*a, *b),
{
    a.ordinal > b.ordinal || (a.ordinal == b.ordinal && a.accessed_at_secs <= b.accessed_at_secs)
}

/// Whether the chunk at `(e, c)` occurs among the candidates.
pub open spec fn cand_member(cands: Seq<SweepCandidate>, e: int, c: int) -> bool {
    exists|j: int|
        0 <= j < cands.len() && (#[trigger] cands[j]).entry_idx as int == e
            && cands[j].chunk_idx as int == c
}

/// What one sweep did, for the caller to mirror on disk: the evicted
/// chunks, in the order they went — least retained first, oldest access
/// first within a class — whose extents it punches out and whose sidecars
/// it rewrites, and the cached bytes left afterwards.
pub struct SweepOutcome {
    pub evicted: Vec<SweepCandidate>,
    pub total_after: u128,
}

/// How an entry may change across one sweep: identity, readers and duration
/// stand; each chunk stands, or has exactly its residency cleared while no
/// downloader owned it.
pub open spec fn entry_swept(oe: CacheEntry, fe: CacheEntry) -> bool {
    &&& fe.spec_file() == oe.spec_file()
    &&& fe.spec_readers() =~= oe.spec_readers()
    &&& fe.spec_duration_hint() == oe.spec_duration_hint()
    &&& fe.spec_chunks().len() == oe.spec_chunks().len()
    &&& forall|k: int|
        0 <= k < fe.spec_chunks().len() ==> (#[trigger] fe.spec_chunks()[k] == oe.spec_chunks()[k]
            || (oe.spec_chunks()[k].cached && !oe.spec_chunks()[k].downloading
            && fe.spec_chunks()[k] == (Chunk { cached: false, ..oe.spec_chunks()[k] })))
}

impl Cache {
    /// Run one eviction sweep. When the cached bytes have reached
    /// `cache_max_size`, chunks are evicted — least retained first, oldest
    /// access first within a class, judged at `now_secs` — until the total
    /// falls below `cache_target_size` or no evictable chunk remains.
    /// Chunks in their grace window or in the preload pin are never
    /// evicted, and chunks owned by a downloader are skipped. The returned
    /// eviction list is in the order the chunks went, which is the
    /// retention order. Afterwards the cached bytes are below the ceiling,
    /// or every remaining resident chunk is being downloaded, in its grace
    /// window, or pinned.
    #[verifier::rlimit(100)]
    pub fn sweep(&mut self, now_secs: u64, config: &Config) -> (r: SweepOutcome)
        requires
            old(self).wf(),
            config.wf(),
            spec_total_cached(old(self).spec_entries()) <= u128::MAX as int,
        ensures
            final(self).wf(),
            final(self).spec_entries().len() == old(self).spec_entries().len(),
            forall|i: int|
                0 <= i < final(self).spec_entries().len() ==> entry_swept(
                    old(self).spec_entries()[i],
                    #[trigger] final(self).spec_entries()[i],
                ),
            r.total_after as int == spec_total_cached(final(self).spec_entries()),
            spec_total_cached(old(self).spec_entries()) < config.cache_max_size as int ==> (final(self).spec_entries() =~= old(self).spec_entries() && r.evicted@.len() == 0),
            forall|a: int, b: int|
                0 <= a < b < r.evicted@.len() ==> spec_evict_le(
                    #[trigger] r.evicted@[a],
                    #[trigger] r.evicted@[b],
                ),
            forall|a: int|
                #![trigger r.evicted@[a]]
                0 <= a < r.evicted@.len() ==> ({
                    let cd = r.evicted@[a];
                    &&& cand_sound(
                        cd,
                        old(self).spec_entries(),
                        now_secs,
                        config.cache_grace_period_secs,
                        config.chunk_preload,
                    )
                    &&& old(self).spec_entries()[cd.entry_idx as int].spec_chunks()[cd.chunk_idx as int].cached
                    &&& !old(self).spec_entries()[cd.entry_idx as int].spec_chunks()[cd.chunk_idx as int].downloading
                    &&& !final(self).spec_entries()[cd.entry_idx as int].spec_chunks()[cd.chunk_idx as int].cached
                }),
            // eviction stops at the target: the last chunk went while the
            // total still stood at or above it
            r.evicted@.len() > 0 ==> r.total_after as int + r.evicted@.last().size as int
                >= config.cache_target_size as int,
            // the evicted set is downward-closed in retention order: nothing
            // went while a less-retained evictable chunk stayed
            forall|a: int, i: int, kk: int|
                #![trigger r.evicted@[a], final(self).spec_entries()[i].spec_chunks()[kk]]
                0 <= a < r.evicted@.len() && 0 <= i < final(self).spec_entries().len() && 0 <= kk
                    < final(self).spec_entries()[i].spec_chunks().len() && final(self).spec_entries()[i].spec_chunks()[kk].cached && !final(self).spec_entries()[i].spec_chunks()[kk].downloading && spec_priority(
                    final(self).spec_entries()[i].spec_chunks()[kk],
                    final(self).spec_entries()[i].spec_file_size(),
                    now_secs,
                    config.cache_grace_period_secs,
                    config.chunk_preload,
                ).spec_ordinal() >= 2 ==> spec_retention_le(
                    r.evicted@[a].ordinal,
                    r.evicted@[a].accessed_at_secs,
                    spec_priority(
                        final(self).spec_entries()[i].spec_chunks()[kk],
                        final(self).spec_entries()[i].spec_file_size(),
                        now_secs,
                        config.cache_grace_period_secs,
                        config.chunk_preload,
                    ).spec_ordinal(),
                    final(self).spec_entries()[i].spec_chunks()[kk].accessed_at_secs,
                ),
            (r.total_after as int) < config.cache_max_size as int || (forall|i: int, k: int|
                #![all_triggers]
                0 <= i < final(self).spec_entries().len() && 0 <= k < final(self).spec_entries()[i].spec_chunks().len() && final(self).spec_entries()[i].spec_chunks()[k].cached ==> (final(self).spec_entries()[i].spec_chunks()[k].downloading || spec_priority(
                    final(self).spec_entries()[i].spec_chunks()[k],
                    final(self).spec_entries()[i].spec_file_size(),
                    now_secs,
                    config.cache_grace_period_secs,
                    config.chunk_preload,
                ).spec_ordinal() <= 1)),
    {
        let n = self.entries.len();
        let ghost entries0 = self.spec_entries();

        // Collect the resident chunks and their retention classes.
        let mut cands: Vec<SweepCandidate> = Vec::new();
        let mut total: u128 = 0;
        let mut ei: usize = 0;
        while ei < n
            invariant
                0 <= ei <= n,
                n == self.spec_entries().len(),
                self.wf(),
                entries0 =~= self.spec_entries(),
                spec_total_cached(entries0) <= u128::MAX as int,
                total as int == spec_total_cached(entries0.take(ei as int)),
                forall|j: int|
                    0 <= j < cands@.len() ==> cand_sound(#[trigger] cands@[j], entries0, now_secs, config.cache_grace_period_secs, config.chunk_preload),
                forall|i: int, k: int|
                    #![all_triggers]
                    0 <= i < ei && 0 <= k < entries0[i].spec_chunks().len() && evictable(
                        entries0,
                        i,
                        k,
                        now_secs,
                        config.cache_grace_period_secs,
                        config.chunk_preload,
                    ) ==> cand_member(cands@, i, k),
            decreases n - ei,
        {
            let entry = &self.entries[ei];
            let file_size = entry.get_file().size as u64;
            let m = entry.get_chunks().len();
            let mut ci: usize = 0;
            while ci < m
                invariant
                    0 <= ci <= m,
                    0 <= ei < n,
                    n == self.spec_entries().len(),
                    self.wf(),
                    entries0 =~= self.spec_entries(),
                    spec_total_cached(entries0) <= u128::MAX as int,
                    *entry == self.spec_entries()[ei as int],
                    m == entry.spec_chunks().len(),
                    file_size == entry.spec_file_size(),
                    total as int == spec_total_cached(entries0.take(ei as int))
                        + spec_cached_bytes(entry.spec_chunks().take(ci as int)),
                    forall|j: int|
                        0 <= j < cands@.len() ==> cand_sound(#[trigger] cands@[j], entries0, now_secs, config.cache_grace_period_secs, config.chunk_preload),
                    forall|i: int, k: int|
                        #![all_triggers]
                        0 <= i < ei && 0 <= k < entries0[i].spec_chunks().len() && evictable(
                            entries0,
                            i,
                            k,
                            now_secs,
                            config.cache_grace_period_secs,
                            config.chunk_preload,
                        ) ==> cand_member(cands@, i, k),
                    forall|k: int|
                        #![all_triggers]
                        0 <= k < ci && evictable(
                            entries0,
                            ei as int,
                            k,
                            now_secs,
                            config.cache_grace_period_secs,
                            config.chunk_preload,
                        ) ==> cand_member(cands@, ei as int, k),
                decreases m - ci,
            {
                let c = entry.get_chunks()[ci];
                proof {
                    lemma_cached_bytes_take_step(entry.spec_chunks(), ci as int);
                    lemma_partial_le_total(entries0, ei as int, ci as int + 1);
                }
                if c.cached {
                    total = total + c.size as u128;
                    let prio = c.get_priority(
                        file_size,
                        now_secs,
                        config.cache_grace_period_secs,
                        config.chunk_preload,
                    );
                    let ord = prio.ordinal();
                    if !c.downloading && ord >= 2 {
                        let ghost pre_cands = cands@;
                        cands.push(
                            SweepCandidate {
                                entry_idx: ei,
                                chunk_idx: ci,
                                file_id: entry.get_file().id,
                                ordinal: ord,
                                accessed_at_secs: c.accessed_at_secs,
                                size: c.size,
                            },
                        );
                        proof {
                            assert forall|i: int, k: int| cand_member(pre_cands, i, k)
                                implies cand_member(cands@, i, k) by {
                                let j = choose|j: int|
                                    0 <= j < pre_cands.len() && (#[trigger] pre_cands[j]).entry_idx as int
                                        == i && pre_cands[j].chunk_idx as int == k;
                                assert(cands@[j] == pre_cands[j]);
                            }
                            assert(cands@[cands@.len() - 1].entry_idx as int == ei as int);
                            assert(cand_member(cands@, ei as int, ci as int));
                        }
                    }
                }
                ci = ci + 1;
            }
            proof {
                assert(entry.spec_chunks().take(m as int) =~= entry.spec_chunks());
                lemma_total_cached_take_step(entries0, ei as int);
            }
            ei = ei + 1;
        }
        proof {
            assert(entries0.take(n as int) =~= entries0);
        }

        if total < config.cache_max_size as u128 {
            return SweepOutcome { evicted: Vec::new(), total_after: total };
        }

        // Order the candidates: least retained first, oldest first within a
        // class.
        let cands_len = cands.len();
        let mut si: usize = 1;
        while si < cands_len
            invariant
                1 <= si,
                cands@.len() == cands_len,
                forall|a: int, b: int|
                    0 <= a < b < si as int ==> spec_evict_le(
                        #[trigger] cands@[a],
                        #[trigger] cands@[b],
                    ),
                forall|j: int|
                    0 <= j < cands@.len() ==> cand_sound(#[trigger] cands@[j], entries0, now_secs, config.cache_grace_period_secs, config.chunk_preload),
                forall|i: int, k: int|
                    #![all_triggers]
                    0 <= i < n as int && 0 <= k < entries0[i].spec_chunks().len() && evictable(
                        entries0,
                        i,
                        k,
                        now_secs,
                        config.cache_grace_period_secs,
                        config.chunk_preload,
                    ) ==> cand_member(cands@, i, k),
            decreases cands_len - si,
        {
            let mut j: usize = si;
            while j > 0 && !evict_le(&cands[j - 1], &cands[j])
                invariant
                    cands@.len() == cands_len,
                    0 <= j <= si < cands@.len(),
                    forall|a: int, b: int|
                        0 <= a < b <= si as int && a != j as int && b != j as int
                            ==> spec_evict_le(#[trigger] cands@[a], #[trigger] cands@[b]),
                    forall|a: int|
                        j < a <= si as int ==> spec_evict_le(
                            cands@[j as int],
                            #[trigger] cands@[a],
                        ),
                    forall|jj: int|
                        0 <= jj < cands@.len() ==> cand_sound(#[trigger] cands@[jj], entries0, now_secs, config.cache_grace_period_secs, config.chunk_preload),
                    forall|i: int, k: int|
                        #![all_triggers]
                        0 <= i < n as int && 0 <= k < entries0[i].spec_chunks().len() && evictable(
                            entries0,
                            i,
                            k,
                            now_secs,
                            config.cache_grace_period_secs,
                            config.chunk_preload,
                        ) ==> cand_member(cands@, i, k),
                decreases j,
            {
                let ghost pre_cands = cands@;
                let a = cands[j - 1];
                let b = cands[j];
                cands.set(j - 1, b);
                cands.set(j, a);
                proof {
                    // the moving element sinks below its neighbour
                    assert(spec_evict_le(b, a));
                    assert forall|a2: int, b2: int|
                        0 <= a2 < b2 <= si as int && a2 != j as int - 1 && b2 != j as int - 1
                        implies spec_evict_le(#[trigger] cands@[a2], #[trigger] cands@[b2]) by {
                        if b2 == j as int {
                            assert(cands@[b2] == pre_cands[j as int - 1]);
                            assert(cands@[a2] == pre_cands[a2]);
                            assert(spec_evict_le(pre_cands[a2], pre_cands[j as int - 1]));
                        } else if a2 == j as int {
                            assert(cands@[a2] == pre_cands[j as int - 1]);
                            assert(cands@[b2] == pre_cands[b2]);
                            assert(spec_evict_le(pre_cands[j as int - 1], pre_cands[b2]));
                        } else {
                            assert(cands@[a2] == pre_cands[a2]);
                            assert(cands@[b2] == pre_cands[b2]);
                        }
                    }
                    assert forall|a2: int| j as int - 1 < a2 <= si as int implies spec_evict_le(
                        cands@[j as int - 1],
                        #[trigger] cands@[a2],
                    ) by {
                        assert(cands@[j as int - 1] == b);
                        if a2 == j as int {
                            assert(cands@[a2] == a);
                        } else {
                            assert(cands@[a2] == pre_cands[a2]);
                            assert(spec_evict_le(pre_cands[j as int], pre_cands[a2]));
                        }
                    }
                    assert forall|i: int, k: int| cand_member(pre_cands, i, k)
                        implies cand_member(cands@, i, k) by {
                        let j0 = choose|j0: int|
                            0 <= j0 < pre_cands.len() && (#[trigger] pre_cands[j0]).entry_idx as int
                                == i && pre_cands[j0].chunk_idx as int == k;
                        if j0 == j - 1 {
                            assert(cands@[j as int] == pre_cands[j0]);
                        } else if j0 == j {
                            assert(cands@[j as int - 1] == pre_cands[j0]);
                        } else {
                            assert(cands@[j0] == pre_cands[j0]);
                        }
                    }
                }
                j = j - 1;
            }
            proof {
                assert forall|a: int, b: int| 0 <= a < b <= si as int implies spec_evict_le(
                    #[trigger] cands@[a],
                    #[trigger] cands@[b],
                ) by {
                    if b == j as int && j > 0 && a < j as int - 1 {
                        assert(spec_evict_le(cands@[a], cands@[j as int - 1]));
                    }
                }
            }
            si = si + 1;
        }

        // Evict greedily until the total falls below the target.
        let target = config.cache_target_size as u128;
        let mut evicted: Vec<SweepCandidate> = Vec::new();
        let mut k: usize = 0;
        let m = cands.len();
        while k < m && total >= target
            invariant
                0 <= k <= m,
                m == cands@.len(),
                forall|a: int, b: int|
                    0 <= a < b < m as int ==> spec_evict_le(
                        #[trigger] cands@[a],
                        #[trigger] cands@[b],
                    ),
                forall|a: int, b: int|
                    0 <= a < b < evicted@.len() ==> spec_evict_le(
                        #[trigger] evicted@[a],
                        #[trigger] evicted@[b],
                    ),
                forall|a: int, j2: int|
                    0 <= a < evicted@.len() && k <= j2 < m as int ==> spec_evict_le(
                        #[trigger] evicted@[a],
                        #[trigger] cands@[j2],
                    ),
                forall|a: int|
                    0 <= a < evicted@.len() ==> cand_sound(
                        #[trigger] evicted@[a],
                        entries0,
                        now_secs,
                        config.cache_grace_period_secs,
                        config.chunk_preload,
                    ),
                target == config.cache_target_size as u128,
                evicted@.len() > 0 ==> total as int + evicted@.last().size as int
                    >= config.cache_target_size as int,
                forall|a: int|
                    #![trigger evicted@[a]]
                    0 <= a < evicted@.len() ==> ({
                        let cd = evicted@[a];
                        &&& entries0[cd.entry_idx as int].spec_chunks()[cd.chunk_idx as int].cached
                        &&& !entries0[cd.entry_idx as int].spec_chunks()[cd.chunk_idx as int].downloading
                        &&& !self.spec_entries()[cd.entry_idx as int].spec_chunks()[cd.chunk_idx as int].cached
                    }),
                n == self.spec_entries().len(),
                self.wf(),
                entries0.len() == n,
                forall|i: int|
                    0 <= i < n as int ==> entry_swept(
                        entries0[i],
                        #[trigger] self.spec_entries()[i],
                    ),
                total as int == spec_total_cached(self.spec_entries()),
                forall|j: int|
                    0 <= j < cands@.len() ==> cand_sound(#[trigger] cands@[j], entries0, now_secs, config.cache_grace_period_secs, config.chunk_preload),
                forall|i: int, k2: int|
                    #![all_triggers]
                    0 <= i < n as int && 0 <= k2 < entries0[i].spec_chunks().len() && evictable(
                        entries0,
                        i,
                        k2,
                        now_secs,
                        config.cache_grace_period_secs,
                        config.chunk_preload,
                    ) ==> cand_member(cands@, i, k2),
                forall|j: int|
                    0 <= j < k ==> !((#[trigger] self.spec_entries()[cands@[j].entry_idx as int].spec_chunks()[cands@[j].chunk_idx as int]).cached
                        && !self.spec_entries()[cands@[j].entry_idx as int].spec_chunks()[cands@[j].chunk_idx as int].downloading),
            decreases m - k,
        {
            let cand = cands[k];
            let e = cand.entry_idx;
            let ci = cand.chunk_idx;
            let c = self.entries[e].get_chunks()[ci];
            if c.cached && !c.downloading {
                let ghost pre_entries = self.spec_entries();
                self.clear_chunk_cached(e, ci);
                proof {
                    lemma_cached_bytes_clear(
                        pre_entries[e as int].spec_chunks(),
                        ci as int,
                        (Chunk { cached: false, ..pre_entries[e as int].spec_chunks()[ci as int] }),
                    );
                    lemma_total_cached_update(
                        pre_entries,
                        e as int,
                        self.spec_entries()[e as int],
                    );
                    assert(self.spec_entries() =~= pre_entries.update(
                        e as int,
                        self.spec_entries()[e as int],
                    ));
                    lemma_cached_bytes_nonneg(self.spec_entries()[e as int].spec_chunks());
                    lemma_total_cached_nonneg(self.spec_entries());
                    // the candidate records the chunk's size faithfully
                    assert(cand_sound(
                        cands@[k as int],
                        entries0,
                        now_secs,
                        config.cache_grace_period_secs,
                        config.chunk_preload,
                    ));
                    assert(c.size == entries0[e as int].spec_chunks()[ci as int].size);
                    assert(cand.size == c.size);
                }
                total = total - c.size as u128;
                evicted.push(cand);
            }
            k = k + 1;
        }

        proof {
            // downward closure: whatever stayed cached, guard-free and out
            // of the protected classes was never reached, so it follows
            // every evicted candidate in the retention order
            assert forall|a: int, i: int, kk: int|
                #![trigger evicted@[a], self.spec_entries()[i].spec_chunks()[kk]]
                0 <= a < evicted@.len() && 0 <= i < self.spec_entries().len() && 0 <= kk
                    < self.spec_entries()[i].spec_chunks().len()
                    && self.spec_entries()[i].spec_chunks()[kk].cached
                    && !self.spec_entries()[i].spec_chunks()[kk].downloading && spec_priority(
                    self.spec_entries()[i].spec_chunks()[kk],
                    self.spec_entries()[i].spec_file_size(),
                    now_secs,
                    config.cache_grace_period_secs,
                    config.chunk_preload,
                ).spec_ordinal() >= 2 implies spec_retention_le(
                evicted@[a].ordinal,
                evicted@[a].accessed_at_secs,
                spec_priority(
                    self.spec_entries()[i].spec_chunks()[kk],
                    self.spec_entries()[i].spec_file_size(),
                    now_secs,
                    config.cache_grace_period_secs,
                    config.chunk_preload,
                ).spec_ordinal(),
                self.spec_entries()[i].spec_chunks()[kk].accessed_at_secs,
            ) by {
                assert(self.spec_entries()[i].spec_chunks()[kk] == entries0[i].spec_chunks()[kk]);
                assert(evictable(
                    entries0,
                    i,
                    kk,
                    now_secs,
                    config.cache_grace_period_secs,
                    config.chunk_preload,
                ));
                assert(cand_member(cands@, i, kk));
                let j = choose|j: int|
                    0 <= j < cands@.len() && (#[trigger] cands@[j]).entry_idx as int == i
                        && cands@[j].chunk_idx as int == kk;
                assert(j >= k as int);
                assert(spec_evict_le(evicted@[a], cands@[j]));
            }
            if !((total as int) < config.cache_max_size as int) {
                assert(k == m);
                assert forall|i: int, kk: int|
                    0 <= i < self.spec_entries().len() && 0 <= kk < self.spec_entries()[i].spec_chunks().len()
                        && (#[trigger] self.spec_entries()[i].spec_chunks()[kk]).cached && !self.spec_entries()[i].spec_chunks()[kk].downloading
                    implies spec_priority(
                    self.spec_entries()[i].spec_chunks()[kk],
                    self.spec_entries()[i].spec_file_size(),
                    now_secs,
                    config.cache_grace_period_secs,
                    config.chunk_preload,
                ).spec_ordinal() <= 1 by {
                    if spec_priority(
                        self.spec_entries()[i].spec_chunks()[kk],
                        self.spec_entries()[i].spec_file_size(),
                        now_secs,
                        config.cache_grace_period_secs,
                        config.chunk_preload,
                    ).spec_ordinal() > 1 {
                        assert(evictable(
                            entries0,
                            i,
                            kk,
                            now_secs,
                            config.cache_grace_period_secs,
                            config.chunk_preload,
                        ));
                        assert(cand_member(cands@, i, kk));
                        let j = choose|j: int|
                            0 <= j < cands@.len() && (#[trigger] cands@[j]).entry_idx as int == i
                                && cands@[j].chunk_idx as int == kk;
                        assert(false);
                    }
                }
            }
        }
        SweepOutcome { evicted, total_after: total }
    }
}

/// A chunk the sweep may evict: resident, its guard free, and neither in
/// its grace window nor in the preload pin.
pub open spec fn evictable(
    entries: Seq<CacheEntry>,
    i: int,
    k: int,
    now_secs: u64,
    grace_period_secs: u64,
    chunk_preload: Option<(u64, u64)>,
) -> bool {
    &&& 0 <= i < entries.len()
    &&& 0 <= k < entries[i].spec_chunks().len()
    &&& entries[i].spec_chunks()[k].cached
    &&& !entries[i].spec_chunks()[k].downloading
    &&& spec_priority(
        entries[i].spec_chunks()[k],
        entries[i].spec_file_size(),
        now_secs,
        grace_period_secs,
        chunk_preload,
    ).spec_ordinal() >= 2
}

/// A candidate faithfully describes the chunk it points at.
pub open spec fn cand_sound(
    cand: SweepCandidate,
    entries: Seq<CacheEntry>,
    now_secs: u64,
    grace_period_secs: u64,
    chunk_preload: Option<(u64, u64)>,
) -> bool {
    let e = cand.entry_idx as int;
    let k = cand.chunk_idx as int;
    &&& e < entries.len()
    &&& k < entries[e].spec_chunks().len()
    &&& cand.file_id == entries[e].spec_file().id
    &&& cand.size == entries[e].spec_chunks()[k].size
    &&& cand.accessed_at_secs == entries[e].spec_chunks()[k].accessed_at_secs
    &&& cand.ordinal == spec_priority(
        entries[e].spec_chunks()[k],
        entries[e].spec_file_size(),
        now_secs,
        grace_period_secs,
        chunk_preload,
    ).spec_ordinal()
}

/// Partial sums of the cached-byte total never exceed the whole.
proof fn lemma_partial_le_total(entries: Seq<CacheEntry>, ei: int, ci: int)
    requires
        0 <= ei < entries.len(),
        0 <= ci <= entries[ei].spec_chunks().len(),
    ensures
        spec_total_cached(entries.take(ei)) + spec_cached_bytes(
            entries[ei].spec_chunks().take(ci),
        ) <= spec_total_cached(entries),
{
    lemma_cached_bytes_prefix_le(entries[ei].spec_chunks(), ci);
    lemma_total_cached_take_step(entries, ei);
    lemma_total_cached_prefix_le(entries, ei + 1);
}

proof fn lemma_cached_bytes_prefix_le(chunks: Seq<Chunk>, i: int)
    requires
        0 <= i <= chunks.len(),
    ensures
        spec_cached_bytes(chunks.take(i)) <= spec_cached_bytes(chunks),
    decreases chunks.len() - i,
{
    if i == chunks.len() {
        assert(chunks.take(i) =~= chunks);
    } else {
        lemma_cached_bytes_take_step(chunks, i);
        lemma_cached_bytes_prefix_le(chunks, i + 1);
    }
}

proof fn lemma_total_cached_prefix_le(entries: Seq<CacheEntry>, i: int)
    requires
        0 <= i <= entries.len(),
    ensures
        spec_total_cached(entries.take(i)) <= spec_total_cached(entries),
    decreases entries.len() - i,
{
    if i == entries.len() {
        assert(entries.take(i) =~= entries);
    } else {
        lemma_total_cached_take_step(entries, i);
        lemma_cached_bytes_nonneg(entries[i].spec_chunks());
        lemma_total_cached_prefix_le(entries, i + 1);
    }
}

} // verus!
