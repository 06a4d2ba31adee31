use lumin_cache::cache::{Cache, CacheFile};
use lumin_cache::chunk::{Chunk, ChunkPriority, get_chunk_size_from_index, total_chunks};
use lumin_cache::config::Config;
use lumin_cache::entry::CacheEntry;

const MIB: u64 = 1024 * 1024;
const GIB: u64 = 1024 * 1024 * 1024;

fn config() -> Config {
    Config {
        cache_dir: String::from("/var/cache/stream"),
        cache_max_size: 125 * GIB,
        cache_target_size: 100 * GIB,
        cache_grace_period_secs: 300,
        cache_sweep_interval_secs: 60,
        chunk_preload: None,
        torbox_username: None,
        torbox_password: None,
    }
}

fn file(id: i64, size: u64) -> CacheFile {
    CacheFile {
        id,
        size: size as i64,
        path: String::from("media/file.mkv"),
        file_debrid_id: id,
        torrent_debrid_id: 1,
    }
}

fn fully_cached_chunks(file_size: u64, accessed_at_secs: u64) -> Vec<Chunk> {
    let total = total_chunks(file_size);
    let mut chunks = Vec::new();
    for i in 0..total {
        chunks.push(Chunk {
            index: i,
            offset: i * 8 * MIB,
            size: get_chunk_size_from_index(i, file_size),
            accessed_at_secs,
            cached: true,
            downloading: false,
        });
    }
    chunks
}

#[test]
fn upsert_is_idempotent_per_file() {
    let mut cache = Cache::new();
    let a = cache.upsert_entry(file(1, 32 * MIB), None, 0);
    let b = cache.upsert_entry(file(2, 64 * MIB), None, 0);
    assert_eq!(cache.len(), 2);
    // the same id lands on the same entry
    let a2 = cache.upsert_entry(file(1, 32 * MIB), None, 0);
    assert_eq!(a, a2);
    assert_eq!(cache.len(), 2);
    assert_eq!(cache.find_entry(2), Some(b));
    assert_eq!(cache.find_entry(3), None);
}

#[test]
fn remove_entry_drops_the_file() {
    let mut cache = Cache::new();
    cache.upsert_entry(file(1, 32 * MIB), None, 0);
    let i = cache.upsert_entry(file(2, 64 * MIB), None, 0);
    assert!(cache.entry_at(i).try_remove());
    let gone = cache.remove_entry(i);
    assert_eq!(gone.get_file().id, 2);
    assert_eq!(cache.len(), 1);
    assert_eq!(cache.find_entry(2), None);
}

#[test]
fn sweep_below_ceiling_evicts_nothing() {
    let mut cache = Cache::new();
    let now = 100_000;
    // one fully cached 32 MiB file: far below the ceiling
    cache.upsert_entry(file(1, 32 * MIB), Some(fully_cached_chunks(32 * MIB, 0)), now);
    let out = cache.sweep(now, &config());
    assert!(out.evicted.is_empty());
    assert_eq!(out.total_after, (32 * MIB) as u128);
}

#[test]
fn sweep_evicts_low_priority_oldest_first() {
    // two entries, both fully cached, 150 GiB in all; ceiling 125 GiB,
    // target 100 GiB, grace 300 s. The sweep takes only middle-percentile
    // chunks, from the longer-untouched file first, and stops at the
    // target. The ends of each file survive.
    let mut cache = Cache::new();
    let now = 1_000_000;
    let size = 75 * GIB;
    // file 1 has sat untouched longer than file 2
    cache.upsert_entry(file(1, size), Some(fully_cached_chunks(size, 100)), now);
    cache.upsert_entry(file(2, size), Some(fully_cached_chunks(size, 200)), now);

    let out = cache.sweep(now, &config());

    assert!(out.total_after < (100 * GIB) as u128);
    // one chunk at most below the target: the sweep stops as it crosses it
    assert!(out.total_after >= (100 * GIB - 8 * MIB) as u128);

    let last_index = total_chunks(size) - 1;
    for cand in &out.evicted {
        let idx = cand.chunk_idx as u64;
        // everything evicted came from the longer-untouched file
        assert_eq!(cand.file_id, 1, "evicted from the recently used file");
        // the ends of the file are never taken in this pass
        assert_ne!(idx, 0);
        assert_ne!(idx, last_index);
        // and each evicted chunk sat in the low-retention band
        let c = Chunk {
            index: idx,
            offset: idx * 8 * MIB,
            size: get_chunk_size_from_index(idx, size),
            accessed_at_secs: 100,
            cached: true,
            downloading: false,
        };
        assert_eq!(c.get_priority(size, now, 300, None), ChunkPriority::Low);
        assert_eq!(cand.ordinal, ChunkPriority::Low.ordinal());
        assert_eq!(cand.accessed_at_secs, 100);
    }
    // the evictions went least-retained first, oldest first within a class
    for pair in out.evicted.windows(2) {
        assert!(
            pair[0].ordinal > pair[1].ordinal
                || (pair[0].ordinal == pair[1].ordinal
                    && pair[0].accessed_at_secs <= pair[1].accessed_at_secs)
        );
    }

    // a second sweep finds the cache under the ceiling and rests
    let again = cache.sweep(now, &config());
    assert!(again.evicted.is_empty());
    assert_eq!(again.total_after, out.total_after);
}

#[test]
fn cache_path_parses_back_to_the_id() {
    assert_eq!(CacheEntry::parse_cache_path(b"17.bin"), Some(17));
    assert_eq!(CacheEntry::parse_cache_path(b"0.bin"), Some(0));
    assert_eq!(CacheEntry::parse_cache_path(b"-42.bin"), Some(-42));
    // names the cache never writes are refused
    assert_eq!(CacheEntry::parse_cache_path(b"17.cachemeta"), None);
    assert_eq!(CacheEntry::parse_cache_path(b"017.bin"), None);
    assert_eq!(CacheEntry::parse_cache_path(b"-0.bin"), None);
    assert_eq!(CacheEntry::parse_cache_path(b"a.bin"), None);
    assert_eq!(CacheEntry::parse_cache_path(b".bin"), None);
    assert_eq!(CacheEntry::parse_cache_path(b"17.bin.bak"), None);
    // a round trip through the entry's own name
    let entry = CacheEntry::load(file(321, 8 * MIB), None, 0);
    assert_eq!(CacheEntry::parse_cache_path(&entry.get_cache_path()), Some(321));
}

#[test]
fn sweep_spares_chunks_in_their_grace_window() {
    // the ceiling is reached, but every chunk was accessed moments ago:
    // nothing may go, and the cache stays over the ceiling untouched.
    let mut cache = Cache::new();
    let now = 1_000_000;
    let size = 150 * GIB;
    cache.upsert_entry(file(1, size), Some(fully_cached_chunks(size, now - 10)), now);
    let out = cache.sweep(now, &config());
    assert!(out.evicted.is_empty());
    assert_eq!(out.total_after, (150 * GIB) as u128);
}
