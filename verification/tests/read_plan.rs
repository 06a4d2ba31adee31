use lumin_cache::cache::CacheFile;
use lumin_cache::chunk::{Chunk, get_chunk_size_from_index};
use lumin_cache::downloader::{
    DownloadProgress, batch_byte_range, range_header, release_batch, resume_batch,
};
use lumin_cache::entry::{Batch, CacheEntry, CacheError, ReadPlan, WaitOutcome, read_ahead_params};
use lumin_cache::sparse::SparseFile;

const MIB: u64 = 1024 * 1024;

fn file(id: i64, size: u64) -> CacheFile {
    CacheFile {
        id,
        size: size as i64,
        path: String::from("media/sample.mkv"),
        file_debrid_id: 100 + id,
        torrent_debrid_id: 7,
    }
}

fn batches_of(plan: &ReadPlan) -> Vec<(u64, u64)> {
    plan.batches.iter().map(|b| (b.first, b.last)).collect()
}

/// Run one batch download to completion against the in-memory file, with
/// `byte` as the body, and release the guards.
fn run_download(entry: &mut CacheEntry, store: &mut SparseFile, batch: Batch, byte: u8) {
    let file_size = entry.get_file().size as u64;
    let (start, end) = batch_byte_range(batch, file_size);
    let len = end - start + 1;
    let mut progress = DownloadProgress::new(batch, entry, len).expect("content length must match");
    // stream the body in 1 MiB blocks
    let mut sent = 0u64;
    while sent < len {
        let n = (len - sent).min(MIB) as usize;
        let block = vec![byte; n];
        let _published = progress.absorb(entry, store, &block);
        sent += n as u64;
    }
    assert!(progress.is_complete());
    release_batch(entry, batch);
}

#[test]
fn cold_sequential_read_queues_covering_and_read_ahead() {
    // 32 MiB file, no duration hint, read (0, 1 MiB): chunk 0 is covered and
    // read-ahead pulls the rest of the near window in the same contiguous
    // batch, so a single coalesced range request is dispatched.
    let file_size = 32 * MIB;
    let mut entry = CacheEntry::load(file(1, file_size), None, 1000);
    let mut store = SparseFile::new(file_size as usize);

    let plan = entry.plan_read(0, MIB, 1000, None);
    assert_eq!(plan.start_chunk, 0);
    assert_eq!(plan.end_chunk, 0);
    assert_eq!(batches_of(&plan), vec![(0, 3)]);

    let (start, end) = batch_byte_range(plan.batches[0], file_size);
    assert_eq!((start, end), (0, 32 * MIB - 1));
    assert_eq!(
        String::from_utf8(range_header(start, end)).unwrap(),
        "bytes=0-33554431"
    );

    run_download(&mut entry, &mut store, plan.batches[0], 0xAB);
    for c in entry.get_chunks() {
        assert!(c.cached);
        assert!(!c.downloading);
    }

    let bytes = entry.read_bytes(&store, 0, MIB).unwrap();
    assert_eq!(bytes.len(), MIB as usize);
    assert!(bytes.iter().all(|b| *b == 0xAB));
}

#[test]
fn preload_intersection_queues_pin_once_and_skips_read_ahead() {
    // preload (4, 1), 80 MiB file: a metadata probe at the head queues the
    // covering chunk and the whole pin, in two contiguous batches, and
    // read-ahead stays quiet.
    let file_size = 80 * MIB;
    let mut entry = CacheEntry::load(file(2, file_size), None, 1000);

    let plan = entry.plan_read(0, 4096, 1000, Some((4, 1)));
    assert_eq!((plan.start_chunk, plan.end_chunk), (0, 0));
    assert_eq!(batches_of(&plan), vec![(0, 4), (9, 9)]);
}

#[test]
fn preload_boundary_read_queues_pin_once() {
    // a read spanning exactly the head-preload boundary queues each pinned
    // chunk once: the covering range and the pin overlap without doubling.
    let file_size = 80 * MIB;
    let mut entry = CacheEntry::load(file(3, file_size), None, 1000);

    // chunks 3..=5 cover the read; preload pins 0..=4 and 9.
    let plan = entry.plan_read(3 * 8 * MIB, 3 * 8 * MIB, 1000, Some((4, 1)));
    assert_eq!((plan.start_chunk, plan.end_chunk), (3, 5));
    // the force rule applies: chunk 6 is uncached and unqueued, so
    // read-ahead fires past the covering range and the whole set coalesces.
    let batches = batches_of(&plan);
    assert_eq!(batches, vec![(0, 9)]);
    assert!(batches.iter().all(|(f, l)| f <= l));
    // no chunk appears in two batches
    let mut seen = std::collections::HashSet::new();
    for (f, l) in &batches {
        for i in *f..=*l {
            assert!(seen.insert(i), "chunk {i} queued twice");
        }
    }
}

#[test]
fn eof_read_returns_one_byte() {
    // request at offset file_size - 1 of size 1: one byte comes back, and
    // nothing past the end is read.
    let file_size = 32 * MIB;
    let mut entry = CacheEntry::load(file(4, file_size), None, 1000);
    let mut store = SparseFile::new(file_size as usize);

    let plan = entry.plan_read(file_size - 1, 1, 1000, None);
    assert_eq!((plan.start_chunk, plan.end_chunk), (3, 3));
    assert_eq!(batches_of(&plan), vec![(3, 3)]);

    run_download(&mut entry, &mut store, plan.batches[0], 0x5A);
    let bytes = entry.read_bytes(&store, file_size - 1, 1).unwrap();
    assert_eq!(bytes, vec![0x5A]);
}

#[test]
fn concurrent_readers_dispatch_one_download() {
    // reader A and reader B ask for the same head; only A's plan dispatches
    // work, B sees the guards held and queues nothing new.
    let file_size = 32 * MIB;
    let mut entry = CacheEntry::load(file(5, file_size), None, 1000);
    let mut store = SparseFile::new(file_size as usize);

    let plan_a = entry.plan_read(0, MIB, 1000, None);
    assert_eq!(batches_of(&plan_a), vec![(0, 3)]);

    let plan_b = entry.plan_read(0, MIB, 1000, None);
    assert!(plan_b.batches.is_empty());
    // B's covering chunk is on its way: poll, not fail.
    assert_eq!(entry.wait_step(0), WaitOutcome::InProgress);

    run_download(&mut entry, &mut store, plan_a.batches[0], 0x11);
    assert_eq!(entry.wait_step(0), WaitOutcome::Ready);

    let a = entry.read_bytes(&store, 0, MIB).unwrap();
    let b = entry.read_bytes(&store, 0, MIB).unwrap();
    assert_eq!(a, b);
}

#[test]
fn queueing_is_idempotent() {
    // queueing a set that holds already-cached and already-downloading
    // chunks dispatches no new work for them.
    let file_size = 80 * MIB;
    let mut entry = CacheEntry::load(file(6, file_size), None, 1000);
    let mut store = SparseFile::new(file_size as usize);

    // cache chunks 0..=1 outright
    let first = entry.queue_chunks(&vec![0, 1]);
    assert_eq!(first.len(), 1);
    run_download(&mut entry, &mut store, first[0], 0x01);
    // leave chunk 7 downloading
    let tail = entry.queue_chunks(&vec![7]);
    assert_eq!(tail.len(), 1);

    // a queue over cached, downloading and fresh chunks picks only the fresh
    let batches = entry.queue_chunks(&vec![0, 1, 7, 8]);
    assert_eq!(
        batches.iter().map(|b| (b.first, b.last)).collect::<Vec<_>>(),
        vec![(8, 8)]
    );
    // and doing it again dispatches nothing at all
    let again = entry.queue_chunks(&vec![0, 1, 7, 8]);
    assert!(again.is_empty());
}

#[test]
fn failed_download_surfaces_chunk_unavailable() {
    let file_size = 32 * MIB;
    let mut entry = CacheEntry::load(file(7, file_size), None, 1000);
    let store = SparseFile::new(file_size as usize);

    let plan = entry.plan_read(0, MIB, 1000, None);
    // the downloader gives up: guards release with nothing cached
    release_batch(&mut entry, plan.batches[0]);
    assert_eq!(entry.wait_step(0), WaitOutcome::Failed);
    assert_eq!(entry.read_bytes(&store, 0, MIB), Err(CacheError::ChunkUnavailable(0)));
}

#[test]
fn duration_hint_switches_read_ahead_tier() {
    // duration 7200 s over a 7200 MiB file gives one MiB per second; after
    // 40 MiB read the reader has 40 seconds of tenure, so the second tier
    // applies: trigger 30 MiB = 3 chunks, target 120 MiB = 15 chunks.
    assert_eq!(read_ahead_params(7200 * MIB, 7200, 40 * MIB), (3, 15));
    // under 30 seconds of tenure the first tier holds: 10 s / 60 s.
    assert_eq!(read_ahead_params(7200 * MIB, 7200, 20 * MIB), (1, 7));
    // without a hint the fixed byte windows apply.
    assert_eq!(read_ahead_params(7200 * MIB, 0, 40 * MIB), (3, 8));

    let file_size = 7200 * MIB;
    let mut entry = CacheEntry::load(file(8, file_size), None, 1000);
    entry.set_duration_hint_secs(7200);
    let plan = entry.plan_read(0, 40 * MIB, 1000, None);
    assert_eq!((plan.start_chunk, plan.end_chunk), (0, 4));
    // covering 0..=4 plus fifteen read-ahead chunks, one contiguous batch
    assert_eq!(batches_of(&plan), vec![(0, 19)]);
}

#[test]
fn chunks_publish_as_their_bytes_arrive() {
    // within one batch, each chunk becomes resident as soon as its bytes
    // are durable, in index order, without waiting for the batch's tail.
    let file_size = 32 * MIB;
    let mut entry = CacheEntry::load(file(10, file_size), None, 1000);
    let mut store = SparseFile::new(file_size as usize);

    let plan = entry.plan_read(0, MIB, 1000, None);
    let batch = plan.batches[0];
    let (start, end) = batch_byte_range(batch, file_size);
    let mut progress = DownloadProgress::new(batch, &entry, end - start + 1).unwrap();

    let published = progress.absorb(&mut entry, &mut store, &vec![1u8; (8 * MIB) as usize]);
    assert_eq!(published, vec![0]);
    assert!(entry.get_chunks()[0].cached);
    assert!(!entry.get_chunks()[1].cached);

    let published = progress.absorb(&mut entry, &mut store, &vec![2u8; (4 * MIB) as usize]);
    assert!(published.is_empty());
    let published = progress.absorb(&mut entry, &mut store, &vec![3u8; (4 * MIB) as usize]);
    assert_eq!(published, vec![1]);

    let published = progress.absorb(&mut entry, &mut store, &vec![4u8; (16 * MIB) as usize]);
    assert_eq!(published, vec![2, 3]);
    assert!(progress.is_complete());
    release_batch(&mut entry, batch);

    // the bytes read back exactly as they were streamed in
    let bytes = entry.read_bytes(&store, 8 * MIB - 1, 2).unwrap();
    assert_eq!(bytes, vec![1, 2]);
    let bytes = entry.read_bytes(&store, 12 * MIB - 1, 2).unwrap();
    assert_eq!(bytes, vec![2, 3]);
}

#[test]
fn retry_resumes_past_the_published_head() {
    // a failed attempt leaves its published prefix resident; the retry
    // covers only the chunks still missing, and nothing when all landed.
    let file_size = 32 * MIB;
    let mut entry = CacheEntry::load(file(15, file_size), None, 1000);
    let mut store = SparseFile::new(file_size as usize);

    let plan = entry.plan_read(0, MIB, 1000, None);
    let batch = plan.batches[0];
    assert_eq!((batch.first, batch.last), (0, 3));
    // nothing published yet: the whole batch remains
    let again = resume_batch(&entry, batch).unwrap();
    assert_eq!((again.first, again.last), (0, 3));

    // the stream breaks after the first chunk landed
    let (start, end) = batch_byte_range(batch, file_size);
    let mut progress = DownloadProgress::new(batch, &entry, end - start + 1).unwrap();
    let published = progress.absorb(&mut entry, &mut store, &vec![9u8; (8 * MIB) as usize]);
    assert_eq!(published, vec![0]);

    let rest = resume_batch(&entry, batch).unwrap();
    assert_eq!((rest.first, rest.last), (1, 3));

    // the fresh attempt finishes the remainder
    run_download(&mut entry, &mut store, rest, 9);
    assert!(resume_batch(&entry, batch).is_none());
    let bytes = entry.read_bytes(&store, 0, file_size).unwrap();
    assert!(bytes.iter().all(|b| *b == 9));
}

#[test]
fn content_length_mismatch_is_refused() {
    let file_size = 32 * MIB;
    let mut entry = CacheEntry::load(file(11, file_size), None, 1000);
    let plan = entry.plan_read(0, MIB, 1000, None);
    let batch = plan.batches[0];
    assert!(DownloadProgress::new(batch, &entry, 123).is_none());
}

#[test]
fn sidecar_state_is_restored_or_discarded() {
    let file_size = 32 * MIB;
    // a sidecar that fits the file restores its residency
    let mut chunks = Vec::new();
    for i in 0..4u64 {
        chunks.push(Chunk {
            index: i,
            offset: i * 8 * MIB,
            size: get_chunk_size_from_index(i, file_size),
            accessed_at_secs: 77,
            cached: i == 2,
            downloading: false,
        });
    }
    let entry = CacheEntry::load(file(12, file_size), Some(chunks.clone()), 1000);
    assert!(entry.has_cached_chunks());
    assert_eq!(entry.get_chunks()[2].accessed_at_secs, 77);
    assert!(entry.get_chunks()[2].cached);
    assert!(!entry.get_chunks()[1].cached);

    // one that does not fit the file's geometry is discarded for a cold
    // vector: the sparse file is the source of truth
    chunks.pop();
    let entry = CacheEntry::load(file(13, file_size), Some(chunks), 1000);
    assert!(!entry.has_cached_chunks());
    assert_eq!(entry.get_chunks().len(), 4);
}

#[test]
fn evicting_a_chunk_punches_its_extent() {
    let file_size = 32 * MIB;
    let mut entry = CacheEntry::load(file(14, file_size), None, 1000);
    let mut store = SparseFile::new(file_size as usize);
    let plan = entry.plan_read(0, MIB, 1000, None);
    run_download(&mut entry, &mut store, plan.batches[0], 0x77);

    // eviction frees the chunk's bytes; a second try is refused
    assert_eq!(entry.try_remove_chunk(&mut store, 1), Ok(Some(8 * MIB)));
    assert!(!entry.get_chunks()[1].cached);
    assert_eq!(
        entry.try_remove_chunk(&mut store, 1),
        Err(CacheError::ChunkUnavailable(1))
    );

    // the evicted extent reads as a hole, its neighbours keep their bytes
    let bytes = entry.read_bytes(&store, 0, MIB).unwrap();
    assert!(bytes.iter().all(|b| *b == 0x77));
    assert_eq!(store.read_at((8 * MIB) as usize, 2), vec![0, 0]);
    assert_eq!(store.read_at((16 * MIB) as usize, 1), vec![0x77]);
}

#[test]
fn set_and_get_duration_hint() {
    let mut entry = CacheEntry::load(file(9, 32 * MIB), None, 1000);
    assert_eq!(entry.get_duration_hint_secs(), None);
    entry.set_duration_hint_secs(5400);
    assert_eq!(entry.get_duration_hint_secs(), Some(5400));
    assert!(!entry.has_cached_chunks());
    assert_eq!(entry.get_remote_ids(), (7, 109));
    assert_eq!(String::from_utf8(entry.get_cache_path()).unwrap(), "9.bin");
    assert_eq!(String::from_utf8(entry.get_meta_path()).unwrap(), "9.cachemeta");
}
