use lumin_cache::DEFAULT_CHUNK_SIZE;
use lumin_cache::chunk::{Chunk, ChunkPriority, get_chunk_size_from_index, total_chunks};

const MIB: u64 = 1024 * 1024;

fn chunk_at(index: u64, file_size: u64, accessed_at_secs: u64) -> Chunk {
    let mut c = Chunk::new(index, get_chunk_size_from_index(index, file_size), accessed_at_secs);
    c.accessed_at_secs = accessed_at_secs;
    c
}

#[test]
fn last_chunk_size_is_remainder() {
    // 20 MiB file: two full chunks and a 4 MiB tail.
    let file_size = 20 * MIB;
    assert_eq!(total_chunks(file_size), 3);
    assert_eq!(get_chunk_size_from_index(0, file_size), DEFAULT_CHUNK_SIZE);
    assert_eq!(get_chunk_size_from_index(1, file_size), DEFAULT_CHUNK_SIZE);
    assert_eq!(get_chunk_size_from_index(2, file_size), 4 * MIB);
}

#[test]
fn last_chunk_size_is_full_when_exact() {
    // 32 MiB file: four full chunks, the last as large as the rest.
    let file_size = 32 * MIB;
    assert_eq!(total_chunks(file_size), 4);
    assert_eq!(get_chunk_size_from_index(3, file_size), DEFAULT_CHUNK_SIZE);
}

#[test]
fn priority_grace_period_wins() {
    let file_size = 80 * MIB;
    let c = chunk_at(5, file_size, 1000);
    // 100 seconds after the access, inside a 300 second grace window.
    assert_eq!(c.get_priority(file_size, 1100, 300, None), ChunkPriority::GracePeriod);
    // well past the window, chunk 5 of 10 sits in the middle percentiles.
    assert_eq!(c.get_priority(file_size, 2000, 300, None), ChunkPriority::Low);
}

#[test]
fn priority_ends_and_percentiles() {
    let file_size = 80 * MIB; // 10 chunks
    let now = 100_000;
    assert_eq!(chunk_at(0, file_size, 0).get_priority(file_size, now, 300, None), ChunkPriority::FirstChunk);
    assert_eq!(chunk_at(9, file_size, 0).get_priority(file_size, now, 300, None), ChunkPriority::LastChunk);
    // chunk 1: center 12 MiB of 80 MiB = 15 % -> High
    assert_eq!(chunk_at(1, file_size, 0).get_priority(file_size, now, 300, None), ChunkPriority::High);
    // chunk 5: center 44 MiB of 80 MiB = 55 % -> Low
    assert_eq!(chunk_at(5, file_size, 0).get_priority(file_size, now, 300, None), ChunkPriority::Low);
    // chunk 8: center 68 MiB of 80 MiB = 85 % -> Low
    assert_eq!(chunk_at(8, file_size, 0).get_priority(file_size, now, 300, None), ChunkPriority::Low);
}

#[test]
fn priority_preload_pin() {
    let file_size = 80 * MIB; // 10 chunks
    let now = 100_000;
    let preload = Some((4, 1));
    // chunks 1..=4 are pinned by the head preload (chunk 0 is FirstChunk first).
    assert_eq!(chunk_at(2, file_size, 0).get_priority(file_size, now, 300, preload), ChunkPriority::Preloaded);
    assert_eq!(chunk_at(4, file_size, 0).get_priority(file_size, now, 300, preload), ChunkPriority::Preloaded);
    // chunk 5 is past the pin.
    assert_eq!(chunk_at(5, file_size, 0).get_priority(file_size, now, 300, preload), ChunkPriority::Low);
}

#[test]
fn priority_stable_while_clock_advances() {
    // inside the grace window the priority stays put under any advance that
    // does not cross the window's end.
    let file_size = 80 * MIB;
    let c = chunk_at(5, file_size, 1000);
    let p0 = c.get_priority(file_size, 1000, 300, None);
    for dt in [0, 50, 150, 299] {
        assert_eq!(c.get_priority(file_size, 1000 + dt, 300, None), p0);
    }
    // once out, later instants agree with each other.
    let p1 = c.get_priority(file_size, 1300, 300, None);
    for dt in [0, 1000, 1_000_000] {
        assert_eq!(c.get_priority(file_size, 1300 + dt, 300, None), p1);
    }
}

#[test]
fn ordinal_follows_retention_order() {
    assert_eq!(ChunkPriority::GracePeriod.ordinal(), 0);
    assert_eq!(ChunkPriority::Preloaded.ordinal(), 1);
    assert_eq!(ChunkPriority::FirstChunk.ordinal(), 2);
    assert_eq!(ChunkPriority::LastChunk.ordinal(), 3);
    assert_eq!(ChunkPriority::High.ordinal(), 4);
    assert_eq!(ChunkPriority::Medium.ordinal(), 5);
    assert_eq!(ChunkPriority::Low.ordinal(), 6);
}
