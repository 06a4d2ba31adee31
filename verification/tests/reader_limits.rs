use lumin_cache::ratelimiter::{MAX_CONCURRENT_REQUESTS, Ratelimiter};
use lumin_cache::reader::{Reader, Readers};

const MIB: u64 = 1024 * 1024;

#[test]
fn reader_merges_within_gap() {
    let mut readers = Readers::new();
    let a = readers.get_reader(0, MIB, 10);
    assert_eq!(a.position, MIB);
    assert_eq!(a.bytes_read, MIB);
    assert_eq!(a.last_read, 10);
    // 15 MiB past the position: still the same reader
    let b = readers.get_reader(16 * MIB, MIB, 20);
    assert_eq!(b.position, 17 * MIB);
    assert_eq!(b.bytes_read, 2 * MIB);
    assert_eq!(b.last_read, 20);
}

#[test]
fn reader_splits_past_gap() {
    let mut readers = Readers::new();
    let _ = readers.get_reader(0, MIB, 10);
    // 17 MiB gap: a fresh reader, counting only its own bytes
    let b = readers.get_reader(18 * MIB, MIB, 20);
    assert_eq!(b.position, 19 * MIB);
    assert_eq!(b.bytes_read, MIB);
    // backward seek within the gap merges too
    let c = readers.get_reader(4 * MIB, MIB, 30);
    assert_eq!(c.position, 5 * MIB);
    assert_eq!(c.bytes_read, 2 * MIB);
}

#[test]
fn reader_matches_is_symmetric_around_position() {
    let r = Reader { position: 32 * MIB, last_read: 0, bytes_read: 0 };
    assert!(r.matches(16 * MIB));
    assert!(r.matches(48 * MIB));
    assert!(!r.matches(48 * MIB + 1));
    assert!(!r.matches(16 * MIB - 1));
}

#[test]
fn test_new_ratelimiter() {
    let ratelimiter = Ratelimiter::new();
    assert_eq!(ratelimiter.ratelimited_until(), 0);
    assert_eq!(ratelimiter.available_permits(), MAX_CONCURRENT_REQUESTS);
}

#[test]
fn test_wait_no_rate_limit() {
    let mut ratelimiter = Ratelimiter::new();
    // with no deadline pending, there is nothing to sleep
    assert_eq!(ratelimiter.wait(100), 0);
}

#[test]
fn test_semaphore_limit() {
    let mut ratelimiter = Ratelimiter::new();
    for _ in 0..MAX_CONCURRENT_REQUESTS {
        assert!(ratelimiter.try_acquire());
    }
    // all permits are taken: the next caller must block
    assert!(!ratelimiter.try_acquire());
    ratelimiter.release();
    assert!(ratelimiter.try_acquire());
}

#[test]
fn test_rate_limited() {
    let mut ratelimiter = Ratelimiter::new();
    ratelimiter.set_ratelimited_for(1, 100);
    // a waiter at the same instant sleeps the full second
    assert_eq!(ratelimiter.wait(100), 1000);
}

#[test]
fn test_expired_rate_limit() {
    let mut ratelimiter = Ratelimiter::new();
    ratelimiter.set_ratelimited_for(10, 0);
    // the ten-second deadline has passed by the time anyone waits
    assert_eq!(ratelimiter.wait(20_000), 0);
    assert_eq!(ratelimiter.ratelimited_until(), 0);
}

#[test]
fn penalty_overwrites_earlier_deadline() {
    let mut ratelimiter = Ratelimiter::new();
    ratelimiter.set_ratelimited_for(30, 0);
    ratelimiter.set_ratelimited_for(5, 1000);
    assert_eq!(ratelimiter.ratelimited_until(), 6000);
    assert_eq!(ratelimiter.wait(2000), 4000);
    // the backoff is global: a second waiter inside the window sleeps too
    assert_eq!(ratelimiter.wait(2000), 4000);
    assert_eq!(ratelimiter.wait(5500), 500);
    // once the deadline has elapsed it is reset
    assert_eq!(ratelimiter.wait(6000), 0);
    assert_eq!(ratelimiter.ratelimited_until(), 0);
}
