use lumin_cache::config::Config;
use lumin_cache::downloader::{
    AuthMode, BackoffDecision, DownloadFault, build_webdav_url, choose_auth, classify_status,
    expected_content_length, parse_retry_after,
};
use lumin_cache::entry::CacheError;
use lumin_cache::fetcher::{URL_CACHE_TTL_SECS, UrlCache};

fn config(user: Option<&str>, pass: Option<&str>) -> Config {
    Config {
        cache_dir: String::from("/var/cache/stream"),
        cache_max_size: 125 * 1024 * 1024 * 1024,
        cache_target_size: 100 * 1024 * 1024 * 1024,
        cache_grace_period_secs: 300,
        cache_sweep_interval_secs: 60,
        chunk_preload: Some((4, 1)),
        torbox_username: user.map(String::from),
        torbox_password: pass.map(String::from),
    }
}

#[test]
fn status_classification_follows_the_table() {
    assert_eq!(classify_status(206, None), Ok(()));
    assert_eq!(
        classify_status(429, Some(7)),
        Err(DownloadFault::Ratelimited(Some(7)))
    );
    assert_eq!(classify_status(429, None), Err(DownloadFault::Ratelimited(None)));
    for s in [408u16, 502, 503, 504] {
        assert_eq!(classify_status(s, None), Err(DownloadFault::Response(s, true)));
    }
    for s in [200u16, 301, 403, 404, 500] {
        assert_eq!(classify_status(s, None), Err(DownloadFault::Response(s, false)));
    }
}

#[test]
fn retry_on_429_with_hint_waits_the_hint_and_penalises() {
    // first retry waits the full seven seconds the server asked for, and
    // records the five-second global backoff.
    let fault = DownloadFault::Ratelimited(Some(7));
    assert_eq!(
        fault.get_backoff(1),
        BackoffDecision { wait_secs: Some(7), penalize_secs: Some(5) }
    );
    // the hint keeps applying on later attempts
    assert_eq!(fault.get_backoff(2).wait_secs, Some(7));
}

#[test]
fn backoff_schedules_by_attempt() {
    let unhinted = DownloadFault::Ratelimited(None);
    assert_eq!(unhinted.get_backoff(1).wait_secs, Some(1));
    assert_eq!(unhinted.get_backoff(2).wait_secs, Some(5));
    assert_eq!(unhinted.get_backoff(3).wait_secs, Some(30));
    assert_eq!(unhinted.get_backoff(4).wait_secs, None);
    assert_eq!(unhinted.get_backoff(1).penalize_secs, Some(5));

    let transient = DownloadFault::Response(503, true);
    assert_eq!(transient.get_backoff(1).wait_secs, Some(1));
    assert_eq!(transient.get_backoff(3).wait_secs, Some(30));
    assert_eq!(transient.get_backoff(4).wait_secs, None);
    assert_eq!(transient.get_backoff(1).penalize_secs, None);

    let fatal = DownloadFault::Response(404, false);
    assert_eq!(fatal.get_backoff(1).wait_secs, None);

    let stream = DownloadFault::Stream;
    assert_eq!(stream.get_backoff(1).wait_secs, Some(5));
    assert_eq!(stream.get_backoff(2).wait_secs, Some(30));
    assert_eq!(stream.get_backoff(3).wait_secs, None);

    let fetch = DownloadFault::Fetch;
    assert_eq!(fetch.get_backoff(1).wait_secs, Some(5));
    assert_eq!(fetch.get_backoff(2).wait_secs, None);

    assert_eq!(DownloadFault::Io.get_backoff(1).wait_secs, None);
    assert_eq!(DownloadFault::Generic.get_backoff(1).wait_secs, None);
}

#[test]
fn faults_map_to_reader_errors() {
    assert_eq!(DownloadFault::Io.to_cache_error(), CacheError::Io);
    assert_eq!(
        DownloadFault::Response(500, false).to_cache_error(),
        CacheError::RemoteUnavailable
    );
}

#[test]
fn retry_after_header_parsing() {
    assert_eq!(parse_retry_after(b"7"), Some(7));
    assert_eq!(parse_retry_after(b"120"), Some(120));
    assert_eq!(parse_retry_after(b""), None);
    assert_eq!(parse_retry_after(b"7s"), None);
    assert_eq!(parse_retry_after(b"-1"), None);
}

#[test]
fn content_length_must_match_the_range() {
    assert_eq!(expected_content_length(0, 25165823), 25165824);
    assert_eq!(expected_content_length(8388608, 8388608), 1);
}

#[test]
fn webdav_url_encodes_segments_and_keeps_separators() {
    let url = build_webdav_url(b"shows/My Show (2021)/episode 1.mkv");
    assert_eq!(
        String::from_utf8(url).unwrap(),
        "https://webdav.torbox.app/shows/My%20Show%20%282021%29/episode%201.mkv"
    );
    let plain = build_webdav_url(b"a/b.c");
    assert_eq!(String::from_utf8(plain).unwrap(), "https://webdav.torbox.app/a/b.c");
}

#[test]
fn auth_mode_follows_credentials() {
    assert_eq!(choose_auth(&config(Some("u"), Some("p"))), Ok(AuthMode::Basic));
    assert_eq!(choose_auth(&config(None, None)), Ok(AuthMode::SignedUrl));
    assert_eq!(choose_auth(&config(Some("u"), None)), Err(DownloadFault::Generic));
    assert_eq!(choose_auth(&config(None, Some("p"))), Err(DownloadFault::Generic));
}

#[test]
fn url_cache_serves_until_the_ttl_runs_out() {
    // a resolved URL is reused for 175 minutes
    assert_eq!(URL_CACHE_TTL_SECS, 175 * 60);
    let mut cache = UrlCache::new();
    assert!(cache.lookup(7, 100, 1000).is_none());
    cache.insert(7, 100, b"http://signed/one".to_vec(), 1000 + URL_CACHE_TTL_SECS);
    assert_eq!(
        cache.lookup(7, 100, 1000).cloned(),
        Some(b"http://signed/one".to_vec())
    );
    // live through its last second, gone after
    assert!(cache.lookup(7, 100, 1000 + URL_CACHE_TTL_SECS).is_some());
    assert!(cache.lookup(7, 100, 1001 + URL_CACHE_TTL_SECS).is_none());
    // other files resolve on their own
    assert!(cache.lookup(7, 101, 1000).is_none());
    assert!(cache.lookup(8, 100, 1000).is_none());
    // a fresh resolution overwrites the slot
    cache.insert(7, 100, b"http://signed/two".to_vec(), 9_000_000);
    assert_eq!(
        cache.lookup(7, 100, 2_000_000).cloned(),
        Some(b"http://signed/two".to_vec())
    );
}

#[test]
fn config_headroom_is_enforced() {
    let good = config(None, None);
    assert!(good.validate());
    let mut bad = config(None, None);
    bad.cache_target_size = bad.cache_max_size - 1024;
    assert!(!bad.validate());
}
