//! Download coordination.
//!
//! A batch of contiguous chunks becomes one HTTP range request. This module
//! computes the byte range and its header, chooses the authentication mode,
//! builds the path-based endpoint URL, classifies the server's answer,
//! schedules retries with backoff, and publishes chunks as resident one by
//! one while the response body streams in. The caller performs the HTTP
//! request and the real file writes, mirroring the latter onto the
//! [`SparseFile`](crate::sparse::SparseFile) model.

use vstd::prelude::*;

use crate::DEFAULT_CHUNK_SIZE;
use crate::chunk::{Chunk, lemma_chunk_extent, spec_chunk_size};
use crate::config::Config;
use crate::dec::{push_dec_u64, spec_dec_digits, parse_dec_at, digit_run_end};
use crate::entry::{Batch, CacheEntry, CacheError};
use crate::sparse::{SparseFile, range_set};

verus! {

/// What went wrong with one download attempt.
#[derive(Clone, Copy, Debug, PartialEq, Eq, Structural)]
pub enum DownloadFault {
    /// The server answered 429, with the backoff hint it sent, if any.
    Ratelimited(Option<u64>),
    /// The request could not be sent: connection, TLS or DNS failure.
    Fetch,
    /// An unexpected status; retryable for the transient server statuses.
    Response(u16, bool),
    /// The body stream broke mid-way.
    Stream,
    /// A local file operation failed; never retried.
    Io,
    /// A contract violation or misconfiguration; never retried.
    Generic,
}

/// What the retry loop does after a failed attempt: sleep and retry, and
/// possibly penalise the rate limiter first.
#[derive(Clone, Copy, Debug, PartialEq, Eq, Structural)]
pub struct BackoffDecision {
    /// Seconds to sleep before the next attempt; `None` gives up.
    pub wait_secs: Option<u64>,
    /// Seconds of global backoff to record with the rate limiter.
    pub penalize_secs: Option<u64>,
}

/// Backoff schedule for retryable server responses, by attempt number.
pub open spec fn spec_response_retry(attempts: int) -> Option<u64> {
    if attempts == 1 {
        Some(1u64)
    } else if attempts == 2 {
        Some(5u64)
    } else if attempts == 3 {
        Some(30u64)
    } else {
        None
    }
}

/// Backoff schedule for broken body streams, by attempt number.
pub open spec fn spec_stream_retry(attempts: int) -> Option<u64> {
    if attempts == 1 {
        Some(5u64)
    } else if attempts == 2 {
        Some(30u64)
    } else {
        None
    }
}

/// Backoff schedule for requests that could not be sent, by attempt number.
pub open spec fn spec_fetch_retry(attempts: int) -> Option<u64> {
    if attempts == 1 {
        Some(5u64)
    } else {
        None
    }
}

impl DownloadFault {
    /// The sleep before the next attempt, if any. A 429 with a hint waits
    /// what the server asked, however often it repeats; a 429 without one
    /// follows the response schedule; the transient schedules cover the
    /// rest; fatal faults give up at once.
    pub open spec fn spec_wait(self, attempts: int) -> Option<u64> {
        match self {
            DownloadFault::Ratelimited(Some(secs)) => Some(secs),
            DownloadFault::Ratelimited(None) => spec_response_retry(attempts),
            DownloadFault::Fetch => spec_fetch_retry(attempts),
            DownloadFault::Response(_, true) => spec_response_retry(attempts),
            DownloadFault::Response(_, false) => None,
            DownloadFault::Stream => spec_stream_retry(attempts),
            DownloadFault::Io => None,
            DownloadFault::Generic => None,
        }
    }

    /// Every 429 records a five-second global backoff with the rate limiter.
    pub open spec fn spec_penalize(self) -> Option<u64> {
        match self {
            DownloadFault::Ratelimited(_) => Some(5u64),
            _ => None,
        }
    }

    /// Decide the retry for the `attempts`-th failed attempt.
    pub fn get_backoff(&self, attempts: u64) -> (r: BackoffDecision)
        requires
            attempts >= 1,
        ensures
            r.wait_secs == self.spec_wait(attempts as int),
            r.penalize_secs == self.spec_penalize(),
    {
        let wait_secs: Option<u64> = match self {
            DownloadFault::Ratelimited(Some(secs)) => Some(*secs),
            DownloadFault::Ratelimited(None) => response_retry(attempts),
            DownloadFault::Fetch => {
                if attempts == 1 {
                    Some(5)
                } else {
                    None
                }
            },
            DownloadFault::Response(_, retryable) => {
                if *retryable {
                    response_retry(attempts)
                } else {
                    None
                }
            },
            DownloadFault::Stream => {
                if attempts == 1 {
                    Some(5)
                } else if attempts == 2 {
                    Some(30)
                } else {
                    None
                }
            },
            DownloadFault::Io => None,
            DownloadFault::Generic => None,
        };
        let penalize_secs: Option<u64> = match self {
            DownloadFault::Ratelimited(_) => Some(5),
            _ => None,
        };
        BackoffDecision { wait_secs, penalize_secs }
    }

    /// The error a reader sees when the retries are exhausted.
    pub fn to_cache_error(&self) -> (r: CacheError)
        ensures
            r == (if (self matches DownloadFault::Io) {
                CacheError::Io
            } else {
                CacheError::RemoteUnavailable
            }),
    {
        match self {
            DownloadFault::Io => CacheError::Io,
            _ => CacheError::RemoteUnavailable,
        }
    }
}

fn response_retry(attempts: u64) -> (r: Option<u64>)
    ensures
        r == spec_response_retry(attempts as int),
{
    if attempts == 1 {
        Some(1)
    } else if attempts == 2 {
        Some(5)
    } else if attempts == 3 {
        Some(30)
    } else {
        None
    }
}

/// Classify a response status: 206 carries the bytes; 429 asks for backoff,
/// with any hint the caller parsed from its headers; 408, 502, 503 and 504
/// are transient and retried; everything else is refused for good.
pub fn classify_status(status: u16, retry_after: Option<u64>) -> (r: Result<(), DownloadFault>)
    ensures
        r == (if status == 206 {
            Ok::<(), DownloadFault>(())
        } else if status == 429 {
            Err::<(), DownloadFault>(DownloadFault::Ratelimited(retry_after))
        } else if status == 408 || status == 502 || status == 503 || status == 504 {
            Err::<(), DownloadFault>(DownloadFault::Response(status, true))
        } else {
            Err::<(), DownloadFault>(DownloadFault::Response(status, false))
        }),
{
    if status == 206 {
        Ok(())
    } else if status == 429 {
        Err(DownloadFault::Ratelimited(retry_after))
    } else if status == 408 || status == 502 || status == 503 || status == 504 {
        Err(DownloadFault::Response(status, true))
    } else {
        Err(DownloadFault::Response(status, false))
    }
}

/// Read a backoff hint header value: the canonical decimal spelling of a
/// number of seconds, spanning the whole value. Accepts exactly those
/// values: a hint that is canonical and fits is never dropped.
pub fn parse_retry_after(value: &[u8]) -> (r: Option<u64>)
    ensures
        r matches Some(v) ==> value@ =~= spec_dec_digits(v as int),
        r is None ==> !(crate::dec::canonical_digits(value@) && crate::dec::spec_dec_value(value@)
            <= u64::MAX as int),
{
    proof {
        if crate::dec::canonical_digits(value@) {
            crate::dec::lemma_digit_run_end_at(value@, 0, value@.len() as int);
            assert(value@.subrange(0, value@.len() as int) =~= value@);
        }
    }
    let parsed = parse_dec_at(value, 0);
    match parsed {
        Some((v, end)) => {
            if end == value.len() {
                proof {
                    crate::dec::lemma_digit_run_end_bounds(value@, 0);
                    assert(value@.subrange(0, digit_run_end(value@, 0)) =~= value@);
                }
                Some(v)
            } else {
                None
            }
        },
        None => None,
    }
}

/// The byte range one batch covers: from the first chunk's offset to the
/// last chunk's final byte.
pub fn batch_byte_range(batch: Batch, file_size: u64) -> (r: (u64, u64))
    requires
        batch.first <= batch.last,
        (batch.last as int) < crate::chunk::spec_total_chunks(file_size),
    ensures
        r.0 as int == batch.first as int * DEFAULT_CHUNK_SIZE as int,
        r.1 as int == batch.last as int * DEFAULT_CHUNK_SIZE as int + spec_chunk_size(
            batch.last,
            file_size,
        ) - 1,
        r.0 <= r.1,
        r.1 as int <= file_size as int - 1,
{
    proof {
        crate::chunk::lemma_chunk_offset_in_file(batch.first, file_size);
        crate::chunk::lemma_chunk_offset_in_file(batch.last, file_size);
        lemma_chunk_extent(
            Chunk {
                index: batch.last,
                offset: (batch.last as int * DEFAULT_CHUNK_SIZE as int) as u64,
                size: (spec_chunk_size(batch.last, file_size)) as u64,
                accessed_at_secs: 0,
                cached: false,
                downloading: false,
            },
            file_size,
        );
        assert(batch.first as int * DEFAULT_CHUNK_SIZE as int <= batch.last as int
            * DEFAULT_CHUNK_SIZE as int) by (nonlinear_arith)
            requires
                batch.first <= batch.last,
        ;
    }
    let start = batch.first * DEFAULT_CHUNK_SIZE;
    let last_size = crate::chunk::get_chunk_size_from_index(batch.last, file_size);
    let end = batch.last * DEFAULT_CHUNK_SIZE + last_size - 1;
    (start, end)
}

/// The number of bytes a 206 for `[start, end]` must announce.
pub fn expected_content_length(start: u64, end: u64) -> (r: u64)
    requires
        start <= end,
        end < u64::MAX,
    ensures
        r as int == end as int - start as int + 1,
{
    end - start + 1
}

/// `bytes=<start>-<end>`, the range header of one batch request.
pub fn range_header(start: u64, end: u64) -> (r: Vec<u8>)
    ensures
        r@ =~= seq![98u8, 121u8, 116u8, 101u8, 115u8, 61u8] + spec_dec_digits(start as int) + seq![
            45u8,
        ] + spec_dec_digits(end as int),
{
    let mut out: Vec<u8> = Vec::new();
    out.push(98);
    out.push(121);
    out.push(116);
    out.push(101);
    out.push(115);
    out.push(61);
    push_dec_u64(&mut out, start);
    out.push(45);
    push_dec_u64(&mut out, end);
    out
}

/// Bytes that keep their spelling in a percent-encoded URL segment: ASCII
/// alphanumerics and `-`, `.`, `_`, `~`.
pub open spec fn is_url_unreserved(b: u8) -> bool {
    (48 <= b <= 57) || (65 <= b <= 90) || (97 <= b <= 122) || b == 45 || b == 46 || b == 95 || b
        == 126
}

/// Upper-case hexadecimal digit of a value below sixteen.
pub open spec fn spec_hex_digit(v: int) -> u8 {
    if v < 10 {
        (48 + v) as u8
    } else {
        (55 + v) as u8
    }
}

/// Percent-encoding of one byte.
pub open spec fn spec_encode_byte(b: u8) -> Seq<u8> {
    if is_url_unreserved(b) {
        seq![b]
    } else {
        seq![37u8, spec_hex_digit(b as int / 16), spec_hex_digit(b as int % 16)]
    }
}

/// Percent-encoding of a byte string.
pub open spec fn spec_percent_encoded(s: Seq<u8>) -> Seq<u8>
    decreases s.len(),
{
    if s.len() == 0 {
        Seq::empty()
    } else {
        spec_encode_byte(s[0]) + spec_percent_encoded(s.drop_first())
    }
}

/// Relies on urlencoding::encode_binary: percent-encodes every byte except
/// ASCII alphanumerics and `-`, `.`, `_`, `~`, spelling the escaped bytes
/// with upper-case hexadecimal digits.
#[verifier::external_body]
fn percent_encode(seg: &[u8]) -> (r: Vec<u8>)
    ensures
        r@ =~= spec_percent_encoded(seg@),
{
    urlencoding::encode_binary(seg).into_owned().into_bytes()
}

/// A remote path in a URL: every byte percent-encoded, except the path
/// separators, which pass through.
pub open spec fn spec_path_encoded(s: Seq<u8>) -> Seq<u8>
    decreases s.len(),
{
    if s.len() == 0 {
        Seq::empty()
    } else if s[0] == 47 {
        seq![47u8] + spec_path_encoded(s.drop_first())
    } else {
        spec_encode_byte(s[0]) + spec_path_encoded(s.drop_first())
    }
}

/// `https://webdav.torbox.app/`
pub open spec fn spec_webdav_prefix() -> Seq<u8> {
    seq![
        104u8,
        116u8,
        116u8,
        112u8,
        115u8,
        58u8,
        47u8,
        47u8,
        119u8,
        101u8,
        98u8,
        100u8,
        97u8,
        118u8,
        46u8,
        116u8,
        111u8,
        114u8,
        98u8,
        111u8,
        120u8,
        46u8,
        97u8,
        112u8,
        112u8,
        47u8,
    ]
}

/// Splitting off a prefix splits the encoding.
proof fn lemma_path_encoded_concat(a: Seq<u8>, b: Seq<u8>)
    ensures
        spec_path_encoded(a + b) =~= spec_path_encoded(a) + spec_path_encoded(b),
    decreases a.len(),
{
    if a.len() == 0 {
        assert(a + b =~= b);
    } else {
        lemma_path_encoded_concat(a.drop_first(), b);
        assert((a + b).drop_first() =~= a.drop_first() + b);
        assert((a + b)[0] == a[0]);
    }
}

/// On a run without separators, the path encoding is the plain
/// percent-encoding.
proof fn lemma_path_encoded_segment(s: Seq<u8>)
    requires
        forall|i: int| 0 <= i < s.len() ==> (#[trigger] s[i]) != 47,
    ensures
        spec_path_encoded(s) =~= spec_percent_encoded(s),
    decreases s.len(),
{
    if s.len() > 0 {
        assert(forall|i: int|
            0 <= i < s.drop_first().len() ==> (#[trigger] s.drop_first()[i]) == s[i + 1]);
        lemma_path_encoded_segment(s.drop_first());
    }
}

/// Copy of one subrange of a byte slice.
fn copy_range(s: &[u8], from: usize, to: usize) -> (r: Vec<u8>)
    requires
        from <= to <= s@.len(),
    ensures
        r@ =~= s@.subrange(from as int, to as int),
{
    let mut out: Vec<u8> = Vec::new();
    let mut j: usize = from;
    while j < to
        invariant
            from <= j <= to <= s@.len(),
            out@ =~= s@.subrange(from as int, j as int),
        decreases to - j,
    {
        out.push(s[j]);
        j = j + 1;
        proof {
            assert(out@ =~= s@.subrange(from as int, j as int));
        }
    }
    out
}

/// The basic-auth endpoint URL of a remote path: the fixed host, then the
/// path with each segment percent-encoded and the separators kept.
pub fn build_webdav_url(path: &[u8]) -> (r: Vec<u8>)
    requires
        path@.len() < usize::MAX as int,
    ensures
        r@ =~= spec_webdav_prefix() + spec_path_encoded(path@),
{
    let mut out: Vec<u8> = Vec::new();
    out.push(104);
    out.push(116);
    out.push(116);
    out.push(112);
    out.push(115);
    out.push(58);
    out.push(47);
    out.push(47);
    out.push(119);
    out.push(101);
    out.push(98);
    out.push(100);
    out.push(97);
    out.push(118);
    out.push(46);
    out.push(116);
    out.push(111);
    out.push(114);
    out.push(98);
    out.push(111);
    out.push(120);
    out.push(46);
    out.push(97);
    out.push(112);
    out.push(112);
    out.push(47);
    assert(out@ =~= spec_webdav_prefix());
    let n = path.len();
    let mut seg_start: usize = 0;
    let mut i: usize = 0;
    while i <= n
        invariant
            0 <= seg_start <= i <= n + 1,
            i <= n + 1,
            n == path@.len(),
            n < usize::MAX,
            i == n + 1 ==> seg_start == n,
            out@ =~= spec_webdav_prefix() + spec_path_encoded(path@.take(seg_start as int)),
            forall|j: int| seg_start <= j < i && j < n ==> (#[trigger] path@[j]) != 47,
        decreases n + 1 - i,
    {
        let at_sep = i < n && path[i] == 47;
        if i == n || at_sep {
            // flush the pending segment
            let seg = copy_range(path, seg_start, i);
            let enc = percent_encode(seg.as_slice());
            let mut j: usize = 0;
            let ghost pre_out = out@;
            while j < enc.len()
                invariant
                    0 <= j <= enc@.len(),
                    out@ =~= pre_out + enc@.take(j as int),
                decreases enc@.len() - j,
            {
                out.push(enc[j]);
                j = j + 1;
            }
            proof {
                assert(out@ =~= pre_out + enc@);
                let segv = path@.subrange(seg_start as int, i as int);
                lemma_path_encoded_segment(segv);
                lemma_path_encoded_concat(path@.take(seg_start as int), segv);
                assert(path@.take(seg_start as int) + segv =~= path@.take(i as int));
            }
            if at_sep {
                out.push(47);
                proof {
                    let upto = path@.take(i as int);
                    let sep = path@.subrange(i as int, i as int + 1);
                    assert(sep =~= seq![47u8]);
                    lemma_path_encoded_concat(upto, sep);
                    assert(upto + sep =~= path@.take(i as int + 1));
                    assert(sep.drop_first() =~= Seq::<u8>::empty());
                    assert(spec_path_encoded(Seq::<u8>::empty()) =~= Seq::<u8>::empty());
                    assert(spec_path_encoded(sep) =~= seq![47u8]);
                }
                seg_start = i + 1;
            } else {
                seg_start = i;
            }
        }
        i = i + 1;
    }
    proof {
        assert(path@.take(n as int) =~= path@);
    }
    out
}

/// End of the extent of chunk `k`.
pub open spec fn spec_chunk_end(chunks: Seq<Chunk>, k: int) -> int {
    chunks[k].offset as int + chunks[k].size as int
}

/// The write path of one batch download. The response body arrives as a
/// stream of byte blocks; each block lands in the backing file at the
/// running offset, and every chunk whose bytes are all durable is published
/// as resident at once, so readers at the head of the batch need not wait
/// for its tail.
pub struct DownloadProgress {
    pub batch: Batch,
    pub start_offset: u64,
    pub end_offset: u64,
    pub bytes_written: u64,
    pub next_unpublished: u64,
}

impl DownloadProgress {
    /// The machine's invariant against the entry it downloads for: the
    /// published chunks are exactly those whose extent lies within the
    /// bytes written so far, in index order from the front of the batch,
    /// and the whole batch holds its download guards.
    pub open spec fn wf(self, entry: CacheEntry) -> bool {
        &&& entry.wf()
        &&& self.batch.first <= self.batch.last
        &&& (self.batch.last as int) < entry.spec_chunks().len()
        &&& self.start_offset as int == self.batch.first as int * DEFAULT_CHUNK_SIZE as int
        &&& self.end_offset as int == self.batch.last as int * DEFAULT_CHUNK_SIZE as int
            + spec_chunk_size(self.batch.last, entry.spec_file_size()) - 1
        &&& self.bytes_written as int <= self.end_offset as int - self.start_offset as int + 1
        &&& self.batch.first as int <= self.next_unpublished as int <= self.batch.last as int + 1
        &&& forall|k: int|
            self.batch.first as int <= k < self.next_unpublished as int ==> (
            #[trigger] entry.spec_chunks()[k]).cached
        &&& forall|k: int|
            self.next_unpublished as int <= k <= self.batch.last as int ==> !(
            #[trigger] entry.spec_chunks()[k]).cached
        &&& forall|k: int|
            self.batch.first as int <= k <= self.batch.last as int ==> (
            #[trigger] entry.spec_chunks()[k]).downloading
        &&& forall|k: int|
            self.batch.first as int <= k < self.next_unpublished as int ==> spec_chunk_end(
                entry.spec_chunks(),
                k,
            ) <= self.start_offset as int + self.bytes_written as int
        &&& (self.next_unpublished as int <= self.batch.last as int ==> spec_chunk_end(
            entry.spec_chunks(),
            self.next_unpublished as int,
        ) > self.start_offset as int + self.bytes_written as int)
    }

    /// Start the write path for one batch, validating the announced length:
    /// a 206 whose `Content-Length` is not exactly the requested range is a
    /// contract violation and is refused.
    pub fn new(batch: Batch, entry: &CacheEntry, content_length: u64) -> (r: Option<
        DownloadProgress,
    >)
        requires
            entry.wf(),
            batch.first <= batch.last,
            (batch.last as int) < entry.spec_chunks().len(),
            forall|k: int|
                batch.first as int <= k <= batch.last as int ==> (
                #[trigger] entry.spec_chunks()[k]).downloading && !entry.spec_chunks()[k].cached,
        ensures
            match r {
                Some(p) => {
                    &&& p.wf(*entry)
                    &&& p.batch == batch
                    &&& p.bytes_written == 0
                    &&& p.next_unpublished == batch.first
                    &&& content_length as int == p.end_offset as int - p.start_offset as int + 1
                },
                None => content_length as int != batch.last as int * DEFAULT_CHUNK_SIZE as int
                    + spec_chunk_size(batch.last, entry.spec_file_size()) - (batch.first as int
                    * DEFAULT_CHUNK_SIZE as int),
            },
    {
        let file_size = entry.get_file().size as u64;
        let range = batch_byte_range(batch, file_size);
        let expected = expected_content_length(range.0, range.1);
        if content_length != expected {
            return None;
        }
        let p = DownloadProgress {
            batch,
            start_offset: range.0,
            end_offset: range.1,
            bytes_written: 0,
            next_unpublished: batch.first,
        };
        proof {
            let cks = entry.spec_chunks();
            assert(cks[batch.first as int].offset as int == batch.first as int
                * DEFAULT_CHUNK_SIZE as int);
            lemma_chunk_extent(cks[batch.first as int], entry.spec_file_size());
            assert(spec_chunk_end(cks, batch.first as int) > p.start_offset as int);
        }
        Some(p)
    }

    /// Whether the whole announced range has arrived.
    pub fn is_complete(&self) -> (r: bool)
        requires
            self.start_offset <= self.end_offset,
            self.end_offset < u64::MAX,
        ensures
            r == (self.bytes_written as int == self.end_offset as int - self.start_offset as int
                + 1),
    {
        self.bytes_written == self.end_offset - self.start_offset + 1
    }

    /// Advance the write path by `advance` bytes that the caller has made
    /// durable at the running offset, and publish every chunk of the batch
    /// whose extent is now fully durable, in index order. Returns the newly
    /// published chunk indices, for the sidecar flush.
    #[verifier::rlimit(100)]
    pub fn absorb_state(&mut self, entry: &mut CacheEntry, advance: u64) -> (published: Vec<u64>)
        requires
            old(self).wf(*old(entry)),
            advance as int <= old(self).end_offset as int - old(self).start_offset as int + 1
                - old(self).bytes_written as int,
        ensures
            final(self).wf(*final(entry)),
            final(self).batch == old(self).batch,
            final(self).start_offset == old(self).start_offset,
            final(self).end_offset == old(self).end_offset,
            final(self).bytes_written as int == old(self).bytes_written as int + advance as int,
            final(entry).spec_file() == old(entry).spec_file(),
            final(entry).spec_readers() =~= old(entry).spec_readers(),
            final(entry).spec_duration_hint() == old(entry).spec_duration_hint(),
            final(entry).spec_chunks().len() == old(entry).spec_chunks().len(),
            forall|k: int|
                0 <= k < final(entry).spec_chunks().len() ==> #[trigger] final(entry).spec_chunks()[k] == (if old(self).next_unpublished as int <= k < final(self).next_unpublished as int {
                    (Chunk { cached: true, ..old(entry).spec_chunks()[k] })
                } else {
                    old(entry).spec_chunks()[k]
                }),
            published@.len() == final(self).next_unpublished as int - old(self).next_unpublished as int,
            forall|j: int|
                0 <= j < published@.len() ==> (#[trigger] published@[j]) as int == old(self).next_unpublished as int + j,
    {
        proof {
            let cks = entry.spec_chunks();
            assert(cks[self.batch.last as int].offset as int == self.batch.last as int
                * DEFAULT_CHUNK_SIZE as int);
            lemma_chunk_extent(cks[self.batch.last as int], entry.spec_file_size());
        }
        self.bytes_written = self.bytes_written + advance;
        let threshold = self.start_offset + self.bytes_written;
        let mut published: Vec<u64> = Vec::new();
        let ghost first_new = self.next_unpublished as int;
        let mut done = false;
        while !done
            invariant
                done ==> (self.next_unpublished as int > self.batch.last as int || spec_chunk_end(
                    entry.spec_chunks(),
                    self.next_unpublished as int,
                ) > threshold as int),
                old(self).batch == self.batch,
                old(self).start_offset == self.start_offset,
                old(self).end_offset == self.end_offset,
                self.bytes_written as int == old(self).bytes_written as int + advance as int,
                threshold as int == self.start_offset as int + self.bytes_written as int,
                first_new <= self.next_unpublished as int,
                first_new == old(self).next_unpublished as int,
                self.batch.first as int <= self.next_unpublished as int <= self.batch.last as int
                    + 1,
                self.batch.first <= self.batch.last,
                self.start_offset as int == self.batch.first as int * DEFAULT_CHUNK_SIZE as int,
                self.end_offset as int == self.batch.last as int * DEFAULT_CHUNK_SIZE as int
                    + spec_chunk_size(self.batch.last, entry.spec_file_size()) - 1,
                self.bytes_written as int <= self.end_offset as int - self.start_offset as int
                    + 1,
                entry.wf(),
                entry.spec_file() == old(entry).spec_file(),
                entry.spec_readers() =~= old(entry).spec_readers(),
                entry.spec_duration_hint() == old(entry).spec_duration_hint(),
                entry.spec_chunks().len() == old(entry).spec_chunks().len(),
                (self.batch.last as int) < entry.spec_chunks().len(),
                forall|k: int|
                    0 <= k < entry.spec_chunks().len() ==> #[trigger] entry.spec_chunks()[k] == (
                    if first_new <= k < self.next_unpublished as int {
                        (Chunk { cached: true, ..old(entry).spec_chunks()[k] })
                    } else {
                        old(entry).spec_chunks()[k]
                    }),
                forall|k: int|
                    self.batch.first as int <= k < self.next_unpublished as int ==> (
                    #[trigger] entry.spec_chunks()[k]).cached,
                forall|k: int|
                    self.next_unpublished as int <= k <= self.batch.last as int ==> !(
                    #[trigger] entry.spec_chunks()[k]).cached,
                forall|k: int|
                    self.batch.first as int <= k <= self.batch.last as int ==> (
                    #[trigger] entry.spec_chunks()[k]).downloading,
                forall|k: int|
                    self.batch.first as int <= k < self.next_unpublished as int ==> spec_chunk_end(
                        entry.spec_chunks(),
                        k,
                    ) <= threshold as int,
                published@.len() == self.next_unpublished as int - first_new,
                forall|j: int|
                    0 <= j < published@.len() ==> (#[trigger] published@[j]) as int == first_new
                        + j,
            decreases self.batch.last as int + 1 - self.next_unpublished as int, (if done {
                0int
            } else {
                1int
            }),
        {
            if self.next_unpublished > self.batch.last {
                done = true;
            } else {
                let nn = entry.get_chunks().len();
                proof {
                    assert((self.next_unpublished as int) < nn as int);
                }
                let k = self.next_unpublished as usize;
                let c = entry.get_chunks()[k];
                proof {
                    lemma_chunk_extent(c, entry.spec_file_size());
                }
                if c.offset + c.size <= threshold {
                    let published_chunk = Chunk { cached: true, ..c };
                    entry.set_chunk(k, published_chunk);
                    published.push(self.next_unpublished);
                    self.next_unpublished = self.next_unpublished + 1;
                } else {
                    done = true;
                }
            }
        }
        published
    }

    /// Absorb one block of the response body: the bytes land in the file at
    /// the running offset, and every chunk of the batch whose extent is now
    /// fully durable is published as resident. Returns the newly published
    /// chunk indices, in order, for the sidecar flush. The caller that
    /// writes a real file instead performs the write itself and calls
    /// `absorb_state` with the block's length.
    #[verifier::rlimit(100)]
    pub fn absorb(
        &mut self,
        entry: &mut CacheEntry,
        store: &mut SparseFile,
        block: &[u8],
    ) -> (published: Vec<u64>)
        requires
            old(self).wf(*old(entry)),
            old(entry).resident_ok(*old(store)),
            old(store)@.len() == old(entry).spec_file_size(),
            range_set(old(self).start_offset as int, old(self).bytes_written as int).subset_of(
                old(store).spec_written(),
            ),
            block@.len() <= old(self).end_offset as int - old(self).start_offset as int + 1 - old(self).bytes_written as int,
        ensures
            final(self).wf(*final(entry)),
            final(entry).resident_ok(*final(store)),
            final(self).batch == old(self).batch,
            final(self).start_offset == old(self).start_offset,
            final(self).end_offset == old(self).end_offset,
            final(self).bytes_written as int == old(self).bytes_written as int + block@.len(),
            range_set(final(self).start_offset as int, final(self).bytes_written as int).subset_of(
                final(store).spec_written(),
            ),
            final(store)@.len() == old(store)@.len(),
            forall|i: int|
                0 <= i < final(store)@.len() ==> final(store)@[i] == (if old(self).start_offset
                    as int + old(self).bytes_written as int <= i < old(self).start_offset as int
                    + old(self).bytes_written as int + block@.len() {
                    block@[i - (old(self).start_offset as int + old(self).bytes_written as int)]
                } else {
                    old(store)@[i]
                }),
            final(entry).spec_file() == old(entry).spec_file(),
            final(entry).spec_readers() =~= old(entry).spec_readers(),
            final(entry).spec_duration_hint() == old(entry).spec_duration_hint(),
            final(entry).spec_chunks().len() == old(entry).spec_chunks().len(),
            forall|k: int|
                0 <= k < final(entry).spec_chunks().len() ==> #[trigger] final(entry).spec_chunks()[k] == (if old(self).next_unpublished as int <= k < final(self).next_unpublished as int {
                    (Chunk { cached: true, ..old(entry).spec_chunks()[k] })
                } else {
                    old(entry).spec_chunks()[k]
                }),
            published@.len() == final(self).next_unpublished as int - old(self).next_unpublished as int,
            forall|j: int|
                0 <= j < published@.len() ==> (#[trigger] published@[j]) as int == old(self).next_unpublished as int + j,
    {
        let store_len = store.len();
        proof {
            let cks = entry.spec_chunks();
            assert(cks[self.batch.last as int].offset as int == self.batch.last as int
                * DEFAULT_CHUNK_SIZE as int);
            lemma_chunk_extent(cks[self.batch.last as int], entry.spec_file_size());
            assert(self.end_offset as int + 1 <= store@.len());
        }
        let write_at = self.start_offset + self.bytes_written;
        proof {
            assert(write_at as int + block@.len() <= self.end_offset as int + 1);
        }
        store.write_at(write_at as usize, block);
        let ghost old_written = self.bytes_written as int;
        let published = self.absorb_state(entry, block.len() as u64);
        proof {
            assert forall|p: int|
                range_set(self.start_offset as int, self.bytes_written as int).contains(p)
                implies store.spec_written().contains(p) by {
                if p < self.start_offset as int + old_written {
                    assert(range_set(old(self).start_offset as int, old_written).contains(p));
                    assert(old(store).spec_written().contains(p));
                } else {
                    assert(range_set(write_at as int, block@.len() as int).contains(p));
                }
            }
            assert forall|i: int|
                0 <= i < entry.spec_chunks().len() && (#[trigger] entry.spec_chunks()[i]).cached
                implies range_set(
                entry.spec_chunks()[i].offset as int,
                entry.spec_chunks()[i].size as int,
            ).subset_of(store.spec_written()) by {
                if old(self).next_unpublished as int <= i < self.next_unpublished as int {
                    // published by this call: its extent lies inside the
                    // bytes written so far
                    assert(spec_chunk_end(entry.spec_chunks(), i) <= self.start_offset as int
                        + self.bytes_written as int);
                    assert(entry.spec_chunks()[i].offset as int >= self.start_offset as int)
                        by (nonlinear_arith)
                        requires
                            entry.spec_chunks()[i].offset as int == i * DEFAULT_CHUNK_SIZE as int,
                            self.start_offset as int == self.batch.first as int
                                * DEFAULT_CHUNK_SIZE as int,
                            self.batch.first as int <= i,
                            DEFAULT_CHUNK_SIZE > 0,
                    ;
                    assert forall|p: int|
                        range_set(
                            entry.spec_chunks()[i].offset as int,
                            entry.spec_chunks()[i].size as int,
                        ).contains(p) implies store.spec_written().contains(p) by {
                        assert(range_set(
                            self.start_offset as int,
                            self.bytes_written as int,
                        ).contains(p));
                    }
                } else {
                    assert(entry.spec_chunks()[i] == old(entry).spec_chunks()[i]);
                    assert(range_set(
                        entry.spec_chunks()[i].offset as int,
                        entry.spec_chunks()[i].size as int,
                    ).subset_of(old(store).spec_written()));
                    assert forall|p: int|
                        range_set(
                            entry.spec_chunks()[i].offset as int,
                            entry.spec_chunks()[i].size as int,
                        ).contains(p) implies store.spec_written().contains(p) by {
                        assert(old(store).spec_written().contains(p));
                    }
                }
            }
        }
        published
    }
}

/// Hand the batch's guards back: after success, or after the retries are
/// exhausted, the downloader releases every chunk of its batch, which is
/// the signal waiting readers act on.
pub fn release_batch(entry: &mut CacheEntry, batch: Batch)
    requires
        old(entry).wf(),
        batch.first <= batch.last,
        (batch.last as int) < old(entry).spec_chunks().len(),
    ensures
        final(entry).wf(),
        final(entry).spec_file() == old(entry).spec_file(),
        final(entry).spec_readers() =~= old(entry).spec_readers(),
        final(entry).spec_duration_hint() == old(entry).spec_duration_hint(),
        final(entry).spec_chunks().len() == old(entry).spec_chunks().len(),
        forall|k: int|
            0 <= k < final(entry).spec_chunks().len() ==> #[trigger] final(entry).spec_chunks()[k]
                == (if batch.first as int <= k <= batch.last as int {
                (Chunk { downloading: false, ..old(entry).spec_chunks()[k] })
            } else {
                old(entry).spec_chunks()[k]
            }),
        forall|st: SparseFile| old(entry).resident_ok(st) ==> final(entry).resident_ok(st),
{
    let n = entry.get_chunks().len();
    proof {
        assert((batch.last as int) < n as int);
    }
    let mut k = batch.first as usize;
    let last = batch.last as usize;
    while k <= last
        invariant
            batch.first as int <= k as int <= last as int + 1,
            (batch.last as int) < entry.spec_chunks().len(),
            last as int == batch.last as int,
            n as int == entry.spec_chunks().len(),
            last < n,
            entry.wf(),
            entry.spec_file() == old(entry).spec_file(),
            entry.spec_readers() =~= old(entry).spec_readers(),
            entry.spec_duration_hint() == old(entry).spec_duration_hint(),
            entry.spec_chunks().len() == old(entry).spec_chunks().len(),
            forall|j: int|
                0 <= j < entry.spec_chunks().len() ==> #[trigger] entry.spec_chunks()[j] == (
                if batch.first as int <= j < k as int {
                    (Chunk { downloading: false, ..old(entry).spec_chunks()[j] })
                } else {
                    old(entry).spec_chunks()[j]
                }),
        decreases last + 1 - k,
    {
        let c = entry.get_chunks()[k];
        let released = Chunk { downloading: false, ..c };
        entry.set_chunk(k, released);
        k = k + 1;
    }
    proof {
        assert forall|st: SparseFile| old(entry).resident_ok(st) implies entry.resident_ok(
            st,
        ) by {
            assert forall|i: int|
                0 <= i < entry.spec_chunks().len() && (#[trigger] entry.spec_chunks()[i]).cached
                implies range_set(
                entry.spec_chunks()[i].offset as int,
                entry.spec_chunks()[i].size as int,
            ).subset_of(st.spec_written()) by {
                assert(entry.spec_chunks()[i].cached == old(entry).spec_chunks()[i].cached);
                assert(entry.spec_chunks()[i].offset == old(entry).spec_chunks()[i].offset);
                assert(entry.spec_chunks()[i].size == old(entry).spec_chunks()[i].size);
            }
        }
    }
}

/// Where a retry picks a batch up after a failed attempt: the suffix from
/// the first chunk the attempt did not publish. Publication runs through
/// the batch in index order, so the resident chunks form a prefix; the
/// published head stays, and the fresh range request covers no resident
/// chunk. `None` when everything landed before the attempt failed.
pub fn resume_batch(entry: &CacheEntry, batch: Batch) -> (r: Option<Batch>)
    requires
        entry.wf(),
        batch.first <= batch.last,
        (batch.last as int) < entry.spec_chunks().len(),
        // within the batch, residency is a prefix
        forall|k1: int, k2: int|
            batch.first as int <= k1 <= k2 <= batch.last as int && (
            #[trigger] entry.spec_chunks()[k2]).cached ==> (
            #[trigger] entry.spec_chunks()[k1]).cached,
    ensures
        match r {
            Some(b) => {
                &&& b.last == batch.last
                &&& batch.first <= b.first <= batch.last
                &&& forall|k: int|
                    batch.first as int <= k < b.first as int ==> (
                    #[trigger] entry.spec_chunks()[k]).cached
                &&& forall|k: int|
                    b.first as int <= k <= b.last as int ==> !(
                    #[trigger] entry.spec_chunks()[k]).cached
            },
            None => forall|k: int|
                batch.first as int <= k <= batch.last as int ==> (
                #[trigger] entry.spec_chunks()[k]).cached,
        },
{
    let n = entry.get_chunks().len();
    proof {
        assert((batch.last as int) < n as int);
    }
    let mut first = batch.first;
    while first <= batch.last && entry.get_chunks()[first as usize].cached
        invariant
            entry.wf(),
            batch.first <= first,
            first as int <= batch.last as int + 1,
            (batch.last as int) < entry.spec_chunks().len(),
            n as int == entry.spec_chunks().len(),
            batch.last < n as u64,
            forall|k1: int, k2: int|
                batch.first as int <= k1 <= k2 <= batch.last as int && (
                #[trigger] entry.spec_chunks()[k2]).cached ==> (
                #[trigger] entry.spec_chunks()[k1]).cached,
            forall|k: int|
                batch.first as int <= k < first as int ==> (
                #[trigger] entry.spec_chunks()[k]).cached,
        decreases batch.last as int + 1 - first as int,
    {
        first = first + 1;
    }
    if first > batch.last {
        None
    } else {
        proof {
            assert forall|k: int|
                first as int <= k <= batch.last as int implies !(
            #[trigger] entry.spec_chunks()[k]).cached by {
                if entry.spec_chunks()[k].cached {
                    assert(entry.spec_chunks()[first as int].cached);
                }
            }
        }
        Some(Batch { first, last: batch.last })
    }
}

/// How a download authenticates, per configuration.
#[derive(Clone, Copy, Debug, PartialEq, Eq, Structural)]
pub enum AuthMode {
    /// Basic authentication against the path-based endpoint.
    Basic,
    /// A signed URL resolved per file by the remote fetcher.
    SignedUrl,
}

/// Pick the authentication mode: credentials take the path-based endpoint,
/// no credentials take the resolved signed URL, and half-set credentials
/// are a configuration fault.
pub fn choose_auth(config: &Config) -> (r: Result<AuthMode, DownloadFault>)
    ensures
        r == (match (config.torbox_username, config.torbox_password) {
            (Some(_), Some(_)) => Ok::<AuthMode, DownloadFault>(AuthMode::Basic),
            (None, None) => Ok::<AuthMode, DownloadFault>(AuthMode::SignedUrl),
            _ => Err::<AuthMode, DownloadFault>(DownloadFault::Generic),
        }),
{
    match (&config.torbox_username, &config.torbox_password) {
        (Some(_), Some(_)) => Ok(AuthMode::Basic),
        (None, None) => Ok(AuthMode::SignedUrl),
        _ => Err(DownloadFault::Generic),
    }
}

} // verus!
