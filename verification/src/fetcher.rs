//! The remote fetcher's URL cache.
//!
//! Downloads without credentials run against a signed URL resolved per
//! `(torrent_id, file_id)`. Resolution is remote work the caller performs;
//! this module holds the decisions around it: a resolved URL is kept and
//! reused until its time-to-live runs out, so repeated reads of one file do
//! not resolve again for close to three hours. The caller deduplicates
//! concurrent resolutions of one file and stores what the one request
//! returned.

use vstd::prelude::*;

verus! {

/// How long a resolved URL stays usable: 175 minutes.
pub const URL_CACHE_TTL_SECS: u64 = 10500;

/// One cached resolution: the signed URL of a remote file, and when it
/// stops being trusted.
#[derive(Debug)]
pub struct CachedUrl {
    pub torrent_id: i64,
    pub file_id: i64,
    pub url: Vec<u8>,
    pub expires_at_secs: u64,
}

impl CachedUrl {
    /// Whether the URL is past its time-to-live at `now_secs`.
    pub fn is_expired(&self, now_secs: u64) -> (r: bool)
        ensures
            r == (self.expires_at_secs < now_secs),
    {
        self.expires_at_secs < now_secs
    }
}

/// Index of the entry of `(torrent_id, file_id)` at or past `k`, if any.
pub open spec fn spec_find_url_from(
    entries: Seq<CachedUrl>,
    torrent_id: i64,
    file_id: i64,
    k: int,
) -> Option<int>
    decreases entries.len() - k,
{
    if k < 0 || k >= entries.len() {
        None
    } else if entries[k].torrent_id == torrent_id && entries[k].file_id == file_id {
        Some(k)
    } else {
        spec_find_url_from(entries, torrent_id, file_id, k + 1)
    }
}

/// Index of the entry of `(torrent_id, file_id)`, if one is held.
pub open spec fn spec_find_url(entries: Seq<CachedUrl>, torrent_id: i64, file_id: i64) -> Option<
    int,
> {
    spec_find_url_from(entries, torrent_id, file_id, 0)
}

/// The resolved-URL cache, one slot per remote file.
pub struct UrlCache {
    entries: Vec<CachedUrl>,
}

impl UrlCache {
    pub closed spec fn view(self) -> Seq<CachedUrl> {
        self.entries@
    }

    /// One slot per `(torrent_id, file_id)`.
    pub open spec fn wf(self) -> bool {
        forall|i: int, j: int|
            0 <= i < j < self@.len() ==> !((#[trigger] self@[i]).torrent_id == (
            #[trigger] self@[j]).torrent_id && self@[i].file_id == self@[j].file_id)
    }

    pub fn new() -> (r: UrlCache)
        ensures
            r.wf(),
            r@ =~= Seq::<CachedUrl>::empty(),
    {
        UrlCache { entries: Vec::new() }
    }

    /// Find the slot of `(torrent_id, file_id)`.
    fn find(&self, torrent_id: i64, file_id: i64) -> (r: Option<usize>)
        ensures
            match r {
                Some(i) => i < self@.len() && spec_find_url(self@, torrent_id, file_id) == Some(
                    i as int,
                ),
                None => spec_find_url(self@, torrent_id, file_id) is None,
            },
    {
        let n = self.entries.len();
        let mut i: usize = 0;
        while i < n
            invariant
                0 <= i <= n,
                n == self@.len(),
                spec_find_url(self@, torrent_id, file_id) == spec_find_url_from(
                    self@,
                    torrent_id,
                    file_id,
                    i as int,
                ),
            decreases n - i,
        {
            let e = &self.entries[i];
            if e.torrent_id == torrent_id && e.file_id == file_id {
                return Some(i);
            }
            i = i + 1;
        }
        None
    }

    /// The cached URL of `(torrent_id, file_id)`, when one is held and its
    /// time-to-live has not run out at `now_secs`; the caller resolves
    /// afresh otherwise.
    pub fn lookup(&self, torrent_id: i64, file_id: i64, now_secs: u64) -> (r: Option<&Vec<u8>>)
        ensures
            match r {
                Some(url) => {
                    &&& spec_find_url(self@, torrent_id, file_id) matches Some(j)
                        && self@[j].expires_at_secs >= now_secs && url@ == self@[j].url@
                },
                None => match spec_find_url(self@, torrent_id, file_id) {
                    Some(j) => self@[j].expires_at_secs < now_secs,
                    None => true,
                },
            },
    {
        let found = self.find(torrent_id, file_id);
        match found {
            Some(i) => {
                let entry = &self.entries[i];
                if entry.is_expired(now_secs) {
                    None
                } else {
                    Some(&entry.url)
                }
            },
            None => None,
        }
    }

    /// Record a fresh resolution: the slot of `(torrent_id, file_id)` is
    /// overwritten, or opened when none is held.
    pub fn insert(&mut self, torrent_id: i64, file_id: i64, url: Vec<u8>, expires_at_secs: u64)
        requires
            old(self).wf(),
        ensures
            final(self).wf(),
            ({
                let record = CachedUrl { torrent_id, file_id, url, expires_at_secs };
                match spec_find_url(old(self)@, torrent_id, file_id) {
                    Some(j) => final(self)@ =~= old(self)@.update(j, record),
                    None => final(self)@ =~= old(self)@.push(record),
                }
            }),
    {
        let found = self.find(torrent_id, file_id);
        let record = CachedUrl { torrent_id, file_id, url, expires_at_secs };
        match found {
            Some(i) => {
                proof {
                    lemma_find_url_some_matches(self@, torrent_id, file_id, 0, i as int);
                }
                self.entries.set(i, record);
                proof {
                    assert forall|a: int, b: int| 0 <= a < b < self@.len() implies !((
                    #[trigger] self@[a]).torrent_id == (#[trigger] self@[b]).torrent_id
                        && self@[a].file_id == self@[b].file_id) by {
                        if a != i as int && b != i as int {
                            assert(self@[a] == old(self)@[a]);
                            assert(self@[b] == old(self)@[b]);
                        } else {
                            assert(old(self)@[i as int].torrent_id == torrent_id);
                            assert(old(self)@[i as int].file_id == file_id);
                        }
                    }
                }
            },
            None => {
                proof {
                    lemma_find_url_none_means_absent(self@, torrent_id, file_id, 0);
                }
                self.entries.push(record);
                proof {
                    assert forall|a: int, b: int| 0 <= a < b < self@.len() implies !((
                    #[trigger] self@[a]).torrent_id == (#[trigger] self@[b]).torrent_id
                        && self@[a].file_id == self@[b].file_id) by {
                        if b == self@.len() - 1 {
                            assert(self@[a] == old(self)@[a]);
                        } else {
                            assert(self@[a] == old(self)@[a]);
                            assert(self@[b] == old(self)@[b]);
                        }
                    }
                }
            },
        }
    }
}

/// A found slot holds the key it was found by.
proof fn lemma_find_url_some_matches(
    entries: Seq<CachedUrl>,
    torrent_id: i64,
    file_id: i64,
    k: int,
    i: int,
)
    requires
        0 <= k,
        spec_find_url_from(entries, torrent_id, file_id, k) == Some(i),
    ensures
        k <= i < entries.len(),
        entries[i].torrent_id == torrent_id,
        entries[i].file_id == file_id,
    decreases entries.len() - k,
{
    if !(entries[k].torrent_id == torrent_id && entries[k].file_id == file_id) {
        lemma_find_url_some_matches(entries, torrent_id, file_id, k + 1, i);
    }
}

/// Where the scan found nothing, no entry from `k` on holds the key.
proof fn lemma_find_url_none_means_absent(
    entries: Seq<CachedUrl>,
    torrent_id: i64,
    file_id: i64,
    k: int,
)
    requires
        spec_find_url_from(entries, torrent_id, file_id, k) is None,
        0 <= k,
    ensures
        forall|i: int|
            k <= i < entries.len() ==> !((#[trigger] entries[i]).torrent_id == torrent_id
                && entries[i].file_id == file_id),
    decreases entries.len() - k,
{
    if k < entries.len() {
        lemma_find_url_none_means_absent(entries, torrent_id, file_id, k + 1);
    }
}

} // verus!
