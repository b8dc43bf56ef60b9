//! The two-tier TTL cache: directory listings keyed by path, file bodies
//! keyed by path under a byte budget with oldest-first eviction, and the
//! point-wise invalidation every mutation performs.

use vstd::prelude::*;
use vstd::slice::slice_to_vec;
use crate::paths::{str_eq, spec_parent, parent_of};
use crate::types::{CacheConfig, RemoteEntry, duplicate_entries, entries_view};

verus! {

/// A cache entry is fresh while its age, read on the same clock that
/// stamped it, stays below the time-to-live.
pub open spec fn is_fresh(stamp: u64, ttl: u64, now: u64) -> bool {
    stamp <= now && now - stamp < ttl
}

/// One cached directory listing.
struct DirCacheEntry {
    path: String,
    entries: Vec<RemoteEntry>,
    stamp: u64,
}

/// One cached file body.
struct FileCacheEntry {
    path: String,
    data: Vec<u8>,
    stamp: u64,
}

/// The position of the listing cached for `p`, or -1.
pub open spec fn dfind(s: Seq<(Seq<char>, Seq<(Seq<char>, bool, u64)>, u64)>, p: Seq<char>) -> int
    decreases s.len(),
{
    if s.len() == 0 {
        -1
    } else if s[0].0 == p {
        0
    } else {
        let r = dfind(s.drop_first(), p);
        if r == -1 {
            -1
        } else {
            r + 1
        }
    }
}

/// The position of the body cached for `p`, or -1.
pub open spec fn ffind(s: Seq<(Seq<char>, Seq<u8>, u64)>, p: Seq<char>) -> int
    decreases s.len(),
{
    if s.len() == 0 {
        -1
    } else if s[0].0 == p {
        0
    } else {
        let r = ffind(s.drop_first(), p);
        if r == -1 {
            -1
        } else {
            r + 1
        }
    }
}

/// The listing and stamp cached for `p`, if any.
pub open spec fn dlookup(
    s: Seq<(Seq<char>, Seq<(Seq<char>, bool, u64)>, u64)>,
    p: Seq<char>,
) -> Option<(Seq<(Seq<char>, bool, u64)>, u64)> {
    if dfind(s, p) >= 0 {
        Some((s[dfind(s, p)].1, s[dfind(s, p)].2))
    } else {
        None
    }
}

/// The body and stamp cached for `p`, if any.
pub open spec fn flookup(s: Seq<(Seq<char>, Seq<u8>, u64)>, p: Seq<char>) -> Option<(Seq<u8>, u64)> {
    if ffind(s, p) >= 0 {
        Some((s[ffind(s, p)].1, s[ffind(s, p)].2))
    } else {
        None
    }
}

/// What `dfind` finds: the first entry for `p`, or -1 when none exists.
pub proof fn lemma_dfind(s: Seq<(Seq<char>, Seq<(Seq<char>, bool, u64)>, u64)>, p: Seq<char>)
    ensures
        -1 <= dfind(s, p) < s.len(),
        dfind(s, p) == -1 ==> forall|k: int| 0 <= k < s.len() ==> (#[trigger] s[k]).0 != p,
        dfind(s, p) >= 0 ==> s[dfind(s, p)].0 == p,
        forall|k: int| 0 <= k < dfind(s, p) ==> (#[trigger] s[k]).0 != p,
    decreases s.len(),
{
    if s.len() > 0 && s[0].0 != p {
        let d = s.drop_first();
        lemma_dfind(d, p);
        assert(forall|k: int| 0 <= k < d.len() ==> #[trigger] d[k] == s[k + 1]);
        if dfind(s, p) == -1 {
            assert forall|k: int| 0 <= k < s.len() implies (#[trigger] s[k]).0 != p by {
                if k > 0 {
                    assert(d[k - 1] == s[k]);
                    assert(d[k - 1].0 != p);
                }
            }
        } else {
            assert(s[dfind(s, p)] == d[dfind(d, p)]);
            assert forall|k: int| 0 <= k < dfind(s, p) implies (#[trigger] s[k]).0 != p by {
                if k > 0 {
                    assert(d[k - 1] == s[k]);
                    assert(d[k - 1].0 != p);
                }
            }
        }
    }
}

/// What `ffind` finds: the first entry for `p`, or -1 when none exists.
pub proof fn lemma_ffind(s: Seq<(Seq<char>, Seq<u8>, u64)>, p: Seq<char>)
    ensures
        -1 <= ffind(s, p) < s.len(),
        ffind(s, p) == -1 ==> forall|k: int| 0 <= k < s.len() ==> (#[trigger] s[k]).0 != p,
        ffind(s, p) >= 0 ==> s[ffind(s, p)].0 == p,
        forall|k: int| 0 <= k < ffind(s, p) ==> (#[trigger] s[k]).0 != p,
    decreases s.len(),
{
    if s.len() > 0 && s[0].0 != p {
        let d = s.drop_first();
        lemma_ffind(d, p);
        assert(forall|k: int| 0 <= k < d.len() ==> #[trigger] d[k] == s[k + 1]);
        if ffind(s, p) == -1 {
            assert forall|k: int| 0 <= k < s.len() implies (#[trigger] s[k]).0 != p by {
                if k > 0 {
                    assert(d[k - 1] == s[k]);
                    assert(d[k - 1].0 != p);
                }
            }
        } else {
            assert(s[ffind(s, p)] == d[ffind(d, p)]);
            assert forall|k: int| 0 <= k < ffind(s, p) implies (#[trigger] s[k]).0 != p by {
                if k > 0 {
                    assert(d[k - 1] == s[k]);
                    assert(d[k - 1].0 != p);
                }
            }
        }
    }
}

/// The bytes all cached bodies take together.
pub open spec fn sum_bytes(s: Seq<(Seq<char>, Seq<u8>, u64)>) -> nat
    decreases s.len(),
{
    if s.len() == 0 {
        0
    } else {
        sum_bytes(s.drop_last()) + s.last().1.len()
    }
}

/// Appending an entry adds its size to the total.
pub proof fn lemma_sum_push(s: Seq<(Seq<char>, Seq<u8>, u64)>, e: (Seq<char>, Seq<u8>, u64))
    ensures
        sum_bytes(s.push(e)) == sum_bytes(s) + e.1.len(),
{
    assert(s.push(e).drop_last() =~= s);
}

/// Removing an entry subtracts its size from the total.
pub proof fn lemma_sum_remove(s: Seq<(Seq<char>, Seq<u8>, u64)>, i: int)
    requires
        0 <= i < s.len(),
    ensures
        sum_bytes(s.remove(i)) + s[i].1.len() == sum_bytes(s),
    decreases s.len(),
{
    if i == s.len() - 1 {
        assert(s.remove(i) =~= s.drop_last());
    } else {
        assert(s.remove(i).drop_last() =~= s.drop_last().remove(i));
        assert(s.remove(i).last() == s.last());
        lemma_sum_remove(s.drop_last(), i);
    }
}

/// The tail of the eviction scan: entries are dropped from the front
/// (the oldest, since stamps grow towards the back) until the new body
/// fits in the budget, or nothing is left.
pub open spec fn evict_to_fit(s: Seq<(Seq<char>, Seq<u8>, u64)>, need: nat, max: nat) -> Seq<
    (Seq<char>, Seq<u8>, u64),
>
    decreases s.len(),
{
    if sum_bytes(s) + need <= max {
        s
    } else if s.len() == 0 {
        s
    } else {
        evict_to_fit(s.drop_first(), need, max)
    }
}

/// The eviction scan keeps a suffix of its input, and stops only when
/// the new body fits or the cache is empty.
pub proof fn lemma_evict_props(s: Seq<(Seq<char>, Seq<u8>, u64)>, need: nat, max: nat)
    ensures
        evict_to_fit(s, need, max).len() <= s.len(),
        forall|k: int|
            0 <= k < evict_to_fit(s, need, max).len()
                ==> #[trigger] evict_to_fit(s, need, max)[k] == s[
                s.len() - evict_to_fit(s, need, max).len() + k
            ],
        sum_bytes(evict_to_fit(s, need, max)) + need <= max || evict_to_fit(s, need, max).len() == 0,
    decreases s.len(),
{
    if sum_bytes(s) + need <= max {
    } else if s.len() == 0 {
    } else {
        let d = s.drop_first();
        lemma_evict_props(d, need, max);
        assert(forall|k: int| 0 <= k < d.len() ==> #[trigger] d[k] == s[k + 1]);
    }
}

/// What storing a body does to the file cache: any entry for the same
/// path goes first; a body over the whole budget is not cached at all;
/// otherwise the oldest entries are evicted until it fits and the body
/// is appended with the current stamp. `lemma_evict_props` shows that
/// the survivors of the scan are a suffix: exactly the newest entries.
pub open spec fn put_file_model(
    s: Seq<(Seq<char>, Seq<u8>, u64)>,
    p: Seq<char>,
    d: Seq<u8>,
    now: u64,
    max: nat,
) -> Seq<(Seq<char>, Seq<u8>, u64)> {
    let s1 = if ffind(s, p) >= 0 {
        s.remove(ffind(s, p))
    } else {
        s
    };
    if d.len() > max {
        s1
    } else {
        evict_to_fit(s1, d.len(), max).push((p, d, now))
    }
}

/// File-cache stamps never exceed `now`: the clock that stamps entries
/// is monotonic.
pub open spec fn fstamps_at_most(s: Seq<(Seq<char>, Seq<u8>, u64)>, now: u64) -> bool {
    forall|k: int| 0 <= k < s.len() ==> (#[trigger] s[k]).2 <= now
}

/// File-cache stamps grow towards the back, so the front entry is the
/// oldest.
pub open spec fn fstamps_sorted(s: Seq<(Seq<char>, Seq<u8>, u64)>) -> bool {
    forall|k1: int, k2: int| 0 <= k1 < k2 < s.len() ==> (#[trigger] s[k1]).2 <= (#[trigger] s[k2]).2
}

/// The cache layer: configuration, the two maps, and the byte counter.
pub struct Cache {
    config: CacheConfig,
    dirs: Vec<DirCacheEntry>,
    files: Vec<FileCacheEntry>,
    file_bytes: usize,
}

impl Cache {
    /// The configuration the cache was built with.
    pub closed spec fn spec_config(&self) -> CacheConfig {
        self.config
    }

    /// The cached listings as mathematical tuples of path, entries, stamp.
    pub closed spec fn dirs_view(&self) -> Seq<(Seq<char>, Seq<(Seq<char>, bool, u64)>, u64)> {
        self.dirs@.map_values(|e: DirCacheEntry| (e.path@, entries_view(e.entries@), e.stamp))
    }

    /// The cached bodies as mathematical tuples of path, bytes, stamp.
    pub closed spec fn files_view(&self) -> Seq<(Seq<char>, Seq<u8>, u64)> {
        self.files@.map_values(|e: FileCacheEntry| (e.path@, e.data@, e.stamp))
    }

    /// The byte counter.
    pub closed spec fn spec_file_bytes(&self) -> usize {
        self.file_bytes
    }

    /// File-cache stamps never exceed `now`.
    pub open spec fn stamps_at_most(&self, now: u64) -> bool {
        fstamps_at_most(self.files_view(), now)
    }

    /// The cache invariant: each map holds at most one entry per path,
    /// the byte counter equals the sum of the cached body sizes, that sum
    /// stays within the budget, and body stamps grow towards the back.
    pub open spec fn wf(&self) -> bool {
        &&& forall|k1: int, k2: int|
            0 <= k1 < k2 < self.dirs_view().len()
                ==> (#[trigger] self.dirs_view()[k1]).0 != (#[trigger] self.dirs_view()[k2]).0
        &&& forall|k1: int, k2: int|
            0 <= k1 < k2 < self.files_view().len()
                ==> (#[trigger] self.files_view()[k1]).0 != (#[trigger] self.files_view()[k2]).0
        &&& self.spec_file_bytes() == sum_bytes(self.files_view())
        &&& sum_bytes(self.files_view()) <= self.spec_config().max_file_cache_bytes
        &&& fstamps_sorted(self.files_view())
    }

    /// No cache entry for `p` survives: neither its listing, nor its
    /// parent's listing, nor its body.
    pub open spec fn invalidated(&self, p: Seq<char>) -> bool {
        &&& dlookup(self.dirs_view(), p) is None
        &&& dlookup(self.dirs_view(), spec_parent(p)) is None
        &&& flookup(self.files_view(), p) is None
    }

    /// An empty cache with the given configuration.
    pub fn new(config: CacheConfig) -> (r: Cache)
        ensures
            r.wf(),
            r.spec_config() == config,
            r.dirs_view() == Seq::<(Seq<char>, Seq<(Seq<char>, bool, u64)>, u64)>::empty(),
            r.files_view() == Seq::<(Seq<char>, Seq<u8>, u64)>::empty(),
    {
        let r = Cache { config, dirs: Vec::new(), files: Vec::new(), file_bytes: 0 };
        proof {
            assert(r.dirs_view() =~= Seq::<(Seq<char>, Seq<(Seq<char>, bool, u64)>, u64)>::empty());
            assert(r.files_view() =~= Seq::<(Seq<char>, Seq<u8>, u64)>::empty());
        }
        r
    }

    /// The byte counter; under the invariant it equals the summed size of
    /// the cached bodies and stays within the budget.
    pub fn file_cache_size(&self) -> (r: usize)
        ensures
            r == self.spec_file_bytes(),
            self.wf() ==> r == sum_bytes(self.files_view())
                && r <= self.spec_config().max_file_cache_bytes,
    {
        self.file_bytes
    }

    /// The directory time-to-live of the configuration.
    pub fn dir_ttl(&self) -> (r: u64)
        ensures
            r == self.spec_config().dir_ttl,
    {
        self.config.dir_ttl
    }

    /// The file time-to-live of the configuration.
    pub fn file_ttl(&self) -> (r: u64)
        ensures
            r == self.spec_config().file_ttl,
    {
        self.config.file_ttl
    }

    /// The position of the listing cached for `path`, if any.
    fn find_dir(&self, path: &str) -> (r: Option<usize>)
        ensures
            match r {
                Some(k) => k == dfind(self.dirs_view(), path@) && k < self.dirs_view().len(),
                None => dfind(self.dirs_view(), path@) == -1,
            },
    {
        let mut k: usize = 0;
        while k < self.dirs.len()
            invariant
                k <= self.dirs_view().len(),
                forall|j: int| 0 <= j < k ==> (#[trigger] self.dirs_view()[j]).0 != path@,
            decreases self.dirs@.len() - k,
        {
            if str_eq(self.dirs[k].path.as_str(), path) {
                proof {
                    lemma_dfind(self.dirs_view(), path@);
                    assert(self.dirs_view()[k as int].0 == path@);
                    let w = dfind(self.dirs_view(), path@);
                    if w < k as int {
                        assert(self.dirs_view()[w].0 != path@);
                    }
                }
                return Some(k);
            }
            k = k + 1;
        }
        proof {
            lemma_dfind(self.dirs_view(), path@);
        }
        None
    }

    /// The position of the body cached for `path`, if any.
    fn find_file(&self, path: &str) -> (r: Option<usize>)
        ensures
            match r {
                Some(k) => k == ffind(self.files_view(), path@) && k < self.files_view().len(),
                None => ffind(self.files_view(), path@) == -1,
            },
    {
        let mut k: usize = 0;
        while k < self.files.len()
            invariant
                k <= self.files_view().len(),
                forall|j: int| 0 <= j < k ==> (#[trigger] self.files_view()[j]).0 != path@,
            decreases self.files@.len() - k,
        {
            if str_eq(self.files[k].path.as_str(), path) {
                proof {
                    lemma_ffind(self.files_view(), path@);
                    assert(self.files_view()[k as int].0 == path@);
                    let w = ffind(self.files_view(), path@);
                    if w < k as int {
                        assert(self.files_view()[w].0 != path@);
                    }
                }
                return Some(k);
            }
            k = k + 1;
        }
        proof {
            lemma_ffind(self.files_view(), path@);
        }
        None
    }

    /// The cached listing for `path`, provided it is still fresh at `now`.
    pub fn cached_listing(&self, path: &str, now: u64) -> (r: Option<Vec<RemoteEntry>>)
        ensures
            match r {
                Some(v) => {
                    &&& dlookup(self.dirs_view(), path@) matches Some(ls)
                        && entries_view(v@) == ls.0
                        && is_fresh(ls.1, self.spec_config().dir_ttl, now)
                },
                None => match dlookup(self.dirs_view(), path@) {
                    Some(ls) => !is_fresh(ls.1, self.spec_config().dir_ttl, now),
                    None => true,
                },
            },
    {
        match self.find_dir(path) {
            Some(k) => {
                let stamp = self.dirs[k].stamp;
                if stamp <= now && now - stamp < self.config.dir_ttl {
                    Some(duplicate_entries(&self.dirs[k].entries))
                } else {
                    None
                }
            },
            None => None,
        }
    }

    /// Stores a listing for `path`, replacing any previous one; other
    /// paths keep their cached listing.
    pub fn store_listing(&mut self, path: &str, entries: &Vec<RemoteEntry>, now: u64)
        requires
            old(self).wf(),
        ensures
            final(self).wf(),
            final(self).spec_config() == old(self).spec_config(),
            final(self).files_view() == old(self).files_view(),
            dlookup(final(self).dirs_view(), path@) == Some((entries_view(entries@), now)),
            forall|q: Seq<char>|
                q != path@ ==> #[trigger] dlookup(final(self).dirs_view(), q) == dlookup(
                    old(self).dirs_view(),
                    q,
                ),
    {
        let ghost s0 = self.dirs_view();
        match self.find_dir(path) {
            Some(k) => {
                self.dirs.remove(k);
                proof {
                    let s = s0;
                    let s2 = self.dirs_view();
                    assert(s2 =~= s.remove(k as int));
                    lemma_dfind(s, path@);
                    lemma_dlookup_remove(s, k as int);
                }
            },
            None => {},
        }
        let ghost s1 = self.dirs_view();
        let copy = duplicate_entries(entries);
        self.dirs.push(DirCacheEntry { path: path.to_owned(), entries: copy, stamp: now });
        proof {
            let s2 = self.dirs_view();
            assert(s2 =~= s1.push((path@, entries_view(entries@), now)));
            lemma_dfind(s1, path@);
            assert(dfind(s1, path@) == -1);
            lemma_dlookup_push(s1, (path@, entries_view(entries@), now));
            assert(forall|k1: int| 0 <= k1 < s1.len() ==> (#[trigger] s2[k1]) == s1[k1]);
            assert(final(self).files_view() =~= old(self).files_view());
        }
    }

    /// The cached body for `path`, provided it is still fresh at `now`.
    pub fn cached_file_data(&self, path: &str, now: u64) -> (r: Option<Vec<u8>>)
        ensures
            match r {
                Some(v) => {
                    &&& flookup(self.files_view(), path@) matches Some(bs)
                        && v@ == bs.0
                        && is_fresh(bs.1, self.spec_config().file_ttl, now)
                },
                None => match flookup(self.files_view(), path@) {
                    Some(bs) => !is_fresh(bs.1, self.spec_config().file_ttl, now),
                    None => true,
                },
            },
    {
        match self.find_file(path) {
            Some(k) => {
                let stamp = self.files[k].stamp;
                if stamp <= now && now - stamp < self.config.file_ttl {
                    Some(slice_to_vec(self.files[k].data.as_slice()))
                } else {
                    None
                }
            },
            None => None,
        }
    }

    /// Stores a body for `path`: any previous entry for the path goes
    /// first; then the oldest entries are evicted until the body fits in
    /// the budget and it is appended, stamped `now`. A body larger than
    /// the whole budget is returned to the caller uncached.
    pub fn store_file_data(&mut self, path: &str, data: &Vec<u8>, now: u64)
        requires
            old(self).wf(),
            old(self).stamps_at_most(now),
        ensures
            final(self).wf(),
            final(self).spec_config() == old(self).spec_config(),
            final(self).dirs_view() == old(self).dirs_view(),
            final(self).stamps_at_most(now),
            final(self).files_view() == put_file_model(
                old(self).files_view(),
                path@,
                data@,
                now,
                old(self).spec_config().max_file_cache_bytes as nat,
            ),
            data@.len() <= old(self).spec_config().max_file_cache_bytes ==> flookup(
                final(self).files_view(),
                path@,
            ) == Some((data@, now)),
    {
        let ghost s0 = self.files_view();
        let ghost max = self.config.max_file_cache_bytes as nat;
        match self.find_file(path) {
            Some(k) => {
                let victim = self.files.remove(k);
                proof {
                    lemma_sum_remove(s0, k as int);
                }
                self.file_bytes = self.file_bytes - victim.data.len();
                proof {
                    let s2 = self.files_view();
                    assert(s2 =~= s0.remove(k as int));
                    lemma_ffind(s0, path@);
                    lemma_flookup_remove(s0, k as int);
                }
            },
            None => {},
        }
        let ghost s1 = self.files_view();
        proof {
            assert(s1 == (if ffind(s0, path@) >= 0 {
                s0.remove(ffind(s0, path@))
            } else {
                s0
            }));
            assert(ffind(s1, path@) == -1) by {
                lemma_ffind(s1, path@);
                if ffind(s1, path@) >= 0 {
                    if ffind(s0, path@) >= 0 {
                        lemma_ffind(s0, path@);
                        lemma_flookup_remove(s0, ffind(s0, path@));
                    }
                }
            }
            lemma_ffind(s1, path@);
        }
        if data.len() > self.config.max_file_cache_bytes {
            proof {
                assert(final(self).files_view() == put_file_model(s0, path@, data@, now, max));
                assert(final(self).dirs_view() =~= old(self).dirs_view());
            }
            return;
        }
        while self.config.max_file_cache_bytes - self.file_bytes < data.len()
            invariant
                self.config == old(self).config,
                max == self.config.max_file_cache_bytes as nat,
                data@.len() <= self.config.max_file_cache_bytes,
                self.file_bytes == sum_bytes(self.files_view()),
                sum_bytes(self.files_view()) <= self.config.max_file_cache_bytes,
                fstamps_sorted(self.files_view()),
                fstamps_at_most(self.files_view(), now),
                forall|k1: int, k2: int|
                    0 <= k1 < k2 < self.files_view().len()
                        ==> (#[trigger] self.files_view()[k1]).0
                        != (#[trigger] self.files_view()[k2]).0,
                ffind(self.files_view(), path@) == -1,
                evict_to_fit(self.files_view(), data@.len(), max) == evict_to_fit(
                    s1,
                    data@.len(),
                    max,
                ),
                self.dirs_view() == old(self).dirs_view(),
            decreases self.files@.len(),
        {
            let ghost sc = self.files_view();
            proof {
                if self.files@.len() == 0 {
                    assert(sc =~= Seq::<(Seq<char>, Seq<u8>, u64)>::empty());
                    assert(sum_bytes(sc) == 0);
                }
            }
            proof {
                assert(sum_bytes(sc) + data@.len() > max);
            }
            let victim = self.files.remove(0);
            proof {
                lemma_sum_remove(sc, 0);
            }
            self.file_bytes = self.file_bytes - victim.data.len();
            proof {
                let s2 = self.files_view();
                assert(s2 =~= sc.remove(0));
                assert(s2 =~= sc.drop_first());
                assert(evict_to_fit(sc, data@.len(), max) == evict_to_fit(
                    sc.drop_first(),
                    data@.len(),
                    max,
                ));
                assert(evict_to_fit(s2, data@.len(), max) == evict_to_fit(s1, data@.len(), max));
                assert(forall|k: int| 0 <= k < s2.len() ==> #[trigger] s2[k] == sc[k + 1]);
                lemma_ffind(sc, path@);
                lemma_ffind(s2, path@);
                if ffind(s2, path@) >= 0 {
                    assert(sc[ffind(s2, path@) + 1].0 == path@);
                }
            }
        }
        let ghost s3 = self.files_view();
        proof {
            assert(evict_to_fit(s3, data@.len(), max) == s3);
            assert(s3 == evict_to_fit(s1, data@.len(), max));
        }
        let body = slice_to_vec(data.as_slice());
        self.files.push(FileCacheEntry { path: path.to_owned(), data: body, stamp: now });
        self.file_bytes = self.file_bytes + data.len();
        proof {
            let s4 = self.files_view();
            assert(s4 =~= s3.push((path@, data@, now)));
            lemma_sum_push(s3, (path@, data@, now));
            assert(forall|k: int| 0 <= k < s3.len() ==> (#[trigger] s4[k]) == s3[k]);
            assert(s4[s3.len() as int] == (path@, data@, now));
            lemma_ffind(s4, path@);
            if ffind(s4, path@) == -1 {
                assert(s4[s3.len() as int].0 == path@);
            }
            assert(ffind(s4, path@) == s3.len()) by {
                let w = ffind(s4, path@);
                if w < s3.len() {
                    assert(s4[w] == s3[w]);
                    assert(ffind(s3, path@) == -1);
                    lemma_ffind(s3, path@);
                }
            }
            assert(flookup(s4, path@) == Some((data@, now)));
            assert(final(self).dirs_view() =~= old(self).dirs_view());
            assert(final(self).files_view() == put_file_model(s0, path@, data@, now, max));
        }
    }

    /// Drops the cache entries a mutation of `path` could have stalened:
    /// the listing of its parent, its own listing, and its body. Entries
    /// for other paths survive untouched.
    pub fn invalidate(&mut self, path: &str)
        requires
            old(self).wf(),
        ensures
            final(self).wf(),
            final(self).spec_config() == old(self).spec_config(),
            final(self).invalidated(path@),
            forall|q: Seq<char>|
                q != path@ && q != spec_parent(path@) ==> #[trigger] dlookup(
                    final(self).dirs_view(),
                    q,
                ) == dlookup(old(self).dirs_view(), q),
            forall|q: Seq<char>|
                q != path@ ==> #[trigger] flookup(final(self).files_view(), q) == flookup(
                    old(self).files_view(),
                    q,
                ),
            forall|n: u64| old(self).stamps_at_most(n) ==> final(self).stamps_at_most(n),
    {
        let parent = parent_of(path);
        let ghost d0 = self.dirs_view();
        match self.find_dir(parent.as_str()) {
            Some(k) => {
                self.dirs.remove(k);
                proof {
                    let d1 = self.dirs_view();
                    assert(d1 =~= d0.remove(k as int));
                    lemma_dfind(d0, parent@);
                    lemma_dlookup_remove(d0, k as int);
                }
            },
            None => {},
        }
        let ghost d1 = self.dirs_view();
        proof {
            assert(dlookup(d1, spec_parent(path@)) is None) by {
                lemma_dfind(d1, spec_parent(path@));
                if dfind(d1, spec_parent(path@)) >= 0 {
                    if dfind(d0, parent@) >= 0 {
                        lemma_dfind(d0, parent@);
                        lemma_dlookup_remove(d0, dfind(d0, parent@));
                    }
                }
            }
        }
        match self.find_dir(path) {
            Some(k) => {
                self.dirs.remove(k);
                proof {
                    let d2 = self.dirs_view();
                    assert(d2 =~= d1.remove(k as int));
                    lemma_dfind(d1, path@);
                    lemma_dlookup_remove(d1, k as int);
                }
            },
            None => {},
        }
        let ghost d2 = self.dirs_view();
        proof {
            assert(dlookup(d2, path@) is None) by {
                lemma_dfind(d2, path@);
                if dfind(d2, path@) >= 0 {
                    if dfind(d1, path@) >= 0 {
                        lemma_dfind(d1, path@);
                        lemma_dlookup_remove(d1, dfind(d1, path@));
                    }
                }
            }
            assert(dlookup(d2, spec_parent(path@)) is None) by {
                if path@ != spec_parent(path@) {
                }
            }
        }
        let ghost f0 = self.files_view();
        match self.find_file(path) {
            Some(k) => {
                let victim = self.files.remove(k);
                proof {
                    lemma_sum_remove(f0, k as int);
                }
                self.file_bytes = self.file_bytes - victim.data.len();
                proof {
                    let f1 = self.files_view();
                    assert(f1 =~= f0.remove(k as int));
                    lemma_ffind(f0, path@);
                    lemma_flookup_remove(f0, k as int);
                }
            },
            None => {},
        }
        proof {
            let f1 = self.files_view();
            assert(flookup(f1, path@) is None) by {
                lemma_ffind(f1, path@);
                if ffind(f1, path@) >= 0 {
                    if ffind(f0, path@) >= 0 {
                        lemma_ffind(f0, path@);
                        lemma_flookup_remove(f0, ffind(f0, path@));
                    }
                }
            }
        }
    }
}

/// The cache never exceeds its byte budget: at every steady point the
/// cached bodies together stay within `max_file_cache_bytes`.
pub proof fn lemma_cache_budget(c: &Cache)
    requires
        c.wf(),
    ensures
        sum_bytes(c.files_view()) <= c.spec_config().max_file_cache_bytes,
{
}

/// After an invalidation nothing can be served for the path at any
/// later clock reading: neither its listing, nor its parent's listing,
/// nor its body exists to be found, fresh or stale.
pub proof fn lemma_invalidated_serves_nothing(c: &Cache, p: Seq<char>)
    requires
        c.invalidated(p),
    ensures
        dlookup(c.dirs_view(), p) is None,
        dlookup(c.dirs_view(), spec_parent(p)) is None,
        flookup(c.files_view(), p) is None,
{
}

/// Removing the entry at `k` empties the lookup for its path and leaves
/// every other path's lookup alone (listings).
proof fn lemma_dlookup_remove(s: Seq<(Seq<char>, Seq<(Seq<char>, bool, u64)>, u64)>, k: int)
    requires
        0 <= k < s.len(),
        forall|k1: int, k2: int|
            0 <= k1 < k2 < s.len() ==> (#[trigger] s[k1]).0 != (#[trigger] s[k2]).0,
    ensures
        dlookup(s.remove(k), s[k].0) is None,
        forall|q: Seq<char>|
            q != s[k].0 ==> #[trigger] dlookup(s.remove(k), q) == dlookup(s, q),
        forall|k1: int, k2: int|
            0 <= k1 < k2 < s.remove(k).len()
                ==> (#[trigger] s.remove(k)[k1]).0 != (#[trigger] s.remove(k)[k2]).0,
{
    let s2 = s.remove(k);
    assert(forall|j: int| 0 <= j < k ==> s2[j] == s[j]);
    assert(forall|j: int| k <= j < s2.len() ==> s2[j] == s[j + 1]);
    lemma_dfind(s2, s[k].0);
    if dfind(s2, s[k].0) >= 0 {
        let w = dfind(s2, s[k].0);
        if w < k {
            assert(s[w].0 == s[k].0);
        } else {
            assert(s[w + 1].0 == s[k].0);
        }
    }
    assert forall|q: Seq<char>| q != s[k].0 implies #[trigger] dlookup(s2, q) == dlookup(s, q) by {
        lemma_dfind(s, q);
        lemma_dfind(s2, q);
        if dfind(s, q) >= 0 {
            let w = dfind(s, q);
            assert(w != k);
            if dfind(s2, q) == -1 {
                if w < k {
                    assert(s2[w].0 != q);
                } else {
                    assert(s2[w - 1].0 != q);
                }
            }
            let w2 = dfind(s2, q);
            let wo = if w2 < k {
                w2
            } else {
                w2 + 1
            };
            assert(s[wo] == s2[w2]);
            if wo != w {
                if wo < w {
                    assert(s[wo].0 != q);
                } else {
                    assert(s[w].0 == s[wo].0);
                }
            }
        } else {
            if dfind(s2, q) >= 0 {
                let w2 = dfind(s2, q);
                if w2 < k {
                    assert(s[w2].0 == q);
                } else {
                    assert(s[w2 + 1].0 == q);
                }
            }
        }
    }
}

/// Removing the entry at `k` empties the lookup for its path and leaves
/// every other path's lookup alone (bodies).
proof fn lemma_flookup_remove(s: Seq<(Seq<char>, Seq<u8>, u64)>, k: int)
    requires
        0 <= k < s.len(),
        forall|k1: int, k2: int|
            0 <= k1 < k2 < s.len() ==> (#[trigger] s[k1]).0 != (#[trigger] s[k2]).0,
    ensures
        flookup(s.remove(k), s[k].0) is None,
        forall|q: Seq<char>|
            q != s[k].0 ==> #[trigger] flookup(s.remove(k), q) == flookup(s, q),
        forall|k1: int, k2: int|
            0 <= k1 < k2 < s.remove(k).len()
                ==> (#[trigger] s.remove(k)[k1]).0 != (#[trigger] s.remove(k)[k2]).0,
{
    let s2 = s.remove(k);
    assert(forall|j: int| 0 <= j < k ==> s2[j] == s[j]);
    assert(forall|j: int| k <= j < s2.len() ==> s2[j] == s[j + 1]);
    lemma_ffind(s2, s[k].0);
    if ffind(s2, s[k].0) >= 0 {
        let w = ffind(s2, s[k].0);
        if w < k {
            assert(s[w].0 == s[k].0);
        } else {
            assert(s[w + 1].0 == s[k].0);
        }
    }
    assert forall|q: Seq<char>| q != s[k].0 implies #[trigger] flookup(s2, q) == flookup(s, q) by {
        lemma_ffind(s, q);
        lemma_ffind(s2, q);
        if ffind(s, q) >= 0 {
            let w = ffind(s, q);
            assert(w != k);
            if ffind(s2, q) == -1 {
                if w < k {
                    assert(s2[w].0 != q);
                } else {
                    assert(s2[w - 1].0 != q);
                }
            }
            let w2 = ffind(s2, q);
            let wo = if w2 < k {
                w2
            } else {
                w2 + 1
            };
            assert(s[wo] == s2[w2]);
            if wo != w {
                if wo < w {
                    assert(s[wo].0 != q);
                } else {
                    assert(s[w].0 == s[wo].0);
                }
            }
        } else {
            if ffind(s2, q) >= 0 {
                let w2 = ffind(s2, q);
                if w2 < k {
                    assert(s[w2].0 == q);
                } else {
                    assert(s[w2 + 1].0 == q);
                }
            }
        }
    }
}

/// Appending an entry for a path not yet cached makes the lookup for
/// that path find it, and leaves every other path's lookup alone.
proof fn lemma_dlookup_push(
    s: Seq<(Seq<char>, Seq<(Seq<char>, bool, u64)>, u64)>,
    e: (Seq<char>, Seq<(Seq<char>, bool, u64)>, u64),
)
    requires
        dfind(s, e.0) == -1,
    ensures
        dlookup(s.push(e), e.0) == Some((e.1, e.2)),
        forall|q: Seq<char>| q != e.0 ==> #[trigger] dlookup(s.push(e), q) == dlookup(s, q),
{
    let s2 = s.push(e);
    assert(forall|j: int| 0 <= j < s.len() ==> s2[j] == s[j]);
    assert(s2[s.len() as int] == e);
    lemma_dfind(s, e.0);
    lemma_dfind(s2, e.0);
    if dfind(s2, e.0) == -1 {
        assert(s2[s.len() as int].0 == e.0);
    }
    let w = dfind(s2, e.0);
    if w < s.len() {
        assert(s[w].0 == e.0);
    }
    assert forall|q: Seq<char>| q != e.0 implies #[trigger] dlookup(s2, q) == dlookup(s, q) by {
        lemma_dfind(s, q);
        lemma_dfind(s2, q);
        if dfind(s, q) >= 0 {
            let w1 = dfind(s, q);
            assert(s2[w1].0 == q);
            if dfind(s2, q) == -1 {
                assert(s2[w1].0 != q);
            }
            let w2 = dfind(s2, q);
            if w2 != w1 {
                if w2 < w1 {
                    assert(s[w2] == s2[w2]);
                } else {
                    assert(w2 < s2.len());
                    if w2 == s.len() {
                        assert(s2[w2].0 == e.0);
                    } else {
                        assert(s2[w1].0 != q);
                    }
                }
            }
            assert(s2[w2] == s[w2]);
        } else {
            if dfind(s2, q) >= 0 {
                let w2 = dfind(s2, q);
                if w2 < s.len() {
                    assert(s[w2].0 == q);
                } else {
                    assert(s2[w2].0 == e.0);
                }
            }
        }
    }
}

} // verus!
