//! The filesystem dispatcher: the state behind every kernel callback and
//! the decision each callback makes. Remote calls happen outside; each
//! function that depends on one takes its outcome as a plain value and is
//! verified for every outcome.

use vstd::prelude::*;
use vstd::string::StringExecFns;
use crate::buffer::{WriteBuffers, write_bytes, read_window, bfind};
use crate::cache::{Cache, dlookup, flookup, is_fresh, put_file_model};
use crate::inode::{InodeTable, alloc_post, lemma_inode_bijection, tmaps};
use crate::paths::{join_path, filename_of, spec_join, spec_parent, spec_filename};
use crate::types::{
    CacheConfig, RemoteEntry, FileAttr, Errno, attr_spec, make_attr, entries_view, efind,
    find_entry,
};

verus! {

/// Where a read is answered from: the write buffer when the handle has
/// one, then a fresh cached body, then a byte-range request the caller
/// must issue; unknown inodes cannot be read at all.
pub enum ReadOutcome {
    Buffered(Vec<u8>),
    Cached(Vec<u8>),
    NeedRange(String),
    Unknown,
}

/// One row of a readdir reply: the child's inode, the offset the kernel
/// resumes from, its kind, and its name.
pub struct DirEntry {
    pub ino: u64,
    pub offset: i64,
    pub is_dir: bool,
    pub name: String,
}

/// Every live handle was given out by the counter: none exceeds it.
pub open spec fn fh_bounded(s: Seq<(u64, Seq<char>, Seq<u8>, bool)>, c: u64) -> bool {
    forall|k: int| 0 <= k < s.len() ==> (#[trigger] s[k]).0 <= c
}

/// The engine state: the path/inode table, the write-buffer registry,
/// the cache layer, and the handle counter.
pub struct RemoteFS {
    inodes: InodeTable,
    buffers: WriteBuffers,
    cache: Cache,
    fh_counter: u64,
}

impl RemoteFS {
    /// The path/inode table.
    pub closed spec fn spec_inodes(&self) -> InodeTable {
        self.inodes
    }

    /// The write-buffer registry.
    pub closed spec fn spec_buffers(&self) -> WriteBuffers {
        self.buffers
    }

    /// The cache layer.
    pub closed spec fn spec_cache(&self) -> Cache {
        self.cache
    }

    /// The handle counter; every handle ever given out is at most this.
    pub closed spec fn spec_fh_counter(&self) -> u64 {
        self.fh_counter
    }

    /// The inode bindings.
    pub open spec fn table(&self) -> Seq<(u64, Seq<char>)> {
        self.spec_inodes().table()
    }

    /// The inode allocation counter.
    pub open spec fn spec_counter(&self) -> u64 {
        self.spec_inodes().spec_counter()
    }

    /// This inode is bound to this path.
    pub open spec fn maps(&self, ino: u64, p: Seq<char>) -> bool {
        self.spec_inodes().maps(ino, p)
    }

    /// Some path is bound to this inode.
    pub open spec fn has_ino(&self, ino: u64) -> bool {
        self.spec_inodes().has_ino(ino)
    }

    /// Some inode is bound to this path.
    pub open spec fn has_path(&self, p: Seq<char>) -> bool {
        self.spec_inodes().has_path(p)
    }

    /// The live write buffers.
    pub open spec fn buffers_view(&self) -> Seq<(u64, Seq<char>, Seq<u8>, bool)> {
        self.spec_buffers().views()
    }

    /// A write buffer for this handle is live.
    pub open spec fn has_fh(&self, fh: u64) -> bool {
        self.spec_buffers().has_fh(fh)
    }

    /// The cached listings.
    pub open spec fn dirs_view(&self) -> Seq<(Seq<char>, Seq<(Seq<char>, bool, u64)>, u64)> {
        self.spec_cache().dirs_view()
    }

    /// The cached bodies.
    pub open spec fn files_view(&self) -> Seq<(Seq<char>, Seq<u8>, u64)> {
        self.spec_cache().files_view()
    }

    /// The cache configuration.
    pub open spec fn spec_config(&self) -> CacheConfig {
        self.spec_cache().spec_config()
    }

    /// No cache entry for this path survives.
    pub open spec fn invalidated(&self, p: Seq<char>) -> bool {
        self.spec_cache().invalidated(p)
    }

    /// File-cache stamps never exceed `now`.
    pub open spec fn stamps_at_most(&self, now: u64) -> bool {
        self.spec_cache().stamps_at_most(now)
    }

    /// The path bound to an inode (meaningful only when one is).
    pub open spec fn spec_path_of(&self, ino: u64) -> Seq<char> {
        choose|p: Seq<char>| self.maps(ino, p)
    }

    /// The path of the parent inode, or empty when the inode is unknown,
    /// as every callback resolves it.
    pub open spec fn spec_parent_path(&self, parent: u64) -> Seq<char> {
        if self.has_ino(parent) {
            self.spec_path_of(parent)
        } else {
            Seq::empty()
        }
    }

    /// The full path of the child `name` under `parent`.
    pub open spec fn spec_child_path(&self, parent: u64, name: Seq<char>) -> Seq<char> {
        spec_join(self.spec_parent_path(parent), name)
    }

    /// The engine invariant: each component is well-formed and every live
    /// handle is at most the handle counter.
    pub open spec fn wf(&self) -> bool {
        &&& self.spec_inodes().wf()
        &&& self.spec_buffers().wf()
        &&& self.spec_cache().wf()
        &&& fh_bounded(self.buffers_view(), self.spec_fh_counter())
    }

    /// A freshly mounted session: only the root binding, no buffers, an
    /// empty cache, and no handle given out yet.
    pub fn new(cache_config: CacheConfig) -> (r: RemoteFS)
        ensures
            r.wf(),
            r.table() == seq![(1u64, Seq::<char>::empty())],
            r.spec_counter() == 1,
            r.buffers_view() == Seq::<(u64, Seq<char>, Seq<u8>, bool)>::empty(),
            r.spec_fh_counter() == 0,
            r.dirs_view() == Seq::<(Seq<char>, Seq<(Seq<char>, bool, u64)>, u64)>::empty(),
            r.files_view() == Seq::<(Seq<char>, Seq<u8>, u64)>::empty(),
            r.spec_config() == cache_config,
    {
        RemoteFS {
            inodes: InodeTable::new(),
            buffers: WriteBuffers::new(),
            cache: Cache::new(cache_config),
            fh_counter: 0,
        }
    }

    /// A bound inode has exactly one path, and `spec_path_of` names it.
    pub proof fn lemma_path_of(&self, ino: u64, p: Seq<char>)
        requires
            self.wf(),
            self.maps(ino, p),
        ensures
            self.spec_path_of(ino) == p,
            self.has_ino(ino),
    {
        let q = choose|q: Seq<char>| self.maps(ino, q);
        assert(self.maps(ino, q));
        lemma_inode_bijection(
            self.table(),
            self.spec_counter(),
            ino,
            q,
            ino,
            p,
        );
        let w = choose|w: int| 0 <= w < self.table().len() && self.table()[w] == (ino, p);
        assert(self.table()[w].0 == ino);
    }

    /// The path bound to an inode, if any.
    pub fn inode_path(&self, ino: u64) -> (r: Option<String>)
        ensures
            match r {
                Some(p) => self.maps(ino, p@),
                None => !self.has_ino(ino),
            },
    {
        self.inodes.path_of(ino)
    }

    /// Resolves the parent inode (empty path when unknown, as the kernel
    /// never asks for a parent it has not seen) and joins the child name.
    pub fn child_path(&self, parent: u64, name: &str) -> (r: (String, String))
        requires
            self.wf(),
        ensures
            r.0@ == self.spec_parent_path(parent),
            r.1@ == self.spec_child_path(parent, name@),
    {
        let parent_path = match self.inodes.path_of(parent) {
            Some(p) => {
                proof {
                    self.lemma_path_of(parent, p@);
                }
                p
            },
            None => String::new(),
        };
        let full = join_path(parent_path.as_str(), name);
        (parent_path, full)
    }

    /// Returns the inode for `path`, binding a fresh one when the path is
    /// new; everything else stays as it was.
    pub fn alloc_inode(&mut self, path: String) -> (r: u64)
        requires
            old(self).wf(),
            old(self).spec_counter() < u64::MAX,
        ensures
            final(self).wf(),
            alloc_post(
                old(self).table(),
                old(self).spec_counter(),
                path@,
                final(self).table(),
                final(self).spec_counter(),
                r,
            ),
            final(self).spec_buffers() == old(self).spec_buffers(),
            final(self).spec_cache() == old(self).spec_cache(),
            final(self).spec_fh_counter() == old(self).spec_fh_counter(),
    {
        self.inodes.alloc_inode(path)
    }

    /// Drops the binding for `path` from the table, as unlink and rmdir
    /// do; everything else stays as it was.
    pub fn remove_inode(&mut self, path: &str)
        requires
            old(self).wf(),
            path@.len() != 0,
        ensures
            final(self).wf(),
            final(self).spec_counter() == old(self).spec_counter(),
            forall|i: u64, p: Seq<char>|
                #![trigger final(self).maps(i, p)]
                #![trigger old(self).maps(i, p)]
                final(self).maps(i, p) <==> (old(self).maps(i, p) && p != path@),
            final(self).spec_buffers() == old(self).spec_buffers(),
            final(self).spec_cache() == old(self).spec_cache(),
            final(self).spec_fh_counter() == old(self).spec_fh_counter(),
    {
        self.inodes.remove(path);
    }

    /// The cached listing for `path`, provided it is fresh at `now`.
    pub fn cached_listing(&self, path: &str, now: u64) -> (r: Option<Vec<RemoteEntry>>)
        ensures
            match r {
                Some(v) => {
                    &&& dlookup(self.dirs_view(), path@) matches Some(ls)
                        && entries_view(v@) == ls.0
                        && is_fresh(ls.1, self.spec_config().dir_ttl, now)
                },
                None => match dlookup(self.dirs_view(), path@) {
                    Some(ls) => !is_fresh(ls.1, self.spec_config().dir_ttl, now),
                    None => true,
                },
            },
    {
        self.cache.cached_listing(path, now)
    }

    /// Stores a listing fetched from the server for `path`, stamped `now`.
    pub fn store_listing(&mut self, path: &str, entries: &Vec<RemoteEntry>, now: u64)
        requires
            old(self).wf(),
        ensures
            final(self).wf(),
            final(self).spec_inodes() == old(self).spec_inodes(),
            final(self).spec_buffers() == old(self).spec_buffers(),
            final(self).spec_fh_counter() == old(self).spec_fh_counter(),
            final(self).spec_config() == old(self).spec_config(),
            final(self).files_view() == old(self).files_view(),
            dlookup(final(self).dirs_view(), path@) == Some((entries_view(entries@), now)),
            forall|q: Seq<char>|
                q != path@ ==> #[trigger] dlookup(final(self).dirs_view(), q) == dlookup(
                    old(self).dirs_view(),
                    q,
                ),
    {
        self.cache.store_listing(path, entries, now);
    }

    /// The cached body for `path`, provided it is fresh at `now`.
    pub fn cached_file_data(&self, path: &str, now: u64) -> (r: Option<Vec<u8>>)
        ensures
            match r {
                Some(v) => {
                    &&& flookup(self.files_view(), path@) matches Some(bs)
                        && v@ == bs.0
                        && is_fresh(bs.1, self.spec_config().file_ttl, now)
                },
                None => match flookup(self.files_view(), path@) {
                    Some(bs) => !is_fresh(bs.1, self.spec_config().file_ttl, now),
                    None => true,
                },
            },
    {
        self.cache.cached_file_data(path, now)
    }

    /// Stores a body fetched from the server for `path`, stamped `now`,
    /// evicting the oldest entries to stay within the byte budget.
    pub fn store_file_data(&mut self, path: &str, data: &Vec<u8>, now: u64)
        requires
            old(self).wf(),
            old(self).stamps_at_most(now),
        ensures
            final(self).wf(),
            final(self).spec_inodes() == old(self).spec_inodes(),
            final(self).spec_buffers() == old(self).spec_buffers(),
            final(self).spec_fh_counter() == old(self).spec_fh_counter(),
            final(self).spec_config() == old(self).spec_config(),
            final(self).dirs_view() == old(self).dirs_view(),
            final(self).stamps_at_most(now),
            final(self).files_view() == put_file_model(
                old(self).files_view(),
                path@,
                data@,
                now,
                old(self).spec_config().max_file_cache_bytes as nat,
            ),
            data@.len() <= old(self).spec_config().max_file_cache_bytes ==> flookup(
                final(self).files_view(),
                path@,
            ) == Some((data@, now)),
    {
        self.cache.store_file_data(path, data, now);
    }

    /// Drops the cache entries a mutation of `path` could have stalened.
    pub fn invalidate(&mut self, path: &str)
        requires
            old(self).wf(),
        ensures
            final(self).wf(),
            final(self).spec_inodes() == old(self).spec_inodes(),
            final(self).spec_buffers() == old(self).spec_buffers(),
            final(self).spec_fh_counter() == old(self).spec_fh_counter(),
            final(self).spec_config() == old(self).spec_config(),
            final(self).invalidated(path@),
            forall|q: Seq<char>|
                q != path@ && q != spec_parent(path@) ==> #[trigger] dlookup(
                    final(self).dirs_view(),
                    q,
                ) == dlookup(old(self).dirs_view(), q),
            forall|q: Seq<char>|
                q != path@ ==> #[trigger] flookup(final(self).files_view(), q) == flookup(
                    old(self).files_view(),
                    q,
                ),
            forall|n: u64| old(self).stamps_at_most(n) ==> final(self).stamps_at_most(n),
    {
        self.cache.invalidate(path);
    }

    /// Answers a lookup of `name` under `parent`, given the parent's
    /// listing (or nothing, when listing the parent failed): a matching
    /// entry gets an inode bound to the child path and its attributes;
    /// anything else is not found.
    pub fn lookup(&mut self, parent: u64, name: &str, listing: Option<&Vec<RemoteEntry>>) -> (r:
        Result<FileAttr, Errno>)
        requires
            old(self).wf(),
            old(self).spec_counter() < u64::MAX,
        ensures
            final(self).wf(),
            final(self).spec_buffers() == old(self).spec_buffers(),
            final(self).spec_cache() == old(self).spec_cache(),
            final(self).spec_fh_counter() == old(self).spec_fh_counter(),
            match listing {
                None => r == Err::<FileAttr, Errno>(Errno::NotFound) && final(self).spec_inodes()
                    == old(self).spec_inodes(),
                Some(es) => {
                    let k = efind(entries_view(es@), name@);
                    if k == -1 {
                        r == Err::<FileAttr, Errno>(Errno::NotFound) && final(self).spec_inodes()
                            == old(self).spec_inodes()
                    } else {
                        &&& r matches Ok(attr)
                        &&& alloc_post(
                            old(self).table(),
                            old(self).spec_counter(),
                            old(self).spec_child_path(parent, name@),
                            final(self).table(),
                            final(self).spec_counter(),
                            attr.ino,
                        )
                        &&& attr == attr_spec(
                            attr.ino,
                            entries_view(es@)[k].2,
                            entries_view(es@)[k].1,
                        )
                    }
                },
            },
    {
        let pair = self.child_path(parent, name);
        let full = pair.1;
        match listing {
            None => Err(Errno::NotFound),
            Some(es) => match find_entry(es, name) {
                Some(k) => {
                    let size = es[k].size;
                    let is_dir = es[k].is_dir;
                    proof {
                        assert(entries_view(es@)[k as int] == es@[k as int]@);
                    }
                    let ino = self.alloc_inode(full);
                    Ok(make_attr(ino, size, is_dir))
                },
                None => Err(Errno::NotFound),
            },
        }
    }

    /// Answers a getattr: the root is a directory of size zero; any other
    /// inode resolves to its path, whose filename is looked up in the
    /// listing of its parent directory.
    pub fn getattr(&self, ino: u64, listing: Option<&Vec<RemoteEntry>>) -> (r: Result<
        FileAttr,
        Errno,
    >)
        requires
            self.wf(),
        ensures
            ino == 1 ==> r == Ok::<FileAttr, Errno>(attr_spec(1, 0, true)),
            ino != 1 && !self.has_ino(ino) ==> r == Err::<FileAttr, Errno>(Errno::NotFound),
            ino != 1 && self.has_ino(ino) ==> match listing {
                None => r == Err::<FileAttr, Errno>(Errno::NotFound),
                Some(es) => {
                    let k = efind(entries_view(es@), spec_filename(self.spec_path_of(ino)));
                    if k == -1 {
                        r == Err::<FileAttr, Errno>(Errno::NotFound)
                    } else {
                        r == Ok::<FileAttr, Errno>(attr_spec(
                            ino,
                            entries_view(es@)[k].2,
                            entries_view(es@)[k].1,
                        ))
                    }
                },
            },
    {
        if ino == 1 {
            return Ok(make_attr(1, 0, true));
        }
        match self.inodes.path_of(ino) {
            None => Err(Errno::NotFound),
            Some(p) => {
                proof {
                    self.lemma_path_of(ino, p@);
                }
                let fname = filename_of(p.as_str());
                match listing {
                    None => Err(Errno::NotFound),
                    Some(es) => match find_entry(es, fname.as_str()) {
                        Some(k) => {
                            proof {
                                assert(entries_view(es@)[k as int] == es@[k as int]@);
                            }
                            Ok(make_attr(ino, es[k].size, es[k].is_dir))
                        },
                        None => Err(Errno::NotFound),
                    },
                }
            },
        }
    }

    /// Answers a readdir: at offset zero, `.` and `..` and then the whole
    /// listing, each child bound to an inode; at any other offset nothing,
    /// the full reply having been emitted the first time. A failed listing
    /// yields just the two dot entries.
    pub fn readdir(&mut self, ino: u64, offset: i64, listing: Option<&Vec<RemoteEntry>>) -> (r:
        Vec<DirEntry>)
        requires
            old(self).wf(),
            match listing {
                Some(es) => old(self).spec_counter() + es@.len() <= u64::MAX && es@.len() + 3
                    <= i64::MAX,
                None => true,
            },
        ensures
            final(self).wf(),
            final(self).spec_buffers() == old(self).spec_buffers(),
            final(self).spec_cache() == old(self).spec_cache(),
            final(self).spec_fh_counter() == old(self).spec_fh_counter(),
            forall|i: u64, p: Seq<char>|
                #![trigger old(self).maps(i, p)]
                old(self).maps(i, p) ==> final(self).maps(i, p),
            offset != 0 ==> r@.len() == 0 && final(self).spec_inodes() == old(self).spec_inodes(),
            offset == 0 ==> {
                &&& r@.len() >= 2
                &&& r@[0].ino == ino && r@[0].offset == 1 && r@[0].is_dir && r@[0].name@ == "."@
                &&& r@[1].ino == ino && r@[1].offset == 2 && r@[1].is_dir && r@[1].name@ == ".."@
                &&& match listing {
                    None => r@.len() == 2 && final(self).spec_inodes() == old(self).spec_inodes(),
                    Some(es) => {
                        &&& r@.len() == 2 + es@.len()
                        &&& forall|j: int|
                            0 <= j < es@.len() ==> (#[trigger] r@[j + 2]).offset == j + 3
                                && r@[j + 2].is_dir == entries_view(es@)[j].1
                                && r@[j + 2].name@ == entries_view(es@)[j].0
                                && final(self).maps(
                                r@[j + 2].ino,
                                spec_join(old(self).spec_parent_path(ino), entries_view(es@)[j].0),
                            )
                        &&& final(self).spec_counter() <= old(self).spec_counter() + es@.len()
                        &&& forall|i2: u64, p: Seq<char>|
                            #![trigger final(self).maps(i2, p)]
                            final(self).maps(i2, p) ==> old(self).maps(i2, p) || (exists|j: int|
                                #![trigger entries_view(es@)[j]]
                                0 <= j < es@.len() && p == spec_join(
                                    old(self).spec_parent_path(ino),
                                    entries_view(es@)[j].0,
                                ))
                    },
                }
            },
    {
        let mut r: Vec<DirEntry> = Vec::new();
        if offset != 0 {
            return r;
        }
        r.push(DirEntry { ino, offset: 1, is_dir: true, name: String::from_str(".") });
        r.push(DirEntry { ino, offset: 2, is_dir: true, name: String::from_str("..") });
        let parent_path = match self.inodes.path_of(ino) {
            Some(p) => {
                proof {
                    self.lemma_path_of(ino, p@);
                }
                p
            },
            None => String::new(),
        };
        let ghost ppath = old(self).spec_parent_path(ino);
        match listing {
            None => r,
            Some(es) => {
                let mut i: usize = 0;
                while i < es.len()
                    invariant
                        i <= es@.len(),
                        old(self).spec_counter() + es@.len() <= u64::MAX,
                        es@.len() + 3 <= i64::MAX,
                        self.wf(),
                        self.spec_buffers() == old(self).spec_buffers(),
                        self.spec_cache() == old(self).spec_cache(),
                        self.spec_fh_counter() == old(self).spec_fh_counter(),
                        self.spec_counter() <= old(self).spec_counter() + i,
                        parent_path@ == ppath,
                        ppath == old(self).spec_parent_path(ino),
                        forall|i2: u64, p: Seq<char>|
                            #![trigger old(self).maps(i2, p)]
                            old(self).maps(i2, p) ==> self.maps(i2, p),
                        forall|i2: u64, p: Seq<char>|
                            #![trigger self.maps(i2, p)]
                            self.maps(i2, p) ==> old(self).maps(i2, p) || (exists|j: int|
                                #![trigger entries_view(es@)[j]]
                                0 <= j < i && p == spec_join(ppath, entries_view(es@)[j].0)),
                        r@.len() == 2 + i,
                        r@[0].ino == ino && r@[0].offset == 1 && r@[0].is_dir && r@[0].name@
                            == "."@,
                        r@[1].ino == ino && r@[1].offset == 2 && r@[1].is_dir && r@[1].name@
                            == ".."@,
                        forall|j: int|
                            0 <= j < i ==> (#[trigger] r@[j + 2]).offset == j + 3
                                && r@[j + 2].is_dir == entries_view(es@)[j].1
                                && r@[j + 2].name@ == entries_view(es@)[j].0
                                && self.maps(
                                r@[j + 2].ino,
                                spec_join(ppath, entries_view(es@)[j].0),
                            ),
                    decreases es@.len() - i,
                {
                    let child = join_path(parent_path.as_str(), es[i].name.as_str());
                    let ghost prev = *self;
                    let child_ino = self.alloc_inode(child);
                    proof {
                        assert(entries_view(es@)[i as int] == es@[i as int]@);
                        let t = prev.table();
                        let t2 = self.table();
                        assert forall|i2: u64, p: Seq<char>|
                            #![trigger tmaps(t, i2, p)]
                            tmaps(t, i2, p) implies tmaps(t2, i2, p)
                        by {
                            if t2 != t {
                                let w = choose|w: int| 0 <= w < t.len() && t[w] == (i2, p);
                                assert(t2[w] == (i2, p));
                            }
                        }
                        assert forall|i2: u64, p: Seq<char>|
                            #![trigger tmaps(t2, i2, p)]
                            tmaps(t2, i2, p) implies tmaps(t, i2, p) || p == spec_join(
                                ppath,
                                entries_view(es@)[i as int].0,
                            )
                        by {
                            if t2 != t {
                                let w = choose|w: int| 0 <= w < t2.len() && t2[w] == (i2, p);
                                if w < t.len() {
                                    assert(t[w] == (i2, p));
                                }
                            }
                        }
                        assert forall|i2: u64, p: Seq<char>|
                            #![trigger self.maps(i2, p)]
                            self.maps(i2, p) implies old(self).maps(i2, p) || (exists|j: int|
                                #![trigger entries_view(es@)[j]]
                                0 <= j < i + 1 && p == spec_join(ppath, entries_view(es@)[j].0))
                        by {
                            assert(tmaps(t2, i2, p));
                            if tmaps(t, i2, p) {
                                assert(prev.maps(i2, p));
                                assert(old(self).maps(i2, p) || (exists|j: int|
                                    #![trigger entries_view(es@)[j]]
                                    0 <= j < i && p == spec_join(ppath, entries_view(es@)[j].0)));
                            } else {
                                assert(p == spec_join(ppath, entries_view(es@)[i as int].0));
                            }
                        }
                    }
                    r.push(
                        DirEntry {
                            ino: child_ino,
                            offset: (i as i64) + 3,
                            is_dir: es[i].is_dir,
                            name: es[i].name.clone(),
                        },
                    );
                    i = i + 1;
                }
                r
            },
        }
    }

    /// Hands out the next file handle.
    fn next_fh(&mut self) -> (r: u64)
        requires
            old(self).spec_fh_counter() < u64::MAX,
        ensures
            r == old(self).spec_fh_counter() + 1,
            final(self).spec_fh_counter() == r,
            final(self).spec_inodes() == old(self).spec_inodes(),
            final(self).spec_buffers() == old(self).spec_buffers(),
            final(self).spec_cache() == old(self).spec_cache(),
    {
        self.fh_counter = self.fh_counter + 1;
        self.fh_counter
    }

    /// The remote path an open of `ino` must pre-fill its write buffer
    /// from: set exactly when a buffer will be created without truncation.
    pub fn open_prefill_path(&self, ino: u64, writable: bool, truncate: bool) -> (r: Option<
        String,
    >)
        requires
            self.wf(),
        ensures
            match r {
                Some(p) => {
                    &&& (writable || truncate) && !truncate && self.has_ino(ino)
                    &&& p@ == self.spec_path_of(ino)
                },
                None => !((writable || truncate) && !truncate && self.has_ino(ino)),
            },
    {
        if (writable || truncate) && !truncate {
            match self.inodes.path_of(ino) {
                Some(p) => {
                    proof {
                        self.lemma_path_of(ino, p@);
                    }
                    Some(p)
                },
                None => None,
            }
        } else {
            None
        }
    }

    /// Answers an open: a fresh handle always; a write buffer when write
    /// access or truncation was asked and the inode is known, holding the
    /// pre-filled remote contents unless truncating (a failed pre-fill
    /// leaves the copy empty, as the original contents then count as
    /// unreadable).
    pub fn open(&mut self, ino: u64, writable: bool, truncate: bool, prefill: Option<Vec<u8>>) -> (
        fh: u64)
        requires
            old(self).wf(),
            old(self).spec_fh_counter() < u64::MAX,
        ensures
            final(self).wf(),
            fh == old(self).spec_fh_counter() + 1,
            final(self).spec_fh_counter() == fh,
            final(self).spec_inodes() == old(self).spec_inodes(),
            final(self).spec_cache() == old(self).spec_cache(),
            final(self).has_fh(fh) == ((writable || truncate) && old(self).has_ino(ino)),
            (writable || truncate) && old(self).has_ino(ino)
                ==> final(self).buffers_view() == old(self).buffers_view().push(
                (
                    fh,
                    old(self).spec_path_of(ino),
                    if truncate {
                        Seq::<u8>::empty()
                    } else {
                        match prefill {
                            Some(d) => d@,
                            None => Seq::<u8>::empty(),
                        }
                    },
                    false,
                ),
            ),
            !((writable || truncate) && old(self).has_ino(ino)) ==> final(self).buffers_view()
                == old(self).buffers_view(),
    {
        let fh = self.next_fh();
        if writable || truncate {
            match self.inodes.path_of(ino) {
                Some(path) => {
                    proof {
                        old(self).lemma_path_of(ino, path@);
                        crate::buffer::lemma_bfind(self.buffers_view(), fh);
                        if self.spec_buffers().has_fh(fh) {
                            let w = bfind(self.buffers_view(), fh);
                            assert(self.buffers_view()[w].0 <= old(self).spec_fh_counter());
                        }
                    }
                    let data: Vec<u8> = if truncate {
                        Vec::new()
                    } else {
                        match prefill {
                            Some(d) => d,
                            None => Vec::new(),
                        }
                    };
                    self.buffers.insert(fh, path, data);
                    proof {
                        let s2 = self.buffers_view();
                        assert forall|k: int| 0 <= k < s2.len() implies (#[trigger] s2[k]).0
                            <= self.spec_fh_counter() by {
                            if k < s2.len() - 1 {
                                assert(s2[k] == old(self).buffers_view()[k]);
                            }
                        }
                    }
                },
                None => {
                    proof {
                        crate::buffer::lemma_bfind(self.buffers_view(), fh);
                        if self.spec_buffers().has_fh(fh) {
                            let w = bfind(self.buffers_view(), fh);
                            assert(self.buffers_view()[w].0 <= old(self).spec_fh_counter());
                        }
                    }
                },
            }
        } else {
            proof {
                crate::buffer::lemma_bfind(self.buffers_view(), fh);
                if self.spec_buffers().has_fh(fh) {
                    let w = bfind(self.buffers_view(), fh);
                    assert(self.buffers_view()[w].0 <= old(self).spec_fh_counter());
                }
            }
        }
        fh
    }

    /// Decides where a read is answered from, in the order the dispatcher
    /// prefers: the live write buffer for the handle first, then a fresh
    /// cached body, then a byte-range request against the server.
    pub fn read_step(&self, ino: u64, fh: u64, offset: usize, size: usize, now: u64) -> (r:
        ReadOutcome)
        requires
            self.wf(),
        ensures
            self.has_fh(fh) ==> (r matches ReadOutcome::Buffered(v) && v@ == read_window(
                self.buffers_view()[bfind(self.buffers_view(), fh)].2,
                offset as nat,
                size as nat,
            )),
            !self.has_fh(fh) && !self.has_ino(ino) ==> r is Unknown,
            !self.has_fh(fh) && self.has_ino(ino) ==> match flookup(
                self.files_view(),
                self.spec_path_of(ino),
            ) {
                Some(bs) => if is_fresh(bs.1, self.spec_config().file_ttl, now) {
                    r matches ReadOutcome::Cached(v) && v@ == read_window(
                        bs.0,
                        offset as nat,
                        size as nat,
                    )
                } else {
                    r matches ReadOutcome::NeedRange(q) && q@ == self.spec_path_of(ino)
                },
                None => r matches ReadOutcome::NeedRange(q) && q@ == self.spec_path_of(ino),
            },
    {
        match self.buffers.read_at(fh, offset, size) {
            Some(v) => ReadOutcome::Buffered(v),
            None => match self.inodes.path_of(ino) {
                None => ReadOutcome::Unknown,
                Some(p) => {
                    proof {
                        self.lemma_path_of(ino, p@);
                    }
                    match self.cache.cached_file_data(p.as_str(), now) {
                        Some(data) => ReadOutcome::Cached(
                            crate::buffer::read_window_vec(&data, offset, size),
                        ),
                        None => ReadOutcome::NeedRange(p),
                    }
                },
            },
        }
    }

    /// Answers a write: the bytes land in the handle's buffer at the
    /// offset and the buffer turns dirty; without a buffer the handle is
    /// bad. A write never shrinks the copy and always accepts every byte.
    pub fn write(&mut self, fh: u64, offset: usize, data: &Vec<u8>) -> (r: Result<u32, Errno>)
        requires
            old(self).wf(),
            offset + data@.len() <= usize::MAX,
            data@.len() <= u32::MAX,
        ensures
            final(self).wf(),
            final(self).spec_inodes() == old(self).spec_inodes(),
            final(self).spec_cache() == old(self).spec_cache(),
            final(self).spec_fh_counter() == old(self).spec_fh_counter(),
            !old(self).has_fh(fh) ==> r == Err::<u32, Errno>(Errno::BadHandle)
                && final(self).buffers_view() == old(self).buffers_view(),
            old(self).has_fh(fh) ==> r == Ok::<u32, Errno>(data@.len() as u32)
                && final(self).buffers_view() == old(self).buffers_view().update(
                bfind(old(self).buffers_view(), fh),
                (
                    fh,
                    old(self).buffers_view()[bfind(old(self).buffers_view(), fh)].1,
                    write_bytes(
                        old(self).buffers_view()[bfind(old(self).buffers_view(), fh)].2,
                        offset as nat,
                        data@,
                    ),
                    true,
                ),
            ),
    {
        proof {
            crate::buffer::lemma_bfind(old(self).buffers_view(), fh);
        }
        if self.buffers.write_at(fh, offset, data) {
            proof {
                let s = old(self).buffers_view();
                let s2 = self.buffers_view();
                assert forall|k: int| 0 <= k < s2.len() implies (#[trigger] s2[k]).0
                    <= self.spec_fh_counter() by {
                    if k != bfind(s, fh) {
                        assert(s2[k] == s[k]);
                    } else {
                        assert(s[k].0 == fh);
                    }
                }
            }
            Ok(data.len() as u32)
        } else {
            Err(Errno::BadHandle)
        }
    }

    /// What a flush of `fh` must upload: the path and the whole working
    /// copy when the buffer is live and dirty; nothing when the flush is
    /// a no-op.
    pub fn flush_payload(&self, fh: u64) -> (r: Option<(String, Vec<u8>)>)
        ensures
            match r {
                Some(pd) => {
                    &&& self.has_fh(fh)
                    &&& self.buffers_view()[bfind(self.buffers_view(), fh)].3
                    &&& pd.0@ == self.buffers_view()[bfind(self.buffers_view(), fh)].1
                    &&& pd.1@ == self.buffers_view()[bfind(self.buffers_view(), fh)].2
                },
                None => !self.has_fh(fh) || !self.buffers_view()[bfind(self.buffers_view(), fh)].3,
            },
    {
        self.buffers.flush_payload(fh)
    }

    /// Commits a successful upload of the handle's buffer: the buffer
    /// turns clean and the cache forgets the path it uploaded to. A
    /// failed upload commits nothing, so the buffer stays dirty and the
    /// next flush retries.
    pub fn flush_commit(&mut self, fh: u64)
        requires
            old(self).wf(),
            old(self).has_fh(fh),
        ensures
            final(self).wf(),
            final(self).spec_inodes() == old(self).spec_inodes(),
            final(self).spec_fh_counter() == old(self).spec_fh_counter(),
            final(self).spec_config() == old(self).spec_config(),
            final(self).buffers_view() == old(self).buffers_view().update(
                bfind(old(self).buffers_view(), fh),
                (
                    fh,
                    old(self).buffers_view()[bfind(old(self).buffers_view(), fh)].1,
                    old(self).buffers_view()[bfind(old(self).buffers_view(), fh)].2,
                    false,
                ),
            ),
            final(self).invalidated(old(self).buffers_view()[bfind(old(self).buffers_view(), fh)].1),
            forall|n: u64| old(self).stamps_at_most(n) ==> final(self).stamps_at_most(n),
    {
        proof {
            crate::buffer::lemma_bfind(old(self).buffers_view(), fh);
        }
        match self.buffers.path_for(fh) {
            Some(path) => {
                self.buffers.clear_dirty(fh);
                proof {
                    let s = old(self).buffers_view();
                    let s2 = self.buffers_view();
                    assert forall|k: int| 0 <= k < s2.len() implies (#[trigger] s2[k]).0
                        <= self.spec_fh_counter() by {
                        if k != bfind(s, fh) {
                            assert(s2[k] == s[k]);
                        } else {
                            assert(s[k].0 == fh);
                        }
                    }
                }
                self.cache.invalidate(path.as_str());
            },
            None => {},
        }
    }

    /// Answers a release: the handle's buffer, if any, is discarded, its
    /// pending bytes with it; release never uploads.
    pub fn release(&mut self, fh: u64)
        requires
            old(self).wf(),
        ensures
            final(self).wf(),
            final(self).spec_inodes() == old(self).spec_inodes(),
            final(self).spec_cache() == old(self).spec_cache(),
            final(self).spec_fh_counter() == old(self).spec_fh_counter(),
            !final(self).has_fh(fh),
            old(self).has_fh(fh) ==> final(self).buffers_view() == old(self).buffers_view().remove(
                bfind(old(self).buffers_view(), fh),
            ),
            !old(self).has_fh(fh) ==> final(self).buffers_view() == old(self).buffers_view(),
            forall|g: u64| g != fh ==> (final(self).has_fh(g) <==> old(self).has_fh(g)),
    {
        proof {
            crate::buffer::lemma_bfind(old(self).buffers_view(), fh);
        }
        self.buffers.remove(fh);
        proof {
            let s = old(self).buffers_view();
            let s2 = self.buffers_view();
            assert forall|k: int| 0 <= k < s2.len() implies (#[trigger] s2[k]).0
                <= self.spec_fh_counter() by {
                if old(self).spec_buffers().has_fh(fh) {
                    let w = bfind(s, fh);
                    if k < w {
                        assert(s2[k] == s[k]);
                    } else {
                        assert(s2[k] == s[k + 1]);
                    }
                } else {
                    assert(s2[k] == s[k]);
                }
            }
        }
    }

    /// Answers a create once the caller has tried the empty-body upload
    /// that makes the name exist remotely: on success the caches for the
    /// new path are dropped, an inode is bound, and a fresh handle with
    /// an empty write buffer is returned; a failed upload is an I/O error
    /// and changes nothing.
    pub fn create(&mut self, parent: u64, name: &str, uploaded: bool) -> (r: Result<
        (FileAttr, u64),
        Errno,
    >)
        requires
            old(self).wf(),
            old(self).spec_counter() < u64::MAX,
            old(self).spec_fh_counter() < u64::MAX,
        ensures
            final(self).wf(),
            final(self).spec_config() == old(self).spec_config(),
            !uploaded ==> r == Err::<(FileAttr, u64), Errno>(Errno::Io) && final(self).spec_inodes() == old(self).spec_inodes() && final(self).spec_buffers() == old(self).spec_buffers() && final(self).spec_cache() == old(self).spec_cache() && final(self).spec_fh_counter() == old(self).spec_fh_counter(),
            uploaded ==> ({
                let child = old(self).spec_child_path(parent, name@);
                &&& r matches Ok(afh)
                &&& afh.1 == old(self).spec_fh_counter() + 1
                &&& final(self).spec_fh_counter() == afh.1
                &&& alloc_post(
                    old(self).table(),
                    old(self).spec_counter(),
                    child,
                    final(self).table(),
                    final(self).spec_counter(),
                    afh.0.ino,
                )
                &&& afh.0 == attr_spec(afh.0.ino, 0, false)
                &&& final(self).buffers_view() == old(self).buffers_view().push(
                    (afh.1, child, Seq::<u8>::empty(), false),
                )
                &&& final(self).invalidated(child)
                &&& forall|q: Seq<char>|
                    q != child && q != spec_parent(child) ==> #[trigger] dlookup(
                        final(self).dirs_view(),
                        q,
                    ) == dlookup(old(self).dirs_view(), q)
                &&& forall|q: Seq<char>|
                    q != child ==> #[trigger] flookup(final(self).files_view(), q) == flookup(
                        old(self).files_view(),
                        q,
                    )
                &&& forall|n: u64| old(self).stamps_at_most(n) ==> final(self).stamps_at_most(n)
            }),
    {
        let pair = self.child_path(parent, name);
        let full = pair.1;
        if !uploaded {
            return Err(Errno::Io);
        }
        self.invalidate(full.as_str());
        let ino = self.alloc_inode(full.clone());
        let fh = self.next_fh();
        proof {
            crate::buffer::lemma_bfind(self.buffers_view(), fh);
            if self.spec_buffers().has_fh(fh) {
                let w = bfind(self.buffers_view(), fh);
                assert(self.buffers_view()[w].0 <= old(self).spec_fh_counter());
            }
        }
        let empty: Vec<u8> = Vec::new();
        self.buffers.insert(fh, full, empty);
        proof {
            let s2 = self.buffers_view();
            assert forall|k: int| 0 <= k < s2.len() implies (#[trigger] s2[k]).0
                <= self.spec_fh_counter() by {
                if k < s2.len() - 1 {
                    assert(s2[k] == old(self).buffers_view()[k]);
                }
            }
        }
        Ok((make_attr(ino, 0, false), fh))
    }

    /// Answers a mkdir once the caller has tried the remote mkdir: on
    /// success the caches for the new path are dropped and an inode is
    /// bound to it; a failure is an I/O error and changes nothing.
    pub fn mkdir(&mut self, parent: u64, name: &str, made: bool) -> (r: Result<FileAttr, Errno>)
        requires
            old(self).wf(),
            old(self).spec_counter() < u64::MAX,
        ensures
            final(self).wf(),
            final(self).spec_config() == old(self).spec_config(),
            final(self).spec_buffers() == old(self).spec_buffers(),
            final(self).spec_fh_counter() == old(self).spec_fh_counter(),
            !made ==> r == Err::<FileAttr, Errno>(Errno::Io) && final(self).spec_inodes() == old(self).spec_inodes() && final(self).spec_cache() == old(self).spec_cache(),
            made ==> ({
                let child = old(self).spec_child_path(parent, name@);
                &&& r matches Ok(attr)
                &&& alloc_post(
                    old(self).table(),
                    old(self).spec_counter(),
                    child,
                    final(self).table(),
                    final(self).spec_counter(),
                    attr.ino,
                )
                &&& attr == attr_spec(attr.ino, 0, true)
                &&& final(self).invalidated(child)
                &&& forall|q: Seq<char>|
                    q != child && q != spec_parent(child) ==> #[trigger] dlookup(
                        final(self).dirs_view(),
                        q,
                    ) == dlookup(old(self).dirs_view(), q)
                &&& forall|q: Seq<char>|
                    q != child ==> #[trigger] flookup(final(self).files_view(), q) == flookup(
                        old(self).files_view(),
                        q,
                    )
                &&& forall|n: u64| old(self).stamps_at_most(n) ==> final(self).stamps_at_most(n)
            }),
    {
        let pair = self.child_path(parent, name);
        let full = pair.1;
        if !made {
            return Err(Errno::Io);
        }
        self.invalidate(full.as_str());
        let ino = self.alloc_inode(full);
        Ok(make_attr(ino, 0, true))
    }

    /// Answers an unlink (or rmdir: the server decides the difference)
    /// once the caller has tried the remote delete: on success the caches
    /// for the path are dropped and its binding leaves the table; a
    /// failure is an I/O error and changes nothing.
    pub fn unlink(&mut self, parent: u64, name: &str, deleted: bool) -> (r: Result<(), Errno>)
        requires
            old(self).wf(),
            name@.len() != 0,
        ensures
            final(self).wf(),
            final(self).spec_config() == old(self).spec_config(),
            final(self).spec_buffers() == old(self).spec_buffers(),
            final(self).spec_fh_counter() == old(self).spec_fh_counter(),
            final(self).spec_counter() == old(self).spec_counter(),
            !deleted ==> r == Err::<(), Errno>(Errno::Io) && final(self).spec_inodes() == old(self).spec_inodes() && final(self).spec_cache() == old(self).spec_cache(),
            deleted ==> ({
                let child = old(self).spec_child_path(parent, name@);
                &&& r == Ok::<(), Errno>(())
                &&& final(self).invalidated(child)
                &&& forall|i: u64, p: Seq<char>|
                    #![trigger final(self).maps(i, p)]
                    #![trigger old(self).maps(i, p)]
                    final(self).maps(i, p) <==> (old(self).maps(i, p) && p != child)
                &&& forall|q: Seq<char>|
                    q != child && q != spec_parent(child) ==> #[trigger] dlookup(
                        final(self).dirs_view(),
                        q,
                    ) == dlookup(old(self).dirs_view(), q)
                &&& forall|q: Seq<char>|
                    q != child ==> #[trigger] flookup(final(self).files_view(), q) == flookup(
                        old(self).files_view(),
                        q,
                    )
                &&& forall|n: u64| old(self).stamps_at_most(n) ==> final(self).stamps_at_most(n)
            }),
    {
        let pair = self.child_path(parent, name);
        let full = pair.1;
        if !deleted {
            return Err(Errno::Io);
        }
        self.invalidate(full.as_str());
        proof {
            assert(full@.len() != 0);
        }
        self.remove_inode(full.as_str());
        Ok(())
    }

    /// Answers an rmdir; it shares the unlink implementation.
    pub fn rmdir(&mut self, parent: u64, name: &str, deleted: bool) -> (r: Result<(), Errno>)
        requires
            old(self).wf(),
            name@.len() != 0,
        ensures
            final(self).wf(),
            final(self).spec_config() == old(self).spec_config(),
            final(self).spec_buffers() == old(self).spec_buffers(),
            final(self).spec_fh_counter() == old(self).spec_fh_counter(),
            final(self).spec_counter() == old(self).spec_counter(),
            !deleted ==> r == Err::<(), Errno>(Errno::Io) && final(self).spec_inodes() == old(self).spec_inodes() && final(self).spec_cache() == old(self).spec_cache(),
            deleted ==> ({
                let child = old(self).spec_child_path(parent, name@);
                &&& r == Ok::<(), Errno>(())
                &&& final(self).invalidated(child)
                &&& forall|i: u64, p: Seq<char>|
                    #![trigger final(self).maps(i, p)]
                    #![trigger old(self).maps(i, p)]
                    final(self).maps(i, p) <==> (old(self).maps(i, p) && p != child)
            }),
    {
        self.unlink(parent, name, deleted)
    }

    /// Begins a rename: resolves both full paths and drops every cache
    /// entry for either, before the caller copies the bytes remotely.
    pub fn rename_prepare(&mut self, parent: u64, name: &str, newparent: u64, newname: &str) -> (r:
        (String, String))
        requires
            old(self).wf(),
        ensures
            final(self).wf(),
            final(self).spec_config() == old(self).spec_config(),
            final(self).spec_inodes() == old(self).spec_inodes(),
            final(self).spec_buffers() == old(self).spec_buffers(),
            final(self).spec_fh_counter() == old(self).spec_fh_counter(),
            r.0@ == old(self).spec_child_path(parent, name@),
            r.1@ == old(self).spec_child_path(newparent, newname@),
            final(self).invalidated(r.0@),
            final(self).invalidated(r.1@),
            forall|n: u64| old(self).stamps_at_most(n) ==> final(self).stamps_at_most(n),
    {
        let pair1 = self.child_path(parent, name);
        let pair2 = self.child_path(newparent, newname);
        let old_path = pair1.1;
        let new_path = pair2.1;
        self.invalidate(old_path.as_str());
        self.invalidate(new_path.as_str());
        (old_path, new_path)
    }

    /// Commits a rename after the bytes were copied and the source was
    /// deleted remotely: the inode moves from the old path to the new
    /// one, displacing any binding the new path had, so that the table
    /// stays one-to-one. An unknown old path moves nothing.
    pub fn rename_commit(&mut self, old_path: &str, new_path: String)
        requires
            old(self).wf(),
            old_path@.len() != 0,
            new_path@.len() != 0,
        ensures
            final(self).wf(),
            final(self).spec_buffers() == old(self).spec_buffers(),
            final(self).spec_cache() == old(self).spec_cache(),
            final(self).spec_fh_counter() == old(self).spec_fh_counter(),
            final(self).spec_counter() == old(self).spec_counter(),
            !old(self).has_path(old_path@) ==> final(self).table() == old(self).table(),
            old(self).has_path(old_path@) ==> forall|i: u64, p: Seq<char>|
                #![trigger final(self).maps(i, p)]
                #![trigger old(self).maps(i, p)]
                final(self).maps(i, p) <==> ((old(self).maps(i, old_path@) && p == new_path@) || (
                old(self).maps(i, p) && p != old_path@ && p != new_path@)),
    {
        self.inodes.rebind(old_path, new_path);
    }

    /// The path a setattr must truncate remotely: set exactly when the
    /// request carries size zero and the inode is known. Every other
    /// attribute change is accepted silently with the current attributes.
    pub fn setattr_truncate_path(&self, ino: u64, size: Option<u64>) -> (r: Option<String>)
        requires
            self.wf(),
        ensures
            match r {
                Some(p) => size == Some(0u64) && self.has_ino(ino) && p@ == self.spec_path_of(ino),
                None => !(size == Some(0u64) && self.has_ino(ino)),
            },
    {
        match size {
            Some(s) => {
                if s == 0 {
                    match self.inodes.path_of(ino) {
                        Some(p) => {
                            proof {
                                self.lemma_path_of(ino, p@);
                            }
                            Some(p)
                        },
                        None => None,
                    }
                } else {
                    None
                }
            },
            None => None,
        }
    }

    /// Commits a truncation after the empty-body upload succeeded: the
    /// caches for the path are dropped and the zero-size attributes are
    /// returned.
    pub fn setattr_commit(&mut self, ino: u64, path: &str) -> (r: FileAttr)
        requires
            old(self).wf(),
        ensures
            final(self).wf(),
            final(self).spec_config() == old(self).spec_config(),
            final(self).spec_inodes() == old(self).spec_inodes(),
            final(self).spec_buffers() == old(self).spec_buffers(),
            final(self).spec_fh_counter() == old(self).spec_fh_counter(),
            r == attr_spec(ino, 0, false),
            final(self).invalidated(path@),
            forall|q: Seq<char>|
                q != path@ && q != spec_parent(path@) ==> #[trigger] dlookup(
                    final(self).dirs_view(),
                    q,
                ) == dlookup(old(self).dirs_view(), q),
            forall|q: Seq<char>|
                q != path@ ==> #[trigger] flookup(final(self).files_view(), q) == flookup(
                    old(self).files_view(),
                    q,
                ),
            forall|n: u64| old(self).stamps_at_most(n) ==> final(self).stamps_at_most(n),
    {
        self.invalidate(path);
        make_attr(ino, 0, false)
    }

    /// The current value of the inode allocation counter.
    pub fn inode_counter(&self) -> (r: u64)
        ensures
            r == self.spec_counter(),
    {
        self.inodes.counter_value()
    }

    /// The current value of the handle counter.
    pub fn handle_counter(&self) -> (r: u64)
        ensures
            r == self.spec_fh_counter(),
    {
        self.fh_counter
    }

    /// The bytes the cached bodies take together.
    pub fn file_cache_size(&self) -> (r: usize)
        ensures
            self.wf() ==> r == crate::cache::sum_bytes(self.files_view())
                && r <= self.spec_config().max_file_cache_bytes,
    {
        self.cache.file_cache_size()
    }
}

} // verus!
