//! Plain data carried between the kernel driver, the engine and the remote
//! server: directory entries, cache configuration, attribute replies and
//! the error codes the dispatcher surfaces.

use vstd::prelude::*;

verus! {

/// One row of a remote directory listing: a single path component, whether
/// it is a directory, and its size in bytes.
pub struct RemoteEntry {
    pub name: String,
    pub is_dir: bool,
    pub size: u64,
}

impl View for RemoteEntry {
    type V = (Seq<char>, bool, u64);

    open spec fn view(&self) -> (Seq<char>, bool, u64) {
        (self.name@, self.is_dir, self.size)
    }
}

impl RemoteEntry {
    /// An equal copy; written by hand so that the copy is known to carry
    /// the same name, kind and size.
    pub fn duplicate(&self) -> (r: RemoteEntry)
        ensures
            r@ == self@,
    {
        RemoteEntry { name: self.name.clone(), is_dir: self.is_dir, size: self.size }
    }
}

/// A listing as mathematical values: each entry as its name, kind, size.
pub open spec fn entries_view(s: Seq<RemoteEntry>) -> Seq<(Seq<char>, bool, u64)> {
    s.map_values(|e: RemoteEntry| e@)
}

/// Copies a listing entry by entry.
pub fn duplicate_entries(entries: &Vec<RemoteEntry>) -> (r: Vec<RemoteEntry>)
    ensures
        r@.len() == entries@.len(),
        forall|i: int| 0 <= i < entries@.len() ==> #[trigger] r@[i]@ == entries@[i]@,
        entries_view(r@) == entries_view(entries@),
{
    let mut out: Vec<RemoteEntry> = Vec::new();
    let mut i: usize = 0;
    while i < entries.len()
        invariant
            i <= entries@.len(),
            out@.len() == i,
            forall|j: int| 0 <= j < i ==> #[trigger] out@[j]@ == entries@[j]@,
        decreases entries@.len() - i,
    {
        out.push(entries[i].duplicate());
        i = i + 1;
    }
    proof {
        assert(entries_view(out@) =~= entries_view(entries@));
    }
    out
}

/// The position of the first listing entry named `name`, or -1.
pub open spec fn efind(s: Seq<(Seq<char>, bool, u64)>, name: Seq<char>) -> int
    decreases s.len(),
{
    if s.len() == 0 {
        -1
    } else if s[0].0 == name {
        0
    } else {
        let r = efind(s.drop_first(), name);
        if r == -1 {
            -1
        } else {
            r + 1
        }
    }
}

/// What `efind` finds: the first entry carrying `name`, or -1 when none
/// does.
pub proof fn lemma_efind(s: Seq<(Seq<char>, bool, u64)>, name: Seq<char>)
    ensures
        -1 <= efind(s, name) < s.len(),
        efind(s, name) == -1 ==> forall|k: int| 0 <= k < s.len() ==> (#[trigger] s[k]).0 != name,
        efind(s, name) >= 0 ==> s[efind(s, name)].0 == name,
        forall|k: int| 0 <= k < efind(s, name) ==> (#[trigger] s[k]).0 != name,
    decreases s.len(),
{
    if s.len() > 0 && s[0].0 != name {
        let d = s.drop_first();
        lemma_efind(d, name);
        assert(forall|k: int| 0 <= k < d.len() ==> #[trigger] d[k] == s[k + 1]);
        if efind(s, name) == -1 {
            assert forall|k: int| 0 <= k < s.len() implies (#[trigger] s[k]).0 != name by {
                if k > 0 {
                    assert(d[k - 1] == s[k]);
                    assert(d[k - 1].0 != name);
                }
            }
        } else {
            assert(s[efind(s, name)] == d[efind(d, name)]);
            assert forall|k: int| 0 <= k < efind(s, name) implies (#[trigger] s[k]).0 != name by {
                if k > 0 {
                    assert(d[k - 1] == s[k]);
                    assert(d[k - 1].0 != name);
                }
            }
        }
    }
}

/// Finds the position of the first listing entry named `name`.
pub fn find_entry(entries: &Vec<RemoteEntry>, name: &str) -> (r: Option<usize>)
    ensures
        match r {
            Some(k) => k == efind(entries_view(entries@), name@) && k < entries@.len(),
            None => efind(entries_view(entries@), name@) == -1,
        },
{
    let mut k: usize = 0;
    while k < entries.len()
        invariant
            k <= entries@.len(),
            forall|j: int| 0 <= j < k ==> (#[trigger] entries_view(entries@)[j]).0 != name@,
        decreases entries@.len() - k,
    {
        if crate::paths::str_eq(entries[k].name.as_str(), name) {
            proof {
                lemma_efind(entries_view(entries@), name@);
                assert(entries_view(entries@)[k as int].0 == name@);
                let w = efind(entries_view(entries@), name@);
                if w < k as int {
                    assert(entries_view(entries@)[w].0 != name@);
                }
            }
            return Some(k);
        }
        k = k + 1;
    }
    proof {
        lemma_efind(entries_view(entries@), name@);
    }
    None
}

/// Time-to-live and byte-budget settings for the two caches. The TTLs are
/// in the same unit as the clock readings handed to the cache (seconds, as
/// given on the command line). All three at zero disables caching.
pub struct CacheConfig {
    pub dir_ttl: u64,
    pub file_ttl: u64,
    pub max_file_cache_bytes: usize,
}

impl Default for CacheConfig {
    /// Five seconds for listings, ten for file bodies, 64 MiB of budget.
    fn default() -> (r: Self)
        ensures
            r.dir_ttl == 5,
            r.file_ttl == 10,
            r.max_file_cache_bytes == 67108864,
    {
        CacheConfig { dir_ttl: 5, file_ttl: 10, max_file_cache_bytes: 67108864 }
    }
}

impl CacheConfig {
    /// Builds the configuration from the command-line values; `no_cache`
    /// zeroes everything, otherwise the TTLs are taken as given and the
    /// budget is `max_mb` mebibytes.
    pub fn from_cli(no_cache: bool, dir_ttl: u64, file_ttl: u64, max_mb: usize) -> (r: Self)
        requires
            max_mb <= usize::MAX / 1048576,
        ensures
            no_cache ==> r.dir_ttl == 0 && r.file_ttl == 0 && r.max_file_cache_bytes == 0,
            !no_cache ==> r.dir_ttl == dir_ttl && r.file_ttl == file_ttl
                && r.max_file_cache_bytes == max_mb * 1048576,
    {
        if no_cache {
            CacheConfig { dir_ttl: 0, file_ttl: 0, max_file_cache_bytes: 0 }
        } else {
            CacheConfig { dir_ttl, file_ttl, max_file_cache_bytes: max_mb * 1048576 }
        }
    }
}

/// The error kinds a dispatcher callback can surface, mirroring the codes
/// the kernel driver expects.
#[derive(Clone, Copy, PartialEq, Eq, Structural, Debug)]
pub enum Errno {
    /// A name or inode could not be located: `ENOENT`.
    NotFound,
    /// A write arrived with no matching write buffer: `EBADF`.
    BadHandle,
    /// A remote call failed: `EIO`.
    Io,
}

impl Errno {
    /// The POSIX errno value for this kind.
    pub fn code(&self) -> (r: i32)
        ensures
            *self == Errno::NotFound ==> r == 2,
            *self == Errno::BadHandle ==> r == 9,
            *self == Errno::Io ==> r == 5,
    {
        match self {
            Errno::NotFound => 2,
            Errno::BadHandle => 9,
            Errno::Io => 5,
        }
    }
}

/// An attribute reply, free of clock readings: the caller stamps the reply
/// with the current time when handing it to the driver.
#[derive(Clone, Copy, PartialEq, Eq, Structural, Debug)]
pub struct FileAttr {
    pub ino: u64,
    pub size: u64,
    pub blocks: u64,
    pub is_dir: bool,
    pub perm: u16,
    pub nlink: u32,
    pub uid: u32,
    pub gid: u32,
    pub rdev: u32,
    pub blksize: u32,
    pub flags: u32,
}

/// What the attributes of an object of the given inode, size and kind must
/// be: mode 755 with two links for a directory, 644 with one for a file;
/// fixed identity 1000/1000; 512-byte blocks, rounded up.
pub open spec fn attr_spec(ino: u64, size: u64, is_dir: bool) -> FileAttr {
    FileAttr {
        ino,
        size,
        blocks: ((size + 511) / 512) as u64,
        is_dir,
        perm: if is_dir { 0o755 } else { 0o644 },
        nlink: if is_dir { 2 } else { 1 },
        uid: 1000,
        gid: 1000,
        rdev: 0,
        blksize: 512,
        flags: 0,
    }
}

/// Builds the attribute reply for an object.
pub fn make_attr(ino: u64, size: u64, is_dir: bool) -> (r: FileAttr)
    ensures
        r == attr_spec(ino, size, is_dir),
{
    let blocks = size / 512 + if size % 512 == 0 { 0 } else { 1 };
    proof {
        assert(blocks == ((size + 511) / 512) as u64) by (nonlinear_arith)
            requires blocks == size / 512 + (if size % 512 == 0 { 0u64 } else { 1u64 });
    }
    FileAttr {
        ino,
        size,
        blocks,
        is_dir,
        perm: if is_dir { 0o755 } else { 0o644 },
        nlink: if is_dir { 2 } else { 1 },
        uid: 1000,
        gid: 1000,
        rdev: 0,
        blksize: 512,
        flags: 0,
    }
}

} // verus!
