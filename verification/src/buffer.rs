//! The write-buffer registry: one in-memory working copy of a file per
//! handle opened for writing. Writes land in the copy at any offset
//! (zero-filling any gap, as a seek past the end does); a flush uploads
//! the whole copy; release discards it.

use vstd::prelude::*;
use vstd::slice::slice_to_vec;

verus! {

/// The bytes after writing `b` into `data` at `offset`: the old bytes
/// survive outside the window, a gap up to `offset` reads as zeros, and
/// the result is exactly long enough for both.
pub open spec fn write_bytes(data: Seq<u8>, offset: nat, b: Seq<u8>) -> Seq<u8> {
    let n: nat = if data.len() > offset + b.len() {
        data.len()
    } else {
        offset + b.len()
    };
    Seq::new(
        n,
        |i: int|
            if offset <= i < offset + b.len() {
                b[i - offset]
            } else if i < data.len() {
                data[i]
            } else {
                0u8
            },
    )
}

/// The bytes a read of `size` at `offset` returns: the window clipped to
/// the end of the data, empty beyond it.
pub open spec fn read_window(data: Seq<u8>, offset: nat, size: nat) -> Seq<u8> {
    if offset >= data.len() {
        Seq::empty()
    } else if offset + size <= data.len() {
        data.subrange(offset as int, (offset + size) as int)
    } else {
        data.subrange(offset as int, data.len() as int)
    }
}

/// Reading a window straight after writing it returns the written bytes.
pub proof fn lemma_write_read_round_trip(data: Seq<u8>, offset: nat, b: Seq<u8>)
    ensures
        read_window(write_bytes(data, offset, b), offset, b.len()) == b,
{
    let w = write_bytes(data, offset, b);
    if b.len() == 0 {
        assert(read_window(w, offset, 0) =~= b);
    } else {
        assert(read_window(w, offset, b.len()) =~= b);
    }
}

/// Writing into an empty buffer at offset zero yields exactly the bytes
/// written.
pub proof fn lemma_write_empty(b: Seq<u8>)
    ensures
        write_bytes(Seq::empty(), 0, b) == b,
{
    assert(write_bytes(Seq::empty(), 0, b) =~= b);
}

/// A freshly created file read back: writing `b` at offset zero into the
/// empty buffer a create opens, flushing it whole, and reading the first
/// `b.len()` bytes of what was uploaded returns exactly `b`.
pub proof fn lemma_create_read_back(b: Seq<u8>)
    ensures
        write_bytes(Seq::empty(), 0, b) == b,
        read_window(write_bytes(Seq::empty(), 0, b), 0, b.len()) == b,
{
    lemma_write_empty(b);
    lemma_write_read_round_trip(Seq::empty(), 0, b);
}

/// Writes `data` into `v` at `offset`, zero-filling any gap.
fn vec_write_at(v: &mut Vec<u8>, offset: usize, data: &Vec<u8>)
    requires
        offset + data@.len() <= usize::MAX,
    ensures
        final(v)@ == write_bytes(old(v)@, offset as nat, data@),
{
    while v.len() < offset
        invariant
            v@.len() <= offset || v@.len() == old(v)@.len(),
            forall|j: int| 0 <= j < v@.len() ==> v@[j] == (if j < old(v)@.len() {
                old(v)@[j]
            } else {
                0u8
            }),
            v@.len() >= old(v)@.len(),
        decreases offset - v@.len(),
    {
        v.push(0);
    }
    let mut i: usize = 0;
    while i < data.len()
        invariant
            i <= data@.len(),
            offset + data@.len() <= usize::MAX,
            v@.len() == (if old(v)@.len() > offset + i {
                old(v)@.len() as int
            } else {
                offset + i
            }),
            forall|j: int| 0 <= j < v@.len() ==> v@[j] == (if offset <= j < offset + i {
                data@[j - offset]
            } else if j < old(v)@.len() {
                old(v)@[j]
            } else {
                0u8
            }),
        decreases data@.len() - i,
    {
        let b = data[i];
        if offset + i < v.len() {
            v.set(offset + i, b);
        } else {
            v.push(b);
        }
        i = i + 1;
    }
    proof {
        assert(final(v)@ =~= write_bytes(old(v)@, offset as nat, data@));
    }
}

/// Copies the window `[offset, offset + size)` of `v`, clipped to its end.
pub fn read_window_vec(v: &Vec<u8>, offset: usize, size: usize) -> (r: Vec<u8>)
    ensures
        r@ == read_window(v@, offset as nat, size as nat),
{
    if offset >= v.len() {
        let r: Vec<u8> = Vec::new();
        proof {
            assert(r@ =~= read_window(v@, offset as nat, size as nat));
        }
        return r;
    }
    let end: usize = if size > v.len() - offset {
        v.len()
    } else {
        offset + size
    };
    let mut r: Vec<u8> = Vec::new();
    let mut j: usize = offset;
    while j < end
        invariant
            offset <= j <= end <= v@.len(),
            r@.len() == j - offset,
            forall|m: int| 0 <= m < r@.len() ==> r@[m] == v@[offset + m],
        decreases end - j,
    {
        r.push(v[j]);
        j = j + 1;
    }
    proof {
        assert(r@ =~= read_window(v@, offset as nat, size as nat));
    }
    r
}

/// One live write buffer: the handle, the remote path it will upload to,
/// the working copy, and whether the copy has unsaved writes.
struct WriteBuffer {
    fh: u64,
    path: String,
    data: Vec<u8>,
    dirty: bool,
}

/// The position of the entry that carries `fh`, or -1.
pub open spec fn bfind(s: Seq<(u64, Seq<char>, Seq<u8>, bool)>, fh: u64) -> int
    decreases s.len(),
{
    if s.len() == 0 {
        -1
    } else if s[0].0 == fh {
        0
    } else {
        let r = bfind(s.drop_first(), fh);
        if r == -1 {
            -1
        } else {
            r + 1
        }
    }
}

/// What `bfind` finds: the first entry carrying `fh`, or -1 when none
/// does.
pub proof fn lemma_bfind(s: Seq<(u64, Seq<char>, Seq<u8>, bool)>, fh: u64)
    ensures
        -1 <= bfind(s, fh) < s.len(),
        bfind(s, fh) == -1 ==> forall|k: int| 0 <= k < s.len() ==> (#[trigger] s[k]).0 != fh,
        bfind(s, fh) >= 0 ==> s[bfind(s, fh)].0 == fh,
        forall|k: int| 0 <= k < bfind(s, fh) ==> (#[trigger] s[k]).0 != fh,
    decreases s.len(),
{
    if s.len() > 0 && s[0].0 != fh {
        let d = s.drop_first();
        lemma_bfind(d, fh);
        assert(forall|k: int| 0 <= k < d.len() ==> #[trigger] d[k] == s[k + 1]);
        if bfind(s, fh) == -1 {
            assert forall|k: int| 0 <= k < s.len() implies (#[trigger] s[k]).0 != fh by {
                if k > 0 {
                    assert(d[k - 1] == s[k]);
                    assert(d[k - 1].0 != fh);
                }
            }
        } else {
            assert(bfind(s, fh) == bfind(d, fh) + 1);
            assert(s[bfind(s, fh)] == d[bfind(d, fh)]);
            assert forall|k: int| 0 <= k < bfind(s, fh) implies (#[trigger] s[k]).0 != fh by {
                if k > 0 {
                    assert(d[k - 1] == s[k]);
                    assert(d[k - 1].0 != fh);
                }
            }
        }
    }
}

/// The registry of live write buffers, keyed by handle.
pub struct WriteBuffers {
    entries: Vec<WriteBuffer>,
}

impl WriteBuffers {
    /// The buffers as mathematical tuples of handle, path, bytes, dirty.
    pub closed spec fn views(&self) -> Seq<(u64, Seq<char>, Seq<u8>, bool)> {
        self.entries@.map_values(|b: WriteBuffer| (b.fh, b.path@, b.data@, b.dirty))
    }

    /// A buffer for this handle is live.
    pub open spec fn has_fh(&self, fh: u64) -> bool {
        bfind(self.views(), fh) >= 0
    }

    /// No two live buffers share a handle.
    pub open spec fn wf(&self) -> bool {
        forall|k1: int, k2: int|
            0 <= k1 < k2 < self.views().len()
                ==> (#[trigger] self.views()[k1]).0 != (#[trigger] self.views()[k2]).0
    }

    /// An empty registry.
    pub fn new() -> (r: WriteBuffers)
        ensures
            r.wf(),
            r.views() == Seq::<(u64, Seq<char>, Seq<u8>, bool)>::empty(),
    {
        let r = WriteBuffers { entries: Vec::new() };
        proof {
            assert(r.views() =~= Seq::<(u64, Seq<char>, Seq<u8>, bool)>::empty());
        }
        r
    }

    /// The position of the entry that carries `fh`, if any.
    fn find(&self, fh: u64) -> (r: Option<usize>)
        ensures
            match r {
                Some(k) => k == bfind(self.views(), fh) && k < self.views().len(),
                None => bfind(self.views(), fh) == -1,
            },
    {
        let mut k: usize = 0;
        while k < self.entries.len()
            invariant
                k <= self.views().len(),
                forall|j: int| 0 <= j < k ==> (#[trigger] self.views()[j]).0 != fh,
            decreases self.entries@.len() - k,
        {
            if self.entries[k].fh == fh {
                proof {
                    lemma_bfind(self.views(), fh);
                    assert(self.views()[k as int].0 == fh);
                    let w = bfind(self.views(), fh);
                    if w < k as int {
                        assert(self.views()[w].0 != fh);
                    }
                }
                return Some(k);
            }
            k = k + 1;
        }
        proof {
            lemma_bfind(self.views(), fh);
        }
        None
    }

    /// Whether a buffer for `fh` is live.
    pub fn contains(&self, fh: u64) -> (r: bool)
        ensures
            r == self.has_fh(fh),
    {
        match self.find(fh) {
            Some(_) => true,
            None => false,
        }
    }

    /// Opens a buffer for a fresh handle, holding `data` as the working
    /// copy (the pre-filled remote contents, or nothing) and not dirty.
    pub fn insert(&mut self, fh: u64, path: String, data: Vec<u8>)
        requires
            old(self).wf(),
            !old(self).has_fh(fh),
        ensures
            final(self).wf(),
            final(self).views() == old(self).views().push((fh, path@, data@, false)),
            final(self).has_fh(fh),
    {
        proof {
            lemma_bfind(old(self).views(), fh);
        }
        self.entries.push(WriteBuffer { fh, path, data, dirty: false });
        proof {
            let s = old(self).views();
            let s2 = self.views();
            assert(s2 =~= s.push((fh, path@, data@, false)));
            assert(forall|j: int| 0 <= j < s.len() ==> s2[j] == s[j]);
            lemma_bfind(s2, fh);
            if bfind(s2, fh) == -1 {
                assert(s2[s.len() as int].0 == fh);
            }
        }
    }

    /// Drops the buffer for `fh`, if any; release reclaims the copy.
    pub fn remove(&mut self, fh: u64)
        requires
            old(self).wf(),
        ensures
            final(self).wf(),
            !final(self).has_fh(fh),
            old(self).has_fh(fh) ==> final(self).views() == old(self).views().remove(
                bfind(old(self).views(), fh),
            ),
            !old(self).has_fh(fh) ==> final(self).views() == old(self).views(),
            forall|g: u64| g != fh ==> (final(self).has_fh(g) <==> old(self).has_fh(g)),
    {
        proof {
            lemma_bfind(old(self).views(), fh);
        }
        match self.find(fh) {
            Some(k) => {
                self.entries.remove(k);
                proof {
                    let s = old(self).views();
                    let s2 = self.views();
                    assert(s2 =~= s.remove(k as int));
                    assert(forall|j: int| 0 <= j < k ==> s2[j] == s[j]);
                    assert(forall|j: int| k <= j < s2.len() ==> s2[j] == s[j + 1]);
                    lemma_bfind(s2, fh);
                    if bfind(s2, fh) >= 0 {
                        let w = bfind(s2, fh);
                        if w < k {
                            assert(s[w].0 == fh);
                            lemma_bfind(s, fh);
                        } else {
                            assert(s[w + 1].0 == fh);
                            lemma_bfind(s, fh);
                        }
                    }
                    assert forall|g: u64| g != fh implies
                        (bfind(s2, g) >= 0 <==> bfind(s, g) >= 0)
                    by {
                        lemma_bfind(s, g);
                        lemma_bfind(s2, g);
                        if bfind(s, g) >= 0 {
                            let w = bfind(s, g);
                            assert(w != k);
                            if w < k {
                                assert(s2[w].0 == g);
                            } else {
                                assert(s2[w - 1].0 == g);
                            }
                            if bfind(s2, g) == -1 {
                                if w < k {
                                    assert(s2[w].0 != g);
                                } else {
                                    assert(s2[w - 1].0 != g);
                                }
                            }
                        }
                        if bfind(s2, g) >= 0 {
                            let w = bfind(s2, g);
                            if bfind(s, g) == -1 {
                                if w < k {
                                    assert(s[w].0 != g);
                                } else {
                                    assert(s[w + 1].0 != g);
                                }
                            }
                        }
                    }
                }
            },
            None => {},
        }
    }

    /// Writes `data` at `offset` in the buffer for `fh`, marking it dirty;
    /// reports whether such a buffer was live.
    pub fn write_at(&mut self, fh: u64, offset: usize, data: &Vec<u8>) -> (found: bool)
        requires
            old(self).wf(),
            offset + data@.len() <= usize::MAX,
        ensures
            final(self).wf(),
            found == old(self).has_fh(fh),
            !found ==> final(self).views() == old(self).views(),
            found ==> final(self).views() == old(self).views().update(
                bfind(old(self).views(), fh),
                (
                    fh,
                    old(self).views()[bfind(old(self).views(), fh)].1,
                    write_bytes(
                        old(self).views()[bfind(old(self).views(), fh)].2,
                        offset as nat,
                        data@,
                    ),
                    true,
                ),
            ),
    {
        proof {
            lemma_bfind(old(self).views(), fh);
        }
        match self.find(fh) {
            Some(k) => {
                let mut b = self.entries.remove(k);
                vec_write_at(&mut b.data, offset, data);
                b.dirty = true;
                self.entries.insert(k, b);
                proof {
                    let s = old(self).views();
                    let s2 = self.views();
                    assert(s2 =~= s.update(
                        k as int,
                        (fh, s[k as int].1, write_bytes(s[k as int].2, offset as nat, data@), true),
                    ));
                    assert(forall|k1: int| 0 <= k1 < s.len() ==> (#[trigger] s2[k1]).0 == s[k1].0);
                }
                true
            },
            None => false,
        }
    }

    /// The bytes a read on `fh` returns: the buffer's window at `offset`,
    /// or nothing when no buffer is live for the handle.
    pub fn read_at(&self, fh: u64, offset: usize, size: usize) -> (r: Option<Vec<u8>>)
        ensures
            match r {
                Some(v) => self.has_fh(fh) && v@ == read_window(
                    self.views()[bfind(self.views(), fh)].2,
                    offset as nat,
                    size as nat,
                ),
                None => !self.has_fh(fh),
            },
    {
        match self.find(fh) {
            Some(k) => Some(read_window_vec(&self.entries[k].data, offset, size)),
            None => None,
        }
    }

    /// The remote path the buffer for `fh` uploads to, if one is live.
    pub fn path_for(&self, fh: u64) -> (r: Option<String>)
        ensures
            match r {
                Some(p) => self.has_fh(fh) && p@ == self.views()[bfind(self.views(), fh)].1,
                None => !self.has_fh(fh),
            },
    {
        match self.find(fh) {
            Some(k) => Some(self.entries[k].path.clone()),
            None => None,
        }
    }

    /// What a flush of `fh` must upload: the path and the whole working
    /// copy when the buffer is live and dirty; nothing otherwise (a flush
    /// of a clean or unknown handle is a no-op).
    pub fn flush_payload(&self, fh: u64) -> (r: Option<(String, Vec<u8>)>)
        ensures
            match r {
                Some(pd) => {
                    &&& self.has_fh(fh)
                    &&& self.views()[bfind(self.views(), fh)].3
                    &&& pd.0@ == self.views()[bfind(self.views(), fh)].1
                    &&& pd.1@ == self.views()[bfind(self.views(), fh)].2
                },
                None => !self.has_fh(fh) || !self.views()[bfind(self.views(), fh)].3,
            },
    {
        match self.find(fh) {
            Some(k) => {
                if self.entries[k].dirty {
                    let path = self.entries[k].path.clone();
                    let data = slice_to_vec(self.entries[k].data.as_slice());
                    Some((path, data))
                } else {
                    None
                }
            },
            None => None,
        }
    }

    /// Marks the buffer for `fh` clean, after a successful upload.
    pub fn clear_dirty(&mut self, fh: u64)
        requires
            old(self).wf(),
        ensures
            final(self).wf(),
            !old(self).has_fh(fh) ==> final(self).views() == old(self).views(),
            old(self).has_fh(fh) ==> final(self).views() == old(self).views().update(
                bfind(old(self).views(), fh),
                (
                    fh,
                    old(self).views()[bfind(old(self).views(), fh)].1,
                    old(self).views()[bfind(old(self).views(), fh)].2,
                    false,
                ),
            ),
    {
        proof {
            lemma_bfind(old(self).views(), fh);
        }
        match self.find(fh) {
            Some(k) => {
                let mut b = self.entries.remove(k);
                b.dirty = false;
                self.entries.insert(k, b);
                proof {
                    let s = old(self).views();
                    let s2 = self.views();
                    assert(s2 =~= s.update(k as int, (fh, s[k as int].1, s[k as int].2, false)));
                    assert(forall|k1: int| 0 <= k1 < s.len() ==> (#[trigger] s2[k1]).0 == s[k1].0);
                }
            },
            None => {},
        }
    }
}

} // verus!
