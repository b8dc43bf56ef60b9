//! The path/inode table: a bidirectional, never-recycled mapping between
//! kernel-visible inode numbers and server-relative paths. Inode 1 is
//! permanently bound to the empty path (the mount root); every other inode
//! is handed out once, from a monotonic counter, on first sight of a path.

use vstd::prelude::*;
use crate::paths::str_eq;

verus! {

/// One binding of the table.
struct Binding {
    ino: u64,
    path: String,
}

/// The table's mathematical content: the bindings as pairs of inode and
/// path characters, in insertion order.
pub open spec fn tmaps(t: Seq<(u64, Seq<char>)>, ino: u64, p: Seq<char>) -> bool {
    exists|k: int| 0 <= k < t.len() && t[k] == (ino, p)
}

/// Some binding carries this inode.
pub open spec fn t_has_ino(t: Seq<(u64, Seq<char>)>, ino: u64) -> bool {
    exists|k: int| 0 <= k < t.len() && (#[trigger] t[k]).0 == ino
}

/// Some binding carries this path.
pub open spec fn t_has_path(t: Seq<(u64, Seq<char>)>, p: Seq<char>) -> bool {
    exists|k: int| 0 <= k < t.len() && (#[trigger] t[k]).1 == p
}

/// Well-formedness: no inode and no path appears twice, the root binding
/// `1 <-> ""` is present, and every inode lies between 1 and the counter.
pub open spec fn t_wf(t: Seq<(u64, Seq<char>)>, counter: u64) -> bool {
    &&& forall|k1: int, k2: int|
        0 <= k1 < k2 < t.len() ==> (#[trigger] t[k1]).0 != (#[trigger] t[k2]).0 && t[k1].1 != t[k2].1
    &&& tmaps(t, 1, Seq::empty())
    &&& forall|k: int| 0 <= k < t.len() ==> 1 <= (#[trigger] t[k]).0 <= counter
}

/// What allocating a path does: an already-bound path returns its inode
/// and changes nothing; a new path is bound to the incremented counter.
pub open spec fn alloc_post(
    t: Seq<(u64, Seq<char>)>,
    c: u64,
    p: Seq<char>,
    t2: Seq<(u64, Seq<char>)>,
    c2: u64,
    r: u64,
) -> bool {
    &&& tmaps(t2, r, p)
    &&& if t_has_path(t, p) {
        t2 == t && c2 == c && tmaps(t, r, p)
    } else {
        r == c + 1 && c2 == r && t2 == t.push((r, p))
    }
}

/// The table, with its monotonic allocation counter.
pub struct InodeTable {
    entries: Vec<Binding>,
    counter: u64,
}

impl InodeTable {
    /// The bindings as mathematical pairs.
    pub closed spec fn table(&self) -> Seq<(u64, Seq<char>)> {
        self.entries@.map_values(|b: Binding| (b.ino, b.path@))
    }

    /// The allocation counter; every inode ever handed out is at most this.
    pub closed spec fn spec_counter(&self) -> u64 {
        self.counter
    }

    /// This inode is bound to this path.
    pub open spec fn maps(&self, ino: u64, p: Seq<char>) -> bool {
        tmaps(self.table(), ino, p)
    }

    /// Some path is bound to this inode.
    pub open spec fn has_ino(&self, ino: u64) -> bool {
        t_has_ino(self.table(), ino)
    }

    /// Some inode is bound to this path.
    pub open spec fn has_path(&self, p: Seq<char>) -> bool {
        t_has_path(self.table(), p)
    }

    /// The table invariant.
    pub open spec fn wf(&self) -> bool {
        t_wf(self.table(), self.spec_counter())
    }

    /// A fresh table holding only the root binding.
    pub fn new() -> (r: InodeTable)
        ensures
            r.wf(),
            r.table() == seq![(1u64, Seq::<char>::empty())],
            r.spec_counter() == 1,
    {
        let root = Binding { ino: 1, path: String::new() };
        let mut entries: Vec<Binding> = Vec::new();
        entries.push(root);
        let t = InodeTable { entries, counter: 1 };
        proof {
            assert(t.table() =~= seq![(1u64, Seq::<char>::empty())]);
            assert(t.table()[0] == (1u64, Seq::<char>::empty()));
        }
        t
    }

    /// The position of the binding that carries `path`, if any.
    fn find_by_path(&self, path: &str) -> (r: Option<usize>)
        ensures
            match r {
                Some(k) => k < self.table().len() && self.table()[k as int].1 == path@,
                None => !self.has_path(path@),
            },
    {
        let mut k: usize = 0;
        while k < self.entries.len()
            invariant
                k <= self.entries@.len(),
                forall|j: int| 0 <= j < k ==> (#[trigger] self.table()[j]).1 != path@,
            decreases self.entries@.len() - k,
        {
            if str_eq(self.entries[k].path.as_str(), path) {
                return Some(k);
            }
            k = k + 1;
        }
        None
    }

    /// The position of the binding that carries `ino`, if any.
    fn find_by_ino(&self, ino: u64) -> (r: Option<usize>)
        ensures
            match r {
                Some(k) => k < self.table().len() && self.table()[k as int].0 == ino,
                None => !self.has_ino(ino),
            },
    {
        let mut k: usize = 0;
        while k < self.entries.len()
            invariant
                k <= self.entries@.len(),
                forall|j: int| 0 <= j < k ==> (#[trigger] self.table()[j]).0 != ino,
            decreases self.entries@.len() - k,
        {
            if self.entries[k].ino == ino {
                return Some(k);
            }
            k = k + 1;
        }
        None
    }

    /// The current value of the allocation counter.
    pub fn counter_value(&self) -> (r: u64)
        ensures
            r == self.spec_counter(),
    {
        self.counter
    }

    /// The path bound to an inode, if any.
    pub fn path_of(&self, ino: u64) -> (r: Option<String>)
        ensures
            match r {
                Some(p) => self.maps(ino, p@),
                None => !self.has_ino(ino),
            },
    {
        match self.find_by_ino(ino) {
            Some(k) => Some(self.entries[k].path.clone()),
            None => None,
        }
    }

    /// The inode bound to a path, if any.
    pub fn inode_of(&self, path: &str) -> (r: Option<u64>)
        ensures
            match r {
                Some(i) => self.maps(i, path@),
                None => !self.has_path(path@),
            },
    {
        match self.find_by_path(path) {
            Some(k) => Some(self.entries[k].ino),
            None => None,
        }
    }

    /// Returns the inode for `path`, binding a fresh one from the counter
    /// when the path is new. Idempotent: an already-bound path returns its
    /// inode and leaves the table untouched.
    pub fn alloc_inode(&mut self, path: String) -> (r: u64)
        requires
            old(self).wf(),
            old(self).spec_counter() < u64::MAX,
        ensures
            final(self).wf(),
            alloc_post(
                old(self).table(),
                old(self).spec_counter(),
                path@,
                final(self).table(),
                final(self).spec_counter(),
                r,
            ),
    {
        match self.find_by_path(path.as_str()) {
            Some(k) => self.entries[k].ino,
            None => {
                let ino = self.counter + 1;
                self.counter = ino;
                self.entries.push(Binding { ino, path });
                proof {
                    let t2 = self.table();
                    let t = old(self).table();
                    assert(t2 =~= t.push((ino, path@)));
                    assert(t2[t.len() as int] == (ino, path@));
                    assert forall|k1: int, k2: int| 0 <= k1 < k2 < t2.len() implies
                        (#[trigger] t2[k1]).0 != (#[trigger] t2[k2]).0 && t2[k1].1 != t2[k2].1
                    by {
                        if k2 == t.len() {
                            assert(t2[k1] == t[k1]);
                        }
                    }
                    assert(tmaps(t2, 1, Seq::<char>::empty())) by {
                        let w = choose|w: int| 0 <= w < t.len() && t[w] == (1u64, Seq::<char>::empty());
                        assert(t2[w] == (1u64, Seq::<char>::empty()));
                    }
                }
                ino
            },
        }
    }

    /// Drops the binding that carries `path`, if any. The root binding is
    /// never removed: the kernel cannot unlink the mount root.
    pub fn remove(&mut self, path: &str) -> (removed: bool)
        requires
            old(self).wf(),
            path@.len() != 0,
        ensures
            final(self).wf(),
            final(self).spec_counter() == old(self).spec_counter(),
            removed == old(self).has_path(path@),
            forall|i: u64, p: Seq<char>|
                #![trigger final(self).maps(i, p)]
                #![trigger old(self).maps(i, p)]
                final(self).maps(i, p) <==> (old(self).maps(i, p) && p != path@),
    {
        match self.find_by_path(path) {
            Some(k) => {
                self.entries.remove(k);
                proof {
                    let t = old(self).table();
                    let t2 = self.table();
                    assert(t2 =~= t.remove(k as int));
                    lemma_remove_binding(t, old(self).counter, k as int, path@, t2);
                }
                true
            },
            None => false,
        }
    }

    /// Moves the binding of `old_path` to `new_path`, keeping its inode;
    /// any binding already at `new_path` is dropped so that the mapping
    /// stays one-to-one. Without a binding at `old_path` nothing changes.
    pub fn rebind(&mut self, old_path: &str, new_path: String)
        requires
            old(self).wf(),
            old_path@.len() != 0,
            new_path@.len() != 0,
        ensures
            final(self).wf(),
            final(self).spec_counter() == old(self).spec_counter(),
            !old(self).has_path(old_path@) ==> final(self).table() == old(self).table(),
            old(self).has_path(old_path@) ==> forall|i: u64, p: Seq<char>|
                #![trigger final(self).maps(i, p)]
                #![trigger old(self).maps(i, p)]
                final(self).maps(i, p) <==> (
                    (old(self).maps(i, old_path@) && p == new_path@)
                    || (old(self).maps(i, p) && p != old_path@ && p != new_path@)
                ),
    {
        match self.find_by_path(old_path) {
            None => {},
            Some(k) => {
                let b = self.entries.remove(k);
                let ino = b.ino;
                let ghost mid = self.table();
                proof {
                    let t = old(self).table();
                    assert(mid =~= t.remove(k as int));
                    lemma_remove_binding(t, old(self).counter, k as int, old_path@, mid);
                }
                match self.find_by_path(new_path.as_str()) {
                    Some(k2) => {
                        self.entries.remove(k2);
                        proof {
                            let t3 = self.table();
                            assert(t3 =~= mid.remove(k2 as int));
                            lemma_remove_binding(mid, old(self).counter, k2 as int, new_path@, t3);
                        }
                    },
                    None => {},
                }
                let ghost mid2 = self.table();
                self.entries.push(Binding { ino, path: new_path });
                proof {
                    let t = old(self).table();
                    let t4 = self.table();
                    assert(t4 =~= mid2.push((ino, new_path@)));
                    assert(t4[mid2.len() as int] == (ino, new_path@));
                    assert(tmaps(t, ino, old_path@)) by {
                        assert(t[k as int] == (ino, old_path@));
                    }
                    assert forall|i: u64, p: Seq<char>|
                        #![trigger t4.contains((i, p))]
                        tmaps(t4, i, p) implies (
                            (tmaps(t, i, old_path@) && p == new_path@)
                            || (tmaps(t, i, p) && p != old_path@ && p != new_path@)
                        )
                    by {
                        let w = choose|w: int| 0 <= w < t4.len() && t4[w] == (i, p);
                        if w == mid2.len() {
                            assert(i == ino && p == new_path@);
                            assert(t_wf(t, old(self).counter));
                        } else {
                            assert(mid2[w] == (i, p));
                        }
                    }
                    assert forall|i: u64, p: Seq<char>|
                        #![trigger tmaps(t, i, p)]
                        ((tmaps(t, i, old_path@) && p == new_path@)
                            || (tmaps(t, i, p) && p != old_path@ && p != new_path@))
                        implies tmaps(t4, i, p)
                    by {
                        if tmaps(t, i, old_path@) && p == new_path@ {
                            assert(i == ino) by {
                                let w = choose|w: int| 0 <= w < t.len() && t[w] == (i, old_path@);
                                if w != k {
                                    assert(t[k as int].1 == t[w].1);
                                }
                            }
                            assert(t4[mid2.len() as int] == (i, p));
                        } else {
                            assert(tmaps(mid2, i, p));
                            let w = choose|w: int| 0 <= w < mid2.len() && mid2[w] == (i, p);
                            assert(t4[w] == (i, p));
                        }
                    }
                    assert forall|k1: int, k2: int| 0 <= k1 < k2 < t4.len() implies
                        (#[trigger] t4[k1]).0 != (#[trigger] t4[k2]).0 && t4[k1].1 != t4[k2].1
                    by {
                        if k2 == mid2.len() {
                            assert(t4[k1] == mid2[k1]);
                            assert(tmaps(mid2, mid2[k1].0, mid2[k1].1));
                            assert(tmaps(t, mid2[k1].0, mid2[k1].1) && mid2[k1].1 != old_path@
                                && mid2[k1].1 != new_path@);
                            if mid2[k1].0 == ino {
                                let w = choose|w: int| 0 <= w < t.len() && t[w] == (mid2[k1].0, mid2[k1].1);
                                if w != k {
                                    assert(t[k as int].0 == t[w].0);
                                }
                            }
                        } else {
                            assert(t4[k1] == mid2[k1] && t4[k2] == mid2[k2]);
                        }
                    }
                    assert(tmaps(t4, 1, Seq::<char>::empty())) by {
                        assert(tmaps(mid2, 1, Seq::<char>::empty()));
                        let w = choose|w: int| 0 <= w < mid2.len() && mid2[w] == (1u64, Seq::<char>::empty());
                        assert(t4[w] == (1u64, Seq::<char>::empty()));
                    }
                    assert forall|j: int| 0 <= j < t4.len() implies 1 <= (#[trigger] t4[j]).0 <= old(self).counter
                    by {
                        if j < mid2.len() {
                            assert(t4[j] == mid2[j]);
                        } else {
                            assert(t[k as int].0 == ino);
                        }
                    }
                }
            },
        }
    }
}

/// Removing one binding keeps the table well-formed and removes exactly
/// the bindings that carried its path.
proof fn lemma_remove_binding(
    t: Seq<(u64, Seq<char>)>,
    c: u64,
    k: int,
    p: Seq<char>,
    t2: Seq<(u64, Seq<char>)>,
)
    requires
        t_wf(t, c),
        0 <= k < t.len(),
        t[k].1 == p,
        p.len() != 0,
        t2 == t.remove(k),
    ensures
        t_wf(t2, c),
        forall|i: u64, q: Seq<char>|
            #![trigger tmaps(t2, i, q)]
            #![trigger tmaps(t, i, q)]
            tmaps(t2, i, q) <==> (tmaps(t, i, q) && q != p),
{
    assert(forall|j: int| 0 <= j < k ==> t2[j] == t[j]);
    assert(forall|j: int| k <= j < t2.len() ==> t2[j] == t[j + 1]);
    assert forall|i: u64, q: Seq<char>|
        #![trigger tmaps(t2, i, q)]
        #![trigger tmaps(t, i, q)]
        tmaps(t2, i, q) <==> (tmaps(t, i, q) && q != p)
    by {
        if tmaps(t2, i, q) {
            let w = choose|w: int| 0 <= w < t2.len() && t2[w] == (i, q);
            if w < k {
                assert(t[w] == (i, q));
                if q == p {
                    assert(t[w].1 == t[k].1);
                }
            } else {
                assert(t[w + 1] == (i, q));
                if q == p {
                    assert(t[k].1 == t[w + 1].1);
                }
            }
        }
        if tmaps(t, i, q) && q != p {
            let w = choose|w: int| 0 <= w < t.len() && t[w] == (i, q);
            if w < k {
                assert(t2[w] == (i, q));
            } else {
                assert(w != k);
                assert(t2[w - 1] == (i, q));
            }
        }
    }
    assert(tmaps(t2, 1, Seq::<char>::empty()));
}

/// The table is a bijection: among well-formed bindings, two pairs agree
/// on the inode exactly when they agree on the path.
pub proof fn lemma_inode_bijection(
    t: Seq<(u64, Seq<char>)>,
    c: u64,
    i1: u64,
    p1: Seq<char>,
    i2: u64,
    p2: Seq<char>,
)
    requires
        t_wf(t, c),
        tmaps(t, i1, p1),
        tmaps(t, i2, p2),
    ensures
        (i1 == i2) <==> (p1 == p2),
{
    let w1 = choose|w: int| 0 <= w < t.len() && t[w] == (i1, p1);
    let w2 = choose|w: int| 0 <= w < t.len() && t[w] == (i2, p2);
    if w1 != w2 {
        if w1 < w2 {
            assert(t[w1].0 != t[w2].0 && t[w1].1 != t[w2].1);
        } else {
            assert(t[w2].0 != t[w1].0 && t[w2].1 != t[w1].1);
        }
    }
}

/// Root identity: inode 1 is bound to the empty path, the empty path only
/// to inode 1, and inode 1 to no other path.
pub proof fn lemma_root_identity(t: Seq<(u64, Seq<char>)>, c: u64)
    requires
        t_wf(t, c),
    ensures
        tmaps(t, 1, Seq::<char>::empty()),
        forall|i: u64| tmaps(t, i, Seq::<char>::empty()) ==> i == 1,
        forall|p: Seq<char>| tmaps(t, 1, p) ==> p == Seq::<char>::empty(),
{
    assert forall|i: u64| tmaps(t, i, Seq::<char>::empty()) implies i == 1 by {
        lemma_inode_bijection(t, c, i, Seq::<char>::empty(), 1, Seq::<char>::empty());
    }
    assert forall|p: Seq<char>| tmaps(t, 1, p) implies p == Seq::<char>::empty() by {
        lemma_inode_bijection(t, c, 1, p, 1, Seq::<char>::empty());
    }
}

/// Allocation is idempotent: a second allocation of the same path returns
/// the same inode and moves neither the table nor the counter.
pub proof fn lemma_alloc_idempotent(
    t0: Seq<(u64, Seq<char>)>,
    c0: u64,
    t1: Seq<(u64, Seq<char>)>,
    c1: u64,
    r1: u64,
    t1b: Seq<(u64, Seq<char>)>,
    c1b: u64,
    r2: u64,
    p: Seq<char>,
)
    requires
        t_wf(t0, c0),
        t_wf(t1, c1),
        alloc_post(t0, c0, p, t1, c1, r1),
        alloc_post(t1, c1, p, t1b, c1b, r2),
    ensures
        r2 == r1,
        t1b == t1,
        c1b == c1,
{
    assert(tmaps(t1, r1, p));
    assert(t_has_path(t1, p)) by {
        let w = choose|w: int| 0 <= w < t1.len() && t1[w] == (r1, p);
        assert(t1[w].1 == p);
    }
    lemma_inode_bijection(t1, c1, r1, p, r2, p);
}

} // verus!
