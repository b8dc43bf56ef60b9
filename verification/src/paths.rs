//! Remote paths: UTF-8 strings with `/` as separator and no leading slash.
//! The empty string is the mount root. A path's parent is everything before
//! the last `/` (or empty), its filename everything after.

use vstd::prelude::*;
use vstd::string::StrSliceExecFns;
use vstd::string::StringExecFns;

verus! {

/// The child path under `parent` named `name`: `name` itself at the root,
/// otherwise `parent`, a slash, and `name`.
pub open spec fn spec_join(parent: Seq<char>, name: Seq<char>) -> Seq<char> {
    if parent.len() == 0 {
        name
    } else {
        parent + seq!['/'] + name
    }
}

/// The index of the last `/` in `p`, or -1 when `p` has none.
pub open spec fn spec_last_slash(p: Seq<char>) -> int
    decreases p.len(),
{
    if p.len() == 0 {
        -1
    } else if p[p.len() - 1] == '/' {
        p.len() - 1
    } else {
        spec_last_slash(p.drop_last())
    }
}

/// Everything before the last slash; empty when there is none.
pub open spec fn spec_parent(p: Seq<char>) -> Seq<char> {
    if spec_last_slash(p) >= 0 {
        p.take(spec_last_slash(p))
    } else {
        Seq::empty()
    }
}

/// Everything after the last slash; all of `p` when there is none.
pub open spec fn spec_filename(p: Seq<char>) -> Seq<char> {
    if spec_last_slash(p) >= 0 {
        p.skip(spec_last_slash(p) + 1)
    } else {
        p
    }
}

/// Holds of a single path component: no separator inside.
pub open spec fn slash_free(n: Seq<char>) -> bool {
    forall|i: int| 0 <= i < n.len() ==> n[i] != '/'
}

/// What `spec_last_slash` finds: an in-range slash with none after it,
/// or -1 when the sequence is slash-free.
pub proof fn lemma_last_slash(p: Seq<char>)
    ensures
        -1 <= spec_last_slash(p) < p.len(),
        spec_last_slash(p) >= 0 ==> p[spec_last_slash(p)] == '/',
        forall|j: int| spec_last_slash(p) < j < p.len() ==> p[j] != '/',
    decreases p.len(),
{
    if p.len() == 0 {
    } else if p[p.len() - 1] == '/' {
    } else {
        lemma_last_slash(p.drop_last());
        assert(forall|j: int| 0 <= j < p.len() - 1 ==> p.drop_last()[j] == p[j]);
    }
}

/// A slash-free sequence has no last slash.
pub proof fn lemma_slash_free(n: Seq<char>)
    requires
        slash_free(n),
    ensures
        spec_last_slash(n) == -1,
{
    lemma_last_slash(n);
    if spec_last_slash(n) >= 0 {
        assert(n[spec_last_slash(n)] == '/');
    }
}

/// Splitting a joined path recovers its halves: for a slash-free name,
/// the parent of `join(p, n)` is `p` and its filename is `n`.
pub proof fn lemma_join_parts(p: Seq<char>, n: Seq<char>)
    requires
        slash_free(n),
    ensures
        spec_parent(spec_join(p, n)) == p,
        spec_filename(spec_join(p, n)) == n,
    decreases n.len(),
{
    if p.len() == 0 {
        lemma_slash_free(n);
        assert(spec_parent(n) =~= p);
    } else {
        let j = spec_join(p, n);
        if n.len() == 0 {
            assert(j[j.len() - 1] == '/');
            assert(spec_last_slash(j) == p.len());
        } else {
            assert(j[j.len() - 1] == n[n.len() - 1]);
            assert(j.drop_last() =~= spec_join(p, n.drop_last()));
            lemma_join_parts(p, n.drop_last());
            assert(spec_last_slash(spec_join(p, n.drop_last())) == p.len()) by {
                lemma_last_slash(spec_join(p, n.drop_last()));
                let pj = spec_join(p, n.drop_last());
                if spec_last_slash(pj) != p.len() {
                    if spec_last_slash(pj) > p.len() {
                        assert(spec_parent(pj).len() > p.len());
                    } else {
                        assert(pj[p.len() as int] == '/');
                        assert(spec_parent(pj).len() < p.len());
                    }
                }
            }
            assert(spec_last_slash(j) == p.len());
        }
        assert(spec_parent(j) =~= p);
        assert(spec_filename(j) =~= n);
    }
}

/// The character index of the last `/` in `path`, if any.
fn find_last_slash(path: &str) -> (r: Option<usize>)
    ensures
        match r {
            Some(i) => i == spec_last_slash(path@),
            None => spec_last_slash(path@) == -1,
        },
{
    let n = path.unicode_len();
    let mut i: usize = n;
    proof {
        assert(path@.take(n as int) =~= path@);
    }
    while i > 0
        invariant
            i <= n,
            n == path@.len(),
            spec_last_slash(path@) == spec_last_slash(path@.take(i as int)),
        decreases i,
    {
        let c = path.get_char(i - 1);
        proof {
            assert(path@.take(i as int)[i - 1] == path@[i - 1]);
            assert(path@.take(i as int).drop_last() =~= path@.take(i as int - 1));
        }
        if c == '/' {
            return Some(i - 1);
        }
        i = i - 1;
    }
    proof {
        assert(path@.take(0) =~= Seq::<char>::empty());
    }
    None
}

/// Character-by-character string comparison, so that equality of paths is
/// known to agree with equality of their character sequences.
pub fn str_eq(a: &str, b: &str) -> (r: bool)
    ensures
        r == (a@ == b@),
{
    let n = a.unicode_len();
    if n != b.unicode_len() {
        return false;
    }
    let mut i: usize = 0;
    while i < n
        invariant
            i <= n,
            n == a@.len(),
            n == b@.len(),
            forall|j: int| 0 <= j < i ==> a@[j] == b@[j],
        decreases n - i,
    {
        if a.get_char(i) != b.get_char(i) {
            return false;
        }
        i = i + 1;
    }
    proof {
        assert(a@ =~= b@);
    }
    true
}

/// Builds the child path under `parent` named `name`.
pub fn join_path(parent: &str, name: &str) -> (r: String)
    ensures
        r@ == spec_join(parent@, name@),
{
    if parent.unicode_len() == 0 {
        name.to_owned()
    } else {
        let mut s = parent.to_owned();
        s.append("/");
        s.append(name);
        proof {
            reveal_strlit("/");
            assert("/"@ =~= seq!['/']);
        }
        s
    }
}

/// The parent of `path`: the part before the last slash, or empty.
pub fn parent_of(path: &str) -> (r: String)
    ensures
        r@ == spec_parent(path@),
{
    match find_last_slash(path) {
        Some(i) => {
            proof {
                lemma_last_slash(path@);
            }
            path.substring_char(0, i).to_owned()
        },
        None => String::new(),
    }
}

/// The filename of `path`: the part after the last slash, or all of it.
pub fn filename_of(path: &str) -> (r: String)
    ensures
        r@ == spec_filename(path@),
{
    match find_last_slash(path) {
        Some(i) => {
            proof {
                lemma_last_slash(path@);
            }
            let n = path.unicode_len();
            path.substring_char(i + 1, n).to_owned()
        },
        None => path.to_owned(),
    }
}

} // verus!
