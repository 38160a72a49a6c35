//! Files that exist only locally so far.

use crate::text::copy_text;
use std::collections::HashMap;
use std::time::SystemTime;
use vstd::prelude::*;
use vstd::std_specs::iter::IteratorSpec;

verus! {

broadcast use vstd::std_specs::hash::group_hash_axioms;

/// A file that was created and has no document yet.
pub struct Pending {
    pub dir_ino: u64,
    pub name: String,
    pub mtime: SystemTime,
}

/// What a file that has no document yet is.
pub ghost struct PendingView {
    pub dir_ino: u64,
    pub name: Seq<char>,
    pub mtime: SystemTime,
}

impl View for Pending {
    type V = PendingView;

    open spec fn view(&self) -> PendingView {
        PendingView { dir_ino: self.dir_ino, name: self.name@, mtime: self.mtime }
    }
}

/// The files that have no document yet, by inode.
pub struct Overlay {
    entries: HashMap<u64, Pending>,
}

impl View for Overlay {
    type V = Map<u64, PendingView>;

    closed spec fn view(&self) -> Map<u64, PendingView> {
        self.entries@.map_values(|p: Pending| p@)
    }
}

impl Overlay {
    /// No files.
    pub fn new() -> (r: Self)
        ensures
            r@ == Map::<u64, PendingView>::empty(),
    {
        let r = Overlay { entries: HashMap::new() };
        assert(r@ =~= Map::<u64, PendingView>::empty());
        r
    }

    /// The file of an inode.
    pub fn get(&self, ino: u64) -> (r: Option<&Pending>)
        ensures
            (match r {
                Some(p) => self@.contains_key(ino) && self@[ino] == p@,
                None => !self@.contains_key(ino),
            }),
    {
        self.entries.get(&ino)
    }

    /// The files in a directory, in any order.
    pub fn list(&self, dir_ino: u64) -> (r: Vec<(u64, String)>)
        ensures
            forall|i: int, j: int|
                0 <= i < j < r@.len() ==> (#[trigger] r@[i]).0 != (#[trigger] r@[j]).0,
            forall|i: int|
                0 <= i < r@.len() ==> {
                    let e = #[trigger] r@[i];
                    self@.contains_key(e.0) && self@[e.0].dir_ino == dir_ino && self@[e.0].name
                        == e.1@
                },
            forall|k: u64| #[trigger]
                self@.contains_key(k) && self@[k].dir_ino == dir_ino ==> exists|i: int|
                    0 <= i < r@.len() && (#[trigger] r@[i]).0 == k,
    {
        let ghost m = self.entries@;
        let mut out: Vec<(u64, String)> = Vec::new();
        let iter = self.entries.iter();
        let ghost all = iter.remaining();
        for e in it: iter
            invariant
                m == self.entries@,
                it.seq() == all,
                it.seq().no_duplicates(),
                forall|i: int|
                    0 <= i < it.seq().len() ==> m.contains_key(*(#[trigger] it.seq()[i]).0)
                        && m[*it.seq()[i].0] == *it.seq()[i].1,
                forall|k: u64| #[trigger]
                    m.contains_key(k) ==> it.seq().contains((&k, &m[k])),
                forall|i: int, j: int|
                    0 <= i < j < out@.len() ==> (#[trigger] out@[i]).0 != (#[trigger] out@[j]).0,
                forall|i: int|
                    0 <= i < out@.len() ==> {
                        let x = #[trigger] out@[i];
                        &&& m.contains_key(x.0)
                        &&& m[x.0].dir_ino == dir_ino
                        &&& m[x.0].name@ == x.1@
                        &&& seen(it.seq(), it.index() as int, x.0)
                    },
                forall|k: u64| #[trigger]
                    seen(it.seq(), it.index() as int, k) && m[k].dir_ino == dir_ino ==> exists|
                        i: int,
                    |
                        0 <= i < out@.len() && (#[trigger] out@[i]).0 == k,
        {
            let ghost s = it.seq();
            let ghost n = it.index() as int;
            let ghost o = out@;
            let (ino, p) = e;
            proof {
                assert(s[n] == e);
                assert(!seen(s, n, *ino)) by {
                    if seen(s, n, *ino) {
                        let i = choose|i: int| 0 <= i < n && *(#[trigger] s[i]).0 == *ino;
                        assert(s[i] == s[n]);
                    }
                }
                assert forall|k: u64| #[trigger] seen(s, n + 1, k) <==> seen(s, n, k) || k
                    == *ino by {
                    if seen(s, n + 1, k) {
                        let i = choose|i: int| 0 <= i < n + 1 && *(#[trigger] s[i]).0 == k;
                        if i < n {
                            assert(seen(s, n, k));
                        }
                    }
                    if k == *ino {
                        assert(*s[n].0 == k);
                    }
                }
            }
            if p.dir_ino == dir_ino {
                out.push((*ino, copy_text(p.name.as_str())));
                proof {
                    assert forall|k: u64| #[trigger]
                        seen(s, n + 1, k) && m[k].dir_ino == dir_ino implies exists|i: int|
                        0 <= i < out@.len() && (#[trigger] out@[i]).0 == k by {
                        if k == *ino {
                            assert(out@[o.len() as int].0 == k);
                        } else {
                            let i = choose|i: int| 0 <= i < o.len() && (#[trigger] o[i]).0 == k;
                            assert(out@[i].0 == k);
                        }
                    }
                }
            }
        }
        proof {
            assert forall|k: u64| #[trigger]
                self@.contains_key(k) && self@[k].dir_ino == dir_ino implies exists|i: int|
                0 <= i < out@.len() && (#[trigger] out@[i]).0 == k by {
                assert(m.contains_key(k));
                let i = choose|i: int| 0 <= i < all.len() && all[i] == (&k, &m[k]);
                assert(*all[i].0 == k);
                assert(seen(all, all.len() as int, k));
            }
        }
        out
    }

    /// Takes the file of an inode away.
    pub fn remove(&mut self, ino: u64) -> (r: Option<Pending>)
        ensures
            final(self)@ == old(self)@.remove(ino),
            (match r {
                Some(p) => old(self)@.contains_key(ino) && old(self)@[ino] == p@,
                None => !old(self)@.contains_key(ino),
            }),
    {
        let r = self.entries.remove(&ino);
        assert(self@ =~= old(self)@.remove(ino));
        r
    }

    /// Puts a file under an inode.
    pub fn insert(&mut self, ino: u64, p: Pending)
        ensures
            final(self)@ == old(self)@.insert(ino, p@),
    {
        let ghost v = p@;
        self.entries.insert(ino, p);
        assert(self@ =~= old(self)@.insert(ino, v));
    }
}

/// Whether a key is among the first of some pairs.
spec fn seen(s: Seq<(&u64, &Pending)>, n: int, k: u64) -> bool {
    exists|i: int| 0 <= i < n && *(#[trigger] s[i]).0 == k
}

} // verus!
