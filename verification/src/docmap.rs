//! Which inode shows which document of which context.

use crate::text::copy_text;
use vstd::prelude::*;

verus! {

struct Binding {
    ctx: String,
    doc: u64,
    ino: u64,
}

/// A map from a context and a document to an inode.
pub struct DocMap {
    bindings: Vec<Binding>,
}

/// Which bindings to drop.
pub enum Forget {
    /// Those of an inode
    Ino(u64),
    /// Those of any of some inodes
    Inos(Vec<u64>),
    /// Those of a context
    Context(String),
    /// Those of an inode in a context
    ContextIno(String, u64),
    /// That of a document in a context
    Doc(String, u64),
}

/// Which bindings a rule drops.
pub ghost enum ForgetView {
    Ino(u64),
    Inos(Seq<u64>),
    Context(Seq<char>),
    ContextIno(Seq<char>, u64),
    Doc(Seq<char>, u64),
}

impl View for Forget {
    type V = ForgetView;

    open spec fn view(&self) -> ForgetView {
        match *self {
            Forget::Ino(i) => ForgetView::Ino(i),
            Forget::Inos(v) => ForgetView::Inos(v@),
            Forget::Context(c) => ForgetView::Context(c@),
            Forget::ContextIno(c, i) => ForgetView::ContextIno(c@, i),
            Forget::Doc(c, d) => ForgetView::Doc(c@, d),
        }
    }
}

impl ForgetView {
    /// Whether a binding is to be dropped.
    pub open spec fn hits(self, ctx: Seq<char>, doc: u64, ino: u64) -> bool {
        match self {
            ForgetView::Ino(i) => ino == i,
            ForgetView::Inos(v) => v.contains(ino),
            ForgetView::Context(c) => ctx == c,
            ForgetView::ContextIno(c, i) => ctx == c && ino == i,
            ForgetView::Doc(c, d) => ctx == c && doc == d,
        }
    }
}

/// Whether a number is in a list.
fn listed(v: &Vec<u64>, x: u64) -> (r: bool)
    ensures
        r == v@.contains(x),
{
    let mut i: usize = 0;
    while i < v.len()
        invariant
            i <= v@.len(),
            forall|j: int| 0 <= j < i ==> v@[j] != x,
        decreases v@.len() - i,
    {
        if v[i] == x {
            assert(v@[i as int] == x);
            return true;
        }
        i = i + 1;
    }
    false
}

impl Forget {
    fn hit(&self, ctx: &String, doc: u64, ino: u64) -> (r: bool)
        ensures
            r == self@.hits(ctx@, doc, ino),
    {
        match self {
            Forget::Ino(i) => ino == *i,
            Forget::Inos(v) => listed(v, ino),
            Forget::Context(c) => *ctx == *c,
            Forget::ContextIno(c, i) => ino == *i && *ctx == *c,
            Forget::Doc(c, d) => doc == *d && *ctx == *c,
        }
    }
}

/// The bindings that are left.
pub open spec fn forgotten(m: Map<(Seq<char>, u64), u64>, rule: ForgetView) -> Map<
    (Seq<char>, u64),
    u64,
> {
    Map::new(
        |k: (Seq<char>, u64)| m.contains_key(k) && !rule.hits(k.0, k.1, m[k]),
        |k: (Seq<char>, u64)| m[k],
    )
}

closed spec fn has(e: Seq<Binding>, k: (Seq<char>, u64), ino: u64) -> bool {
    exists|j: int|
        0 <= j < e.len() && (#[trigger] e[j]).ctx@ == k.0 && e[j].doc == k.1 && e[j].ino == ino
}

closed spec fn bindings_map(e: Seq<Binding>) -> Map<(Seq<char>, u64), u64> {
    Map::new(
        |k: (Seq<char>, u64)| exists|i: u64| has(e, k, i),
        |k: (Seq<char>, u64)| choose|i: u64| has(e, k, i),
    )
}

closed spec fn single(e: Seq<Binding>) -> bool {
    forall|i: int, j: int|
        0 <= i < j < e.len() ==> !((#[trigger] e[i]).ctx@ == (#[trigger] e[j]).ctx@ && e[i].doc
            == e[j].doc)
}

proof fn lemma_has(e: Seq<Binding>, k: (Seq<char>, u64), ino: u64)
    requires
        single(e),
    ensures
        has(e, k, ino) <==> bindings_map(e).contains_key(k) && bindings_map(e)[k] == ino,
{
    if has(e, k, ino) {
        let c = choose|i: u64| has(e, k, i);
        let a = choose|j: int|
            0 <= j < e.len() && (#[trigger] e[j]).ctx@ == k.0 && e[j].doc == k.1 && e[j].ino == ino;
        let b = choose|j: int|
            0 <= j < e.len() && (#[trigger] e[j]).ctx@ == k.0 && e[j].doc == k.1 && e[j].ino == c;
        if a < b {
            assert(!(e[a].ctx@ == e[b].ctx@ && e[a].doc == e[b].doc));
        } else if b < a {
            assert(!(e[b].ctx@ == e[a].ctx@ && e[b].doc == e[a].doc));
        }
    }
}

impl View for DocMap {
    type V = Map<(Seq<char>, u64), u64>;

    closed spec fn view(&self) -> Map<(Seq<char>, u64), u64> {
        bindings_map(self.bindings@)
    }
}

impl DocMap {
    #[verifier::type_invariant]
    spec fn inv(&self) -> bool {
        single(self.bindings@)
    }

    /// No bindings.
    pub fn new() -> (r: Self)
        ensures
            r@ == Map::<(Seq<char>, u64), u64>::empty(),
    {
        let r = DocMap { bindings: Vec::new() };
        assert(r@ =~= Map::<(Seq<char>, u64), u64>::empty());
        r
    }

    /// The inode of a document.
    pub fn get(&self, ctx: &str, doc: u64) -> (r: Option<u64>)
        ensures
            (match r {
                Some(i) => self@.contains_key((ctx@, doc)) && self@[(ctx@, doc)] == i,
                None => !self@.contains_key((ctx@, doc)),
            }),
    {
        let c = copy_text(ctx);
        let ghost k = (ctx@, doc);
        proof {
            use_type_invariant(self);
        }
        let mut i: usize = 0;
        while i < self.bindings.len()
            invariant
                single(self.bindings@),
                c@ == ctx@,
                k == (ctx@, doc),
                i <= self.bindings@.len(),
                forall|j: int|
                    0 <= j < i ==> !((#[trigger] self.bindings@[j]).ctx@ == k.0
                        && self.bindings@[j].doc == k.1),
            decreases self.bindings@.len() - i,
        {
            if self.bindings[i].doc == doc && self.bindings[i].ctx == c {
                let ino = self.bindings[i].ino;
                proof {
                    assert(has(self.bindings@, k, ino));
                    lemma_has(self.bindings@, k, ino);
                }
                return Some(ino);
            }
            i = i + 1;
        }
        None
    }

    /// A document that an inode shows. Where there are several, any of them.
    pub fn find_ino(&self, ino: u64) -> (r: Option<(String, u64)>)
        ensures
            (match r {
                Some(k) => self@.contains_key((k.0@, k.1)) && self@[(k.0@, k.1)] == ino,
                None => forall|k: (Seq<char>, u64)| #[trigger]
                    self@.contains_key(k) ==> self@[k] != ino,
            }),
    {
        proof {
            use_type_invariant(self);
        }
        let mut i: usize = 0;
        while i < self.bindings.len()
            invariant
                single(self.bindings@),
                i <= self.bindings@.len(),
                forall|j: int| 0 <= j < i ==> (#[trigger] self.bindings@[j]).ino != ino,
            decreases self.bindings@.len() - i,
        {
            if self.bindings[i].ino == ino {
                let c = copy_text(self.bindings[i].ctx.as_str());
                let d = self.bindings[i].doc;
                proof {
                    assert(has(self.bindings@, (c@, d), ino));
                    lemma_has(self.bindings@, (c@, d), ino);
                }
                return Some((c, d));
            }
            i = i + 1;
        }
        proof {
            assert forall|k: (Seq<char>, u64)| #[trigger] self@.contains_key(k) implies self@[k]
                != ino by {
                let c = choose|i: u64| has(self.bindings@, k, i);
                assert(has(self.bindings@, k, c));
            }
        }
        None
    }

    /// Drops bindings.
    pub fn forget(&mut self, rule: &Forget)
        ensures
            final(self)@ == forgotten(old(self)@, rule@),
    {
        let ghost e0 = self.bindings@;
        proof {
            use_type_invariant(&*self);
        }
        let mut e: Vec<Binding> = Vec::new();
        std::mem::swap(&mut e, &mut self.bindings);
        let mut out: Vec<Binding> = Vec::new();
        while e.len() > 0
            invariant
                single(e0),
                e@.len() <= e0.len(),
                e@ == e0.take(e@.len() as int),
                forall|i: int|
                    0 <= i < out@.len() ==> {
                        let b = #[trigger] out@[i];
                        exists|j: int|
                            e@.len() <= j < e0.len() && b == #[trigger] e0[j] && !rule@.hits(
                                b.ctx@,
                                b.doc,
                                b.ino,
                            )
                    },
                forall|j: int|
                    e@.len() <= j < e0.len() && !rule@.hits(
                        (#[trigger] e0[j]).ctx@,
                        e0[j].doc,
                        e0[j].ino,
                    ) ==> out@.contains(e0[j]),
                single(out@),
            decreases e@.len(),
        {
            let ghost n = e@.len();
            let ghost o = out@;
            if let Some(b) = e.pop() {
                assert(b == e0[n - 1]);
                assert(e@ =~= e0.take(n - 1));
                if !rule.hit(&b.ctx, b.doc, b.ino) {
                    out.push(b);
                    proof {
                        assert forall|i: int| 0 <= i < out@.len() implies {
                            let b = #[trigger] out@[i];
                            exists|j: int|
                                n - 1 <= j < e0.len() && b == #[trigger] e0[j] && !rule@.hits(
                                    b.ctx@,
                                    b.doc,
                                    b.ino,
                                )
                        } by {
                            if i < o.len() {
                                assert(out@[i] == o[i]);
                            } else {
                                assert(e0[n - 1] == out@[i]);
                            }
                        }
                        assert forall|j: int|
                            n - 1 <= j < e0.len() && !rule@.hits(
                                (#[trigger] e0[j]).ctx@,
                                e0[j].doc,
                                e0[j].ino,
                            ) implies out@.contains(e0[j]) by {
                            if j >= n {
                                assert(o.contains(e0[j]));
                                let a = choose|a: int| 0 <= a < o.len() && o[a] == e0[j];
                                assert(out@[a] == e0[j]);
                            } else {
                                assert(out@[o.len() as int] == e0[j]);
                            }
                        }
                        assert forall|i: int, j: int| 0 <= i < j < out@.len() implies !((
                        #[trigger] out@[i]).ctx@ == (#[trigger] out@[j]).ctx@ && out@[i].doc
                            == out@[j].doc) by {
                            if j == o.len() {
                                assert(out@[i] == o[i]);
                                let a = choose|a: int|
                                    n <= a < e0.len() && o[i] == #[trigger] e0[a] && !rule@.hits(
                                        o[i].ctx@,
                                        o[i].doc,
                                        o[i].ino,
                                    );
                                assert(!(e0[n - 1].ctx@ == e0[a].ctx@ && e0[n - 1].doc
                                    == e0[a].doc));
                            } else {
                                assert(out@[i] == o[i]);
                                assert(out@[j] == o[j]);
                            }
                        }
                    }
                }
            }
        }
        proof {
            assert forall|k: (Seq<char>, u64), ino: u64| #[trigger] has(out@, k, ino) <==> has(
                e0,
                k,
                ino,
            ) && !rule@.hits(k.0, k.1, ino) by {
                if has(out@, k, ino) {
                    let a = choose|j: int|
                        0 <= j < out@.len() && (#[trigger] out@[j]).ctx@ == k.0 && out@[j].doc
                            == k.1 && out@[j].ino == ino;
                    let b = out@[a];
                    let j = choose|j: int|
                        0 <= j < e0.len() && b == #[trigger] e0[j] && !rule@.hits(
                            b.ctx@,
                            b.doc,
                            b.ino,
                        );
                    assert(e0[j].ctx@ == k.0);
                }
                if has(e0, k, ino) && !rule@.hits(k.0, k.1, ino) {
                    let a = choose|j: int|
                        0 <= j < e0.len() && (#[trigger] e0[j]).ctx@ == k.0 && e0[j].doc == k.1
                            && e0[j].ino == ino;
                    assert(out@.contains(e0[a]));
                    let j = choose|j: int| 0 <= j < out@.len() && out@[j] == e0[a];
                    assert(out@[j].ctx@ == k.0);
                }
            }
            let m = bindings_map(out@);
            let m0 = bindings_map(e0);
            assert forall|k: (Seq<char>, u64)| #[trigger] m.contains_key(k) <==> forgotten(
                m0,
                rule@,
            ).contains_key(k) by {
                if m.contains_key(k) {
                    let i = choose|i: u64| has(out@, k, i);
                    lemma_has(out@, k, i);
                    assert(has(e0, k, i));
                    lemma_has(e0, k, i);
                }
                if m0.contains_key(k) {
                    let i = choose|i: u64| has(e0, k, i);
                    lemma_has(e0, k, i);
                    if !rule@.hits(k.0, k.1, i) {
                        assert(has(out@, k, i));
                    }
                }
            }
            assert forall|k: (Seq<char>, u64)| m.contains_key(k) implies #[trigger] m[k]
                == forgotten(m0, rule@)[k] by {
                let i = choose|i: u64| has(out@, k, i);
                lemma_has(out@, k, i);
                assert(has(e0, k, i));
                lemma_has(e0, k, i);
            }
            assert(m =~= forgotten(m0, rule@));
        }
        self.bindings = out;
    }

    /// Binds a document to an inode, in place of what it was bound to.
    pub fn insert(&mut self, ctx: &str, doc: u64, ino: u64)
        ensures
            final(self)@ == old(self)@.insert((ctx@, doc), ino),
    {
        let ghost m0 = self@;
        let rule = Forget::Doc(copy_text(ctx), doc);
        self.forget(&rule);
        let ghost k = (ctx@, doc);
        let ghost e0 = self.bindings@;
        proof {
            use_type_invariant(&*self);
            assert forall|j: int| 0 <= j < e0.len() implies !((#[trigger] e0[j]).ctx@ == k.0
                && e0[j].doc == k.1) by {
                if e0[j].ctx@ == k.0 && e0[j].doc == k.1 {
                    assert(has(e0, k, e0[j].ino));
                    lemma_has(e0, k, e0[j].ino);
                }
            }
        }
        let mut e: Vec<Binding> = Vec::new();
        std::mem::swap(&mut e, &mut self.bindings);
        e.push(Binding { ctx: copy_text(ctx), doc, ino });
        proof {
            let n = e@;
            assert forall|i: int, j: int| 0 <= i < j < n.len() implies !((#[trigger] n[i]).ctx@ == (
            #[trigger] n[j]).ctx@ && n[i].doc == n[j].doc) by {
                assert(n[i] == e0[i]);
                if j < e0.len() {
                    assert(n[j] == e0[j]);
                }
            }
            assert(single(n));
            assert forall|q: (Seq<char>, u64), i: u64| #[trigger] has(n, q, i) <==> (q == k && i
                == ino) || has(e0, q, i) by {
                if has(n, q, i) {
                    let a = choose|j: int|
                        0 <= j < n.len() && (#[trigger] n[j]).ctx@ == q.0 && n[j].doc == q.1
                            && n[j].ino == i;
                    if a < e0.len() {
                        assert(e0[a] == n[a]);
                    }
                }
                if q == k && i == ino {
                    assert(n[e0.len() as int].ctx@ == q.0);
                }
                if has(e0, q, i) {
                    let a = choose|j: int|
                        0 <= j < e0.len() && (#[trigger] e0[j]).ctx@ == q.0 && e0[j].doc == q.1
                            && e0[j].ino == i;
                    assert(n[a] == e0[a]);
                }
            }
            let m = bindings_map(n);
            assert forall|q: (Seq<char>, u64)| #[trigger] m.contains_key(q) <==> m0.insert(k, ino)
                .contains_key(q) by {
                if m.contains_key(q) {
                    let i = choose|i: u64| has(n, q, i);
                    if q != k {
                        lemma_has(e0, q, i);
                    }
                }
                if q == k {
                    assert(has(n, q, ino));
                } else if m0.contains_key(q) {
                    assert(bindings_map(e0).contains_key(q));
                    let i = choose|i: u64| has(e0, q, i);
                    assert(has(n, q, i));
                }
            }
            assert forall|q: (Seq<char>, u64)| m.contains_key(q) implies #[trigger] m[q]
                == m0.insert(k, ino)[q] by {
                let i = choose|i: u64| has(n, q, i);
                lemma_has(n, q, i);
                if q == k {
                    assert(has(n, k, ino));
                    lemma_has(n, k, ino);
                } else {
                    assert(has(e0, q, i));
                    lemma_has(e0, q, i);
                }
            }
            assert(m =~= m0.insert(k, ino));
        }
        self.bindings = e;
    }
}

} // verus!
