//! A map from texts, kept in the order of its keys.

use crate::text;
use crate::text::{same_text, text_before};
use vstd::prelude::*;

verus! {

/// A map whose keys are texts. Its entries are walked in the order of the keys.
pub struct StrMap<V> {
    entries: Vec<(String, V)>,
}

impl<V> View for StrMap<V> {
    type V = Map<Seq<char>, V>;

    closed spec fn view(&self) -> Map<Seq<char>, V> {
        entries_map(self.entries@)
    }
}

/// The map that a list of entries stands for.
closed spec fn entries_map<V>(e: Seq<(String, V)>) -> Map<Seq<char>, V> {
    Map::new(
        |k: Seq<char>| exists|i: int| 0 <= i < e.len() && (#[trigger] e[i]).0@ == k,
        |k: Seq<char>| e[choose|i: int| 0 <= i < e.len() && (#[trigger] e[i]).0@ == k].1,
    )
}

/// The entries stand in the strict order of their keys.
closed spec fn in_order<V>(e: Seq<(String, V)>) -> bool {
    forall|i: int, j: int|
        0 <= i < j < e.len() ==> text::text_lt((#[trigger] e[i]).0@, (#[trigger] e[j]).0@)
}

proof fn lemma_entry<V>(e: Seq<(String, V)>, i: int)
    requires
        in_order(e),
        0 <= i < e.len(),
    ensures
        entries_map(e).contains_key(e[i].0@),
        entries_map(e)[e[i].0@] == e[i].1,
{
    let k = e[i].0@;
    let c = choose|j: int| 0 <= j < e.len() && (#[trigger] e[j]).0@ == k;
    assert(e[i].0@ == k);
    text::lemma_text_lt_total(k, k);
    if c < i {
        assert(text::text_lt(e[c].0@, e[i].0@));
    } else if i < c {
        assert(text::text_lt(e[i].0@, e[c].0@));
    }
}

/// Texts in strict order.
pub open spec fn ascending(s: Seq<Seq<char>>) -> bool {
    forall|i: int, j: int|
        0 <= i < j < s.len() ==> text::text_lt(#[trigger] s[i], #[trigger] s[j])
}

/// The texts of a set in their order.
pub open spec fn ordered(keys: Set<Seq<char>>) -> Seq<Seq<char>> {
    choose|s: Seq<Seq<char>>| #[trigger] ascending(s) && s.to_set() == keys
}

/// Two lists in strict order with the same elements are equal.
pub proof fn lemma_ascending_unique(s: Seq<Seq<char>>, t: Seq<Seq<char>>)
    requires
        ascending(s),
        ascending(t),
        s.to_set() == t.to_set(),
    ensures
        s == t,
    decreases s.len(),
{
    if s.len() == 0 {
        if t.len() > 0 {
            assert(t.to_set().contains(t[0]));
            assert(s.contains(t[0]));
        }
        assert(s =~= t);
    } else {
        assert(s.to_set().contains(s.last()));
        assert(t.contains(s.last()));
        let i = choose|i: int| 0 <= i < t.len() && t[i] == s.last();
        assert(t.to_set().contains(t.last()));
        assert(s.contains(t.last()));
        let j = choose|j: int| 0 <= j < s.len() && s[j] == t.last();
        text::lemma_text_lt_total(s.last(), t.last());
        if j < s.len() - 1 && i < t.len() - 1 {
            assert(text::text_lt(s[j], s[s.len() - 1]));
            assert(text::text_lt(t[i], t[t.len() - 1]));
        }
        assert(s.last() == t.last());
        let s1 = s.drop_last();
        let t1 = t.drop_last();
        text::lemma_text_lt_total(s.last(), s.last());
        assert forall|x: Seq<char>| s1.to_set().contains(x) <==> t1.to_set().contains(x) by {
            if s1.contains(x) {
                let a = choose|a: int| 0 <= a < s1.len() && s1[a] == x;
                assert(s[a] == x);
                assert(text::text_lt(s[a], s[s.len() - 1]));
                assert(s.to_set().contains(x));
                assert(t.contains(x));
                let b = choose|b: int| 0 <= b < t.len() && t[b] == x;
                assert(t1[b] == x);
            }
            if t1.contains(x) {
                let a = choose|a: int| 0 <= a < t1.len() && t1[a] == x;
                assert(t[a] == x);
                assert(text::text_lt(t[a], t[t.len() - 1]));
                assert(t.to_set().contains(x));
                assert(s.contains(x));
                let b = choose|b: int| 0 <= b < s.len() && s[b] == x;
                assert(s1[b] == x);
            }
        }
        assert(s1.to_set() =~= t1.to_set());
        assert(ascending(s1));
        assert(ascending(t1));
        lemma_ascending_unique(s1, t1);
        assert(s =~= s1.push(s.last()));
        assert(t =~= t1.push(t.last()));
    }
}

/// A list in strict order holds nothing twice.
pub proof fn lemma_ascending_no_duplicates(s: Seq<Seq<char>>)
    requires
        ascending(s),
    ensures
        s.no_duplicates(),
{
    assert forall|i: int, j: int| 0 <= i < s.len() && 0 <= j < s.len() && i != j implies s[i]
        != s[j] by {
        text::lemma_text_lt_total(s[i], s[j]);
        if i < j {
            assert(text::text_lt(s[i], s[j]));
        } else {
            assert(text::text_lt(s[j], s[i]));
        }
    }
}

/// A finite set of texts can be put in order.
pub proof fn lemma_ordered(keys: Set<Seq<char>>)
    requires
        keys.finite(),
    ensures
        ascending(ordered(keys)),
        ordered(keys).to_set() == keys,
        ordered(keys).len() == keys.len(),
    decreases keys.len(),
{
    let s = lemma_can_order(keys);
    let o = ordered(keys);
    assert(ascending(o) && o.to_set() == keys);
    lemma_ascending_no_duplicates(o);
    o.unique_seq_to_set();
}

proof fn lemma_can_order(keys: Set<Seq<char>>) -> (s: Seq<Seq<char>>)
    requires
        keys.finite(),
    ensures
        ascending(s),
        s.to_set() == keys,
    decreases keys.len(),
{
    if keys.len() == 0 {
        let s = Seq::<Seq<char>>::empty();
        assert(s.to_set() =~= keys);
        s
    } else {
        let x = keys.choose();
        assert(keys.contains(x));
        let s = lemma_can_order(keys.remove(x));
        let r = lemma_put(s, x, s.len() as int);
        assert(r.to_set() =~= keys) by {
            assert forall|y: Seq<char>| r.to_set().contains(y) <==> keys.contains(y) by {
                assert(r.contains(y) <==> s.contains(y) || y == x);
                assert(s.to_set().contains(y) <==> s.contains(y));
            }
        }
        r
    }
}

/// Puts a text among those that come before or after it.
proof fn lemma_put(s: Seq<Seq<char>>, x: Seq<char>, at: int) -> (r: Seq<Seq<char>>)
    requires
        ascending(s),
        !s.contains(x),
        0 <= at <= s.len(),
        forall|i: int| at <= i < s.len() ==> text::text_lt(x, #[trigger] s[i]),
    ensures
        ascending(r),
        forall|y: Seq<char>| #[trigger] r.contains(y) <==> s.contains(y) || y == x,
    decreases at,
{
    if at > 0 && {
        text::lemma_text_lt_total(x, s[at - 1]);
        text::text_lt(x, s[at - 1])
    } {
        lemma_put(s, x, at - 1)
    } else {
        let r = s.insert(at, x);
        if at > 0 {
            assert(s[at - 1] != x);
            text::lemma_text_lt_total(x, s[at - 1]);
        }
        assert forall|i: int, j: int| 0 <= i < j < r.len() implies text::text_lt(
            #[trigger] r[i],
            #[trigger] r[j],
        ) by {
            if j == at {
                assert(r[i] == s[i]);
                if i < at - 1 {
                    assert(text::text_lt(s[i], s[at - 1]));
                    text::lemma_text_lt_trans(s[i], s[at - 1], x);
                }
            } else if i == at {
                assert(r[j] == s[j - 1]);
            } else {
                let a = if i < at {
                    i
                } else {
                    i - 1
                };
                let b = if j < at {
                    j
                } else {
                    j - 1
                };
                assert(r[i] == s[a] && r[j] == s[b]);
            }
        }
        assert forall|y: Seq<char>| #[trigger] r.contains(y) <==> s.contains(y) || y == x by {
            if r.contains(y) {
                let i = choose|i: int| 0 <= i < r.len() && r[i] == y;
                if i < at {
                    assert(s[i] == y);
                } else if i > at {
                    assert(s[i - 1] == y);
                }
            }
            if s.contains(y) {
                let i = choose|i: int| 0 <= i < s.len() && s[i] == y;
                if i < at {
                    assert(r[i] == y);
                } else {
                    assert(r[i + 1] == y);
                }
            }
            if y == x {
                assert(r[at] == y);
            }
        }
        r
    }
}

impl<V> StrMap<V> {
    #[verifier::type_invariant]
    spec fn inv(&self) -> bool {
        in_order(self.entries@)
    }

    /// The keys in their order.
    pub open spec fn keys(&self) -> Seq<Seq<char>> {
        ordered(self@.dom())
    }

    /// The keys as they stand in the entries.
    spec fn stored_keys(&self) -> Seq<Seq<char>> {
        Seq::new(self.entries@.len(), |i: int| self.entries@[i].0@)
    }

    proof fn lemma_keys(&self)
        requires
            in_order(self.entries@),
        ensures
            self.keys() == self.stored_keys(),
            ascending(self.keys()),
            self.keys().to_set() == self@.dom(),
    {
        let k = self.stored_keys();
        assert(ascending(k));
        assert forall|x: Seq<char>| k.to_set().contains(x) <==> self@.dom().contains(x) by {
            if k.contains(x) {
                let i = choose|i: int| 0 <= i < k.len() && k[i] == x;
                lemma_entry(self.entries@, i);
            }
            if self@.dom().contains(x) {
                let c = choose|j: int|
                    0 <= j < self.entries@.len() && (#[trigger] self.entries@[j]).0@ == x;
                assert(k[c] == x);
            }
        }
        assert(k.to_set() =~= self@.dom());
        lemma_ascending_unique(self.keys(), k);
    }

    /// The empty map.
    pub fn new() -> (r: Self)
        ensures
            r@ == Map::<Seq<char>, V>::empty(),
    {
        let r = StrMap { entries: Vec::new() };
        assert(r@ =~= Map::<Seq<char>, V>::empty());
        r
    }

    /// The number of entries. The keys are in order and are those of the map.
    pub fn len(&self) -> (r: usize)
        ensures
            r == self.keys().len(),
            ascending(self.keys()),
            self.keys().to_set() == self@.dom(),
    {
        proof {
            use_type_invariant(self);
            self.lemma_keys();
        }
        self.entries.len()
    }

    /// The key at an index.
    pub fn key_at(&self, i: usize) -> (r: &String)
        requires
            i < self.keys().len(),
        ensures
            r@ == self.keys()[i as int],
            self@.contains_key(r@),
    {
        proof {
            use_type_invariant(self);
            self.lemma_keys();
            lemma_entry(self.entries@, i as int);
        }
        &self.entries[i].0
    }

    /// The value at an index.
    pub fn value_at(&self, i: usize) -> (r: &V)
        requires
            i < self.keys().len(),
        ensures
            self@.contains_key(self.keys()[i as int]),
            *r == self@[self.keys()[i as int]],
    {
        proof {
            use_type_invariant(self);
            self.lemma_keys();
            lemma_entry(self.entries@, i as int);
        }
        &self.entries[i].1
    }

    /// Index of the first entry whose key does not come before `k`.
    fn position(&self, k: &str) -> (r: usize)
        ensures
            r <= self.entries@.len(),
            forall|i: int| 0 <= i < r ==> text::text_lt((#[trigger] self.entries@[i]).0@, k@),
            r < self.entries@.len() ==> !text::text_lt(self.entries@[r as int].0@, k@),
    {
        let mut i: usize = 0;
        while i < self.entries.len() && text_before(self.entries[i].0.as_str(), k)
            invariant
                i <= self.entries@.len(),
                forall|j: int| 0 <= j < i ==> text::text_lt((#[trigger] self.entries@[j]).0@, k@),
            decreases self.entries@.len() - i,
        {
            i = i + 1;
        }
        i
    }

    proof fn lemma_position(self, k: Seq<char>, p: int)
        requires
            in_order(self.entries@),
            0 <= p <= self.entries@.len(),
            forall|i: int| 0 <= i < p ==> text::text_lt((#[trigger] self.entries@[i]).0@, k),
            p < self.entries@.len() ==> !text::text_lt(self.entries@[p].0@, k),
        ensures
            self@.contains_key(k) <==> p < self.entries@.len() && self.entries@[p].0@ == k,
            self@.contains_key(k) ==> self@[k] == self.entries@[p].1,
            forall|i: int|
                p <= i < self.entries@.len() ==> ((#[trigger] self.entries@[i]).0@ == k && i == p)
                    || text::text_lt(k, self.entries@[i].0@),
    {
        let e = self.entries@;
        assert forall|i: int| p <= i < e.len() implies ((#[trigger] e[i]).0@ == k && i == p)
            || text::text_lt(k, e[i].0@) by {
            text::lemma_text_lt_total(k, e[p].0@);
            if i > p {
                assert(text::text_lt(e[p].0@, e[i].0@));
                if text::text_lt(k, e[p].0@) {
                    text::lemma_text_lt_trans(k, e[p].0@, e[i].0@);
                }
            }
        }
        if self@.contains_key(k) {
            let c = choose|j: int| 0 <= j < e.len() && (#[trigger] e[j]).0@ == k;
            text::lemma_text_lt_total(k, k);
        }
        if p < e.len() {
            lemma_entry(e, p);
        }
    }

    /// Looks a key up.
    pub fn get(&self, k: &str) -> (r: Option<&V>)
        ensures
            (match r {
                Some(v) => self@.contains_key(k@) && *v == self@[k@],
                None => !self@.contains_key(k@),
            }),
    {
        let p = self.position(k);
        proof {
            use_type_invariant(self);
            self.lemma_position(k@, p as int);
        }
        if p < self.entries.len() && same_text(self.entries[p].0.as_str(), k) {
            Some(&self.entries[p].1)
        } else {
            None
        }
    }

    /// Tells whether a key is in the map.
    pub fn contains_key(&self, k: &str) -> (r: bool)
        ensures
            r == self@.contains_key(k@),
    {
        self.get(k).is_some()
    }

    /// Adds an entry, in place of one with the same key.
    pub fn insert(&mut self, k: String, v: V)
        ensures
            final(self)@ == old(self)@.insert(k@, v),
    {
        let p = self.position(k.as_str());
        let ghost s0 = *self;
        let ghost e0 = self.entries@;
        proof {
            use_type_invariant(&*self);
            s0.lemma_position(k@, p as int);
        }
        let mut e: Vec<(String, V)> = Vec::new();
        std::mem::swap(&mut e, &mut self.entries);
        let there = p < e.len() && same_text(e[p].0.as_str(), k.as_str());
        if there {
            e.remove(p);
        }
        let ghost kv = k@;
        e.insert(p, (k, v));
        proof {
            let n = e@;
            assert forall|i: int, j: int| 0 <= i < j < n.len() implies text::text_lt(
                (#[trigger] n[i]).0@,
                (#[trigger] n[j]).0@,
            ) by {
                let i0 = if i <= p || there { i } else { i - 1 };
                let j0 = if j <= p || there { j } else { j - 1 };
                if i != p && j != p {
                    assert(n[i] == e0[i0]);
                    assert(n[j] == e0[j0]);
                } else if i == p {
                    assert(n[j] == e0[j0]);
                } else {
                    assert(n[i] == e0[i0]);
                }
            }
            assert(in_order(n));
            assert forall|q: Seq<char>| #[trigger] entries_map(n).contains_key(q) <==> (q == kv
                || entries_map(e0).contains_key(q)) by {
                if entries_map(n).contains_key(q) {
                    let c = choose|i: int| 0 <= i < n.len() && (#[trigger] n[i]).0@ == q;
                    if c != p {
                        let c0 = if c < p || there { c } else { c - 1 };
                        assert(n[c] == e0[c0]);
                        assert(e0[c0].0@ == q);
                    }
                }
                if q == kv {
                    assert(n[p as int].0@ == q);
                } else if entries_map(e0).contains_key(q) {
                    let c = choose|i: int| 0 <= i < e0.len() && (#[trigger] e0[i]).0@ == q;
                    let c1 = if c < p || there { c } else { c + 1 };
                    assert(n[c1] == e0[c]);
                    assert(n[c1].0@ == q);
                }
            }
            assert forall|q: Seq<char>| entries_map(n).contains_key(q) implies #[trigger] entries_map(
                n,
            )[q] == entries_map(e0).insert(kv, v)[q] by {
                let c = choose|i: int| 0 <= i < n.len() && (#[trigger] n[i]).0@ == q;
                lemma_entry(n, c);
                lemma_entry(n, p as int);
                if c != p {
                    let c0 = if c < p || there { c } else { c - 1 };
                    assert(n[c] == e0[c0]);
                    lemma_entry(e0, c0);
                }
            }
            assert(entries_map(n) =~= entries_map(e0).insert(kv, v));
        }
        self.entries = e;
    }

    /// Removes the entry of a key.
    pub fn remove(&mut self, k: &str) -> (r: Option<V>)
        ensures
            final(self)@ == old(self)@.remove(k@),
            (match r {
                Some(v) => old(self)@.contains_key(k@) && v == old(self)@[k@],
                None => !old(self)@.contains_key(k@),
            }),
    {
        let p = self.position(k);
        let ghost s0 = *self;
        let ghost e0 = self.entries@;
        proof {
            use_type_invariant(&*self);
            s0.lemma_position(k@, p as int);
        }
        if !(p < self.entries.len() && same_text(self.entries[p].0.as_str(), k)) {
            assert(self@ =~= old(self)@.remove(k@));
            return None;
        }
        let mut e: Vec<(String, V)> = Vec::new();
        std::mem::swap(&mut e, &mut self.entries);
        let (_, v) = e.remove(p);
        proof {
            let n = e@;
            assert forall|i: int, j: int| 0 <= i < j < n.len() implies text::text_lt(
                (#[trigger] n[i]).0@,
                (#[trigger] n[j]).0@,
            ) by {
                let i0 = if i < p { i } else { i + 1 };
                let j0 = if j < p { j } else { j + 1 };
                assert(n[i] == e0[i0]);
                assert(n[j] == e0[j0]);
            }
            assert(in_order(n));
            text::lemma_text_lt_total(k@, k@);
            assert forall|q: Seq<char>| #[trigger] entries_map(n).contains_key(q) <==> (q != k@
                && entries_map(e0).contains_key(q)) by {
                if entries_map(n).contains_key(q) {
                    let c = choose|i: int| 0 <= i < n.len() && (#[trigger] n[i]).0@ == q;
                    let c0 = if c < p { c } else { c + 1 };
                    assert(n[c] == e0[c0]);
                    assert(e0[c0].0@ == q);
                }
                if q != k@ && entries_map(e0).contains_key(q) {
                    let c = choose|i: int| 0 <= i < e0.len() && (#[trigger] e0[i]).0@ == q;
                    let c1 = if c < p { c } else { c - 1 };
                    assert(n[c1] == e0[c]);
                    assert(n[c1].0@ == q);
                }
            }
            assert forall|q: Seq<char>| entries_map(n).contains_key(q) implies #[trigger] entries_map(
                n,
            )[q] == entries_map(e0)[q] by {
                let c = choose|i: int| 0 <= i < n.len() && (#[trigger] n[i]).0@ == q;
                lemma_entry(n, c);
                let c0 = if c < p { c } else { c + 1 };
                assert(n[c] == e0[c0]);
                lemma_entry(e0, c0);
            }
            assert(entries_map(n) =~= entries_map(e0).remove(k@));
        }
        self.entries = e;
        Some(v)
    }
}

} // verus!
