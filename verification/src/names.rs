//! File names that stick.

use crate::strmap::StrMap;
use crate::text;
use crate::text::{copy_text, decimal_text};
use vstd::prelude::*;
use vstd::string::*;

verus! {

/// What keeps the parts of a key apart.
pub open spec fn separator() -> Seq<char> {
    "\u{1f}"@
}

/// The key of a document in a directory of a context.
pub open spec fn name_key(ctx: Seq<char>, dir: Seq<char>, doc_id: u64) -> Seq<char> {
    ctx + separator() + dir + separator() + text::decimal(doc_id as nat)
}

/// Makes the key of a document in a directory of a context.
pub fn key(ctx: &str, dir: &str, doc_id: u64) -> (r: String)
    ensures
        r@ == name_key(ctx@, dir@, doc_id),
{
    let mut out = copy_text(ctx);
    out.append("\u{1f}");
    out.append(dir);
    out.append("\u{1f}");
    out.append(decimal_text(doc_id).as_str());
    out
}

/// The file names that documents were given. A document that got a name keeps it, so that
/// collision suffixes stay and links that other applications hold never lead elsewhere.
///
/// The names stand in memory; what was not yet written to disk is handed out by
/// [`NameStore::take_unsaved`].
pub struct NameStore {
    names: StrMap<String>,
    unsaved: Vec<(String, String)>,
}

impl View for NameStore {
    type V = Map<Seq<char>, Seq<char>>;

    closed spec fn view(&self) -> Map<Seq<char>, Seq<char>> {
        self.names@.map_values(|s: String| s@)
    }
}

impl NameStore {
    /// The assignments that were not yet handed out for saving, in the order in which they were
    /// made.
    pub closed spec fn unsaved(&self) -> Seq<(Seq<char>, Seq<char>)> {
        Seq::new(self.unsaved@.len(), |i: int| (self.unsaved@[i].0@, self.unsaved@[i].1@))
    }

    /// No names.
    pub fn new() -> (r: Self)
        ensures
            r@ == Map::<Seq<char>, Seq<char>>::empty(),
            r.unsaved() == Seq::<(Seq<char>, Seq<char>)>::empty(),
    {
        let r = NameStore { names: StrMap::new(), unsaved: Vec::new() };
        assert(r@ =~= Map::<Seq<char>, Seq<char>>::empty());
        assert(r.unsaved() =~= Seq::<(Seq<char>, Seq<char>)>::empty());
        r
    }

    /// Takes over an assignment that is on disk.
    pub fn load(&mut self, key: String, name: String)
        ensures
            final(self)@ == old(self)@.insert(key@, name@),
            final(self).unsaved() == old(self).unsaved(),
    {
        let ghost k = key@;
        let ghost n = name@;
        self.names.insert(key, name);
        assert(self@ =~= old(self)@.insert(k, n));
    }

    /// The name of a document.
    pub fn get(&self, ctx: &str, dir: &str, doc_id: u64) -> (r: Option<String>)
        ensures
            (match r {
                Some(n) => self@.contains_key(name_key(ctx@, dir@, doc_id)) && self@[name_key(
                    ctx@,
                    dir@,
                    doc_id,
                )] == n@,
                None => !self@.contains_key(name_key(ctx@, dir@, doc_id)),
            }),
    {
        match self.names.get(key(ctx, dir, doc_id).as_str()) {
            Some(n) => Some(copy_text(n.as_str())),
            None => None,
        }
    }

    /// Gives a document a name.
    pub fn put(&mut self, ctx: &str, dir: &str, doc_id: u64, name: &str)
        ensures
            final(self)@ == old(self)@.insert(name_key(ctx@, dir@, doc_id), name@),
            final(self).unsaved() == old(self).unsaved().push(
                (name_key(ctx@, dir@, doc_id), name@),
            ),
    {
        let k = key(ctx, dir, doc_id);
        let ghost u0 = self.unsaved();
        self.load(copy_text(k.as_str()), copy_text(name));
        self.unsaved.push((k, copy_text(name)));
        assert(self.unsaved() =~= u0.push((name_key(ctx@, dir@, doc_id), name@)));
        assert(self@ =~= old(self)@.insert(name_key(ctx@, dir@, doc_id), name@));
    }

    /// Hands out the assignments that are to be written to disk.
    pub fn take_unsaved(&mut self) -> (r: Vec<(String, String)>)
        ensures
            Seq::new(r@.len(), |i: int| (r@[i].0@, r@[i].1@)) == old(self).unsaved(),
            final(self)@ == old(self)@,
            final(self).unsaved() == Seq::<(Seq<char>, Seq<char>)>::empty(),
    {
        let mut out: Vec<(String, String)> = Vec::new();
        std::mem::swap(&mut out, &mut self.unsaved);
        assert(self.unsaved() =~= Seq::<(Seq<char>, Seq<char>)>::empty());
        out
    }
}

/// Different numbers are written differently.
pub proof fn lemma_decimal_differs(a: nat, b: nat)
    requires
        text::decimal(a) == text::decimal(b),
    ensures
        a == b,
    decreases a,
{
    let x = text::decimal(a);
    let y = text::decimal(b);
    lemma_decimal_len(a);
    lemma_decimal_len(b);
    if a >= 10 {
        assert(x == text::decimal(a / 10).push(text::digit(a % 10)));
        lemma_decimal_len(a / 10);
        if b < 10 {
            assert(y.len() == 1);
        }
        assert(y == text::decimal(b / 10).push(text::digit(b % 10)));
        assert(x.drop_last() =~= text::decimal(a / 10));
        assert(y.drop_last() =~= text::decimal(b / 10));
        lemma_decimal_differs(a / 10, b / 10);
        assert(x.last() == text::digit(a % 10));
        assert(y.last() == text::digit(b % 10));
        lemma_digit_differs(a % 10, b % 10);
    } else {
        if b >= 10 {
            lemma_decimal_len(b / 10);
            assert(y == text::decimal(b / 10).push(text::digit(b % 10)));
        }
        assert(x == seq![text::digit(a)]);
        assert(y == seq![text::digit(b)]);
        assert(x[0] == text::digit(a) && y[0] == text::digit(b));
        lemma_digit_differs(a, b);
    }
}

proof fn lemma_digit_differs(a: nat, b: nat)
    requires
        a < 10,
        b < 10,
        text::digit(a) == text::digit(b),
    ensures
        a == b,
{
}

proof fn lemma_decimal_len(n: nat)
    ensures
        text::decimal(n).len() >= 1,
    decreases n,
{
    if n >= 10 {
        lemma_decimal_len(n / 10);
    }
}

/// Whether a text is free of what keeps the parts of a key apart.
pub open spec fn plain(s: Seq<char>) -> bool {
    !s.contains('\u{1f}')
}

proof fn lemma_split(a: Seq<char>, x: Seq<char>, b: Seq<char>, y: Seq<char>)
    requires
        plain(a),
        plain(b),
        a + separator() + x == b + separator() + y,
    ensures
        a == b,
        x == y,
{
    reveal_strlit("\u{1f}");
    let l = a + separator() + x;
    let r = b + separator() + y;
    assert(l[a.len() as int] == '\u{1f}');
    assert(r[b.len() as int] == '\u{1f}');
    if a.len() < b.len() {
        assert(r[a.len() as int] == b[a.len() as int]);
        assert(b.contains('\u{1f}'));
    } else if b.len() < a.len() {
        assert(l[b.len() as int] == a[b.len() as int]);
        assert(a.contains('\u{1f}'));
    }
    assert(a =~= l.take(a.len() as int));
    assert(b =~= r.take(b.len() as int));
    assert(x =~= l.skip(a.len() as int + 1));
    assert(y =~= r.skip(b.len() as int + 1));
}

/// Different documents have different keys, also across directories and contexts, where the names
/// of these are free of what keeps the parts of a key apart.
pub proof fn law_keys_differ(
    c: Seq<char>,
    d: Seq<char>,
    i: u64,
    c2: Seq<char>,
    d2: Seq<char>,
    i2: u64,
)
    requires
        plain(c) && plain(c2) || c == c2,
        plain(d),
        plain(d2),
        name_key(c, d, i) == name_key(c2, d2, i2),
    ensures
        c == c2,
        d == d2,
        i == i2,
{
    let n = text::decimal(i as nat);
    let n2 = text::decimal(i2 as nat);
    let x = d + separator() + n;
    let x2 = d2 + separator() + n2;
    assert(name_key(c, d, i) =~= c + separator() + x);
    assert(name_key(c2, d2, i2) =~= c2 + separator() + x2);
    if c == c2 {
        let k = name_key(c, d, i);
        assert(x =~= k.skip((c.len() + separator().len()) as int));
        assert(x2 =~= k.skip((c.len() + separator().len()) as int));
    } else {
        lemma_split(c, x, c2, x2);
    }
    lemma_split(d, n, d2, n2);
    lemma_decimal_differs(i as nat, i2 as nat);
}

/// A name that was given to a document is what is then read for it, and for every other document
/// what was read before.
pub proof fn law_get_after_put(
    names: Map<Seq<char>, Seq<char>>,
    ctx: Seq<char>,
    dir: Seq<char>,
    doc: u64,
    name: Seq<char>,
    other_dir: Seq<char>,
    other: u64,
)
    requires
        plain(dir),
        plain(other_dir),
    ensures
        ({
            let after = names.insert(name_key(ctx, dir, doc), name);
            let k = name_key(ctx, other_dir, other);
            &&& after[name_key(ctx, dir, doc)] == name
            &&& (other_dir, other) != (dir, doc) ==> after.contains_key(k) == names.contains_key(k)
                && after[k] == names[k]
        }),
{
    if name_key(ctx, other_dir, other) == name_key(ctx, dir, doc) {
        law_keys_differ(ctx, other_dir, other, ctx, dir, doc);
    }
}

} // verus!
