//! What a directory of a tree shows after its documents were brought up to date.

use crate::api::DocumentView;
use crate::listing;
use crate::model;
use crate::model::{Sync, TreeView, Update, Wanted};
use crate::names;
use crate::naming;
use crate::render;
use crate::state::{FIRST_OVERLAY_INO, ROOT_INO};
use crate::strmap;
use crate::wellformed;
use crate::workspace;
use crate::workspace_laws;
use std::time::SystemTime;
use vstd::prelude::*;

verus! {

/// A directory is neat where each of its documents that has a file has it there, under its name,
/// and no two of them share one.
pub open spec fn neat(t: TreeView, key: Seq<char>, dir: u64) -> bool {
    &&& forall|d: u64| #[trigger]
        t.docs.contains_key((key, d)) && t.nodes.contains_key(t.docs[(key, d)]) ==> {
            let i = t.docs[(key, d)];
            t.entries(dir).contains_key(t.nodes[i].name) && t.entries(dir)[t.nodes[i].name] == i
        }
    &&& forall|d: u64, e: u64|
        #![trigger t.docs.contains_key((key, d)), t.docs.contains_key((key, e))]
        t.docs.contains_key((key, d)) && t.docs.contains_key((key, e)) && t.docs[(key, d)]
            == t.docs[(key, e)] && t.nodes.contains_key(t.docs[(key, d)]) ==> d == e
}

/// Whether a document's file stands under the name that is wanted for it.
spec fn stands(
    t: TreeView,
    key: Seq<char>,
    dir: u64,
    want: Map<Seq<char>, Wanted>,
    d: u64,
) -> bool {
    exists|n: Seq<char>| #[trigger]
        want.contains_key(n) && want[n].doc == d && t.entries(dir).contains_key(n) && t.entries(
            dir,
        )[n] == t.docs[(key, d)]
}

/// Whether each document that has a file has it under the name that is wanted for it.
spec fn all_stand(t: TreeView, key: Seq<char>, dir: u64, want: Map<Seq<char>, Wanted>) -> bool {
    forall|d: u64| #[trigger]
        t.docs.contains_key((key, d)) && t.nodes.contains_key(t.docs[(key, d)]) ==> stands(
            t,
            key,
            dir,
            want,
            d,
        )
}

proof fn lemma_visit(
    s: Sync,
    key: Seq<char>,
    dir: u64,
    want: Map<Seq<char>, Wanted>,
    name: Seq<char>,
    ino: u64,
)
    requires
        s.up.tree.wf(),
        s.up.tree.layout is Workspace,
        neat(s.up.tree, key, dir),
        s.up.tree.entries(dir).contains_key(name),
        s.up.tree.entries(dir)[name] == ino,
    ensures
        ({
            let t = s.up.tree;
            let u = s.visit(key, dir, want, name, ino).up.tree;
            let kept = want.contains_key(name) && t.bound(key, want[name].doc, ino);
            &&& neat(u, key, dir)
            &&& t.is_dir(ino) ==> u == t
            &&& !t.is_dir(ino) && kept ==> u.entries(dir) == t.entries(dir)
                && listing::shows_wanted(u, key, dir, name, want[name])
            &&& !t.is_dir(ino) && !kept ==> u.entries(dir) == t.entries(dir).remove(name)
                && !u.nodes.contains_key(ino)
            &&& forall|i: u64| #[trigger]
                t.nodes.contains_key(i) && i != ino ==> u.nodes.contains_key(i) && u.nodes[i]
                    == t.nodes[i]
            &&& forall|d: u64, i: u64|
                i != ino ==> (#[trigger] u.bound(key, d, i) <==> t.bound(key, d, i))
            &&& forall|d: u64| #[trigger]
                u.docs.contains_key((key, d)) ==> t.docs.contains_key((key, d)) && t.docs[(key, d)]
                    == u.docs[(key, d)]
            &&& forall|e: u64| e != dir ==> #[trigger] u.entries(e) == t.entries(e)
        }),
{
    let t = s.up.tree;
    let u = s.visit(key, dir, want, name, ino).up.tree;
    let kept = want.contains_key(name) && t.bound(key, want[name].doc, ino);
    assert(t.nodes.contains_key(ino) && t.nodes[ino].parent == dir && t.nodes[ino].name == name);
    assert(t.children.contains_key(dir));
    if !t.is_dir(ino) {
        assert(dir != ino) by {
            assert(!t.is_file(dir));
        }
        assert(t.entries(ino) =~= Map::empty()) by {
            assert forall|n: Seq<char>| !t.entries(ino).contains_key(n) by {
                if t.entries(ino).contains_key(n) {
                    assert(!t.is_file(ino));
                }
            }
        }
        if kept {
            assert(u.entries(dir) == t.entries(dir));
            assert(neat(u, key, dir));
        } else {
            assert(u.entries(dir) == t.entries(dir).remove(name));
            assert forall|d: u64| #[trigger]
                u.docs.contains_key((key, d)) && u.nodes.contains_key(u.docs[(key, d)]) implies {
                let i = u.docs[(key, d)];
                u.entries(dir).contains_key(u.nodes[i].name) && u.entries(dir)[u.nodes[i].name] == i
            } by {
                assert(t.docs.contains_key((key, d)));
            }
            assert forall|d: u64, e: u64|
                #![trigger u.docs.contains_key((key, d)), u.docs.contains_key((key, e))]
                u.docs.contains_key((key, d)) && u.docs.contains_key((key, e)) && u.docs[(key, d)]
                    == u.docs[(key, e)] && u.nodes.contains_key(
                    u.docs[(key, d)],
                ) implies d == e by {
                assert(t.docs.contains_key((key, d)) && t.docs.contains_key((key, e)));
            }
        }
    }
}

/// What became of an entry that was gone through.
spec fn went(
    t: TreeView,
    v: TreeView,
    key: Seq<char>,
    dir: u64,
    want: Map<Seq<char>, Wanted>,
    n: Seq<char>,
) -> bool {
    let have = t.entries(dir);
    if t.is_dir(have[n]) {
        v.entries(dir).contains_key(n) && v.entries(dir)[n] == have[n] && v.is_dir(have[n])
    } else if listing::kept(t, key, have, want, n) {
        v.entries(dir).contains_key(n) && v.entries(dir)[n] == have[n] && listing::shows_wanted(
            v,
            key,
            dir,
            n,
            want[n],
        )
    } else {
        !v.entries(dir).contains_key(n) && !v.nodes.contains_key(have[n])
    }
}

/// Whether an entry is as it was.
spec fn untouched(t: TreeView, v: TreeView, key: Seq<char>, dir: u64, n: Seq<char>) -> bool {
    let i = t.entries(dir)[n];
    &&& v.entries(dir).contains_key(n)
    &&& v.entries(dir)[n] == i
    &&& v.nodes.contains_key(i)
    &&& v.nodes[i] == t.nodes[i]
    &&& forall|d: u64| #[trigger] v.bound(key, d, i) <==> t.bound(key, d, i)
}

proof fn lemma_visit_all(
    s: Sync,
    key: Seq<char>,
    dir: u64,
    want: Map<Seq<char>, Wanted>,
    names: Seq<Seq<char>>,
)
    requires
        s.up.tree.wf(),
        s.up.tree.layout is Workspace,
        wellformed::takes_files(s.up.tree, dir),
        wellformed::files_only(want),
        neat(s.up.tree, key, dir),
        names.no_duplicates(),
        forall|j: int|
            0 <= j < names.len() ==> s.up.tree.entries(dir).contains_key(#[trigger] names[j]),
    ensures
        ({
            let t = s.up.tree;
            let v = s.visit_all(key, dir, t.entries(dir), want, names).up.tree;
            &&& v.wf()
            &&& wellformed::takes_files(v, dir)
            &&& v.next_ino == t.next_ino
            &&& neat(v, key, dir)
            &&& forall|n: Seq<char>| #[trigger] names.contains(n) ==> went(t, v, key, dir, want, n)
            &&& forall|n: Seq<char>|
                t.entries(dir).contains_key(n) && !names.contains(n) ==> #[trigger] untouched(
                    t,
                    v,
                    key,
                    dir,
                    n,
                )
            &&& forall|n: Seq<char>| #[trigger]
                v.entries(dir).contains_key(n) ==> t.entries(dir).contains_key(n) && t.entries(
                    dir,
                )[n] == v.entries(dir)[n]
            &&& forall|d: u64| #[trigger]
                v.docs.contains_key((key, d)) ==> t.docs.contains_key((key, d)) && t.docs[(key, d)]
                    == v.docs[(key, d)]
            &&& forall|i: u64| #[trigger] v.nodes.contains_key(i) ==> t.nodes.contains_key(i)
            &&& forall|e: u64| e != dir ==> #[trigger] v.entries(e) == t.entries(e)
        }),
    decreases names.len(),
{
    let t = s.up.tree;
    let have = t.entries(dir);
    assert forall|j: int|
        0 <= j < names.len() && t.nodes.contains_key(have[#[trigger] names[j]]) implies
        t.nodes[have[names[j]]].parent == dir by {
        assert(have.contains_key(names[j]));
    }
    wellformed::lemma_visit_all_wf(s, key, dir, have, want, names);
    let v = s.visit_all(key, dir, have, want, names).up.tree;
    wellformed::lemma_still_takes_files(t, v, dir);
    if names.len() > 0 {
        let f = names.drop_last();
        let x = names.last();
        assert(names == f.push(x));
        assert(forall|j: int| 0 <= j < f.len() ==> f[j] == names[j]);
        assert(names[names.len() - 1] == x);
        assert(have.contains_key(x));
        assert(!f.contains(x)) by {
            if f.contains(x) {
                let j = choose|j: int| 0 <= j < f.len() && f[j] == x;
                assert(names[j] == names[names.len() - 1]);
            }
        }
        lemma_visit_all(s, key, dir, want, f);
        let s1 = s.visit_all(key, dir, have, want, f);
        let w = s1.up.tree;
        assert(untouched(t, w, key, dir, x));
        let ino = have[x];
        lemma_visit(s1, key, dir, want, x, ino);
        assert(v == s1.visit(key, dir, want, x, ino).up.tree);
        assert(w.is_dir(ino) == t.is_dir(ino));
        if want.contains_key(x) {
            assert(w.bound(key, want[x].doc, ino) <==> t.bound(key, want[x].doc, ino));
        }
        assert forall|n: Seq<char>| have.contains_key(n) && n != x implies have[n] != ino by {
            assert(t.nodes[have[n]].name == n);
        }
        assert(went(t, v, key, dir, want, x));
        assert forall|n: Seq<char>| #[trigger] names.contains(n) implies went(
            t,
            v,
            key,
            dir,
            want,
            n,
        ) by {
            wellformed::lemma_push_contains(f, x, n);
            if n != x {
                assert(went(t, w, key, dir, want, n));
                let j = choose|j: int| 0 <= j < f.len() && f[j] == n;
                assert(have.contains_key(names[j]));
                assert(have[n] != ino);
                if want.contains_key(n) {
                    assert(v.bound(key, want[n].doc, have[n]) <==> w.bound(
                        key,
                        want[n].doc,
                        have[n],
                    ));
                }
                if w.entries(dir).contains_key(n) {
                    assert(w.nodes.contains_key(have[n]));
                }
                if !t.is_dir(have[n]) && !listing::kept(t, key, have, want, n) {
                    assert(!w.nodes.contains_key(have[n]));
                    wellformed::lemma_visit_wf(s1, key, dir, want, x, ino);
                }
            }
        }
        assert forall|n: Seq<char>| have.contains_key(n) && !names.contains(n) implies
            #[trigger] untouched(t, v, key, dir, n) by {
            wellformed::lemma_push_contains(f, x, n);
            assert(untouched(t, w, key, dir, n));
            assert(have[n] != ino);
        }
    }
}

proof fn lemma_place(
    s: Sync,
    key: Seq<char>,
    dir: u64,
    want: Map<Seq<char>, Wanted>,
    name: Seq<char>,
)
    requires
        s.up.tree.wf(),
        wellformed::takes_files(s.up.tree, dir),
        listing::once(want),
        all_stand(s.up.tree, key, dir, want),
        want.contains_key(name),
        s.up.tree.room(1),
    ensures
        ({
            let t = s.up.tree;
            let u = s.place(key, dir, want, name).up.tree;
            &&& t.entries(dir).contains_key(name) ==> u == t
            &&& !t.entries(dir).contains_key(name) ==> {
                &&& u.entries(dir) == t.entries(dir).insert(name, t.next_ino)
                &&& listing::shows_wanted(u, key, dir, name, want[name])
            }
            &&& u.next_ino <= t.next_ino + 1
            &&& all_stand(u, key, dir, want)
            &&& forall|i: u64| #[trigger]
                t.nodes.contains_key(i) ==> u.nodes.contains_key(i) && u.nodes[i] == t.nodes[i]
            &&& forall|n: Seq<char>, d: u64| #[trigger]
                listing::shown(t, key, dir, n, d) ==> listing::shown(u, key, dir, n, d)
            &&& forall|e: u64| e != dir ==> #[trigger] u.entries(e) == t.entries(e)
        }),
{
    let t = s.up.tree;
    let u = s.place(key, dir, want, name).up.tree;
    if t.entries(dir).contains_key(name) {
        assert(t.lookup(dir, name) is Some);
    } else {
        let doc = want[name].doc;
        assert(t.lookup(dir, name) is None);
        assert(!(t.docs.contains_key((key, doc)) && t.nodes.contains_key(t.docs[(key, doc)]))) by {
            if t.docs.contains_key((key, doc)) && t.nodes.contains_key(t.docs[(key, doc)]) {
                assert(stands(t, key, dir, want, doc));
                let n = choose|n: Seq<char>| #[trigger]
                    want.contains_key(n) && want[n].doc == doc && t.entries(dir).contains_key(n)
                        && t.entries(dir)[n] == t.docs[(key, doc)];
                assert(n == name);
            }
        }
        let ino = t.next_ino;
        assert(!t.nodes.contains_key(ino) && !t.children.contains_key(ino));
        assert(dir != ino);
        assert(u.entries(dir) =~= t.entries(dir).insert(name, ino));
        assert(u.docs == t.docs.insert((key, doc), ino));
        assert(u.bound(key, doc, ino));
        assert forall|d: u64| #[trigger]
            u.docs.contains_key((key, d)) && u.nodes.contains_key(u.docs[(key, d)]) implies stands(
            u,
            key,
            dir,
            want,
            d,
        ) by {
            if d == doc {
                assert(want.contains_key(name) && u.entries(dir)[name] == u.docs[(key, d)]);
            } else {
                assert(t.docs.contains_key((key, d)));
                let i = t.docs[(key, d)];
                if i == ino {
                    assert(i < t.next_ino || i >= FIRST_OVERLAY_INO);
                }
                assert(stands(t, key, dir, want, d));
                let n = choose|n: Seq<char>| #[trigger]
                    want.contains_key(n) && want[n].doc == d && t.entries(dir).contains_key(n)
                        && t.entries(dir)[n] == t.docs[(key, d)];
                assert(want.contains_key(n) && u.entries(dir)[n] == u.docs[(key, d)]);
            }
        }
        assert forall|n: Seq<char>, d: u64| #[trigger]
            listing::shown(t, key, dir, n, d) implies listing::shown(u, key, dir, n, d) by {
            assert(t.nodes.contains_key(t.entries(dir)[n]));
            assert(t.docs.contains_key((key, d)));
        }
    }
}

proof fn lemma_place_all(
    s: Sync,
    key: Seq<char>,
    dir: u64,
    want: Map<Seq<char>, Wanted>,
    names: Seq<Seq<char>>,
)
    requires
        s.up.tree.wf(),
        wellformed::takes_files(s.up.tree, dir),
        wellformed::files_only(want),
        listing::once(want),
        all_stand(s.up.tree, key, dir, want),
        forall|n: Seq<char>| #[trigger]
            want.contains_key(n) && s.up.tree.entries(dir).contains_key(n)
                ==> listing::shows_wanted(s.up.tree, key, dir, n, want[n]),
        forall|j: int| 0 <= j < names.len() ==> want.contains_key(#[trigger] names[j]),
        s.up.tree.room(names.len() as int),
    ensures
        ({
            let t = s.up.tree;
            let u = s.place_all(key, dir, want, names).up.tree;
            &&& u.wf()
            &&& wellformed::takes_files(u, dir)
            &&& u.next_ino <= t.next_ino + names.len()
            &&& all_stand(u, key, dir, want)
            &&& forall|n: Seq<char>| #[trigger]
                want.contains_key(n) && u.entries(dir).contains_key(n) ==> listing::shows_wanted(
                    u,
                    key,
                    dir,
                    n,
                    want[n],
                )
            &&& forall|n: Seq<char>| #[trigger]
                u.entries(dir).contains_key(n) <==> t.entries(dir).contains_key(n)
                    || names.contains(n)
            &&& forall|n: Seq<char>| #[trigger]
                t.entries(dir).contains_key(n) ==> u.entries(dir)[n] == t.entries(dir)[n]
            &&& forall|i: u64| #[trigger]
                t.nodes.contains_key(i) ==> u.nodes.contains_key(i) && u.nodes[i] == t.nodes[i]
            &&& forall|e: u64| e != dir ==> #[trigger] u.entries(e) == t.entries(e)
        }),
    decreases names.len(),
{
    let t = s.up.tree;
    wellformed::lemma_place_all_wf(s, key, dir, want, names);
    let u = s.place_all(key, dir, want, names).up.tree;
    wellformed::lemma_still_takes_files(t, u, dir);
    if names.len() > 0 {
        let f = names.drop_last();
        let x = names.last();
        assert(names == f.push(x));
        assert(forall|j: int| 0 <= j < f.len() ==> f[j] == names[j]);
        assert(names[names.len() - 1] == x);
        lemma_place_all(s, key, dir, want, f);
        let s1 = s.place_all(key, dir, want, f);
        let w = s1.up.tree;
        lemma_place(s1, key, dir, want, x);
        assert(u == s1.place(key, dir, want, x).up.tree);
        assert forall|n: Seq<char>| #[trigger]
            want.contains_key(n) && u.entries(dir).contains_key(n) implies listing::shows_wanted(
            u,
            key,
            dir,
            n,
            want[n],
        ) by {
            if w.entries(dir).contains_key(n) {
                assert(listing::shows_wanted(w, key, dir, n, want[n]));
                assert(listing::shown(w, key, dir, n, want[n].doc));
                assert(listing::shown(u, key, dir, n, want[n].doc));
                assert(w.nodes.contains_key(w.entries(dir)[n]));
                assert(u.entries(dir)[n] == w.entries(dir)[n]);
            }
        }
        assert forall|n: Seq<char>| #[trigger]
            u.entries(dir).contains_key(n) <==> t.entries(dir).contains_key(n) || names.contains(
                n,
            ) by {
            wellformed::lemma_push_contains(f, x, n);
            assert(w.entries(dir).contains_key(n) <==> t.entries(dir).contains_key(n)
                || f.contains(n));
        }
        assert forall|n: Seq<char>| #[trigger] t.entries(dir).contains_key(n) implies u.entries(
            dir,
        )[n] == t.entries(dir)[n] by {
            assert(w.entries(dir).contains_key(n));
        }
    }
}

/// After all entries of a neat directory were gone through, each document that has a file has it
/// under the name that is wanted for it.
proof fn lemma_all_stand(
    t: TreeView,
    v: TreeView,
    key: Seq<char>,
    dir: u64,
    want: Map<Seq<char>, Wanted>,
    olds: Seq<Seq<char>>,
)
    requires
        neat(t, key, dir),
        v.wf(),
        neat(v, key, dir),
        t.entries(dir).dom().finite(),
        olds == strmap::ordered(t.entries(dir).dom()),
        forall|n: Seq<char>| #[trigger] olds.contains(n) ==> went(t, v, key, dir, want, n),
        forall|n: Seq<char>| #[trigger]
            v.entries(dir).contains_key(n) ==> t.entries(dir).contains_key(n) && t.entries(dir)[n]
                == v.entries(dir)[n],
        forall|d: u64| #[trigger]
            v.docs.contains_key((key, d)) ==> t.docs.contains_key((key, d)) && t.docs[(key, d)]
                == v.docs[(key, d)],
        forall|i: u64| #[trigger] v.nodes.contains_key(i) ==> t.nodes.contains_key(i),
    ensures
        all_stand(v, key, dir, want),
{
    let have = t.entries(dir);
    strmap::lemma_ordered(have.dom());
    assert forall|d: u64| #[trigger]
        v.docs.contains_key((key, d)) && v.nodes.contains_key(v.docs[(key, d)]) implies stands(
        v,
        key,
        dir,
        want,
        d,
    ) by {
        let i = v.docs[(key, d)];
        let m = v.nodes[i].name;
        assert(v.entries(dir).contains_key(m) && v.entries(dir)[m] == i);
        assert(olds.to_set().contains(m));
        assert(went(t, v, key, dir, want, m));
        assert(!v.is_dir(i));
        assert(listing::kept(t, key, have, want, m));
        assert(t.docs.contains_key((key, d)) && t.docs.contains_key((key, want[m].doc)));
        assert(t.nodes.contains_key(i));
        assert(want[m].doc == d);
        assert(want.contains_key(m));
    }
}

/// Whether a directory holds its directories, and exactly the files that it is to hold.
pub open spec fn holds(
    t: TreeView,
    u: TreeView,
    key: Seq<char>,
    dir: u64,
    want: Map<Seq<char>, Wanted>,
) -> bool {
    &&& forall|n: Seq<char>| #[trigger]
        u.entries(dir).contains_key(n) <==> want.contains_key(n) || t.subdirs(dir).contains(n)
    &&& forall|n: Seq<char>| #[trigger]
        want.contains_key(n) ==> listing::shows_wanted(u, key, dir, n, want[n])
    &&& forall|n: Seq<char>| #[trigger]
        t.subdirs(dir).contains(n) ==> u.entries(dir)[n] == t.entries(dir)[n] && u.is_dir(
            u.entries(dir)[n],
        )
}

/// Making the files of a neat directory those that it is to hold, where none of them has the name
/// of a directory in it.
proof fn lemma_sync_dir(
    up: Update,
    key: Seq<char>,
    dir: u64,
    want: Map<Seq<char>, Wanted>,
    now: SystemTime,
)
    requires
        up.tree.wf(),
        up.tree.layout is Workspace,
        wellformed::takes_files(up.tree, dir),
        wellformed::files_only(want),
        neat(up.tree, key, dir),
        listing::once(want),
        want.dom().finite(),
        want.dom().disjoint(up.tree.subdirs(dir)),
        up.tree.room(want.dom().len() as int),
    ensures
        ({
            let u = up.sync_dir(key, dir, want, now).tree;
            &&& neat(u, key, dir)
            &&& holds(up.tree, u, key, dir, want)
            &&& forall|e: u64| e != dir ==> #[trigger] u.entries(e) == up.tree.entries(e)
        }),
{
    let t = up.tree;
    let have = t.entries(dir);
    let olds = strmap::ordered(have.dom());
    let news = strmap::ordered(want.dom());
    assert(t.children.contains_key(dir));
    strmap::lemma_ordered(have.dom());
    strmap::lemma_ordered(want.dom());
    strmap::lemma_ascending_no_duplicates(olds);
    assert forall|n: Seq<char>| olds.contains(n) <==> have.contains_key(n) by {
        assert(olds.to_set().contains(n) <==> olds.contains(n));
    }
    assert forall|n: Seq<char>| news.contains(n) <==> want.contains_key(n) by {
        assert(news.to_set().contains(n) <==> news.contains(n));
    }
    assert forall|j: int| 0 <= j < olds.len() implies have.contains_key(#[trigger] olds[j]) by {
        assert(olds.contains(olds[j]));
    }
    assert forall|j: int| 0 <= j < news.len() implies want.contains_key(#[trigger] news[j]) by {
        assert(news.contains(news[j]));
    }
    assert forall|n: Seq<char>| t.subdirs(dir).contains(n) <==> have.contains_key(n) && t.is_dir(
        have[n],
    ) by {
        if have.contains_key(n) {
            assert(t.nodes.contains_key(have[n]));
        }
    }
    let s0 = Sync { up, dirty: false };
    lemma_visit_all(s0, key, dir, want, olds);
    let s1 = s0.visit_all(key, dir, have, want, olds);
    let v = s1.up.tree;
    assert forall|n: Seq<char>| #[trigger]
        want.contains_key(n) && v.entries(dir).contains_key(n) implies listing::shows_wanted(
        v,
        key,
        dir,
        n,
        want[n],
    ) by {
        assert(olds.contains(n));
        assert(went(t, v, key, dir, want, n));
        assert(want.dom().contains(n) && !t.subdirs(dir).contains(n));
    }
    lemma_all_stand(t, v, key, dir, want, olds);
    lemma_place_all(s1, key, dir, want, news);
    let s2 = s1.place_all(key, dir, want, news);
    let w = s2.up.tree;
    let u = up.sync_dir(key, dir, want, now).tree;
    assert(u.docs == w.docs);
    assert(u.children == w.children);
    assert forall|e: u64| e != dir implies #[trigger] u.entries(e) == t.entries(e) by {
        assert(w.entries(e) == v.entries(e));
        assert(v.entries(e) == t.entries(e));
    }
    assert(w.is_dir(dir));
    assert forall|i: u64| #[trigger] u.nodes.contains_key(i) <==> w.nodes.contains_key(i) by {}
    assert forall|i: u64| #[trigger] w.nodes.contains_key(i) implies u.nodes[i].content
        == w.nodes[i].content && u.nodes[i].name == w.nodes[i].name by {}
    assert forall|n: Seq<char>| #[trigger] w.entries(dir).contains_key(n) <==> want.contains_key(n)
        || t.subdirs(dir).contains(n) by {
        if have.contains_key(n) {
            assert(olds.contains(n));
            assert(went(t, v, key, dir, want, n));
        }
        if v.entries(dir).contains_key(n) {
            assert(have.contains_key(n));
        }
    }
    assert forall|n: Seq<char>| #[trigger] want.contains_key(n) implies listing::shows_wanted(
        u,
        key,
        dir,
        n,
        want[n],
    ) by {
        assert(w.entries(dir).contains_key(n));
        assert(listing::shows_wanted(w, key, dir, n, want[n]));
        assert(w.nodes.contains_key(w.entries(dir)[n]));
    }
    assert forall|n: Seq<char>| #[trigger] t.subdirs(dir).contains(n) implies u.entries(dir)[n]
        == have[n] && u.is_dir(u.entries(dir)[n]) by {
        assert(olds.contains(n));
        assert(went(t, v, key, dir, want, n));
        assert(v.nodes.contains_key(have[n]));
    }
    assert forall|d: u64| #[trigger]
        u.docs.contains_key((key, d)) && u.nodes.contains_key(u.docs[(key, d)]) implies {
        let i = u.docs[(key, d)];
        u.entries(dir).contains_key(u.nodes[i].name) && u.entries(dir)[u.nodes[i].name] == i
    } by {
        assert(w.docs.contains_key((key, d)));
        let n = lemma_stands(w, key, dir, want, d);
    }
    assert forall|d: u64, e: u64|
        #![trigger u.docs.contains_key((key, d)), u.docs.contains_key((key, e))]
        u.docs.contains_key((key, d)) && u.docs.contains_key((key, e)) && u.docs[(key, d)]
            == u.docs[(key, e)] && u.nodes.contains_key(u.docs[(key, d)]) implies d == e by {
        assert(w.docs.contains_key((key, d)) && w.docs.contains_key((key, e)));
        let m = lemma_stands(w, key, dir, want, d);
        let n = lemma_stands(w, key, dir, want, e);
    }
}

/// The name that a document's file stands under is that of its node.
proof fn lemma_stands(
    t: TreeView,
    key: Seq<char>,
    dir: u64,
    want: Map<Seq<char>, Wanted>,
    d: u64,
) -> (n: Seq<char>)
    requires
        t.wf(),
        all_stand(t, key, dir, want),
        t.docs.contains_key((key, d)),
        t.nodes.contains_key(t.docs[(key, d)]),
    ensures
        want.contains_key(n),
        want[n].doc == d,
        t.entries(dir).contains_key(n),
        t.entries(dir)[n] == t.docs[(key, d)],
        t.nodes[t.docs[(key, d)]].name == n,
{
    assert(stands(t, key, dir, want, d));
    let n = choose|n: Seq<char>| #[trigger]
        want.contains_key(n) && want[n].doc == d && t.entries(dir).contains_key(n) && t.entries(
            dir,
        )[n] == t.docs[(key, d)];
    assert(t.nodes[t.entries(dir)[n]].name == n);
    n
}

// ── the files of a list of documents ─────────────────────────────────────────

/// Whether some files hold that of a document.
pub open spec fn has_file(
    files: Map<Seq<char>, Wanted>,
    doc: DocumentView,
    ws: Option<Seq<char>>,
) -> bool {
    exists|n: Seq<char>| #[trigger]
        files.contains_key(n) && files[n] == naming::wanted_for(doc, ws)
}

/// Whether a file is that of one of some documents.
pub open spec fn is_one_of(w: Wanted, docs: Seq<DocumentView>, ws: Option<Seq<char>>) -> bool {
    exists|o: DocumentView| #[trigger] docs.contains(o) && w == naming::wanted_for(o, ws)
}

/// Each file is that of a document, and each document that is named once has one file.
proof fn lemma_tree_files_are(
    docs: Seq<DocumentView>,
    taken: Set<Seq<char>>,
    ws: Option<Seq<char>>,
)
    requires
        naming::distinct_ids(docs),
    ensures
        ({
            let m = workspace::tree_files(docs, taken, ws);
            &&& listing::once(m)
            &&& forall|n: Seq<char>| #[trigger]
                m.contains_key(n) ==> is_one_of(m[n], docs, ws)
        }),
    decreases docs.len(),
{
    if docs.len() > 0 {
        let f = docs.drop_last();
        let last = docs.last();
        assert(docs == f.push(last));
        assert(forall|j: int| 0 <= j < f.len() ==> f[j] == docs[j]);
        assert(docs[docs.len() - 1] == last);
        lemma_tree_files_are(f, taken, ws);
        let m = workspace::tree_files(f, taken, ws);
        let r = workspace::tree_files(docs, taken, ws);
        let name = model::pick_name(
            None,
            render::flat_name(last),
            last.id,
            m.dom().union(taken),
        );
        assert(r == m.insert(name, naming::wanted_for(last, ws)));
        assert(docs.contains(last));
        assert forall|n: Seq<char>| #[trigger] m.contains_key(n) implies m[n].doc != last.id
            && is_one_of(m[n], docs, ws) by {
            let o = choose|o: DocumentView| #[trigger]
                f.contains(o) && m[n] == naming::wanted_for(o, ws);
            let j = choose|j: int| 0 <= j < f.len() && f[j] == o;
            assert(docs[j].id != docs[docs.len() - 1].id);
            assert(docs.contains(docs[j]));
        }
        assert forall|n: Seq<char>| #[trigger] r.contains_key(n) implies is_one_of(
            r[n],
            docs,
            ws,
        ) by {
            if n != name {
                assert(m.contains_key(n));
            }
        }
        assert forall|a: Seq<char>, b: Seq<char>|
            #![trigger r.contains_key(a), r.contains_key(b)]
            r.contains_key(a) && r.contains_key(b) && r[a].doc == r[b].doc implies a == b by {
            if a != name {
                assert(m.contains_key(a));
            }
            if b != name {
                assert(m.contains_key(b));
            }
        }
    }
}

/// Each document has its file, and no file has the name of a directory.
proof fn lemma_tree_files_hold(
    docs: Seq<DocumentView>,
    taken: Set<Seq<char>>,
    ws: Option<Seq<char>>,
)
    requires
        taken.finite(),
    ensures
        ({
            let m = workspace::tree_files(docs, taken, ws);
            &&& m.dom().finite()
            &&& m.dom().disjoint(taken)
            &&& forall|d: DocumentView| #[trigger] docs.contains(d) ==> has_file(m, d, ws)
        }),
    decreases docs.len(),
{
    if docs.len() > 0 {
        let f = docs.drop_last();
        let last = docs.last();
        assert(docs == f.push(last));
        lemma_tree_files_hold(f, taken, ws);
        let m = workspace::tree_files(f, taken, ws);
        let r = workspace::tree_files(docs, taken, ws);
        let own = render::flat_name(last);
        let name = model::pick_name(None, own, last.id, m.dom().union(taken));
        assert(r == m.insert(name, naming::wanted_for(last, ws)));
        model::lemma_pick_name(None, own, last.id, m.dom().union(taken));
        assert(!m.contains_key(name) && !taken.contains(name));
        assert forall|d: DocumentView| #[trigger] docs.contains(d) implies has_file(r, d, ws) by {
            wellformed::lemma_push_contains(f, last, d);
            if d == last {
                assert(r.contains_key(name));
            } else {
                let n = choose|n: Seq<char>| #[trigger]
                    m.contains_key(n) && m[n] == naming::wanted_for(d, ws);
                assert(r.contains_key(n));
            }
        }
    }
}

/// The names of the directories in a directory are finite in number.
pub proof fn lemma_subdirs_finite(t: TreeView, dir: u64)
    requires
        t.wf(),
    ensures
        t.subdirs(dir).finite(),
{
    if t.children.contains_key(dir) {
        assert(t.entries(dir).dom().finite());
    } else {
        assert(t.entries(dir).dom() =~= Set::empty());
    }
    assert(t.subdirs(dir).subset_of(t.entries(dir).dom()));
    vstd::set_lib::lemma_set_subset_finite(t.entries(dir).dom(), t.subdirs(dir));
}

/// Whether a directory shows a document's file.
pub open spec fn shows_document(
    u: TreeView,
    key: Seq<char>,
    dir: u64,
    doc: DocumentView,
    ws: Option<Seq<char>>,
) -> bool {
    exists|n: Seq<char>| #[trigger]
        listing::shows_wanted(u, key, dir, n, naming::wanted_for(doc, ws))
}

/// After the documents of a directory of a tree were brought up to date, the directory holds its
/// directories and each document of the list, with its content, and nothing else; it is neat, and the
/// entries of every other directory are as they were.
pub proof fn law_tree_directory_shows_its_documents(
    t: TreeView,
    tree: Seq<char>,
    path: Seq<char>,
    docs: Seq<DocumentView>,
    now: SystemTime,
)
    requires
        t.wf(),
        t.layout is Workspace,
        t.room(docs.len() as int),
        t.tree_dir(tree, path) is Some,
        naming::distinct_ids(docs),
        ({
            let dir = t.tree_dir(tree, path)->0;
            neat(t, workspace::dir_key(dir), dir)
        }),
    ensures
        ({
            let dir = t.tree_dir(tree, path)->0;
            let key = workspace::dir_key(dir);
            let ws = workspace::shown_workspace(t);
            let want = workspace::tree_files(model::by_id(docs), t.subdirs(dir), ws);
            let u = workspace::apply_tree_documents(t, tree, path, docs, now).tree;
            &&& neat(u, key, dir)
            &&& holds(t, u, key, dir, want)
            &&& forall|e: u64| e != dir ==> #[trigger] u.entries(e) == t.entries(e)
            &&& forall|n: Seq<char>| #[trigger]
                want.contains_key(n) ==> is_one_of(want[n], docs, ws)
            &&& forall|d: DocumentView| #[trigger]
                docs.contains(d) ==> shows_document(u, key, dir, d, ws)
        }),
{
    let dir = t.tree_dir(tree, path)->0;
    let key = workspace::dir_key(dir);
    let ws = workspace::shown_workspace(t);
    let taken = t.subdirs(dir);
    let sorted = model::by_id(docs);
    let want = workspace::tree_files(sorted, taken, ws);
    let up = Update { tree: t, inv: model::no_invalidation() };
    let u = workspace::apply_tree_documents(t, tree, path, docs, now).tree;
    naming::lemma_by_id(docs);
    model::lemma_by_id_len(docs);
    workspace_laws::lemma_no_contexts(t);
    let top = t.context_dir(ROOT_INO, tree)->0;
    workspace_laws::lemma_walk_is_dir(t, top, workspace::segments(path));
    workspace_laws::lemma_tree_files_fit(sorted, taken, ws);
    lemma_tree_files_are(sorted, taken, ws);
    lemma_subdirs_finite(t, dir);
    lemma_tree_files_hold(sorted, taken, ws);
    assert forall|n: Seq<char>| #[trigger] want.contains_key(n) implies is_one_of(
        want[n],
        docs,
        ws,
    ) by {
        let o = choose|o: DocumentView| #[trigger]
            sorted.contains(o) && want[n] == naming::wanted_for(o, ws);
        assert(docs.contains(o));
    }
    lemma_sync_dir(up, key, dir, want, now);
    assert forall|d: DocumentView| #[trigger] docs.contains(d) implies shows_document(
        u,
        key,
        dir,
        d,
        ws,
    ) by {
        assert(sorted.contains(d));
        assert(has_file(want, d, ws));
        let n = choose|n: Seq<char>| #[trigger]
            want.contains_key(n) && want[n] == naming::wanted_for(d, ws);
        assert(listing::shows_wanted(u, key, dir, n, want[n]));
    }
}

/// Going through entries that are as they are to be changes nothing.
proof fn lemma_visit_all_idle(
    s: Sync,
    key: Seq<char>,
    dir: u64,
    want: Map<Seq<char>, Wanted>,
    names: Seq<Seq<char>>,
)
    requires
        s.up.tree.layout is Workspace,
        forall|j: int|
            0 <= j < names.len() ==> s.up.tree.entries(dir).contains_key(#[trigger] names[j]) && (
            s.up.tree.is_dir(s.up.tree.entries(dir)[names[j]]) || (want.contains_key(names[j])
                && listing::shows_wanted(s.up.tree, key, dir, names[j], want[names[j]]))),
    ensures
        s.visit_all(key, dir, s.up.tree.entries(dir), want, names) == s,
    decreases names.len(),
{
    if names.len() > 0 {
        let f = names.drop_last();
        assert(forall|j: int| 0 <= j < f.len() ==> f[j] == names[j]);
        lemma_visit_all_idle(s, key, dir, want, f);
        assert(s.up.tree.entries(dir).contains_key(names[names.len() - 1]));
    }
}

/// Files that are in place need not be put there.
proof fn lemma_place_all_idle(
    s: Sync,
    key: Seq<char>,
    dir: u64,
    want: Map<Seq<char>, Wanted>,
    names: Seq<Seq<char>>,
)
    requires
        forall|j: int|
            0 <= j < names.len() ==> s.up.tree.lookup(dir, #[trigger] names[j]) is Some,
    ensures
        s.place_all(key, dir, want, names) == s,
    decreases names.len(),
{
    if names.len() > 0 {
        let f = names.drop_last();
        assert(forall|j: int| 0 <= j < f.len() ==> f[j] == names[j]);
        lemma_place_all_idle(s, key, dir, want, f);
        assert(s.up.tree.lookup(dir, names[names.len() - 1]) is Some);
    }
}

/// Bringing the documents of a directory of a tree up to date a second time, with the same list,
/// changes nothing and tells the kernel nothing.
pub proof fn law_tree_documents_twice(
    t: TreeView,
    tree: Seq<char>,
    path: Seq<char>,
    docs: Seq<DocumentView>,
    now: SystemTime,
    now2: SystemTime,
)
    requires
        t.wf(),
        t.layout is Workspace,
        t.room(docs.len() as int),
        t.tree_dir(tree, path) is Some,
        naming::distinct_ids(docs),
        ({
            let dir = t.tree_dir(tree, path)->0;
            neat(t, workspace::dir_key(dir), dir)
        }),
    ensures
        ({
            let u = workspace::apply_tree_documents(t, tree, path, docs, now).tree;
            workspace::apply_tree_documents(u, tree, path, docs, now2) == (Update {
                tree: u,
                inv: model::no_invalidation(),
            })
        }),
{
    let dir = t.tree_dir(tree, path)->0;
    let key = workspace::dir_key(dir);
    let ws = workspace::shown_workspace(t);
    let want = workspace::tree_files(model::by_id(docs), t.subdirs(dir), ws);
    let u = workspace::apply_tree_documents(t, tree, path, docs, now).tree;
    law_tree_directory_shows_its_documents(t, tree, path, docs, now);
    workspace_laws::law_tree_documents_keep_directories(t, tree, path, docs, now);
    workspace_laws::lemma_tree_files_fit(model::by_id(docs), t.subdirs(dir), ws);
    assert forall|n: Seq<char>| u.subdirs(dir).contains(n) <==> t.subdirs(dir).contains(n) by {
        if t.subdirs(dir).contains(n) {
            assert(u.entries(dir).contains_key(n));
            assert(u.nodes.contains_key(u.entries(dir)[n]));
        }
        if u.subdirs(dir).contains(n) {
            assert(u.entries(dir).contains_key(n));
            if want.contains_key(n) {
                assert(listing::shows_wanted(u, key, dir, n, want[n]));
                assert(!(want[n].content is Dir));
            }
        }
    }
    assert forall|e: u64, n: Seq<char>| #[trigger] u.context_dir(e, n) == t.context_dir(e, n) by {
        if e == dir {
            assert(u.subdirs(dir).contains(n) <==> t.subdirs(dir).contains(n));
        } else {
            assert(u.entries(e) == t.entries(e));
            if t.entries(e).contains_key(n) {
                let c = t.entries(e)[n];
                assert(u.entries(e).contains_key(n));
                assert(t.nodes.contains_key(c) && u.nodes.contains_key(c));
                assert(t.is_dir(c) ==> u.is_dir(c));
                assert(u.is_dir(c) ==> t.is_dir(c));
            }
        }
    }
    lemma_same_walk(t, u, t.context_dir(ROOT_INO, tree)->0, workspace::segments(path));
    assert(u.tree_dir(tree, path) == Some(dir));
    let have = u.entries(dir);
    let again = workspace::tree_files(
        model::by_id(docs),
        u.subdirs(dir),
        workspace::shown_workspace(u),
    );
    assert(u.subdirs(dir) =~= t.subdirs(dir));
    assert(again == want);
    let olds = strmap::ordered(have.dom());
    let news = strmap::ordered(want.dom());
    if u.children.contains_key(dir) {
        assert(u.entries(dir).dom().finite());
    } else {
        assert(u.entries(dir).dom() =~= Set::empty());
    }
    strmap::lemma_ordered(have.dom());
    strmap::lemma_ordered(want.dom());
    let s = Sync { up: Update { tree: u, inv: model::no_invalidation() }, dirty: false };
    assert forall|j: int| 0 <= j < olds.len() implies have.contains_key(#[trigger] olds[j]) && (
    u.is_dir(have[olds[j]]) || (want.contains_key(olds[j]) && listing::shows_wanted(
        u,
        key,
        dir,
        olds[j],
        want[olds[j]],
    ))) by {
        assert(olds.to_set().contains(olds[j]));
        assert(have.contains_key(olds[j]));
        if !want.contains_key(olds[j]) {
            assert(t.subdirs(dir).contains(olds[j]));
        }
    }
    lemma_visit_all_idle(s, key, dir, want, olds);
    assert forall|j: int| 0 <= j < news.len() implies u.lookup(
        dir,
        #[trigger] news[j],
    ) is Some by {
        assert(news.to_set().contains(news[j]));
        assert(want.contains_key(news[j]));
        assert(u.entries(dir).contains_key(news[j]));
    }
    lemma_place_all_idle(s, key, dir, want, news);
}

/// A way through directories that stay leads where it led.
proof fn lemma_same_walk(t: TreeView, u: TreeView, dir: u64, segs: Seq<Seq<char>>)
    requires
        forall|e: u64, n: Seq<char>| #[trigger] u.context_dir(e, n) == t.context_dir(e, n),
    ensures
        u.walk(dir, segs) == t.walk(dir, segs),
    decreases segs.len(),
{
    if segs.len() > 0 {
        lemma_same_walk(t, u, dir, segs.drop_last());
    }
}

// ── other directories ────────────────────────────────────────────────────────

/// Whether a directory is another one than that of a key, and is neat.
spec fn is_apart(t: TreeView, key: Seq<char>, dir: u64, other: Seq<char>, at: u64) -> bool {
    &&& other != key
    &&& at != dir
    &&& t.is_dir(at)
    &&& neat(t, other, at)
}

/// A change that leaves the files of a directory alone leaves it neat.
proof fn lemma_stays_neat(t: TreeView, u: TreeView, other: Seq<char>, at: u64)
    requires
        t.wf(),
        neat(t, other, at),
        u.entries(at) == t.entries(at),
        forall|d: u64| #[trigger]
            u.docs.contains_key((other, d)) ==> t.docs.contains_key((other, d)) && t.docs[(
                other,
                d,
            )] == u.docs[(other, d)],
        forall|d: u64| #[trigger]
            u.docs.contains_key((other, d)) && u.nodes.contains_key(u.docs[(other, d)])
                ==> t.nodes.contains_key(u.docs[(other, d)]) && u.nodes[u.docs[(other, d)]].name
                == t.nodes[u.docs[(other, d)]].name,
    ensures
        neat(u, other, at),
{
    assert forall|d: u64| #[trigger]
        u.docs.contains_key((other, d)) && u.nodes.contains_key(u.docs[(other, d)]) implies {
        let i = u.docs[(other, d)];
        u.entries(at).contains_key(u.nodes[i].name) && u.entries(at)[u.nodes[i].name] == i
    } by {
        assert(t.docs.contains_key((other, d)));
    }
    assert forall|d: u64, e: u64|
        #![trigger u.docs.contains_key((other, d)), u.docs.contains_key((other, e))]
        u.docs.contains_key((other, d)) && u.docs.contains_key((other, e)) && u.docs[(other, d)]
            == u.docs[(other, e)] && u.nodes.contains_key(u.docs[(other, d)]) implies d == e by {
        assert(t.docs.contains_key((other, d)) && t.docs.contains_key((other, e)));
    }
}

proof fn lemma_visit_other(
    s: Sync,
    key: Seq<char>,
    dir: u64,
    want: Map<Seq<char>, Wanted>,
    name: Seq<char>,
    ino: u64,
    other: Seq<char>,
    at: u64,
)
    requires
        s.up.tree.wf(),
        s.up.tree.layout is Workspace,
        is_apart(s.up.tree, key, dir, other, at),
        s.up.tree.nodes.contains_key(ino) ==> s.up.tree.nodes[ino].parent == dir,
    ensures
        is_apart(s.visit(key, dir, want, name, ino).up.tree, key, dir, other, at),
{
    let t = s.up.tree;
    let u = s.visit(key, dir, want, name, ino).up.tree;
    if !t.is_dir(ino) {
        assert(u.entries(at) == t.entries(at));
        lemma_stays_neat(t, u, other, at);
    }
}

proof fn lemma_visit_all_other(
    s: Sync,
    key: Seq<char>,
    dir: u64,
    have: Map<Seq<char>, u64>,
    want: Map<Seq<char>, Wanted>,
    names: Seq<Seq<char>>,
    other: Seq<char>,
    at: u64,
)
    requires
        s.up.tree.wf(),
        s.up.tree.layout is Workspace,
        wellformed::takes_files(s.up.tree, dir),
        wellformed::files_only(want),
        is_apart(s.up.tree, key, dir, other, at),
        forall|j: int|
            0 <= j < names.len() ==> s.up.tree.nodes.contains_key(have[#[trigger] names[j]])
                ==> s.up.tree.nodes[have[names[j]]].parent == dir,
    ensures
        is_apart(s.visit_all(key, dir, have, want, names).up.tree, key, dir, other, at),
    decreases names.len(),
{
    if names.len() > 0 {
        let f = names.drop_last();
        assert(forall|j: int| 0 <= j < f.len() ==> f[j] == names[j]);
        assert(names[names.len() - 1] == names.last());
        lemma_visit_all_other(s, key, dir, have, want, f, other, at);
        wellformed::lemma_visit_all_wf(s, key, dir, have, want, f);
        let v = s.visit_all(key, dir, have, want, f);
        lemma_visit_other(v, key, dir, want, names.last(), have[names.last()], other, at);
    }
}

proof fn lemma_place_all_other(
    s: Sync,
    key: Seq<char>,
    dir: u64,
    want: Map<Seq<char>, Wanted>,
    names: Seq<Seq<char>>,
    other: Seq<char>,
    at: u64,
)
    requires
        s.up.tree.wf(),
        wellformed::takes_files(s.up.tree, dir),
        wellformed::files_only(want),
        listing::once(want),
        all_stand(s.up.tree, key, dir, want),
        is_apart(s.up.tree, key, dir, other, at),
        forall|j: int| 0 <= j < names.len() ==> want.contains_key(#[trigger] names[j]),
        s.up.tree.room(names.len() as int),
    ensures
        ({
            let u = s.place_all(key, dir, want, names).up.tree;
            &&& all_stand(u, key, dir, want)
            &&& is_apart(u, key, dir, other, at)
            &&& u.next_ino <= s.up.tree.next_ino + names.len()
        }),
    decreases names.len(),
{
    if names.len() > 0 {
        let f = names.drop_last();
        let x = names.last();
        assert(forall|j: int| 0 <= j < f.len() ==> f[j] == names[j]);
        assert(names[names.len() - 1] == x);
        lemma_place_all_other(s, key, dir, want, f, other, at);
        wellformed::lemma_place_all_wf(s, key, dir, want, f);
        let s1 = s.place_all(key, dir, want, f);
        let t = s1.up.tree;
        wellformed::lemma_still_takes_files(s.up.tree, t, dir);
        lemma_place(s1, key, dir, want, x);
        let u = s1.place(key, dir, want, x).up.tree;
        if t.lookup(dir, x) is None {
            let doc = want[x].doc;
            assert(!t.entries(dir).contains_key(x));
            assert(!(t.docs.contains_key((key, doc)) && t.nodes.contains_key(
                t.docs[(key, doc)],
            ))) by {
                if t.docs.contains_key((key, doc)) && t.nodes.contains_key(t.docs[(key, doc)]) {
                    assert(stands(t, key, dir, want, doc));
                }
            }
            assert(!t.children.contains_key(t.next_ino));
            assert(u.entries(at) =~= t.entries(at));
            assert forall|d: u64| #[trigger]
                u.docs.contains_key((other, d)) && u.nodes.contains_key(
                    u.docs[(other, d)],
                ) implies t.nodes.contains_key(u.docs[(other, d)]) && u.nodes[u.docs[(
                other,
                d,
            )]].name == t.nodes[u.docs[(other, d)]].name by {
                assert(t.docs.contains_key((other, d)));
                let i = t.docs[(other, d)];
                assert(i < t.next_ino || i >= FIRST_OVERLAY_INO);
            }
            lemma_stays_neat(t, u, other, at);
        }
    }
}

/// After the documents of a directory of a tree were brought up to date, the other directories are
/// as neat as they were.
pub proof fn law_other_directories_stay_neat(
    t: TreeView,
    tree: Seq<char>,
    path: Seq<char>,
    docs: Seq<DocumentView>,
    now: SystemTime,
    at: u64,
)
    requires
        t.wf(),
        t.layout is Workspace,
        t.room(docs.len() as int),
        t.tree_dir(tree, path) is Some,
        naming::distinct_ids(docs),
        ({
            let dir = t.tree_dir(tree, path)->0;
            at != dir && neat(t, workspace::dir_key(dir), dir)
        }),
        t.is_dir(at),
        neat(t, workspace::dir_key(at), at),
    ensures
        neat(
            workspace::apply_tree_documents(t, tree, path, docs, now).tree,
            workspace::dir_key(at),
            at,
        ),
{
    let dir = t.tree_dir(tree, path)->0;
    let key = workspace::dir_key(dir);
    let other = workspace::dir_key(at);
    let ws = workspace::shown_workspace(t);
    let sorted = model::by_id(docs);
    let want = workspace::tree_files(sorted, t.subdirs(dir), ws);
    let up = Update { tree: t, inv: model::no_invalidation() };
    if key == other {
        names::lemma_decimal_differs(dir as nat, at as nat);
    }
    naming::lemma_by_id(docs);
    model::lemma_by_id_len(docs);
    workspace_laws::lemma_no_contexts(t);
    let top = t.context_dir(ROOT_INO, tree)->0;
    workspace_laws::lemma_walk_is_dir(t, top, workspace::segments(path));
    workspace_laws::lemma_tree_files_fit(sorted, t.subdirs(dir), ws);
    lemma_tree_files_are(sorted, t.subdirs(dir), ws);
    let have = t.entries(dir);
    let olds = strmap::ordered(have.dom());
    let news = strmap::ordered(want.dom());
    assert(t.children.contains_key(dir));
    strmap::lemma_ordered(have.dom());
    strmap::lemma_ordered(want.dom());
    strmap::lemma_ascending_no_duplicates(olds);
    assert forall|j: int| 0 <= j < olds.len() implies have.contains_key(#[trigger] olds[j]) by {
        assert(olds.to_set().contains(olds[j]));
    }
    assert forall|j: int|
        0 <= j < olds.len() && t.nodes.contains_key(have[#[trigger] olds[j]]) implies
        t.nodes[have[olds[j]]].parent == dir by {
        assert(have.contains_key(olds[j]));
    }
    assert forall|j: int| 0 <= j < news.len() implies want.contains_key(#[trigger] news[j]) by {
        assert(news.to_set().contains(news[j]));
    }
    let s0 = Sync { up, dirty: false };
    lemma_visit_all(s0, key, dir, want, olds);
    lemma_visit_all_other(s0, key, dir, have, want, olds, other, at);
    let s1 = s0.visit_all(key, dir, have, want, olds);
    let v = s1.up.tree;
    lemma_all_stand(t, v, key, dir, want, olds);
    lemma_place_all_other(s1, key, dir, want, news, other, at);
    let w = s1.place_all(key, dir, want, news).up.tree;
    wellformed::lemma_place_all_wf(s1, key, dir, want, news);
    let u = up.sync_dir(key, dir, want, now).tree;
    assert(u.entries(at) == w.entries(at));
    lemma_stays_neat(w, u, other, at);
}

} // verus!
