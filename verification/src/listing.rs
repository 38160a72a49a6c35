//! What a context shows after its documents were brought up to date.

use crate::docmap;
use crate::docmap::ForgetView;
use crate::model;
use crate::model::{NodeView, Plan, Sync, TreeView, Update, Wanted};
use crate::names;
use crate::render;
use crate::render::SCHEMA_DIRS;
use crate::strmap;
use crate::wellformed;
use std::time::SystemTime;
use vstd::prelude::*;

verus! {

/// The directories that a context's files stand in.
pub open spec fn own_dirs(t: TreeView, ctx: Seq<char>) -> Set<u64> {
    Set::new(
        |d: u64|
            exists|k: int|
                0 <= k < SCHEMA_DIRS@.len() && t.context_dir(
                    t.contexts[ctx],
                    #[trigger] model::label(k),
                ) == Some(d),
    )
}

/// A context is tidy where each file in its directories is listed under its name, each document
/// that has a file has it there, and no two documents share one.
pub open spec fn tidy(t: TreeView, ctx: Seq<char>, own: Set<u64>) -> bool {
    &&& forall|i: u64| #[trigger]
        t.nodes.contains_key(i) && own.contains(t.nodes[i].parent) ==> {
            &&& !t.nodes[i].is_dir()
            &&& t.entries(t.nodes[i].parent).contains_key(t.nodes[i].name)
            &&& t.entries(t.nodes[i].parent)[t.nodes[i].name] == i
        }
    &&& forall|d: u64| #[trigger]
        t.docs.contains_key((ctx, d)) && t.nodes.contains_key(t.docs[(ctx, d)]) ==> own.contains(
            t.nodes[t.docs[(ctx, d)]].parent,
        )
    &&& forall|d: u64, e: u64|
        #![trigger t.docs.contains_key((ctx, d)), t.docs.contains_key((ctx, e))]
        t.docs.contains_key((ctx, d)) && t.docs.contains_key((ctx, e)) && t.docs[(ctx, d)]
            == t.docs[(ctx, e)] && t.nodes.contains_key(t.docs[(ctx, d)]) ==> d == e
}

/// Whether a directory shows a document under a name.
pub open spec fn shown(t: TreeView, ctx: Seq<char>, dir: u64, name: Seq<char>, doc: u64) -> bool {
    &&& t.entries(dir).contains_key(name)
    &&& t.bound(ctx, doc, t.entries(dir)[name])
}

/// Whether what is shown under a name is as wanted.
pub open spec fn shows_wanted(
    t: TreeView,
    ctx: Seq<char>,
    dir: u64,
    name: Seq<char>,
    w: Wanted,
) -> bool {
    &&& shown(t, ctx, dir, name, w.doc)
    &&& t.nodes[t.entries(dir)[name]].content == w.content
}

/// Whether nothing changed outside some directories.
pub open spec fn same_outside(t: TreeView, u: TreeView, own: Set<u64>) -> bool {
    &&& forall|i: u64| #[trigger]
        t.nodes.contains_key(i) && !own.contains(t.nodes[i].parent) && !own.contains(i)
            ==> u.nodes.contains_key(i) && u.nodes[i] == t.nodes[i]
    &&& forall|i: u64| #[trigger]
        u.nodes.contains_key(i) && !own.contains(u.nodes[i].parent) ==> t.nodes.contains_key(i)
            && !own.contains(t.nodes[i].parent)
    &&& forall|e: u64| #![trigger u.entries(e)] !own.contains(e) ==> u.entries(e) == t.entries(e)
}

/// Going through an entry of a directory: the document that the name is for stays shown, with
/// its content; any other goes; nothing else changes.
proof fn lemma_visit_effect(
    s: Sync,
    ctx: Seq<char>,
    dir: u64,
    want: Map<Seq<char>, Wanted>,
    name: Seq<char>,
    ino: u64,
    own: Set<u64>,
)
    requires
        s.up.tree.wf(),
        wellformed::takes_files(s.up.tree, dir),
        wellformed::files_only(want),
        own.contains(dir),
        tidy(s.up.tree, ctx, own),
        s.up.tree.entries(dir).contains_key(name),
        s.up.tree.entries(dir)[name] == ino,
    ensures
        ({
            let t = s.up.tree;
            let u = s.visit(ctx, dir, want, name, ino).up.tree;
            let kept = want.contains_key(name) && t.bound(ctx, want[name].doc, ino);
            &&& tidy(u, ctx, own)
            &&& same_outside(t, u, own)
            &&& kept ==> u.entries(dir) == t.entries(dir) && shows_wanted(
                u,
                ctx,
                dir,
                name,
                want[name],
            )
            &&& !kept ==> u.entries(dir) == t.entries(dir).remove(name)
            &&& forall|e: u64| e != dir ==> #[trigger] u.entries(e) == t.entries(e)
            &&& forall|i: u64| #[trigger]
                t.nodes.contains_key(i) && i != ino ==> u.nodes.contains_key(i) && u.nodes[i]
                    == t.nodes[i]
            &&& forall|d: u64, i: u64|
                i != ino ==> (#[trigger] u.bound(ctx, d, i) <==> t.bound(ctx, d, i))
        }),
{
    let t = s.up.tree;
    let u = s.visit(ctx, dir, want, name, ino).up.tree;
    assert(t.nodes.contains_key(ino) && t.nodes[ino].parent == dir && t.nodes[ino].name == name);
    assert(!t.is_dir(ino));
    assert(t.children.contains_key(dir));
    assert(t.entries(ino).dom() =~= Set::empty()) by {
        assert forall|n: Seq<char>| !t.entries(ino).contains_key(n) by {
            if t.entries(ino).contains_key(n) {
                assert(!t.is_file(ino));
            }
        }
    }
    let kept = want.contains_key(name) && t.bound(ctx, want[name].doc, ino);
    if kept {
        assert(forall|e: u64| #[trigger] u.entries(e) == t.entries(e));
        assert(tidy(u, ctx, own));
    } else {
        let v = t.remove_node(ino);
        assert(u == v.forget(ForgetView::ContextIno(ctx, ino)));
        assert(u.entries(dir) == t.entries(dir).remove(name));
        assert forall|e: u64| e != dir implies #[trigger] u.entries(e) == t.entries(e) by {
            if e == ino {
                assert(t.entries(e) =~= Map::empty());
            }
        }
        assert forall|i: u64| #[trigger]
            u.nodes.contains_key(i) && own.contains(u.nodes[i].parent) implies {
            &&& !u.nodes[i].is_dir()
            &&& u.entries(u.nodes[i].parent).contains_key(u.nodes[i].name)
            &&& u.entries(u.nodes[i].parent)[u.nodes[i].name] == i
        } by {
            assert(t.nodes.contains_key(i));
        }
        assert forall|d: u64| #[trigger]
            u.docs.contains_key((ctx, d)) && u.nodes.contains_key(
                u.docs[(ctx, d)],
            ) implies own.contains(u.nodes[u.docs[(ctx, d)]].parent) by {
            assert(t.docs.contains_key((ctx, d)));
        }
        assert forall|d: u64, e: u64|
            #![trigger u.docs.contains_key((ctx, d)), u.docs.contains_key((ctx, e))]
            u.docs.contains_key((ctx, d)) && u.docs.contains_key((ctx, e)) && u.docs[(ctx, d)]
                == u.docs[(ctx, e)] && u.nodes.contains_key(u.docs[(ctx, d)]) implies d == e by {
            assert(t.docs.contains_key((ctx, d)) && t.docs.contains_key((ctx, e)));
        }
        assert forall|d: u64, i: u64| i != ino implies (#[trigger] u.bound(ctx, d, i)
            <==> t.bound(ctx, d, i)) by {}
    }
}

/// Putting a file in place: the document is shown under the name, with its content; nothing else
/// changes but the place that it had.
proof fn lemma_place_effect(
    s: Sync,
    ctx: Seq<char>,
    dir: u64,
    want: Map<Seq<char>, Wanted>,
    name: Seq<char>,
    own: Set<u64>,
)
    requires
        s.up.tree.wf(),
        wellformed::takes_files(s.up.tree, dir),
        wellformed::files_only(want),
        own.contains(dir),
        tidy(s.up.tree, ctx, own),
        want.contains_key(name),
        !s.up.tree.entries(dir).contains_key(name),
        s.up.tree.room(1),
    ensures
        ({
            let t = s.up.tree;
            let u = s.place(ctx, dir, want, name).up.tree;
            let doc = want[name].doc;
            &&& tidy(u, ctx, own)
            &&& same_outside(t, u, own)
            &&& shows_wanted(u, ctx, dir, name, want[name])
            &&& forall|e: u64, n: Seq<char>| #[trigger]
                u.entries(e).contains_key(n) ==> (e == dir && n == name) || (t.entries(
                    e,
                ).contains_key(n) && t.entries(e)[n] == u.entries(e)[n])
            &&& forall|e: u64, n: Seq<char>, d: u64| #[trigger]
                shown(t, ctx, e, n, d) && d != doc ==> shown(u, ctx, e, n, d) && u.entries(e)[n]
                    == t.entries(e)[n] && u.nodes[u.entries(e)[n]] == t.nodes[t.entries(e)[n]]
            &&& t.docs.contains_key((ctx, doc)) && t.nodes.contains_key(t.docs[(ctx, doc)])
                ==> u.entries(dir)[name] == t.docs[(ctx, doc)]
        }),
{
    let t = s.up.tree;
    let u = s.place(ctx, dir, want, name).up.tree;
    let w = want[name];
    let key = (ctx, w.doc);
    let moves = t.docs.contains_key(key) && t.nodes.contains_key(t.docs[key]);
    let ino = if moves {
        t.docs[key]
    } else {
        t.next_ino
    };
    let v = if moves {
        t.remove_node(ino)
    } else {
        t.take_ino()
    };
    let node = NodeView { ino, parent: dir, name, mtime: w.mtime, content: w.content };
    assert(u == v.bind(ctx, w.doc, ino).insert_node(node));
    assert(t.children.contains_key(dir));
    assert(t.entries(ino).dom() =~= Set::empty()) by {
        assert forall|n: Seq<char>| !t.entries(ino).contains_key(n) by {
            if t.entries(ino).contains_key(n) {
                assert(!t.is_file(ino));
                assert(t.children.contains_key(ino));
            }
        }
    }
    assert(dir != ino);
    if moves {
        assert(t.docs.contains_key((ctx, w.doc)));
        assert(own.contains(t.nodes[ino].parent));
    } else {
        wellformed::lemma_take_ino_wf(t);
    }
    assert forall|e: u64, n: Seq<char>| #[trigger] u.entries(e).contains_key(n) implies (e == dir
        && n == name) || (t.entries(e).contains_key(n) && t.entries(e)[n] == u.entries(e)[n]) by {}
    assert forall|e: u64, n: Seq<char>|
        t.entries(e).contains_key(n) && t.entries(e)[n] != ino implies #[trigger] u.entries(
        e,
    ).contains_key(n) && u.entries(e)[n] == t.entries(e)[n] by {
        if moves && e == t.nodes[ino].parent && n == t.nodes[ino].name {
            assert(t.entries(e)[n] == ino);
        }
    }
    assert forall|e: u64, n: Seq<char>, d: u64| #[trigger] shown(t, ctx, e, n, d) && d
        != w.doc implies shown(u, ctx, e, n, d) && u.entries(e)[n] == t.entries(e)[n]
        && u.nodes[u.entries(e)[n]] == t.nodes[t.entries(e)[n]] by {
        let i = t.entries(e)[n];
        assert(t.nodes.contains_key(i));
        assert(t.docs.contains_key((ctx, d)));
        if i == ino {
            if moves {
                assert(t.docs.contains_key(key));
            }
        }
    }
    assert forall|i: u64| #[trigger]
        u.nodes.contains_key(i) && own.contains(u.nodes[i].parent) implies {
        &&& !u.nodes[i].is_dir()
        &&& u.entries(u.nodes[i].parent).contains_key(u.nodes[i].name)
        &&& u.entries(u.nodes[i].parent)[u.nodes[i].name] == i
    } by {
        if i != ino {
            assert(t.nodes.contains_key(i));
            let e = t.nodes[i].parent;
            let n = t.nodes[i].name;
            assert(t.entries(e).contains_key(n) && t.entries(e)[n] == i);
            assert(u.entries(e).contains_key(n));
        }
    }
    assert forall|d: u64| #[trigger]
        u.docs.contains_key((ctx, d)) && u.nodes.contains_key(u.docs[(ctx, d)]) implies own.contains(
        u.nodes[u.docs[(ctx, d)]].parent,
    ) by {
        if d != w.doc {
            assert(t.docs.contains_key((ctx, d)));
        }
    }
    assert forall|d: u64, e: u64|
        #![trigger u.docs.contains_key((ctx, d)), u.docs.contains_key((ctx, e))]
        u.docs.contains_key((ctx, d)) && u.docs.contains_key((ctx, e)) && u.docs[(ctx, d)]
            == u.docs[(ctx, e)] && u.nodes.contains_key(u.docs[(ctx, d)]) implies d == e by {
        if d != w.doc {
            assert(t.docs.contains_key((ctx, d)));
        }
        if e != w.doc {
            assert(t.docs.contains_key((ctx, e)));
        }
        if moves {
            assert(t.docs.contains_key(key));
        }
    }
    assert forall|e: u64| #![trigger u.entries(e)] !own.contains(e) implies u.entries(e)
        == t.entries(e) by {
        if e == ino {
            assert(u.entries(e) =~= t.entries(e));
        }
    }
}

/// Whether the entry of a name shows the document that the name is for.
pub open spec fn kept(
    t: TreeView,
    ctx: Seq<char>,
    have: Map<Seq<char>, u64>,
    want: Map<Seq<char>, Wanted>,
    name: Seq<char>,
) -> bool {
    have.contains_key(name) && want.contains_key(name) && t.bound(ctx, want[name].doc, have[name])
}

proof fn lemma_same_outside_trans(a: TreeView, b: TreeView, c: TreeView, own: Set<u64>)
    requires
        same_outside(a, b, own),
        same_outside(b, c, own),
    ensures
        same_outside(a, c, own),
{
    assert forall|e: u64| #![trigger c.entries(e)] !own.contains(e) implies c.entries(e)
        == a.entries(e) by {
        assert(b.entries(e) == a.entries(e));
    }
}

/// Going through entries of a directory.
proof fn lemma_visit_all_effect(
    s: Sync,
    ctx: Seq<char>,
    dir: u64,
    have: Map<Seq<char>, u64>,
    want: Map<Seq<char>, Wanted>,
    names: Seq<Seq<char>>,
    own: Set<u64>,
)
    requires
        s.up.tree.wf(),
        wellformed::takes_files(s.up.tree, dir),
        wellformed::files_only(want),
        own.contains(dir),
        tidy(s.up.tree, ctx, own),
        have == s.up.tree.entries(dir),
        names.no_duplicates(),
        forall|j: int| 0 <= j < names.len() ==> have.contains_key(#[trigger] names[j]),
    ensures
        ({
            let t = s.up.tree;
            let u = s.visit_all(ctx, dir, have, want, names).up.tree;
            &&& u.wf()
            &&& wellformed::only_files_change(t, u)
            &&& u.next_ino == t.next_ino
            &&& tidy(u, ctx, own)
            &&& same_outside(t, u, own)
            &&& forall|e: u64| e != dir ==> #[trigger] u.entries(e) == t.entries(e)
            &&& forall|n: Seq<char>| #[trigger]
                u.entries(dir).contains_key(n) <==> have.contains_key(n) && (!names.contains(n)
                    || kept(t, ctx, have, want, n))
            &&& forall|n: Seq<char>| #[trigger]
                u.entries(dir).contains_key(n) ==> u.entries(dir)[n] == have[n]
            &&& forall|n: Seq<char>| #[trigger]
                names.contains(n) && kept(t, ctx, have, want, n) ==> shows_wanted(
                    u,
                    ctx,
                    dir,
                    n,
                    want[n],
                )
            &&& forall|i: u64| #[trigger]
                t.nodes.contains_key(i) && t.nodes[i].parent != dir ==> u.nodes.contains_key(i)
                    && u.nodes[i] == t.nodes[i]
            &&& forall|d: u64, n: Seq<char>|
                have.contains_key(n) && (!names.contains(n) || kept(t, ctx, have, want, n)) ==> (
                #[trigger] u.bound(ctx, d, have[n]) <==> t.bound(ctx, d, have[n]))
            &&& forall|d: u64, i: u64|
                (t.nodes.contains_key(i) ==> t.nodes[i].parent != dir) ==> (#[trigger] u.bound(
                    ctx,
                    d,
                    i,
                ) <==> t.bound(ctx, d, i))
        }),
    decreases names.len(),
{
    let t = s.up.tree;
    if names.len() > 0 {
        let front = names.drop_last();
        let x = names.last();
        assert(names[names.len() - 1] == x);
        assert forall|j: int| 0 <= j < front.len() implies have.contains_key(
            #[trigger] front[j],
        ) by {
            assert(front[j] == names[j]);
        }
        assert(front.no_duplicates());
        assert(!front.contains(x)) by {
            if front.contains(x) {
                let j = choose|j: int| 0 <= j < front.len() && front[j] == x;
                assert(names[j] == names[names.len() - 1]);
            }
        }
        lemma_visit_all_effect(s, ctx, dir, have, want, front, own);
        let sv = s.visit_all(ctx, dir, have, want, front);
        let v = sv.up.tree;
        let ino = have[x];
        assert(v.entries(dir).contains_key(x));
        wellformed::lemma_still_takes_files(t, v, dir);
        assert(v.nodes.contains_key(ino) && v.nodes[ino].parent == dir);
        lemma_visit_effect(sv, ctx, dir, want, x, ino, own);
        wellformed::lemma_visit_wf(sv, ctx, dir, want, x, ino);
        let u = s.visit_all(ctx, dir, have, want, names).up.tree;
        assert(u == sv.visit(ctx, dir, want, x, ino).up.tree);
        wellformed::lemma_only_files_change_trans(t, v, u);
        lemma_same_outside_trans(t, v, u, own);
        let k = want.contains_key(x) && v.bound(ctx, want[x].doc, ino);
        if want.contains_key(x) {
            assert(v.bound(ctx, want[x].doc, have[x]) <==> t.bound(ctx, want[x].doc, have[x]));
        }
        assert(k == kept(t, ctx, have, want, x));
        assert forall|e: u64| e != dir implies #[trigger] u.entries(e) == t.entries(e) by {
            assert(v.entries(e) == t.entries(e));
        }
        assert forall|n: Seq<char>| names.contains(n) <==> front.contains(n) || n == x by {
            assert(names == front.push(x));
            wellformed::lemma_push_contains(front, x, n);
        }
        assert forall|n: Seq<char>| have.contains_key(n) && n != x implies have[n] != ino by {
            assert(t.entries(dir).contains_key(n));
            assert(t.entries(dir).contains_key(x));
        }
        assert forall|n: Seq<char>| #[trigger]
            u.entries(dir).contains_key(n) <==> have.contains_key(n) && (!names.contains(n) || kept(
                t,
                ctx,
                have,
                want,
                n,
            )) by {
            assert(v.entries(dir).contains_key(n) <==> have.contains_key(n) && (!front.contains(n)
                || kept(t, ctx, have, want, n)));
        }
        assert forall|n: Seq<char>| #[trigger] u.entries(dir).contains_key(n) implies u.entries(
            dir,
        )[n] == have[n] by {
            assert(v.entries(dir).contains_key(n));
        }
        assert forall|n: Seq<char>| #[trigger]
            names.contains(n) && kept(t, ctx, have, want, n) implies shows_wanted(
            u,
            ctx,
            dir,
            n,
            want[n],
        ) by {
            if n != x {
                assert(front.contains(n));
                assert(shows_wanted(v, ctx, dir, n, want[n]));
                assert(u.bound(ctx, want[n].doc, have[n]) <==> v.bound(ctx, want[n].doc, have[n]));
            }
        }
        assert forall|i: u64| #[trigger]
            t.nodes.contains_key(i) && t.nodes[i].parent != dir implies u.nodes.contains_key(i)
            && u.nodes[i] == t.nodes[i] by {
            assert(v.nodes.contains_key(i));
        }
        assert forall|d: u64, n: Seq<char>|
            have.contains_key(n) && (!names.contains(n) || kept(t, ctx, have, want, n)) implies (
        #[trigger] u.bound(ctx, d, have[n]) <==> t.bound(ctx, d, have[n])) by {
            assert(v.bound(ctx, d, have[n]) <==> t.bound(ctx, d, have[n]));
            if n != x {
                assert(u.bound(ctx, d, have[n]) <==> v.bound(ctx, d, have[n]));
            } else {
                assert(k);
                assert(u.docs == v.docs);
            }
        }
        assert forall|d: u64, i: u64|
            (t.nodes.contains_key(i) ==> t.nodes[i].parent != dir) implies (#[trigger] u.bound(
            ctx,
            d,
            i,
        ) <==> t.bound(ctx, d, i)) by {
            assert(v.bound(ctx, d, i) <==> t.bound(ctx, d, i));
            assert(t.entries(dir).contains_key(x));
            assert(i != ino);
        }
    }
}

/// Whether each document is wanted once.
pub open spec fn once(want: Map<Seq<char>, Wanted>) -> bool {
    forall|m: Seq<char>, n: Seq<char>|
        #![trigger want.contains_key(m), want.contains_key(n)]
        want.contains_key(m) && want.contains_key(n) && want[m].doc == want[n].doc ==> m == n
}

/// Whether everything in a directory is as wanted.
pub open spec fn nothing_else(
    t: TreeView,
    ctx: Seq<char>,
    dir: u64,
    want: Map<Seq<char>, Wanted>,
) -> bool {
    forall|n: Seq<char>| #[trigger]
        t.entries(dir).contains_key(n) ==> want.contains_key(n) && shows_wanted(
            t,
            ctx,
            dir,
            n,
            want[n],
        )
}

/// Whether a document is wanted in a directory at another place than a given one.
pub open spec fn wanted_elsewhere(
    want: Map<Seq<char>, Wanted>,
    dir: u64,
    e: u64,
    n: Seq<char>,
    doc: u64,
) -> bool {
    exists|m: Seq<char>| #[trigger]
        want.contains_key(m) && want[m].doc == doc && !(e == dir && n == m)
}

/// Putting files in place.
proof fn lemma_place_all_effect(
    s: Sync,
    ctx: Seq<char>,
    dir: u64,
    want: Map<Seq<char>, Wanted>,
    names: Seq<Seq<char>>,
    own: Set<u64>,
)
    requires
        s.up.tree.wf(),
        wellformed::takes_files(s.up.tree, dir),
        wellformed::files_only(want),
        own.contains(dir),
        tidy(s.up.tree, ctx, own),
        once(want),
        nothing_else(s.up.tree, ctx, dir, want),
        forall|j: int| 0 <= j < names.len() ==> want.contains_key(#[trigger] names[j]),
        s.up.tree.room(names.len() as int),
    ensures
        ({
            let t = s.up.tree;
            let u = s.place_all(ctx, dir, want, names).up.tree;
            &&& u.wf()
            &&& wellformed::only_files_change(t, u)
            &&& tidy(u, ctx, own)
            &&& same_outside(t, u, own)
            &&& nothing_else(u, ctx, dir, want)
            &&& forall|j: int| 0 <= j < names.len() ==> u.entries(dir).contains_key(#[trigger] names[j])
            &&& forall|e: u64, n: Seq<char>| #[trigger]
                u.entries(e).contains_key(n) && e != dir ==> t.entries(e).contains_key(n)
                    && t.entries(e)[n] == u.entries(e)[n]
            &&& forall|e: u64, n: Seq<char>, d: u64| #[trigger]
                shown(t, ctx, e, n, d) && !wanted_elsewhere(want, dir, e, n, d) ==> shown(
                    u,
                    ctx,
                    e,
                    n,
                    d,
                ) && u.entries(e)[n] == t.entries(e)[n] && u.nodes[u.entries(e)[n]]
                    == t.nodes[t.entries(e)[n]]
        }),
    decreases names.len(),
{
    let t = s.up.tree;
    if names.len() > 0 {
        let front = names.drop_last();
        let x = names.last();
        assert(names[names.len() - 1] == x);
        assert forall|j: int| 0 <= j < front.len() implies want.contains_key(
            #[trigger] front[j],
        ) by {
            assert(front[j] == names[j]);
        }
        lemma_place_all_effect(s, ctx, dir, want, front, own);
        wellformed::lemma_place_all_wf(s, ctx, dir, want, front);
        let sv = s.place_all(ctx, dir, want, front);
        let v = sv.up.tree;
        let u = s.place_all(ctx, dir, want, names).up.tree;
        wellformed::lemma_still_takes_files(t, v, dir);
        if v.entries(dir).contains_key(x) {
            assert(v.nodes.contains_key(v.entries(dir)[x]));
            assert(v.lookup(dir, x) is Some);
            assert(u == v);
        } else {
            assert(v.lookup(dir, x) is None);
            lemma_place_effect(sv, ctx, dir, want, x, own);
            wellformed::lemma_place_wf(sv, ctx, dir, want, x);
            wellformed::lemma_only_files_change_trans(t, v, u);
            lemma_same_outside_trans(t, v, u, own);
            assert forall|n: Seq<char>| v.entries(dir).contains_key(n) implies shown(
                u,
                ctx,
                dir,
                n,
                want[n].doc,
            ) && u.nodes[u.entries(dir)[n]] == v.nodes[v.entries(dir)[n]] by {
                assert(shows_wanted(v, ctx, dir, n, want[n]));
                assert(shown(v, ctx, dir, n, want[n].doc));
                assert(want.contains_key(x) && want.contains_key(n));
            }
            assert forall|n: Seq<char>| #[trigger]
                u.entries(dir).contains_key(n) implies want.contains_key(n) && shows_wanted(
                u,
                ctx,
                dir,
                n,
                want[n],
            ) by {
                if n != x {
                    assert(v.entries(dir).contains_key(n));
                    assert(shows_wanted(v, ctx, dir, n, want[n]));
                }
            }
            assert forall|j: int| 0 <= j < names.len() implies u.entries(dir).contains_key(
                #[trigger] names[j],
            ) by {
                if j < front.len() {
                    assert(front[j] == names[j]);
                    assert(v.entries(dir).contains_key(names[j]));
                }
            }
            assert forall|e: u64, n: Seq<char>| #[trigger]
                u.entries(e).contains_key(n) && e != dir implies t.entries(e).contains_key(n)
                && t.entries(e)[n] == u.entries(e)[n] by {
                assert(v.entries(e).contains_key(n));
            }
            assert forall|e: u64, n: Seq<char>, d: u64| #[trigger]
                shown(t, ctx, e, n, d) && !wanted_elsewhere(want, dir, e, n, d) implies shown(
                u,
                ctx,
                e,
                n,
                d,
            ) && u.entries(e)[n] == t.entries(e)[n] && u.nodes[u.entries(e)[n]]
                == t.nodes[t.entries(e)[n]] by {
                assert(shown(v, ctx, e, n, d));
                if d == want[x].doc {
                    assert(want.contains_key(x));
                }
            }
        }
        assert forall|j: int| 0 <= j < names.len() implies u.entries(dir).contains_key(
            #[trigger] names[j],
        ) by {
            if j < front.len() {
                assert(front[j] == names[j]);
                assert(v.entries(dir).contains_key(front[j]));
            }
        }
    }
}

/// Whether a directory holds exactly what it is to hold.
pub open spec fn holds_exactly(
    t: TreeView,
    ctx: Seq<char>,
    dir: u64,
    want: Map<Seq<char>, Wanted>,
) -> bool {
    &&& t.entries(dir).dom() == want.dom()
    &&& forall|n: Seq<char>| #[trigger]
        want.contains_key(n) ==> shows_wanted(t, ctx, dir, n, want[n])
}

/// Making the files of a directory those that it is to hold.
proof fn lemma_sync_dir_effect(
    up: Update,
    ctx: Seq<char>,
    dir: u64,
    want: Map<Seq<char>, Wanted>,
    now: SystemTime,
    own: Set<u64>,
)
    requires
        up.tree.wf(),
        wellformed::takes_files(up.tree, dir),
        wellformed::files_only(want),
        own.contains(dir),
        tidy(up.tree, ctx, own),
        once(want),
        want.dom().finite(),
        up.tree.room(want.dom().len() as int),
    ensures
        ({
            let t = up.tree;
            let u = up.sync_dir(ctx, dir, want, now).tree;
            &&& tidy(u, ctx, own)
            &&& same_outside(t, u, own)
            &&& holds_exactly(u, ctx, dir, want)
            &&& forall|e: u64, n: Seq<char>| #[trigger]
                u.entries(e).contains_key(n) && e != dir ==> t.entries(e).contains_key(n)
                    && t.entries(e)[n] == u.entries(e)[n]
            &&& forall|e: u64, n: Seq<char>, d: u64| #[trigger]
                shown(t, ctx, e, n, d) && e != dir && !wanted_elsewhere(want, dir, e, n, d)
                    ==> shown(u, ctx, e, n, d) && u.entries(e)[n] == t.entries(e)[n]
                    && u.nodes[u.entries(e)[n]] == t.nodes[t.entries(e)[n]]
            &&& forall|n: Seq<char>| #[trigger]
                want.contains_key(n) && shown(t, ctx, dir, n, want[n].doc) ==> u.entries(dir)[n]
                    == t.entries(dir)[n]
        }),
{
    let t = up.tree;
    let have = t.entries(dir);
    let olds = strmap::ordered(have.dom());
    let news = strmap::ordered(want.dom());
    assert(t.children.contains_key(dir));
    strmap::lemma_ordered(have.dom());
    strmap::lemma_ordered(want.dom());
    strmap::lemma_ascending_no_duplicates(olds);
    assert forall|n: Seq<char>| olds.contains(n) <==> have.contains_key(n) by {
        assert(olds.to_set().contains(n) <==> olds.contains(n));
    }
    assert forall|n: Seq<char>| news.contains(n) <==> want.contains_key(n) by {
        assert(news.to_set().contains(n) <==> news.contains(n));
    }
    assert forall|j: int| 0 <= j < olds.len() implies have.contains_key(#[trigger] olds[j]) by {
        assert(olds.contains(olds[j]));
    }
    assert forall|j: int| 0 <= j < news.len() implies want.contains_key(#[trigger] news[j]) by {
        assert(news.contains(news[j]));
    }
    let s0 = Sync { up, dirty: false };
    lemma_visit_all_effect(s0, ctx, dir, have, want, olds, own);
    let s1 = s0.visit_all(ctx, dir, have, want, olds);
    let v = s1.up.tree;
    wellformed::lemma_still_takes_files(t, v, dir);
    assert forall|n: Seq<char>| #[trigger] v.entries(dir).contains_key(n) implies want.contains_key(
        n,
    ) && shows_wanted(v, ctx, dir, n, want[n]) by {
        assert(olds.contains(n));
    }
    lemma_place_all_effect(s1, ctx, dir, want, news, own);
    let s2 = s1.place_all(ctx, dir, want, news);
    let w = s2.up.tree;
    let u = up.sync_dir(ctx, dir, want, now).tree;
    lemma_same_outside_trans(t, v, w, own);
    assert(forall|e: u64| #[trigger] u.entries(e) == w.entries(e));
    assert(w.is_dir(dir));
    assert(forall|i: u64| #[trigger] u.nodes.contains_key(i) <==> w.nodes.contains_key(i));
    assert forall|i: u64| #[trigger] w.nodes.contains_key(i) && i != dir implies u.nodes[i]
        == w.nodes[i] by {}
    assert(u.nodes[dir].parent == w.nodes[dir].parent && u.nodes[dir].name == w.nodes[dir].name
        && u.nodes[dir].content == w.nodes[dir].content);
    assert(tidy(u, ctx, own));
    assert(same_outside(w, u, own));
    lemma_same_outside_trans(t, w, u, own);
    assert forall|n: Seq<char>| #[trigger] want.contains_key(n) implies shows_wanted(
        u,
        ctx,
        dir,
        n,
        want[n],
    ) by {
        assert(news.contains(n));
        let j = choose|j: int| 0 <= j < news.len() && news[j] == n;
        assert(w.entries(dir).contains_key(news[j]));
        assert(shows_wanted(w, ctx, dir, n, want[n]));
        assert(u.entries(dir) == w.entries(dir));
        let i = w.entries(dir)[n];
        assert(w.nodes.contains_key(i));
        assert(!w.is_dir(i)) by {
            assert(w.nodes[i].parent == dir);
        }
    }
    assert(u.entries(dir).dom() =~= want.dom()) by {
        assert(u.entries(dir) == w.entries(dir));
        assert forall|n: Seq<char>| u.entries(dir).contains_key(n) <==> want.contains_key(n) by {
            if want.contains_key(n) {
                assert(shows_wanted(u, ctx, dir, n, want[n]));
            }
            if w.entries(dir).contains_key(n) {
                assert(want.contains_key(n));
            }
        }
    }
    assert forall|e: u64, n: Seq<char>| #[trigger]
        u.entries(e).contains_key(n) && e != dir implies t.entries(e).contains_key(n) && t.entries(
        e,
    )[n] == u.entries(e)[n] by {
        assert(w.entries(e).contains_key(n));
        assert(v.entries(e) == t.entries(e));
    }
    assert forall|e: u64, n: Seq<char>, d: u64| #[trigger]
        shown(t, ctx, e, n, d) && e != dir && !wanted_elsewhere(want, dir, e, n, d) implies shown(
        u,
        ctx,
        e,
        n,
        d,
    ) && u.entries(e)[n] == t.entries(e)[n] && u.nodes[u.entries(e)[n]]
        == t.nodes[t.entries(e)[n]] by {
        let i = t.entries(e)[n];
        assert(t.nodes.contains_key(i) && t.nodes[i].parent == e);
        assert(v.entries(e) == t.entries(e));
        assert(v.bound(ctx, d, i) <==> t.bound(ctx, d, i));
        assert(shown(v, ctx, e, n, d));
        assert(v.nodes[i] == t.nodes[i]);
        assert(u.entries(e) == w.entries(e));
        assert(shown(w, ctx, e, n, d));
        assert(t.docs.contains_key((ctx, d)));
        assert(!t.nodes[i].is_dir());
        assert(t.is_dir(dir));
    }
    assert forall|n: Seq<char>| #[trigger]
        want.contains_key(n) && shown(t, ctx, dir, n, want[n].doc) implies u.entries(dir)[n]
        == t.entries(dir)[n] by {
        assert(kept(t, ctx, have, want, n));
        assert(olds.contains(n));
        assert(shows_wanted(v, ctx, dir, n, want[n]));
        assert(v.entries(dir).contains_key(n));
        assert(v.entries(dir)[n] == have[n]);
        assert(shown(v, ctx, dir, n, want[n].doc));
        assert(!wanted_elsewhere(want, dir, dir, n, want[n].doc)) by {
            assert forall|m: Seq<char>| #[trigger]
                want.contains_key(m) && want[m].doc == want[n].doc implies m == n by {}
        }
        assert(u.entries(dir) == w.entries(dir));
    }
}

/// Whether each document is wanted in one directory, under one name.
pub open spec fn one_place_each(p: Plan) -> bool {
    forall|k: Seq<char>, m: Seq<char>, l: Seq<char>, n: Seq<char>|
        #![trigger p.wants(k).contains_key(m), p.wants(l).contains_key(n)]
        p.wants(k).contains_key(m) && p.wants(l).contains_key(n) && p.wants(k)[m].doc == p.wants(
            l,
        )[n].doc ==> k == l && m == n
}

/// Whether some directories are distinct and are all that there are.
pub open spec fn dirs_are(dirs: Seq<Option<u64>>, own: Set<u64>) -> bool {
    &&& forall|k: int|
        0 <= k < dirs.len() ==> (#[trigger] dirs[k]) is Some && own.contains(dirs[k]->0)
    &&& forall|j: int, k: int| 0 <= j < k < dirs.len() ==> #[trigger] dirs[j] != #[trigger] dirs[k]
}

/// Making the files of some directories those of a plan.
pub proof fn lemma_sync_dirs_effect(
    up: Update,
    dirs: Seq<Option<u64>>,
    ctx: Seq<char>,
    p: Plan,
    now: SystemTime,
    own: Set<u64>,
)
    requires
        up.tree.wf(),
        wellformed::plan_fits(p),
        one_place_each(p),
        dirs.len() <= SCHEMA_DIRS@.len(),
        dirs_are(dirs, own),
        forall|k: int|
            0 <= k < dirs.len() ==> wellformed::takes_files(up.tree, (#[trigger] dirs[k])->0),
        up.tree.room(p.total(dirs.len()) as int),
        tidy(up.tree, ctx, own),
    ensures
        ({
            let t = up.tree;
            let u = up.sync_dirs(dirs, ctx, p, now).tree;
            &&& tidy(u, ctx, own)
            &&& same_outside(t, u, own)
            &&& forall|k: int|
                0 <= k < dirs.len() ==> holds_exactly(
                    u,
                    ctx,
                    (#[trigger] dirs[k])->0,
                    p.wants(model::label(k)),
                )
            &&& forall|k: int, x: Seq<char>|
                0 <= k < dirs.len() && #[trigger] p.wants(model::label(k)).contains_key(x) && shown(
                    t,
                    ctx,
                    dirs[k]->0,
                    x,
                    p.wants(model::label(k))[x].doc,
                ) ==> u.entries(dirs[k]->0)[x] == t.entries(dirs[k]->0)[x]
            &&& forall|e: u64, x: Seq<char>, d: u64| #[trigger]
                shown(t, ctx, e, x, d) && (forall|k: int, m: Seq<char>|
                    0 <= k < dirs.len() && #[trigger] p.wants(model::label(k)).contains_key(m)
                        ==> p.wants(model::label(k))[m].doc != d) && (forall|k: int|
                    0 <= k < dirs.len() ==> #[trigger] dirs[k] != Some(e)) ==> shown(
                    u,
                    ctx,
                    e,
                    x,
                    d,
                ) && u.entries(e)[x] == t.entries(e)[x]
        }),
    decreases dirs.len(),
{
    let t = up.tree;
    if dirs.len() > 0 {
        let rest = dirs.drop_last();
        let last = dirs.len() - 1;
        let dir = dirs.last()->0;
        let want = p.wants(model::label(last));
        assert(dirs[last] == dirs.last());
        assert forall|k: int| 0 <= k < rest.len() implies (#[trigger] rest[k]) is Some
            && own.contains(rest[k]->0) && wellformed::takes_files(t, rest[k]->0) by {
            assert(dirs[k] == rest[k]);
        }
        assert forall|j: int, k: int| 0 <= j < k < rest.len() implies #[trigger] rest[j]
            != #[trigger] rest[k] by {
            assert(dirs[j] == rest[j] && dirs[k] == rest[k]);
        }
        lemma_sync_dirs_effect(up, rest, ctx, p, now, own);
        wellformed::lemma_sync_dirs_wf(up, rest, ctx, p, now);
        let uv = up.sync_dirs(rest, ctx, p, now);
        let v = uv.tree;
        wellformed::lemma_still_takes_files(t, v, dir);
        assert(want.dom().finite());
        assert(wellformed::files_only(want));
        assert(once(want)) by {
            assert forall|a: Seq<char>, b: Seq<char>|
                #![trigger want.contains_key(a), want.contains_key(b)]
                want.contains_key(a) && want.contains_key(b) && want[a].doc
                    == want[b].doc implies a == b by {
                assert(p.wants(model::label(last)).contains_key(a));
                assert(p.wants(model::label(last)).contains_key(b));
            }
        }
        lemma_sync_dir_effect(uv, ctx, dir, want, now, own);
        let u = up.sync_dirs(dirs, ctx, p, now).tree;
        assert(u == uv.sync_dir(ctx, dir, want, now).tree);
        lemma_same_outside_trans(t, v, u, own);
        wellformed::lemma_labels_differ();
        // what the earlier directories show is not wanted in this one
        assert forall|k: int, m: Seq<char>|
            0 <= k < last && #[trigger] p.wants(model::label(k)).contains_key(
                m,
            ) implies !wanted_elsewhere(
            want,
            dir,
            dirs[k]->0,
            m,
            p.wants(model::label(k))[m].doc,
        ) by {
            assert(model::label(k) != model::label(last));
            assert forall|x: Seq<char>| #[trigger] want.contains_key(x) implies want[x].doc
                != p.wants(model::label(k))[m].doc by {
                assert(p.wants(model::label(last)).contains_key(x));
            }
        }
        assert forall|k: int| 0 <= k < dirs.len() implies holds_exactly(
            u,
            ctx,
            (#[trigger] dirs[k])->0,
            p.wants(model::label(k)),
        ) by {
            if k < last {
                let e = dirs[k]->0;
                let wk = p.wants(model::label(k));
                assert(rest[k] == dirs[k]);
                assert(holds_exactly(v, ctx, e, wk));
                assert(dirs[k] != dirs[last]);
                assert(e != dir);
                assert forall|m: Seq<char>| #[trigger] wk.contains_key(m) implies shows_wanted(
                    u,
                    ctx,
                    e,
                    m,
                    wk[m],
                ) by {
                    assert(shows_wanted(v, ctx, e, m, wk[m]));
                    assert(shown(v, ctx, e, m, wk[m].doc));
                    assert(p.wants(model::label(k)).contains_key(m));
                }
                assert forall|m: Seq<char>| u.entries(e).contains_key(m) <==> wk.contains_key(m) by {
                    if u.entries(e).contains_key(m) {
                        assert(v.entries(e).contains_key(m));
                        assert(v.entries(e).dom().contains(m));
                    }
                    if wk.contains_key(m) {
                        assert(shows_wanted(u, ctx, e, m, wk[m]));
                    }
                }
                assert(u.entries(e).dom() =~= wk.dom());
            }
        }
        assert forall|k: int, x: Seq<char>|
            0 <= k < dirs.len() && #[trigger] p.wants(model::label(k)).contains_key(x) && shown(
                t,
                ctx,
                dirs[k]->0,
                x,
                p.wants(model::label(k))[x].doc,
            ) implies u.entries(dirs[k]->0)[x] == t.entries(dirs[k]->0)[x] by {
            let e = dirs[k]->0;
            let d = p.wants(model::label(k))[x].doc;
            if k < last {
                assert(rest[k] == dirs[k]);
                assert(v.entries(e)[x] == t.entries(e)[x]);
                assert(holds_exactly(v, ctx, rest[k]->0, p.wants(model::label(k))));
                assert(shows_wanted(v, ctx, e, x, p.wants(model::label(k))[x]));
                assert(shown(v, ctx, e, x, d));
                assert(dirs[k] != dirs[last]);
                assert(u.entries(e)[x] == v.entries(e)[x]);
            } else {
                assert forall|j: int, m: Seq<char>|
                    0 <= j < rest.len() && #[trigger] p.wants(model::label(j)).contains_key(
                        m,
                    ) implies p.wants(model::label(j))[m].doc != d by {
                    assert(model::label(j) != model::label(last));
                    assert(p.wants(model::label(last)).contains_key(x));
                }
                assert forall|j: int| 0 <= j < rest.len() implies #[trigger] rest[j]
                    != Some(dir) by {
                    assert(rest[j] == dirs[j]);
                    assert(dirs[j] != dirs[last]);
                }
                assert(shown(v, ctx, e, x, d));
            }
        }
        assert forall|e: u64, x: Seq<char>, d: u64| #[trigger]
            shown(t, ctx, e, x, d) && (forall|k: int, m: Seq<char>|
                0 <= k < dirs.len() && #[trigger] p.wants(model::label(k)).contains_key(m)
                    ==> p.wants(model::label(k))[m].doc != d) && (forall|k: int|
                0 <= k < dirs.len() ==> #[trigger] dirs[k] != Some(e)) implies shown(
            u,
            ctx,
            e,
            x,
            d,
        ) && u.entries(e)[x] == t.entries(e)[x] by {
            assert forall|j: int| 0 <= j < rest.len() implies #[trigger] rest[j] != Some(e) by {
                assert(rest[j] == dirs[j]);
            }
            assert(dirs[last] != Some(e));
            assert(shown(v, ctx, e, x, d));
            assert(!wanted_elsewhere(want, dir, e, x, d)) by {
                assert forall|m: Seq<char>| #[trigger] want.contains_key(m) implies want[m].doc
                    != d by {
                    assert(p.wants(model::label(last)).contains_key(m));
                }
            }
        }
    }
}

} // verus!
