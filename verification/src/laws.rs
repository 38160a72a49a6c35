//! What a mount promises of its view as a whole.

use crate::api::{ContextView, DocumentView};
use crate::listing;
use crate::model;
use crate::model::{LayoutView, Plan, Sync, TreeView, Update, Wanted};
use crate::naming;
use crate::render;
use crate::render::SCHEMA_DIRS;
use crate::state::ROOT_INO;
use crate::strmap;
use crate::wellformed;
use std::time::SystemTime;
use vstd::prelude::*;

verus! {

/// The directories of a context are there, are different, and are all that its files stand in.
pub proof fn lemma_own_dirs(t: TreeView, ctx: Seq<char>)
    requires
        t.wf(),
        t.contexts.contains_key(ctx),
    ensures
        ({
            let dirs = model::context_dirs(t, ctx);
            let own = listing::own_dirs(t, ctx);
            &&& dirs.len() == 7
            &&& listing::dirs_are(dirs, own)
            &&& forall|k: int|
                0 <= k < dirs.len() ==> wellformed::takes_files(t, (#[trigger] dirs[k])->0)
        }),
{
    let dirs = model::context_dirs(t, ctx);
    let own = listing::own_dirs(t, ctx);
    wellformed::lemma_labels_differ();
    assert(t.has_skeleton(t.contexts[ctx]));
    assert forall|k: int| 0 <= k < dirs.len() implies (#[trigger] dirs[k]) is Some && own.contains(
        dirs[k]->0,
    ) && wellformed::takes_files(t, dirs[k]->0) && t.nodes[dirs[k]->0].name == model::label(k) by {
        assert(t.context_dir(t.contexts[ctx], model::label(k)) is Some);
        wellformed::lemma_context_dir_takes_files(t, ctx, model::label(k));
    }
    assert forall|j: int, k: int| 0 <= j < k < dirs.len() implies #[trigger] dirs[j]
        != #[trigger] dirs[k] by {
        assert(model::label(j) != model::label(k));
    }
}

/// The directory of a context for a document.
pub open spec fn dir_for(t: TreeView, ctx: Seq<char>, doc: DocumentView) -> u64 {
    t.context_dir(t.contexts[ctx], render::schema_dir(doc.schema))->0
}

/// After its documents were brought up to date, each directory of a context holds exactly the
/// files that the plan names, each with its document's content and bound to that document; the
/// context stays tidy, and nothing outside its directories changes.
pub proof fn law_context_shows_its_documents(
    t: TreeView,
    ctx: Seq<char>,
    docs: Seq<DocumentView>,
    names: Map<Seq<char>, Seq<char>>,
    unsaved: Seq<(Seq<char>, Seq<char>)>,
    now: SystemTime,
)
    requires
        t.wf(),
        t.contexts.contains_key(ctx),
        listing::tidy(t, ctx, listing::own_dirs(t, ctx)),
        naming::distinct_ids(docs),
        t.room(docs.len() as int),
    ensures
        ({
            let p = model::plan(t, ctx, docs, names, unsaved);
            let u = model::apply_documents(t, ctx, p, now).tree;
            let own = listing::own_dirs(t, ctx);
            &&& listing::tidy(u, ctx, own)
            &&& listing::same_outside(t, u, own)
            &&& forall|k: int|
                0 <= k < SCHEMA_DIRS@.len() ==> listing::holds_exactly(
                    u,
                    ctx,
                    t.context_dir(t.contexts[ctx], #[trigger] model::label(k))->0,
                    p.wants(model::label(k)),
                )
        }),
{
    let p = model::plan(t, ctx, docs, names, unsaved);
    let own = listing::own_dirs(t, ctx);
    let dirs = model::context_dirs(t, ctx);
    lemma_own_dirs(t, ctx);
    wellformed::lemma_plan_fits(t, ctx, docs, names, unsaved);
    naming::law_each_document_has_one_place(t, ctx, docs, names, unsaved);
    let up = Update { tree: t, inv: model::no_invalidation() };
    listing::lemma_sync_dirs_effect(up, dirs, ctx, p, now, own);
    let u = model::apply_documents(t, ctx, p, now).tree;
    assert forall|k: int| 0 <= k < SCHEMA_DIRS@.len() implies listing::holds_exactly(
        u,
        ctx,
        t.context_dir(t.contexts[ctx], #[trigger] model::label(k))->0,
        p.wants(model::label(k)),
    ) by {
        assert(dirs[k] == t.context_dir(t.contexts[ctx], model::label(k)));
    }
}

/// A document that stays in the view of a context under its name keeps its inode, so that open
/// file handles survive a change of the view. What this leaves out: a document of the list with a
/// smaller identifier that was given the same name.
pub proof fn law_inodes_stay(
    t: TreeView,
    ctx: Seq<char>,
    docs: Seq<DocumentView>,
    names: Map<Seq<char>, Seq<char>>,
    unsaved: Seq<(Seq<char>, Seq<char>)>,
    now: SystemTime,
    doc: DocumentView,
    name: Seq<char>,
)
    requires
        t.wf(),
        t.contexts.contains_key(ctx),
        listing::tidy(t, ctx, listing::own_dirs(t, ctx)),
        naming::distinct_ids(docs),
        t.room(docs.len() as int),
        docs.contains(doc),
        naming::given(names, ctx, doc) == Some(name),
        naming::comes_first(names, ctx, doc, docs),
        listing::shown(t, ctx, dir_for(t, ctx, doc), name, doc.id),
    ensures
        ({
            let p = model::plan(t, ctx, docs, names, unsaved);
            let u = model::apply_documents(t, ctx, p, now).tree;
            let dir = dir_for(t, ctx, doc);
            listing::shown(u, ctx, dir, name, doc.id) && u.entries(dir)[name] == t.entries(
                dir,
            )[name]
        }),
{
    let p = model::plan(t, ctx, docs, names, unsaved);
    let own = listing::own_dirs(t, ctx);
    let dirs = model::context_dirs(t, ctx);
    lemma_own_dirs(t, ctx);
    wellformed::lemma_plan_fits(t, ctx, docs, names, unsaved);
    naming::law_each_document_has_one_place(t, ctx, docs, names, unsaved);
    naming::law_names_stick(t, ctx, docs, names, unsaved, doc);
    let up = Update { tree: t, inv: model::no_invalidation() };
    listing::lemma_sync_dirs_effect(up, dirs, ctx, p, now, own);
    let u = model::apply_documents(t, ctx, p, now).tree;
    naming::lemma_schema_dir_is_label(doc.schema);
    let k = choose|k: int|
        0 <= k < SCHEMA_DIRS@.len() && #[trigger] model::label(k) == render::schema_dir(doc.schema);
    assert(dirs[k] == t.context_dir(t.contexts[ctx], model::label(k)));
    assert(p.wants(model::label(k)).contains_key(name));
    assert(listing::holds_exactly(u, ctx, dirs[k]->0, p.wants(model::label(k))));
    assert(listing::shows_wanted(u, ctx, dirs[k]->0, name, p.wants(model::label(k))[name]));
}

/// Bringing the documents of a context up to date hands out at most an inode for each document.
pub proof fn lemma_apply_documents_next(
    t: TreeView,
    ctx: Seq<char>,
    docs: Seq<DocumentView>,
    names: Map<Seq<char>, Seq<char>>,
    unsaved: Seq<(Seq<char>, Seq<char>)>,
    now: SystemTime,
)
    requires
        t.wf(),
        t.contexts.contains_key(ctx),
        t.room(docs.len() as int),
    ensures
        ({
            let p = model::plan(t, ctx, docs, names, unsaved);
            model::apply_documents(t, ctx, p, now).tree.next_ino <= t.next_ino + docs.len()
        }),
{
    let p = model::plan(t, ctx, docs, names, unsaved);
    wellformed::lemma_plan_fits(t, ctx, docs, names, unsaved);
    lemma_own_dirs(t, ctx);
    let u = Update { tree: t, inv: model::no_invalidation() };
    wellformed::lemma_sync_dirs_wf(u, model::context_dirs(t, ctx), ctx, p, now);
}

proof fn lemma_visit_all_idle(
    s: Sync,
    ctx: Seq<char>,
    dir: u64,
    have: Map<Seq<char>, u64>,
    want: Map<Seq<char>, Wanted>,
    names: Seq<Seq<char>>,
)
    requires
        s.up.tree.wf(),
        have == s.up.tree.entries(dir),
        listing::holds_exactly(s.up.tree, ctx, dir, want),
        forall|j: int| 0 <= j < names.len() ==> have.contains_key(#[trigger] names[j]),
    ensures
        s.visit_all(ctx, dir, have, want, names) == s,
    decreases names.len(),
{
    if names.len() > 0 {
        let f = names.drop_last();
        assert(forall|j: int| 0 <= j < f.len() ==> f[j] == names[j]);
        lemma_visit_all_idle(s, ctx, dir, have, want, f);
        let x = names[names.len() - 1];
        assert(have.dom().contains(x));
        assert(want.contains_key(x));
        assert(listing::shows_wanted(s.up.tree, ctx, dir, x, want[x]));
    }
}

proof fn lemma_place_all_idle(
    s: Sync,
    ctx: Seq<char>,
    dir: u64,
    want: Map<Seq<char>, Wanted>,
    names: Seq<Seq<char>>,
)
    requires
        s.up.tree.wf(),
        listing::holds_exactly(s.up.tree, ctx, dir, want),
        forall|j: int| 0 <= j < names.len() ==> want.contains_key(#[trigger] names[j]),
    ensures
        s.place_all(ctx, dir, want, names) == s,
    decreases names.len(),
{
    if names.len() > 0 {
        let f = names.drop_last();
        assert(forall|j: int| 0 <= j < f.len() ==> f[j] == names[j]);
        lemma_place_all_idle(s, ctx, dir, want, f);
        let x = names[names.len() - 1];
        let t = s.up.tree;
        assert(listing::shows_wanted(t, ctx, dir, x, want[x]));
        assert(t.entries(dir).contains_key(x));
        assert(t.nodes.contains_key(t.entries(dir)[x]));
        assert(t.lookup(dir, x) is Some);
    }
}

proof fn lemma_sync_dirs_idle(
    up: Update,
    dirs: Seq<Option<u64>>,
    ctx: Seq<char>,
    p: Plan,
    now: SystemTime,
)
    requires
        up.tree.wf(),
        forall|k: int|
            0 <= k < dirs.len() && (#[trigger] dirs[k]) is Some ==> listing::holds_exactly(
                up.tree,
                ctx,
                dirs[k]->0,
                p.wants(model::label(k)),
            ),
    ensures
        up.sync_dirs(dirs, ctx, p, now) == up,
    decreases dirs.len(),
{
    if dirs.len() > 0 {
        let f = dirs.drop_last();
        assert(forall|j: int| 0 <= j < f.len() ==> f[j] == dirs[j]);
        lemma_sync_dirs_idle(up, f, ctx, p, now);
        if let Some(dir) = dirs.last() {
            let k = dirs.len() - 1;
            assert(dirs[k] == Some(dir));
            let want = p.wants(model::label(k));
            let have = up.tree.entries(dir);
            let s = Sync { up, dirty: false };
            if !up.tree.children.contains_key(dir) {
                assert(have.dom() =~= Set::empty());
            }
            strmap::lemma_ordered(have.dom());
            let names = strmap::ordered(have.dom());
            assert forall|j: int| 0 <= j < names.len() implies have.contains_key(
                #[trigger] names[j],
            ) by {
                assert(names.to_set().contains(names[j]));
            }
            lemma_visit_all_idle(s, ctx, dir, have, want, names);
            assert(have.dom() == want.dom());
            assert forall|j: int| 0 <= j < names.len() implies want.contains_key(
                #[trigger] names[j],
            ) by {
                assert(have.contains_key(names[j]));
                assert(want.dom().contains(names[j]));
            }
            lemma_place_all_idle(s, ctx, dir, want, names);
        }
    }
}

/// A refresh that finds a context as it is changes nothing and tells the kernel nothing.
pub proof fn law_no_change_tells_nothing(t: TreeView, ctx: Seq<char>, p: Plan, now: SystemTime)
    requires
        t.wf(),
        t.contexts.contains_key(ctx),
        forall|k: int|
            0 <= k < SCHEMA_DIRS@.len() ==> listing::holds_exactly(
                t,
                ctx,
                t.context_dir(t.contexts[ctx], #[trigger] model::label(k))->0,
                p.wants(model::label(k)),
            ),
    ensures
        model::apply_documents(t, ctx, p, now) == (Update {
            tree: t,
            inv: model::no_invalidation(),
        }),
{
    let dirs = model::context_dirs(t, ctx);
    let up = Update { tree: t, inv: model::no_invalidation() };
    assert forall|k: int| 0 <= k < dirs.len() && (#[trigger] dirs[k]) is Some implies
        listing::holds_exactly(t, ctx, dirs[k]->0, p.wants(model::label(k))) by {
        assert(dirs[k] == t.context_dir(t.contexts[ctx], model::label(k)));
    }
    lemma_sync_dirs_idle(up, dirs, ctx, p, now);
}

/// What some names lead to from a directory.
pub open spec fn reach(t: TreeView, ino: u64, path: Seq<Seq<char>>) -> Option<u64>
    decreases path.len(),
{
    if path.len() == 0 {
        Some(ino)
    } else {
        match reach(t, ino, path.drop_last()) {
            Some(p) => if t.entries(p).contains_key(path.last()) {
                Some(t.entries(p)[path.last()])
            } else {
                None
            },
            None => None,
        }
    }
}

/// Whether with each node that went, what it held went too, and entries went only with what they
/// led to or what they were in.
pub open spec fn cut_off(a: TreeView, b: TreeView) -> bool {
    &&& forall|x: u64, n: Seq<char>|
        a.nodes.contains_key(x) && !b.nodes.contains_key(x) && #[trigger] a.entries(x).contains_key(
            n,
        ) ==> !b.nodes.contains_key(a.entries(x)[n])
    &&& forall|p: u64, n: Seq<char>| #[trigger]
        a.entries(p).contains_key(n) && b.nodes.contains_key(a.entries(p)[n]) && (
        b.nodes.contains_key(p) || !a.nodes.contains_key(p)) ==> b.entries(p).contains_key(n)
            && b.entries(p)[n] == a.entries(p)[n]
    &&& wellformed::fewer_nodes(b, a)
}

proof fn lemma_cut_off_trans(a: TreeView, b: TreeView, c: TreeView)
    requires
        cut_off(a, b),
        cut_off(b, c),
    ensures
        cut_off(a, c),
{
    assert forall|x: u64, n: Seq<char>|
        a.nodes.contains_key(x) && !c.nodes.contains_key(x) && #[trigger] a.entries(x).contains_key(
            n,
        ) implies !c.nodes.contains_key(a.entries(x)[n]) by {
        let y = a.entries(x)[n];
        if b.nodes.contains_key(x) && b.nodes.contains_key(y) {
            assert(b.entries(x).contains_key(n));
        }
        if c.nodes.contains_key(y) {
            assert(b.nodes.contains_key(y));
        }
    }
    assert forall|p: u64, n: Seq<char>| #[trigger]
        a.entries(p).contains_key(n) && c.nodes.contains_key(a.entries(p)[n]) && (
        c.nodes.contains_key(p) || !a.nodes.contains_key(p)) implies c.entries(p).contains_key(n)
        && c.entries(p)[n] == a.entries(p)[n] by {
        assert(b.nodes.contains_key(a.entries(p)[n]));
        if c.nodes.contains_key(p) {
            assert(b.nodes.contains_key(p));
        } else if b.nodes.contains_key(p) {
            assert(a.nodes.contains_key(p));
        }
        assert(b.entries(p).contains_key(n));
    }
}

/// Whether a node is listed where it says that it is.
pub open spec fn listed(t: TreeView, ino: u64) -> bool {
    let node = t.nodes[ino];
    t.entries(node.parent).contains_key(node.name) && t.entries(node.parent)[node.name] == ino
}

/// Taking away a node that holds nothing any more.
pub proof fn lemma_drop_cut_off(u: Update, ino: u64)
    requires
        u.tree.wf(),
        u.tree.nodes.contains_key(ino) ==> u.tree.entries(ino).dom() == Set::<Seq<char>>::empty()
            && listed(u.tree, ino),
    ensures
        cut_off(u.tree, u.drop_node(ino).tree),
        !u.drop_node(ino).tree.nodes.contains_key(ino),
{
    let a = u.tree;
    let b = u.drop_node(ino).tree;
    if a.nodes.contains_key(ino) {
        let node = a.nodes[ino];
        assert forall|x: u64, n: Seq<char>|
            a.nodes.contains_key(x) && !b.nodes.contains_key(x) && #[trigger] a.entries(
                x,
            ).contains_key(n) implies !b.nodes.contains_key(a.entries(x)[n]) by {
            assert(x == ino);
            assert(a.entries(ino).dom().contains(n));
        }
        assert forall|p: u64, n: Seq<char>| #[trigger]
            a.entries(p).contains_key(n) && b.nodes.contains_key(a.entries(p)[n]) && (
            b.nodes.contains_key(p) || !a.nodes.contains_key(p)) implies b.entries(p).contains_key(
            n,
        ) && b.entries(p)[n] == a.entries(p)[n] by {
            assert(a.entries(p)[n] != ino);
            assert(p != ino);
            assert(a.nodes[a.entries(p)[n]].parent == p && a.nodes[a.entries(p)[n]].name == n);
        }
    }
}

/// Taking everything below a directory away leaves nothing that was below it.
proof fn lemma_sweep_cut_off(u: Update, ino: u64)
    requires
        u.tree.wf(),
        wellformed::clearable(u.tree, ino),
        u.tree.is_dir(ino),
    ensures
        cut_off(u.tree, u.sweep(ino).tree),
        u.sweep(ino).tree.nodes.contains_key(ino),
        u.sweep(ino).tree.entries(ino).dom() == Set::<Seq<char>>::empty(),
        forall|n: Seq<char>| #[trigger]
            u.tree.entries(ino).contains_key(n) ==> !u.sweep(ino).tree.nodes.contains_key(
                u.tree.entries(ino)[n],
            ),
    decreases u64::MAX - ino, 1int, 0nat,
{
    let t = u.tree;
    let inos = t.entry_inos(ino);
    let names = t.entry_names(ino);
    assert(t.children.contains_key(ino));
    strmap::lemma_ordered(t.entries(ino).dom());
    assert forall|j: int| 0 <= j < inos.len() implies in_dir(t, ino, #[trigger] inos[j])
        && t.nodes[inos[j]].name == names[j] by {
        assert(names.to_set().contains(names[j]));
        assert(t.entries(ino).contains_key(names[j]));
    }
    strmap::lemma_ascending_no_duplicates(names);
    lemma_sweep_inos_cut_off(u, ino, inos);
    let v = u.sweep(ino).tree;
    wellformed::lemma_sweep_wf(u, ino);
    assert forall|n: Seq<char>| #[trigger] t.entries(ino).contains_key(n) implies
        !v.nodes.contains_key(t.entries(ino)[n]) by {
        assert(names.to_set().contains(n));
        let j = choose|j: int| 0 <= j < names.len() && names[j] == n;
        assert(inos[j] == t.entries(ino)[n]);
    }
    assert(v.entries(ino).dom() =~= Set::empty()) by {
        assert forall|n: Seq<char>| !v.entries(ino).contains_key(n) by {
            if v.entries(ino).contains_key(n) {
                let c = v.entries(ino)[n];
                assert(v.nodes.contains_key(c) && v.nodes[c].parent == ino);
                assert(t.nodes[c] == v.nodes[c]);
                lemma_entries_shrink(u, ino, inos, ino, n);
                assert(t.entries(ino).contains_key(n));
            }
        }
    }
}

/// Entries only go.
pub proof fn lemma_entries_shrink(u: Update, ino: u64, inos: Seq<u64>, p: u64, n: Seq<char>)
    ensures
        u.sweep_inos(ino, inos).tree.entries(p).contains_key(n) ==> u.tree.entries(p).contains_key(
            n,
        ) && u.tree.entries(p)[n] == u.sweep_inos(ino, inos).tree.entries(p)[n],
    decreases u64::MAX - ino, 0int, inos.len(),
{
    if inos.len() > 0 {
        lemma_entries_shrink(u, ino, inos.drop_last(), p, n);
        let v = u.sweep_inos(ino, inos.drop_last());
        let c = inos.last();
        if c > ino {
            lemma_entries_shrink(v, c, v.tree.entry_inos(c), p, n);
            assert(v.sweep(c) == v.sweep_inos(c, v.tree.entry_inos(c)));
        }
        let w = if c > ino {
            v.sweep(c)
        } else {
            v
        };
        assert(u.sweep_inos(ino, inos) == w.drop_node(c));
    }
}

/// What goes when everything below a directory is taken away is in it or further down.
pub proof fn lemma_sweep_removes(u: Update, ino: u64, x: u64)
    requires
        u.tree.wf(),
        wellformed::clearable(u.tree, ino),
        u.tree.nodes.contains_key(x),
        !u.sweep(ino).tree.nodes.contains_key(x),
    ensures
        u.tree.nodes[x].parent >= ino,
        u.tree.is_dir(x) ==> x > ino,
    decreases u64::MAX - ino, 1int, 0nat,
{
    let t = u.tree;
    let names = t.entry_names(ino);
    if !t.children.contains_key(ino) {
        assert(t.entries(ino).dom() =~= Set::empty());
    }
    strmap::lemma_ordered(t.entries(ino).dom());
    assert forall|j: int| 0 <= j < t.entry_inos(ino).len() implies in_dir(
        t,
        ino,
        #[trigger] t.entry_inos(ino)[j],
    ) by {
        assert(names.to_set().contains(names[j]));
        assert(t.entries(ino).contains_key(names[j]));
    }
    lemma_sweep_inos_removes(u, ino, t.entry_inos(ino), x);
}

/// Whether a node is in a directory.
pub open spec fn in_dir(t: TreeView, ino: u64, c: u64) -> bool {
    &&& t.nodes.contains_key(c)
    &&& t.nodes[c].parent == ino
    &&& listed(t, c)
    &&& c != ROOT_INO
    &&& t.is_dir(c) ==> c > ino
}

proof fn lemma_sweep_inos_removes(u: Update, ino: u64, inos: Seq<u64>, x: u64)
    requires
        u.tree.wf(),
        wellformed::clearable(u.tree, ino),
        forall|j: int| 0 <= j < inos.len() ==> in_dir(u.tree, ino, #[trigger] inos[j]),
        u.tree.nodes.contains_key(x),
        !u.sweep_inos(ino, inos).tree.nodes.contains_key(x),
    ensures
        u.tree.nodes[x].parent >= ino,
        u.tree.is_dir(x) ==> x > ino,
        u.tree.nodes[x].parent == ino ==> inos.contains(x),
    decreases u64::MAX - ino, 0int, inos.len(),
{
    if inos.len() > 0 {
        let f = inos.drop_last();
        let c = inos.last();
        assert(c == inos[inos.len() - 1]);
        assert(in_dir(u.tree, ino, c));
        assert(forall|j: int| 0 <= j < f.len() ==> f[j] == inos[j]);
        wellformed::lemma_sweep_inos_wf(u, ino, f);
        model::lemma_sweep_inos_frame(u, ino, f);
        let v = u.sweep_inos(ino, f);
        if !v.tree.nodes.contains_key(x) {
            lemma_sweep_inos_removes(u, ino, f, x);
            if f.contains(x) {
                let j = choose|j: int| 0 <= j < f.len() && f[j] == x;
                assert(inos[j] == x);
            }
        } else if x != c {
            wellformed::lemma_child_is_free(u.tree, ino, c);
            assert(c > ino);
            lemma_sweep_removes(v, c, x);
        } else {
            assert(inos[inos.len() - 1] == x);
        }
    }
}

proof fn lemma_sweep_inos_cut_off(u: Update, ino: u64, inos: Seq<u64>)
    requires
        u.tree.wf(),
        wellformed::clearable(u.tree, ino),
        u.tree.is_dir(ino),
        inos.no_duplicates(),
        forall|j: int| 0 <= j < inos.len() ==> in_dir(u.tree, ino, #[trigger] inos[j]),
    ensures
        cut_off(u.tree, u.sweep_inos(ino, inos).tree),
        u.sweep_inos(ino, inos).tree.nodes.contains_key(ino),
        forall|j: int|
            0 <= j < inos.len() ==> !u.sweep_inos(ino, inos).tree.nodes.contains_key(
                #[trigger] inos[j],
            ),
    decreases u64::MAX - ino, 0int, inos.len(),
{
    if inos.len() > 0 {
        let f = inos.drop_last();
        let c = inos.last();
        assert(c == inos[inos.len() - 1]);
        assert(in_dir(u.tree, ino, c));
        assert(forall|j: int| 0 <= j < f.len() ==> f[j] == inos[j]);
        assert(f.no_duplicates());
        lemma_sweep_inos_cut_off(u, ino, f);
        wellformed::lemma_sweep_inos_wf(u, ino, f);
        model::lemma_sweep_inos_frame(u, ino, f);
        let v = u.sweep_inos(ino, f);
        wellformed::lemma_child_is_free(u.tree, ino, c);
        let r = u.sweep_inos(ino, inos);
        if !v.tree.nodes.contains_key(c) {
            lemma_sweep_inos_removes(u, ino, f, c);
            let j = choose|j: int| 0 <= j < f.len() && f[j] == c;
            assert(inos[j] == inos[inos.len() - 1]);
        }
        assert(v.tree.nodes[c] == u.tree.nodes[c]);
        let n = u.tree.nodes[c].name;
        assert(u.tree.entries(ino).contains_key(n));
        assert(listed(v.tree, c));
        let w = if c > ino {
            v.sweep(c)
        } else {
            v
        };
        if c > ino {
            if v.tree.is_dir(c) {
                lemma_sweep_cut_off(v, c);
            } else {
                lemma_sweep_file(v, c);
            }
            wellformed::lemma_sweep_wf(v, c);
            if !w.tree.nodes.contains_key(ino) {
                lemma_sweep_removes(v, c, ino);
            }
            assert(v.tree.entries(ino).contains_key(n));
        } else {
            lemma_sweep_file(v, c);
        }
        assert(cut_off(v.tree, w.tree));
        assert(w.tree.nodes.contains_key(c) && w.tree.nodes[c] == v.tree.nodes[c]);
        assert(listed(w.tree, c));
        lemma_drop_cut_off(w, c);
        assert(r == w.drop_node(c));
        lemma_cut_off_trans(v.tree, w.tree, r.tree);
        lemma_cut_off_trans(u.tree, v.tree, r.tree);
        assert forall|j: int| 0 <= j < inos.len() implies !r.tree.nodes.contains_key(
            #[trigger] inos[j],
        ) by {
            if j < f.len() {
                assert(!v.tree.nodes.contains_key(f[j]));
            }
        }
    }
}

/// There is nothing below a file.
pub proof fn lemma_sweep_file(u: Update, ino: u64)
    requires
        u.tree.wf(),
        u.tree.is_file(ino),
    ensures
        u.tree.entries(ino).dom() == Set::<Seq<char>>::empty(),
        u.sweep(ino) == u,
        cut_off(u.tree, u.tree),
{
    let t = u.tree;
    assert(t.entries(ino).dom() =~= Set::empty()) by {
        assert forall|n: Seq<char>| !t.entries(ino).contains_key(n) by {
            if t.entries(ino).contains_key(n) {
                assert(!t.is_file(ino));
            }
        }
    }
    strmap::lemma_ordered(t.entries(ino).dom());
    assert(t.entry_inos(ino) =~= Seq::empty());
    assert(u.sweep(ino) == u.sweep_inos(ino, Seq::empty()));
}

/// Taking everything below a directory away leaves nothing that was below it.
pub proof fn lemma_clear_cut_off(u: Update, ino: u64)
    requires
        u.tree.wf(),
        wellformed::clearable(u.tree, ino),
        u.tree.is_dir(ino),
    ensures
        cut_off(u.tree, u.clear(ino).tree),
        u.clear(ino).tree.nodes.contains_key(ino),
        u.clear(ino).tree.entries(ino).dom() == Set::<Seq<char>>::empty(),
        forall|n: Seq<char>| #[trigger]
            u.tree.entries(ino).contains_key(n) ==> !u.clear(ino).tree.nodes.contains_key(
                u.tree.entries(ino)[n],
            ),
{
    wellformed::lemma_clear_is_sweep(u, ino);
    lemma_sweep_cut_off(u, ino);
}

/// What goes when everything below a directory is taken away is in it or further down.
pub proof fn lemma_clear_removes(u: Update, ino: u64, x: u64)
    requires
        u.tree.wf(),
        wellformed::clearable(u.tree, ino),
        u.tree.nodes.contains_key(x),
        !u.clear(ino).tree.nodes.contains_key(x),
    ensures
        u.tree.nodes[x].parent >= ino,
        u.tree.is_dir(x) ==> x > ino,
{
    wellformed::lemma_clear_is_sweep(u, ino);
    lemma_sweep_removes(u, ino, x);
}

/// What was below something that went is gone.
proof fn lemma_reach_gone(a: TreeView, b: TreeView, ino: u64, path: Seq<Seq<char>>)
    requires
        a.wf(),
        cut_off(a, b),
        path.len() > 0,
        forall|n: Seq<char>| #[trigger]
            a.entries(ino).contains_key(n) ==> !b.nodes.contains_key(a.entries(ino)[n]),
    ensures
        (match reach(a, ino, path) {
            Some(x) => a.nodes.contains_key(x) && !b.nodes.contains_key(x),
            None => true,
        }),
    decreases path.len(),
{
    let f = path.drop_last();
    if reach(a, ino, path) is Some {
        let p = reach(a, ino, f)->0;
        assert(a.entries(p).contains_key(path.last()));
        if f.len() == 0 {
            assert(p == ino);
        } else {
            lemma_reach_gone(a, b, ino, f);
        }
    }
}

/// A context that is taken away leaves nothing: its directory and everything below it are gone,
/// no document of it is bound any more, and its workspace is not known. The workspaces of the other
/// contexts are as they were.
pub proof fn law_dropped_context_leaves_nothing(u: Update, id: Seq<char>, path: Seq<Seq<char>>)
    requires
        u.tree.wf(),
        u.tree.contexts.contains_key(id),
    ensures
        ({
            let v = u.drop_context(id).tree;
            let ino = u.tree.contexts[id];
            &&& !v.contexts.contains_key(id)
            &&& ino != ROOT_INO ==> !v.nodes.contains_key(ino)
            &&& path.len() > 0 && reach(u.tree, ino, path) is Some ==> !v.nodes.contains_key(
                reach(u.tree, ino, path)->0,
            )
            &&& forall|doc: u64| !v.docs.contains_key((id, doc))
            &&& v.workspaces == u.tree.workspaces.remove(id)
        }),
{
    let ino = u.tree.contexts[id];
    wellformed::lemma_drop_context_wf(u, id);
    let u0 = Update { tree: TreeView { contexts: u.tree.contexts.remove(id), ..u.tree }, ..u };
    wellformed::lemma_same_nodes_wf(u.tree, u0.tree);
    assert forall|j: Seq<char>| #[trigger] u0.tree.contexts.contains_key(j) implies
        u0.tree.contexts[j] != ino by {
        assert(u.tree.contexts.contains_key(j));
    }
    assert(u0.tree.is_dir(ino));
    model::lemma_clear_frame(u0, ino);
    lemma_clear_cut_off(u0, ino);
    lemma_same_reach(u.tree, u0.tree, ino, path);
    if path.len() > 0 {
        lemma_reach_gone(u0.tree, u0.clear(ino).tree, ino, path);
    }
}

proof fn lemma_same_reach(a: TreeView, b: TreeView, ino: u64, path: Seq<Seq<char>>)
    requires
        a.children == b.children,
    ensures
        reach(a, ino, path) == reach(b, ino, path),
    decreases path.len(),
{
    if path.len() > 0 {
        lemma_same_reach(a, b, ino, path.drop_last());
        assert forall|p: u64| #[trigger] a.entries(p) == b.entries(p) by {}
    }
}

/// Taking a context away keeps the others tidy, in their places.
proof fn lemma_drop_context_tidy(u: Update, id: Seq<char>, ctx: Seq<char>)
    requires
        u.tree.wf(),
        u.tree.contexts.contains_key(ctx),
        id != ctx,
        listing::tidy(u.tree, ctx, listing::own_dirs(u.tree, ctx)),
    ensures
        ({
            let v = u.drop_context(id).tree;
            &&& v.contexts.contains_key(ctx) && v.contexts[ctx] == u.tree.contexts[ctx]
            &&& listing::own_dirs(v, ctx) == listing::own_dirs(u.tree, ctx)
            &&& listing::tidy(v, ctx, listing::own_dirs(v, ctx))
        }),
{
    let t = u.tree;
    let v = u.drop_context(id).tree;
    let own = listing::own_dirs(t, ctx);
    wellformed::lemma_drop_context_wf(u, id);
    if t.contexts.contains_key(id) {
        let ino = t.contexts[id];
        let home = t.contexts[ctx];
        assert(t.admits(id) && t.admits(ctx));
        assert(t.layout is Contexts);
        let u0 = Update { tree: TreeView { contexts: t.contexts.remove(id), ..t }, ..u };
        wellformed::lemma_same_nodes_wf(t, u0.tree);
        assert forall|j: Seq<char>| #[trigger] u0.tree.contexts.contains_key(j) implies
            u0.tree.contexts[j] != ino by {
            assert(t.contexts.contains_key(j));
        }
        assert(u0.tree.is_dir(ino));
        lemma_clear_cut_off(u0, ino);
        wellformed::lemma_clear_wf(u0, ino);
        model::lemma_clear_frame(u0, ino);
        let u1 = u0.clear(ino);
        if !u1.tree.nodes.contains_key(crate::state::CONTEXTS_INO) {
            lemma_clear_removes(u0, ino, crate::state::CONTEXTS_INO);
        }
        assert(u0.tree.entries(crate::state::CONTEXTS_INO).contains_key(id));
        assert(listed(u1.tree, ino));
        lemma_drop_cut_off(u1, ino);
        let u2 = u1.drop_node(ino);
        lemma_cut_off_trans(u0.tree, u1.tree, u2.tree);
        assert forall|e: u64| #[trigger] v.entries(e) == u2.tree.entries(e) by {}
        assert forall|e: u64| #[trigger] t.entries(e) == u0.tree.entries(e) by {}
        // the context's directories stay where they are
        assert forall|k: int| 0 <= k < SCHEMA_DIRS@.len() implies v.context_dir(
            home,
            #[trigger] model::label(k),
        ) == t.context_dir(home, model::label(k)) by {
            let n = model::label(k);
            assert(v.has_skeleton(home));
            assert(v.context_dir(home, n) is Some);
            assert(v.entries(home).contains_key(n));
            assert(u1.tree.entries(home).contains_key(n));
            wellformed::lemma_clear_is_sweep(u0, ino);
            assert(u0.sweep(ino) == u0.sweep_inos(ino, u0.tree.entry_inos(ino)));
            lemma_entries_shrink(u0, ino, u0.tree.entry_inos(ino), home, n);
            assert(t.entries(home) == u0.tree.entries(home));
        }
        assert(listing::own_dirs(v, ctx) =~= own) by {
            assert forall|d: u64| listing::own_dirs(v, ctx).contains(d) <==> own.contains(d) by {
                if own.contains(d) {
                    let k = choose|k: int|
                        0 <= k < SCHEMA_DIRS@.len() && t.context_dir(
                            home,
                            #[trigger] model::label(k),
                        ) == Some(d);
                    assert(v.context_dir(home, model::label(k)) == Some(d));
                }
                if listing::own_dirs(v, ctx).contains(d) {
                    let k = choose|k: int|
                        0 <= k < SCHEMA_DIRS@.len() && v.context_dir(
                            home,
                            #[trigger] model::label(k),
                        ) == Some(d);
                    assert(t.context_dir(home, model::label(k)) == Some(d));
                }
            }
        }
        assert forall|d: u64| own.contains(d) implies #[trigger] v.nodes.contains_key(d) by {
            let k = choose|k: int|
                0 <= k < SCHEMA_DIRS@.len() && t.context_dir(home, #[trigger] model::label(k))
                    == Some(d);
            assert(v.context_dir(home, model::label(k)) == Some(d));
        }
        assert forall|i: u64| #[trigger]
            v.nodes.contains_key(i) && own.contains(v.nodes[i].parent) implies {
            &&& !v.nodes[i].is_dir()
            &&& v.entries(v.nodes[i].parent).contains_key(v.nodes[i].name)
            &&& v.entries(v.nodes[i].parent)[v.nodes[i].name] == i
        } by {
            assert(u2.tree.nodes.contains_key(i));
            assert(t.nodes.contains_key(i) && t.nodes[i] == v.nodes[i]);
            let p = t.nodes[i].parent;
            let n = t.nodes[i].name;
            assert(t.entries(p).contains_key(n));
            assert(u0.tree.entries(p).contains_key(n));
            assert(v.nodes.contains_key(p));
        }
        assert forall|d: u64| #[trigger]
            v.docs.contains_key((ctx, d)) && v.nodes.contains_key(
                v.docs[(ctx, d)],
            ) implies own.contains(v.nodes[v.docs[(ctx, d)]].parent) by {
            assert(t.docs.contains_key((ctx, d)));
            assert(u2.tree.nodes.contains_key(v.docs[(ctx, d)]));
        }
        assert forall|d: u64, e: u64|
            #![trigger v.docs.contains_key((ctx, d)), v.docs.contains_key((ctx, e))]
            v.docs.contains_key((ctx, d)) && v.docs.contains_key((ctx, e)) && v.docs[(ctx, d)]
                == v.docs[(ctx, e)] && v.nodes.contains_key(v.docs[(ctx, d)]) implies d == e by {
            assert(t.docs.contains_key((ctx, d)) && t.docs.contains_key((ctx, e)));
            assert(u2.tree.nodes.contains_key(v.docs[(ctx, d)]));
        }
    }
}

/// What bringing a context in adds: nodes in the top directory, in the context's own or new ones.
pub proof fn lemma_add_context_frame(u: Update, ctx: ContextView, now: SystemTime)
    requires
        u.tree.wf(),
        u.tree.admits(ctx.id),
        !u.tree.contexts.contains_key(ctx.id),
        u.tree.room(9),
    ensures
        ({
            let t = u.tree;
            let r = u.add_context(ctx, now).tree;
            let home = r.contexts[ctx.id];
            &&& r.docs == t.docs
            &&& r.contexts == t.contexts.insert(ctx.id, home)
            &&& forall|i: u64| #[trigger]
                t.nodes.contains_key(i) ==> r.nodes.contains_key(i) && r.nodes[i] == t.nodes[i]
            &&& forall|i: u64| #[trigger]
                r.nodes.contains_key(i) && !t.nodes.contains_key(i) ==> i >= t.next_ino && (
                r.nodes[i].parent == home || (t.layout is Contexts && r.nodes[i].parent
                    == crate::state::CONTEXTS_INO))
            &&& forall|e: u64|
                e != home && e < t.next_ino && !(t.layout is Contexts && e
                    == crate::state::CONTEXTS_INO) ==> #[trigger] r.entries(e) == t.entries(e)
            &&& forall|k: int|
                0 <= k < SCHEMA_DIRS@.len() ==> r.context_dir(home, #[trigger] model::label(k))->0
                    >= t.next_ino
        }),
{
    let t = u.note_workspace(ctx).tree;
    wellformed::lemma_labels_differ();
    wellformed::lemma_note_workspace_wf(u, ctx);
    let (home, t1) = match t.layout {
        LayoutView::Contexts => {
            let home = t.next_ino;
            (
                home,
                t.take_ino().insert_node(
                    model::dir_node(home, crate::state::CONTEXTS_INO, ctx.id, now),
                ),
            )
        },
        _ => (ROOT_INO, t),
    };
    if t.layout is Contexts {
        wellformed::lemma_take_ino_wf(t);
        wellformed::lemma_insert_wf(
            t.take_ino(),
            model::dir_node(home, crate::state::CONTEXTS_INO, ctx.id, now),
        );
    }
    assert forall|id: Seq<char>| #[trigger] t1.contexts.contains_key(id) implies t1.contexts[id]
        != home by {
        assert(t.contexts.contains_key(id));
        assert(t.admits(id));
    }
    assert(t1.is_dir(home));
    wellformed::lemma_grow_wf(t1, home, now, 7);
    let s = model::skeleton(t1, home, now, 7);
    let contexts = t1.contexts.insert(ctx.id, home);
    wellformed::lemma_skeleton_any_contexts(t1, contexts, home, now, 7);
    wellformed::lemma_take_ino_wf(s);
    let r = u.add_context(ctx, now).tree;
    assert(r.contexts[ctx.id] == home);
    assert forall|e: u64| #[trigger] u.tree.entries(e) == t.entries(e) by {}
    assert forall|e: u64|
        e != home && e < t.next_ino && !(t.layout is Contexts && e
            == crate::state::CONTEXTS_INO) implies #[trigger] r.entries(e) == t.entries(e) by {
        assert(s.entries(e) == t1.entries(e));
    }
    assert forall|i: u64| #[trigger] t.nodes.contains_key(i) implies r.nodes.contains_key(i)
        && r.nodes[i] == t.nodes[i] by {
        assert(t1.nodes.contains_key(i));
        assert(s.nodes.contains_key(i));
    }
    assert forall|i: u64| #[trigger]
        r.nodes.contains_key(i) && !t.nodes.contains_key(i) implies i >= t.next_ino && (
    r.nodes[i].parent == home || (t.layout is Contexts && r.nodes[i].parent
        == crate::state::CONTEXTS_INO)) by {
        if i != s.next_ino {
            assert(s.nodes.contains_key(i));
        }
    }
    assert forall|k: int| 0 <= k < SCHEMA_DIRS@.len() implies r.context_dir(
        home,
        #[trigger] model::label(k),
    )->0 >= t.next_ino by {
        assert(s.context_dir(home, model::label(k)) is Some);
        assert(model::label(k) != crate::state::CONTEXT_META_FILE@);
    }
}

/// A context that comes in is tidy, where no document of it is bound yet, and keeps those that
/// are there tidy.
proof fn lemma_add_context_tidy(u: Update, info: ContextView, now: SystemTime, ctx: Seq<char>)
    requires
        u.tree.wf(),
        u.tree.admits(info.id),
        !u.tree.contexts.contains_key(info.id),
        u.tree.room(9),
        info.id == ctx ==> forall|d: u64| !u.tree.docs.contains_key((ctx, d)),
        info.id != ctx ==> u.tree.contexts.contains_key(ctx) && listing::tidy(
            u.tree,
            ctx,
            listing::own_dirs(u.tree, ctx),
        ),
    ensures
        ({
            let r = u.add_context(info, now).tree;
            &&& r.contexts.contains_key(ctx)
            &&& listing::tidy(r, ctx, listing::own_dirs(r, ctx))
            &&& info.id != ctx ==> r.contexts[ctx] == u.tree.contexts[ctx] && listing::own_dirs(
                r,
                ctx,
            ) == listing::own_dirs(u.tree, ctx)
        }),
{
    let t = u.tree;
    let r = u.add_context(info, now).tree;
    lemma_add_context_frame(u, info, now);
    wellformed::lemma_add_context_wf(u, info, now);
    let own = listing::own_dirs(r, ctx);
    let home = r.contexts[info.id];
    if info.id == ctx {
        assert forall|i: u64| #[trigger]
            r.nodes.contains_key(i) && own.contains(r.nodes[i].parent) implies false by {
            let d = r.nodes[i].parent;
            let k = choose|k: int|
                0 <= k < SCHEMA_DIRS@.len() && r.context_dir(home, #[trigger] model::label(k))
                    == Some(d);
            wellformed::lemma_context_dir_takes_files(r, ctx, model::label(k));
            assert(r.nodes.contains_key(d) && r.nodes[d].parent == home);
            assert(d >= t.next_ino);
            assert(r.nodes.contains_key(home));
        }
    } else {
        assert(t.admits(ctx) && t.admits(info.id));
        assert(t.layout is Contexts);
        let h = t.contexts[ctx];
        assert(h != home) by {
            assert(t.nodes.contains_key(h));
            if h == home {
                assert(r.nodes[h].name == info.id);
            }
        }
        assert(r.entries(h) == t.entries(h));
        assert(own =~= listing::own_dirs(t, ctx)) by {
            assert forall|k: int| 0 <= k < SCHEMA_DIRS@.len() implies r.context_dir(
                h,
                #[trigger] model::label(k),
            ) == t.context_dir(h, model::label(k)) by {
                assert(t.has_skeleton(h));
                assert(t.context_dir(h, model::label(k)) is Some);
            }
            assert forall|d: u64| own.contains(d) <==> listing::own_dirs(t, ctx).contains(d) by {
                if own.contains(d) {
                    let k = choose|k: int|
                        0 <= k < SCHEMA_DIRS@.len() && r.context_dir(h, #[trigger] model::label(k))
                            == Some(d);
                    assert(t.context_dir(h, model::label(k)) == Some(d));
                }
                if listing::own_dirs(t, ctx).contains(d) {
                    let k = choose|k: int|
                        0 <= k < SCHEMA_DIRS@.len() && t.context_dir(h, #[trigger] model::label(k))
                            == Some(d);
                    assert(r.context_dir(h, model::label(k)) == Some(d));
                }
            }
        }
        assert forall|d: u64| #[trigger] own.contains(d) implies d != home && d
            != crate::state::CONTEXTS_INO && d < t.next_ino by {
            let k = choose|k: int|
                0 <= k < SCHEMA_DIRS@.len() && t.context_dir(h, #[trigger] model::label(k)) == Some(
                    d,
                );
            wellformed::lemma_context_dir_takes_files(t, ctx, model::label(k));
            assert(t.nodes.contains_key(d));
            assert(r.nodes[d].parent == h);
            assert(r.nodes[home].parent == crate::state::CONTEXTS_INO);
        }
        assert forall|i: u64| #[trigger]
            r.nodes.contains_key(i) && own.contains(r.nodes[i].parent) implies {
            &&& !r.nodes[i].is_dir()
            &&& r.entries(r.nodes[i].parent).contains_key(r.nodes[i].name)
            &&& r.entries(r.nodes[i].parent)[r.nodes[i].name] == i
        } by {
            assert(t.nodes.contains_key(i));
            assert(r.entries(r.nodes[i].parent) == t.entries(r.nodes[i].parent));
        }
        assert forall|d: u64| #[trigger]
            r.docs.contains_key((ctx, d)) && r.nodes.contains_key(
                r.docs[(ctx, d)],
            ) implies own.contains(r.nodes[r.docs[(ctx, d)]].parent) by {
            assert(t.docs.contains_key((ctx, d)));
            assert(t.docs[(ctx, d)] < t.next_ino || t.docs[(ctx, d)]
                >= crate::state::FIRST_OVERLAY_INO);
            assert(r.next_ino <= crate::state::FIRST_OVERLAY_INO);
            assert(r.docs[(ctx, d)] < t.next_ino || !(r.nodes.contains_key(r.docs[(ctx, d)])
                && !t.nodes.contains_key(r.docs[(ctx, d)])));
            assert(t.nodes.contains_key(t.docs[(ctx, d)]));
        }
        assert forall|d: u64, e: u64|
            #![trigger r.docs.contains_key((ctx, d)), r.docs.contains_key((ctx, e))]
            r.docs.contains_key((ctx, d)) && r.docs.contains_key((ctx, e)) && r.docs[(ctx, d)]
                == r.docs[(ctx, e)] && r.nodes.contains_key(r.docs[(ctx, d)]) implies d == e by {
            assert(t.docs.contains_key((ctx, d)) && t.docs.contains_key((ctx, e)));
            assert(t.nodes.contains_key(t.docs[(ctx, d)]));
        }
    }
}

proof fn lemma_drop_contexts_tidy(u: Update, ids: Seq<Seq<char>>, ctx: Seq<char>)
    requires
        u.tree.wf(),
        u.tree.contexts.contains_key(ctx),
        !ids.contains(ctx),
        listing::tidy(u.tree, ctx, listing::own_dirs(u.tree, ctx)),
    ensures
        ({
            let v = u.drop_contexts(ids).tree;
            &&& v.contexts.contains_key(ctx) && v.contexts[ctx] == u.tree.contexts[ctx]
            &&& listing::own_dirs(v, ctx) == listing::own_dirs(u.tree, ctx)
            &&& listing::tidy(v, ctx, listing::own_dirs(v, ctx))
        }),
    decreases ids.len(),
{
    if ids.len() > 0 {
        let f = ids.drop_last();
        assert(ids == f.push(ids.last()));
        wellformed::lemma_push_contains(f, ids.last(), ctx);
        lemma_drop_contexts_tidy(u, f, ctx);
        wellformed::lemma_drop_contexts_wf(u, f);
        lemma_drop_context_tidy(u.drop_contexts(f), ids.last(), ctx);
    }
}

proof fn lemma_drop_contexts_docs(u: Update, ids: Seq<Seq<char>>)
    requires
        u.tree.wf(),
    ensures
        forall|k: (Seq<char>, u64)| #[trigger]
            u.drop_contexts(ids).tree.docs.contains_key(k) ==> u.tree.docs.contains_key(k),
    decreases ids.len(),
{
    if ids.len() > 0 {
        let f = ids.drop_last();
        lemma_drop_contexts_docs(u, f);
        let v = u.drop_contexts(f);
        if v.tree.contexts.contains_key(ids.last()) {
            let v0 = Update {
                tree: TreeView { contexts: v.tree.contexts.remove(ids.last()), ..v.tree },
                ..v
            };
            model::lemma_clear_frame(v0, v.tree.contexts[ids.last()]);
        }
    }
}

/// Showing a context's current object keeps contexts tidy.
pub proof fn lemma_refresh_meta_tidy(u: Update, info: ContextView, now: SystemTime, ctx: Seq<char>)
    requires
        u.tree.wf(),
        u.tree.contexts.contains_key(info.id),
        u.tree.contexts.contains_key(ctx),
        listing::tidy(u.tree, ctx, listing::own_dirs(u.tree, ctx)),
    ensures
        ({
            let v = u.refresh_meta(info, now).note_workspace(info).tree;
            &&& v.contexts == u.tree.contexts
            &&& v.docs == u.tree.docs
            &&& listing::own_dirs(v, ctx) == listing::own_dirs(u.tree, ctx)
            &&& listing::tidy(v, ctx, listing::own_dirs(v, ctx))
        }),
{
    let t = u.tree;
    let v = u.refresh_meta(info, now).note_workspace(info).tree;
    let i = t.contexts[info.id];
    assert(t.has_skeleton(i));
    let m = t.lookup(i, crate::state::CONTEXT_META_FILE@)->0;
    assert forall|e: u64| #[trigger] v.entries(e) == t.entries(e) by {}
    assert forall|d: u64| #[trigger] v.is_dir(d) == t.is_dir(d) by {}
    assert forall|x: u64| #[trigger] v.nodes.contains_key(x) implies t.nodes.contains_key(x)
        && v.nodes[x].parent == t.nodes[x].parent && v.nodes[x].name == t.nodes[x].name
        && v.nodes[x].is_dir() == t.nodes[x].is_dir() by {}
    assert(listing::own_dirs(v, ctx) =~= listing::own_dirs(t, ctx)) by {
        assert forall|n: Seq<char>| #[trigger] v.context_dir(t.contexts[ctx], n) == t.context_dir(
            t.contexts[ctx],
            n,
        ) by {}
    }
}

proof fn lemma_apply_each_tidy(
    u: Update,
    ctxs: Seq<ContextView>,
    now: SystemTime,
    ctx: Seq<char>,
)
    requires
        u.tree.wf(),
        u.tree.room(9 * ctxs.len() as int),
        u.tree.contexts.contains_key(ctx) ==> listing::tidy(
            u.tree,
            ctx,
            listing::own_dirs(u.tree, ctx),
        ),
        !u.tree.contexts.contains_key(ctx) ==> forall|d: u64| !u.tree.docs.contains_key((ctx, d)),
    ensures
        ({
            let v = u.apply_each(ctxs, now).tree;
            &&& v.contexts.contains_key(ctx) ==> listing::tidy(
                v,
                ctx,
                listing::own_dirs(v, ctx),
            )
            &&& u.tree.contexts.contains_key(ctx) ==> v.contexts.contains_key(ctx)
                && v.contexts[ctx] == u.tree.contexts[ctx] && listing::own_dirs(v, ctx)
                == listing::own_dirs(u.tree, ctx)
            &&& v.docs == u.tree.docs
        }),
    decreases ctxs.len(),
{
    if ctxs.len() > 0 {
        let info = ctxs.last();
        let f = ctxs.drop_last();
        lemma_apply_each_tidy(u, f, now, ctx);
        wellformed::lemma_apply_each_wf(u, f, now);
        let v = u.apply_each(f, now);
        if v.tree.admits(info.id) {
            if v.tree.contexts.contains_key(info.id) {
                if v.tree.contexts.contains_key(ctx) {
                    lemma_refresh_meta_tidy(v, info, now, ctx);
                }
            } else {
                lemma_add_context_frame(v, info, now);
                if v.tree.contexts.contains_key(ctx) || info.id == ctx {
                    lemma_add_context_tidy(v, info, now, ctx);
                }
            }
        }
    }
}

/// When contexts come, go or change, a context that stays keeps its directories and stays tidy,
/// and one that comes in is tidy, where no document of it is bound yet.
pub proof fn law_contexts_stay_tidy(
    t: TreeView,
    ctxs: Seq<ContextView>,
    now: SystemTime,
    ctx: Seq<char>,
)
    requires
        t.wf(),
        t.room(9 * ctxs.len() as int),
        t.contexts.contains_key(ctx) ==> listing::tidy(t, ctx, listing::own_dirs(t, ctx)),
        !t.contexts.contains_key(ctx) ==> forall|d: u64| !t.docs.contains_key((ctx, d)),
        t.admits(ctx),
        model::context_ids(ctxs).contains(ctx),
    ensures
        ({
            let u = model::apply_contexts(t, ctxs, now).tree;
            &&& u.contexts.contains_key(ctx)
            &&& listing::tidy(u, ctx, listing::own_dirs(u, ctx))
            &&& t.contexts.contains_key(ctx) ==> u.contexts[ctx] == t.contexts[ctx]
                && listing::own_dirs(u, ctx) == listing::own_dirs(t, ctx)
        }),
{
    let u0 = Update { tree: t, inv: model::no_invalidation() };
    let ids = model::stale(t, ctxs);
    wellformed::law_contexts_are_those_of_the_list(t, ctxs, now);
    wellformed::lemma_drop_contexts_wf(u0, ids);
    strmap::lemma_ordered(t.contexts.dom());
    wellformed::lemma_missing(strmap::ordered(t.contexts.dom()), ctxs);
    assert(!ids.contains(ctx));
    let v = model::without_stale(t, ctxs);
    if t.contexts.contains_key(ctx) {
        lemma_drop_contexts_tidy(u0, ids, ctx);
    } else {
        lemma_drop_contexts_docs(u0, ids);
        assert(!v.tree.contexts.contains_key(ctx));
    }
    lemma_apply_each_tidy(v, ctxs, now, ctx);
}

/// A document that has a file keeps its inode where the file comes to another place; a document
/// without one gets an inode that nothing had. Either way the file is as wanted.
pub proof fn law_placed_files_keep_their_inodes(
    s: Sync,
    ctx: Seq<char>,
    dir: u64,
    want: Map<Seq<char>, Wanted>,
    name: Seq<char>,
)
    requires
        s.up.tree.wf(),
        s.up.tree.room(1),
        s.up.tree.lookup(dir, name) is None,
        s.up.tree.is_dir(dir),
    ensures
        ({
            let t = s.up.tree;
            let u = s.place(ctx, dir, want, name).up.tree;
            let w = want[name];
            let i = u.entries(dir)[name];
            let key = (ctx, w.doc);
            &&& u.entries(dir).contains_key(name)
            &&& u.bound(ctx, w.doc, i)
            &&& u.nodes.contains_key(i) && u.nodes[i].content == w.content && u.nodes[i].mtime
                == w.mtime
            &&& t.docs.contains_key(key) && t.nodes.contains_key(t.docs[key]) ==> i == t.docs[key]
            &&& !t.docs.contains_key(key) ==> !t.nodes.contains_key(i)
        }),
{
    let t = s.up.tree;
    let key = (ctx, want[name].doc);
    if t.docs.contains_key(key) && t.nodes.contains_key(t.docs[key]) {
        assert(t.docs[key] != ROOT_INO);
    }
    assert(t.next_ino != ROOT_INO);
    assert(!t.nodes.contains_key(t.next_ino));
}

} // verus!
