//! An inode is never used again.

use crate::api::{ContextView, DocumentView};
use crate::model;
use crate::model::{LayoutView, NodeView, Plan, Sync, TreeView, Update, Wanted};
use crate::state::{CONTEXTS_INO, CONTEXT_META_FILE, FIRST_OVERLAY_INO, ROOT_INO};
use crate::strmap;
use crate::wellformed;
use crate::write_laws;
use crate::writes::WriteView;
use std::time::SystemTime;
use vstd::prelude::*;

verus! {

/// Whether an inode was handed out only after a tree.
pub open spec fn is_new(t: TreeView, ino: u64) -> bool {
    t.next_ino <= ino < FIRST_OVERLAY_INO
}

/// Whether one tree came from another without an inode being used again: each node has an inode
/// that it had before or a new one, directories stay directories in their places, and documents
/// keep their inodes or get new ones.
pub open spec fn steady(t: TreeView, u: TreeView) -> bool {
    &&& t.next_ino <= u.next_ino <= FIRST_OVERLAY_INO
    &&& u.layout == t.layout
    &&& forall|i: u64| #[trigger]
        u.nodes.contains_key(i) ==> is_new(t, i) || (t.nodes.contains_key(i)
            && u.nodes[i].is_dir() == t.nodes[i].is_dir() && (t.nodes[i].is_dir()
            ==> u.nodes[i].parent == t.nodes[i].parent))
    &&& forall|i: u64| #[trigger]
        u.children.contains_key(i) ==> is_new(t, i) || t.children.contains_key(i)
    &&& forall|k: (Seq<char>, u64)| #[trigger]
        u.docs.contains_key(k) ==> is_new(t, u.docs[k]) || (t.docs.contains_key(k) && t.docs[k]
            == u.docs[k])
    &&& forall|id: Seq<char>| #[trigger]
        u.contexts.contains_key(id) ==> is_new(t, u.contexts[id]) || (t.contexts.contains_key(id)
            && t.contexts[id] == u.contexts[id]) || (u.contexts[id] == ROOT_INO && t.layout is Context)
}

proof fn lemma_steady_trans(a: TreeView, b: TreeView, c: TreeView)
    requires
        steady(a, b),
        steady(b, c),
    ensures
        steady(a, c),
{
    assert forall|i: u64| #[trigger] c.nodes.contains_key(i) implies is_new(a, i) || (
    a.nodes.contains_key(i) && c.nodes[i].is_dir() == a.nodes[i].is_dir() && (a.nodes[i].is_dir()
        ==> c.nodes[i].parent == a.nodes[i].parent)) by {
        if !is_new(b, i) {
            assert(b.nodes.contains_key(i));
        }
    }
    assert forall|i: u64| #[trigger] c.children.contains_key(i) implies is_new(a, i)
        || a.children.contains_key(i) by {
        if !is_new(b, i) {
            assert(b.children.contains_key(i));
        }
    }
    assert forall|k: (Seq<char>, u64)| #[trigger] c.docs.contains_key(k) implies is_new(
        a,
        c.docs[k],
    ) || (a.docs.contains_key(k) && a.docs[k] == c.docs[k]) by {
        if !is_new(b, c.docs[k]) {
            assert(b.docs.contains_key(k));
        }
    }
    assert forall|id: Seq<char>| #[trigger] c.contexts.contains_key(id) implies is_new(
        a,
        c.contexts[id],
    ) || (a.contexts.contains_key(id) && a.contexts[id] == c.contexts[id]) || (c.contexts[id]
        == ROOT_INO && a.layout is Context) by {
        if !is_new(b, c.contexts[id]) && b.contexts.contains_key(id) {
            assert(b.contexts.contains_key(id));
        }
    }
}

proof fn lemma_drop_steady(u: Update, ino: u64)
    requires
        u.tree.next_ino <= FIRST_OVERLAY_INO,
    ensures
        steady(u.tree, u.drop_node(ino).tree),
{
}

proof fn lemma_clear_steady(u: Update, ino: u64)
    requires
        u.tree.next_ino <= FIRST_OVERLAY_INO,
    ensures
        steady(u.tree, u.clear(ino).tree),
{
    lemma_clear_inos_steady(u, u.tree.entry_inos(ino), u.tree.children.dom().len());
}

proof fn lemma_clear_inos_steady(u: Update, inos: Seq<u64>, depth: nat)
    requires
        u.tree.next_ino <= FIRST_OVERLAY_INO,
    ensures
        steady(u.tree, u.clear_inos(inos, depth).tree),
    decreases depth, inos.len(),
{
    if inos.len() > 0 {
        let f = inos.drop_last();
        lemma_clear_inos_steady(u, f, depth);
        let v = u.clear_inos(f, depth);
        let c = inos.last();
        let w = if depth > 0 {
            v.clear_to(c, (depth - 1) as nat)
        } else {
            v
        };
        if depth > 0 {
            lemma_clear_inos_steady(v, v.tree.entry_inos(c), (depth - 1) as nat);
            lemma_steady_trans(u.tree, v.tree, w.tree);
        }
        lemma_drop_steady(w, c);
        lemma_steady_trans(u.tree, w.tree, w.drop_node(c).tree);
    }
}

proof fn lemma_drop_context_steady(u: Update, id: Seq<char>)
    requires
        u.tree.next_ino <= FIRST_OVERLAY_INO,
    ensures
        steady(u.tree, u.drop_context(id).tree),
{
    if u.tree.contexts.contains_key(id) {
        let ino = u.tree.contexts[id];
        let u0 = Update {
            tree: TreeView { contexts: u.tree.contexts.remove(id), ..u.tree },
            ..u
        };
        assert(steady(u.tree, u0.tree));
        lemma_clear_steady(u0, ino);
        let u1 = u0.clear(ino);
        lemma_steady_trans(u.tree, u0.tree, u1.tree);
        lemma_drop_steady(u1, ino);
        let u2 = if ino == ROOT_INO {
            u1
        } else {
            u1.drop_node(ino)
        };
        assert(steady(u1.tree, u2.tree));
        lemma_steady_trans(u.tree, u1.tree, u2.tree);
        assert(steady(u2.tree, u.drop_context(id).tree));
        lemma_steady_trans(u.tree, u2.tree, u.drop_context(id).tree);
    }
}

proof fn lemma_drop_contexts_steady(u: Update, ids: Seq<Seq<char>>)
    requires
        u.tree.next_ino <= FIRST_OVERLAY_INO,
    ensures
        steady(u.tree, u.drop_contexts(ids).tree),
    decreases ids.len(),
{
    if ids.len() > 0 {
        let f = ids.drop_last();
        lemma_drop_contexts_steady(u, f);
        let v = u.drop_contexts(f);
        lemma_drop_context_steady(v, ids.last());
        lemma_steady_trans(u.tree, v.tree, u.drop_contexts(ids).tree);
    }
}

/// Putting a node with a new inode in a directory that is there.
proof fn lemma_insert_new_steady(t: TreeView, node: NodeView)
    requires
        t.room(1),
        node.ino == t.next_ino,
        t.children.contains_key(node.parent),
    ensures
        steady(t, t.take_ino().insert_node(node)),
{
}

proof fn lemma_skeleton_steady(t: TreeView, home: u64, now: SystemTime, n: nat)
    requires
        t.room(n as int),
        t.children.contains_key(home),
    ensures
        steady(t, model::skeleton(t, home, now, n)),
        model::skeleton(t, home, now, n).children.contains_key(home),
        model::skeleton(t, home, now, n).next_ino == t.next_ino + n,
    decreases n,
{
    if n > 0 {
        let m = (n - 1) as nat;
        lemma_skeleton_steady(t, home, now, m);
        let v = model::skeleton(t, home, now, m);
        let node = model::dir_node(v.next_ino, home, model::label(n - 1), now);
        lemma_insert_new_steady(v, node);
        lemma_steady_trans(t, v, v.take_ino().insert_node(node));
    }
}

proof fn lemma_apply_context_steady(u: Update, ctx: ContextView, now: SystemTime)
    requires
        u.tree.wf(),
        u.tree.room(9),
    ensures
        steady(u.tree, u.apply_context(ctx, now).tree),
{
    if u.tree.admits(ctx.id) {
        if u.tree.contexts.contains_key(ctx.id) {
            assert(u.tree.has_skeleton(u.tree.contexts[ctx.id]));
        } else {
            wellformed::lemma_labels_differ();
            let t = u.note_workspace(ctx).tree;
            assert(steady(u.tree, t));
            let (home, t1) = match t.layout {
                LayoutView::Contexts => {
                    let home = t.next_ino;
                    (
                        home,
                        t.take_ino().insert_node(
                            model::dir_node(home, CONTEXTS_INO, ctx.id, now),
                        ),
                    )
                },
                _ => (ROOT_INO, t),
            };
            if t.layout is Contexts {
                lemma_insert_new_steady(t, model::dir_node(home, CONTEXTS_INO, ctx.id, now));
            }
            assert(t1.children.contains_key(home));
            lemma_steady_trans(u.tree, t, t1);
            let t2 = TreeView { contexts: t1.contexts.insert(ctx.id, home), ..t1 };
            assert(steady(u.tree, t2));
            lemma_skeleton_steady(t2, home, now, 7);
            let t3 = model::skeleton(t2, home, now, 7);
            lemma_steady_trans(u.tree, t2, t3);
            let meta = NodeView {
                ino: t3.next_ino,
                parent: home,
                name: CONTEXT_META_FILE@,
                mtime: now,
                content: model::meta_content(ctx),
            };
            lemma_insert_new_steady(t3, meta);
            lemma_steady_trans(u.tree, t3, t3.take_ino().insert_node(meta));
        }
    }
}

proof fn lemma_apply_each_steady(u: Update, ctxs: Seq<ContextView>, now: SystemTime)
    requires
        u.tree.wf(),
        u.tree.room(9 * ctxs.len() as int),
    ensures
        steady(u.tree, u.apply_each(ctxs, now).tree),
    decreases ctxs.len(),
{
    if ctxs.len() > 0 {
        let f = ctxs.drop_last();
        lemma_apply_each_steady(u, f, now);
        wellformed::lemma_apply_each_wf(u, f, now);
        let v = u.apply_each(f, now);
        lemma_apply_context_steady(v, ctxs.last(), now);
        lemma_steady_trans(u.tree, v.tree, u.apply_each(ctxs, now).tree);
    }
}

proof fn lemma_sync_dir_steady(
    u: Update,
    ctx: Seq<char>,
    dir: u64,
    want: Map<Seq<char>, Wanted>,
    now: SystemTime,
)
    requires
        u.tree.wf(),
        wellformed::takes_files(u.tree, dir),
        wellformed::files_only(want),
        want.dom().finite(),
        u.tree.room(want.dom().len() as int),
    ensures
        steady(u.tree, u.sync_dir(ctx, dir, want, now).tree),
{
    let have = u.tree.entries(dir);
    let olds = strmap::ordered(have.dom());
    let news = strmap::ordered(want.dom());
    strmap::lemma_ordered(want.dom());
    assert(u.tree.nodes.contains_key(dir));
    strmap::lemma_ordered(have.dom());
    let s = Sync { up: u, dirty: false };
    let v = s.visit_all(ctx, dir, have, want, olds);
    assert forall|j: int|
        0 <= j < olds.len() && u.tree.nodes.contains_key(have[#[trigger] olds[j]]) implies
        u.tree.nodes[have[olds[j]]].parent == dir by {
        assert(olds.to_set().contains(olds[j]));
        assert(u.tree.entries(dir).contains_key(olds[j]));
    }
    lemma_visit_all_steady(s, ctx, dir, have, want, olds);
    wellformed::lemma_visit_all_wf(s, ctx, dir, have, want, olds);
    wellformed::lemma_still_takes_files(u.tree, v.up.tree, dir);
    assert forall|j: int| 0 <= j < news.len() implies want.contains_key(#[trigger] news[j]) by {
        assert(news.to_set().contains(news[j]));
    }
    lemma_place_all_steady(v, ctx, dir, want, news);
    let w = v.place_all(ctx, dir, want, news);
    lemma_steady_trans(u.tree, v.up.tree, w.up.tree);
    let r = u.sync_dir(ctx, dir, want, now).tree;
    assert(steady(w.up.tree, r));
    lemma_steady_trans(u.tree, w.up.tree, r);
}

proof fn lemma_visit_all_steady(
    s: Sync,
    ctx: Seq<char>,
    dir: u64,
    have: Map<Seq<char>, u64>,
    want: Map<Seq<char>, Wanted>,
    names: Seq<Seq<char>>,
)
    requires
        s.up.tree.wf(),
        wellformed::takes_files(s.up.tree, dir),
        wellformed::files_only(want),
        forall|j: int|
            0 <= j < names.len() ==> s.up.tree.nodes.contains_key(have[#[trigger] names[j]])
                ==> s.up.tree.nodes[have[names[j]]].parent == dir,
    ensures
        steady(s.up.tree, s.visit_all(ctx, dir, have, want, names).up.tree),
    decreases names.len(),
{
    if names.len() > 0 {
        let f = names.drop_last();
        assert(forall|j: int| 0 <= j < f.len() ==> f[j] == names[j]);
        assert(names[names.len() - 1] == names.last());
        lemma_visit_all_steady(s, ctx, dir, have, want, f);
        wellformed::lemma_visit_all_wf(s, ctx, dir, have, want, f);
        let v = s.visit_all(ctx, dir, have, want, f);
        wellformed::lemma_still_takes_files(s.up.tree, v.up.tree, dir);
        wellformed::lemma_visit_wf(v, ctx, dir, want, names.last(), have[names.last()]);
        let w = v.visit(ctx, dir, want, names.last(), have[names.last()]);
        assert(steady(v.up.tree, w.up.tree));
        lemma_steady_trans(s.up.tree, v.up.tree, w.up.tree);
    }
}

proof fn lemma_place_all_steady(
    s: Sync,
    ctx: Seq<char>,
    dir: u64,
    want: Map<Seq<char>, Wanted>,
    names: Seq<Seq<char>>,
)
    requires
        s.up.tree.wf(),
        wellformed::takes_files(s.up.tree, dir),
        wellformed::files_only(want),
        forall|j: int| 0 <= j < names.len() ==> want.contains_key(#[trigger] names[j]),
        s.up.tree.room(names.len() as int),
    ensures
        steady(s.up.tree, s.place_all(ctx, dir, want, names).up.tree),
    decreases names.len(),
{
    if names.len() > 0 {
        let f = names.drop_last();
        assert(forall|j: int| 0 <= j < f.len() ==> f[j] == names[j]);
        assert(names[names.len() - 1] == names.last());
        lemma_place_all_steady(s, ctx, dir, want, f);
        wellformed::lemma_place_all_wf(s, ctx, dir, want, f);
        let v = s.place_all(ctx, dir, want, f);
        wellformed::lemma_still_takes_files(s.up.tree, v.up.tree, dir);
        let w = v.place(ctx, dir, want, names.last());
        assert(v.up.tree.nodes.contains_key(dir));
        assert(v.up.tree.children.contains_key(dir));
        let t = v.up.tree;
        if t.lookup(dir, names.last()) is None {
            let key = (ctx, want[names.last()].doc);
            if t.docs.contains_key(key) && t.nodes.contains_key(t.docs[key]) {
                let ino = t.docs[key];
                assert(t.children.contains_key(ino));
                assert(!t.nodes[ino].is_dir());
            }
        }
        assert(steady(v.up.tree, w.up.tree));
        lemma_steady_trans(s.up.tree, v.up.tree, w.up.tree);
    }
}

proof fn lemma_sync_dirs_steady(
    u: Update,
    dirs: Seq<Option<u64>>,
    ctx: Seq<char>,
    p: Plan,
    now: SystemTime,
)
    requires
        u.tree.wf(),
        wellformed::plan_fits(p),
        forall|k: int|
            0 <= k < dirs.len() && dirs[k] is Some ==> wellformed::takes_files(
                u.tree,
                (#[trigger] dirs[k])->0,
            ),
        u.tree.room(p.total(dirs.len()) as int),
    ensures
        steady(u.tree, u.sync_dirs(dirs, ctx, p, now).tree),
    decreases dirs.len(),
{
    if dirs.len() > 0 {
        let rest = dirs.drop_last();
        assert(forall|k: int| 0 <= k < rest.len() ==> dirs[k] == rest[k]);
        lemma_sync_dirs_steady(u, rest, ctx, p, now);
        wellformed::lemma_sync_dirs_wf(u, rest, ctx, p, now);
        let v = u.sync_dirs(rest, ctx, p, now);
        if let Some(dir) = dirs.last() {
            assert(dirs[dirs.len() - 1] == dirs.last());
            let want = p.wants(model::label(dirs.len() - 1));
            wellformed::lemma_still_takes_files(u.tree, v.tree, dir);
            lemma_sync_dir_steady(v, ctx, dir, want, now);
            lemma_steady_trans(u.tree, v.tree, v.sync_dir(ctx, dir, want, now).tree);
        }
    }
}

/// When contexts come, go or change, no inode is used again for another node.
pub proof fn law_contexts_reuse_no_inode(t: TreeView, ctxs: Seq<ContextView>, now: SystemTime)
    requires
        t.wf(),
        t.room(9 * ctxs.len() as int),
    ensures
        steady(t, model::apply_contexts(t, ctxs, now).tree),
{
    let u = Update { tree: t, inv: model::no_invalidation() };
    let ids = model::stale(t, ctxs);
    lemma_drop_contexts_steady(u, ids);
    wellformed::lemma_drop_contexts_wf(u, ids);
    let v = model::without_stale(t, ctxs);
    lemma_apply_each_steady(v, ctxs, now);
    lemma_steady_trans(t, v.tree, v.apply_each(ctxs, now).tree);
}

/// When the documents of a context come, go or change, no inode is used again for another node.
pub proof fn law_documents_reuse_no_inode(
    t: TreeView,
    ctx: Seq<char>,
    docs: Seq<DocumentView>,
    names: Map<Seq<char>, Seq<char>>,
    unsaved: Seq<(Seq<char>, Seq<char>)>,
    now: SystemTime,
)
    requires
        t.wf(),
        t.contexts.contains_key(ctx),
        t.room(docs.len() as int),
    ensures
        steady(
            t,
            model::apply_documents(t, ctx, model::plan(t, ctx, docs, names, unsaved), now).tree,
        ),
{
    let p = model::plan(t, ctx, docs, names, unsaved);
    wellformed::lemma_plan_fits(t, ctx, docs, names, unsaved);
    wellformed::lemma_labels_differ();
    let dirs = model::context_dirs(t, ctx);
    assert forall|k: int| 0 <= k < dirs.len() && dirs[k] is Some implies wellformed::takes_files(
        t,
        (#[trigger] dirs[k])->0,
    ) by {
        wellformed::lemma_context_dir_takes_files(t, ctx, model::label(k));
    }
    let u = Update { tree: t, inv: model::no_invalidation() };
    lemma_sync_dirs_steady(u, dirs, ctx, p, now);
}

/// A store that fits a tree fits the tree that comes of it by a refresh: files that are being
/// written keep their inodes to themselves.
pub proof fn law_refresh_keeps_the_store_in_step(w: WriteView, t: TreeView, u: TreeView)
    requires
        w.wf(),
        t.wf(),
        write_laws::fits(w, t),
        steady(t, u),
    ensures
        write_laws::fits(w, u),
{
    assert forall|i: u64| #[trigger]
        w.states.contains_key(i) && w.states[i].target is Create implies {
        &&& !u.nodes.contains_key(i)
        &&& !u.children.contains_key(i)
        &&& write_laws::may_take_files(u, w.states[i].target->dir_ino)
        &&& forall|k: (Seq<char>, u64)| #[trigger] u.docs.contains_key(k) ==> u.docs[k] != i
    } by {
        let d = w.states[i].target->dir_ino;
        assert(write_laws::may_take_files(t, d));
        assert(w.overlay.contains_key(i));
        assert(i >= FIRST_OVERLAY_INO);
        if u.nodes.contains_key(d) {
            assert(t.nodes.contains_key(d));
        }
    }
}

} // verus!
