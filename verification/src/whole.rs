//! Trees of contexts hold nothing loose: every node is listed, and every directory of a context is
//! found as one.

use crate::api::{ContextView, DocumentView};
use crate::laws;
use crate::model;
use crate::model::{NodeView, Plan, Sync, TreeView, Update, Wanted};
use crate::render::SCHEMA_DIRS;
use crate::state::{CONTEXTS_INO, CONTEXT_META_FILE, ROOT_INO};
use crate::strmap;
use crate::wellformed;
use std::time::SystemTime;
use vstd::prelude::*;
use vstd::string::*;

verus! {

/// Whether every node but the top is listed in its directory under its name, and only nodes have
/// listings.
pub open spec fn all_listed(t: TreeView) -> bool {
    &&& forall|i: u64| #[trigger]
        t.nodes.contains_key(i) && i != ROOT_INO ==> t.nodes.contains_key(t.nodes[i].parent)
            && laws::listed(t, i)
    &&& forall|i: u64| #[trigger] t.children.contains_key(i) ==> t.nodes.contains_key(i)
}

/// Whether what stands among the contexts are contexts.
pub open spec fn only_contexts(t: TreeView) -> bool {
    forall|i: u64| #[trigger]
        t.nodes.contains_key(i) && t.nodes[i].parent == CONTEXTS_INO ==> t.contexts.contains_key(
            t.nodes[i].name,
        ) && t.contexts[t.nodes[i].name] == i
}

/// A tree that shows contexts and holds nothing loose.
pub open spec fn whole(t: TreeView) -> bool {
    &&& t.wf()
    &&& t.layout is Contexts
    &&& all_listed(t)
    &&& only_contexts(t)
}

// ── single changes ───────────────────────────────────────────────────────────

/// What has no entries has no node below it.
proof fn lemma_leaf(t: TreeView, ino: u64)
    requires
        all_listed(t),
        ino != ROOT_INO,
        forall|n: Seq<char>| !t.entries(ino).contains_key(n),
    ensures
        forall|i: u64| #[trigger]
            t.nodes.contains_key(i) && i != ROOT_INO ==> t.nodes[i].parent != ino,
{
    assert forall|i: u64| #[trigger] t.nodes.contains_key(i) && i != ROOT_INO implies
        t.nodes[i].parent != ino by {
        assert(laws::listed(t, i));
    }
}

/// There is nothing below a file.
proof fn lemma_file_leaf(t: TreeView, ino: u64)
    requires
        t.wf(),
        !t.is_dir(ino),
        t.nodes.contains_key(ino) || !t.children.contains_key(ino),
    ensures
        forall|n: Seq<char>| !t.entries(ino).contains_key(n),
{
    assert forall|n: Seq<char>| !t.entries(ino).contains_key(n) by {
        if t.entries(ino).contains_key(n) {
            assert(!t.is_file(ino));
        }
    }
}

proof fn lemma_remove_listed(t: TreeView, ino: u64)
    requires
        all_listed(t),
        ino != ROOT_INO,
        forall|n: Seq<char>| !t.entries(ino).contains_key(n),
    ensures
        all_listed(t.remove_node(ino)),
{
    let u = t.remove_node(ino);
    if t.nodes.contains_key(ino) {
        lemma_leaf(t, ino);
        assert(laws::listed(t, ino));
        assert forall|i: u64| #[trigger] u.nodes.contains_key(i) && i != ROOT_INO implies
            u.nodes.contains_key(u.nodes[i].parent) && laws::listed(u, i) by {
            assert(t.nodes.contains_key(i));
            assert(laws::listed(t, i));
        }
    }
}

proof fn lemma_insert_listed(t: TreeView, node: NodeView)
    requires
        all_listed(t),
        t.nodes.contains_key(node.parent),
        node.ino != ROOT_INO,
        !t.nodes.contains_key(node.ino),
        !t.entries(node.parent).contains_key(node.name),
    ensures
        all_listed(t.insert_node(node)),
{
    let u = t.insert_node(node);
    assert(!t.children.contains_key(node.ino));
    assert forall|i: u64| #[trigger] u.nodes.contains_key(i) && i != ROOT_INO implies
        u.nodes.contains_key(u.nodes[i].parent) && laws::listed(u, i) by {
        if i != node.ino {
            assert(t.nodes.contains_key(i));
            assert(laws::listed(t, i));
        }
    }
}

/// Nodes that stay in their places, with the same entries, stay listed.
proof fn lemma_same_listed(t: TreeView, u: TreeView)
    requires
        all_listed(t),
        u.children == t.children,
        u.nodes.dom() =~= t.nodes.dom(),
        forall|i: u64| #[trigger]
            t.nodes.contains_key(i) ==> u.nodes[i].parent == t.nodes[i].parent && u.nodes[i].name
                == t.nodes[i].name,
    ensures
        all_listed(u),
{
    assert forall|i: u64| #[trigger] u.nodes.contains_key(i) && i != ROOT_INO implies
        u.nodes.contains_key(u.nodes[i].parent) && laws::listed(u, i) by {
        assert(t.nodes.contains_key(i));
        assert(laws::listed(t, i));
    }
    assert forall|i: u64| #[trigger] u.children.contains_key(i) implies u.nodes.contains_key(i) by {
        assert(t.children.contains_key(i));
    }
}

/// What is left when nodes go with all that is below them stays listed.
proof fn lemma_cut_off_listed(t: TreeView, u: TreeView)
    requires
        all_listed(t),
        laws::cut_off(t, u),
        wellformed::fewer_nodes(u, t),
        u.nodes.contains_key(ROOT_INO),
        forall|i: u64| #[trigger] u.children.contains_key(i) ==> u.nodes.contains_key(i),
    ensures
        all_listed(u),
{
    assert forall|i: u64| #[trigger] u.nodes.contains_key(i) && i != ROOT_INO implies
        u.nodes.contains_key(u.nodes[i].parent) && laws::listed(u, i) by {
        assert(t.nodes.contains_key(i));
        assert(laws::listed(t, i));
        let p = t.nodes[i].parent;
        assert(t.entries(p).contains_key(t.nodes[i].name));
    }
}

/// Taking nodes away takes their listings away.
proof fn lemma_clear_inos_listings(u: Update, inos: Seq<u64>, depth: nat)
    requires
        forall|i: u64| #[trigger] u.tree.children.contains_key(i) ==> u.tree.nodes.contains_key(i),
    ensures
        forall|i: u64| #[trigger]
            u.clear_inos(inos, depth).tree.children.contains_key(i) ==> u.clear_inos(
                inos,
                depth,
            ).tree.nodes.contains_key(i),
    decreases depth, inos.len(),
{
    if inos.len() > 0 {
        lemma_clear_inos_listings(u, inos.drop_last(), depth);
        let v = u.clear_inos(inos.drop_last(), depth);
        let c = inos.last();
        if depth > 0 {
            lemma_clear_inos_listings(v, v.tree.entry_inos(c), (depth - 1) as nat);
            assert(v.clear_to(c, (depth - 1) as nat) == v.clear_inos(
                v.tree.entry_inos(c),
                (depth - 1) as nat,
            ));
        }
    }
}

// ── contexts ─────────────────────────────────────────────────────────────────

/// Trees with the same nodes, entries and contexts are whole together.
pub proof fn lemma_same_whole(t: TreeView, u: TreeView)
    requires
        whole(t),
        u.wf(),
        u.nodes == t.nodes,
        u.children == t.children,
        u.contexts == t.contexts,
        u.layout == t.layout,
    ensures
        whole(u),
{
    lemma_same_listed(t, u);
}

/// Taking a context away keeps a tree whole.
pub proof fn lemma_drop_context_whole(u: Update, id: Seq<char>)
    requires
        whole(u.tree),
    ensures
        whole(u.drop_context(id).tree),
{
    wellformed::lemma_drop_context_wf(u, id);
    if u.tree.contexts.contains_key(id) {
        let t = u.tree;
        let ino = t.contexts[id];
        let u0 = Update { tree: TreeView { contexts: t.contexts.remove(id), ..t }, ..u };
        wellformed::lemma_same_nodes_wf(t, u0.tree);
        assert forall|j: Seq<char>| #[trigger] u0.tree.contexts.contains_key(j) implies
            u0.tree.contexts[j] != ino by {
            assert(t.contexts.contains_key(j));
        }
        assert(u0.tree.is_dir(ino));
        lemma_same_listed(t, u0.tree);
        laws::lemma_clear_cut_off(u0, ino);
        wellformed::lemma_clear_wf(u0, ino);
        model::lemma_clear_frame(u0, ino);
        let u1 = u0.clear(ino);
        lemma_clear_inos_listings(u0, u0.tree.entry_inos(ino), u0.tree.children.dom().len());
        lemma_cut_off_listed(u0.tree, u1.tree);
        assert forall|n: Seq<char>| !u1.tree.entries(ino).contains_key(n) by {
            assert(!u1.tree.entries(ino).dom().contains(n));
        }
        lemma_remove_listed(u1.tree, ino);
        let u2 = u1.drop_node(ino);
        let r = u.drop_context(id).tree;
        lemma_same_listed(u2.tree, r);
        assert forall|i: u64| #[trigger]
            r.nodes.contains_key(i) && r.nodes[i].parent == CONTEXTS_INO implies
            r.contexts.contains_key(r.nodes[i].name) && r.contexts[r.nodes[i].name] == i by {
            assert(u1.tree.nodes.contains_key(i));
            assert(t.nodes.contains_key(i));
        }
    }
}

/// Taking contexts away keeps a tree whole.
pub proof fn lemma_drop_contexts_whole(u: Update, ids: Seq<Seq<char>>)
    requires
        whole(u.tree),
    ensures
        whole(u.drop_contexts(ids).tree),
    decreases ids.len(),
{
    if ids.len() > 0 {
        lemma_drop_contexts_whole(u, ids.drop_last());
        lemma_drop_context_whole(u.drop_contexts(ids.drop_last()), ids.last());
    }
}

/// Showing the current object of a context keeps a tree whole.
pub proof fn lemma_refresh_meta_whole(u: Update, ctx: ContextView, now: SystemTime)
    requires
        whole(u.tree),
        u.tree.contexts.contains_key(ctx.id),
    ensures
        whole(u.refresh_meta(ctx, now).tree),
{
    wellformed::lemma_refresh_meta_wf(u, ctx, now);
    let r = u.refresh_meta(ctx, now).tree;
    lemma_same_listed(u.tree, r);
    assert forall|i: u64| #[trigger]
        r.nodes.contains_key(i) && r.nodes[i].parent == CONTEXTS_INO implies
        r.contexts.contains_key(r.nodes[i].name) && r.contexts[r.nodes[i].name] == i by {
        assert(u.tree.nodes.contains_key(i));
    }
}

proof fn lemma_skeleton_listed(t: TreeView, home: u64, now: SystemTime, n: nat)
    requires
        t.wf(),
        t.is_dir(home),
        n <= SCHEMA_DIRS@.len(),
        t.room(n as int),
        forall|id: Seq<char>| #[trigger] t.contexts.contains_key(id) ==> t.contexts[id] != home,
        home == CONTEXTS_INO ==> !(t.layout is Contexts),
        t.layout is Workspace || t.is_home(home),
        all_listed(t),
        forall|x: Seq<char>| !t.entries(home).contains_key(x),
    ensures
        all_listed(model::skeleton(t, home, now, n)),
        forall|x: Seq<char>| #[trigger]
            model::skeleton(t, home, now, n).entries(home).contains_key(x) ==> exists|k: int|
                0 <= k < n && x == #[trigger] model::label(k),
    decreases n,
{
    if n > 0 {
        let m = (n - 1) as nat;
        lemma_skeleton_listed(t, home, now, m);
        wellformed::lemma_grow_wf(t, home, now, m);
        wellformed::lemma_labels_differ();
        let v = model::skeleton(t, home, now, m);
        wellformed::lemma_take_ino_wf(v);
        let w = v.take_ino();
        let node = model::dir_node(v.next_ino, home, model::label(n - 1), now);
        lemma_same_listed(v, w);
        assert(!w.entries(home).contains_key(node.name)) by {
            if v.entries(home).contains_key(node.name) {
                let k = choose|k: int| 0 <= k < m && node.name == #[trigger] model::label(k);
                assert(model::label(k) != model::label(n - 1));
            }
        }
        lemma_insert_listed(w, node);
        let u = model::skeleton(t, home, now, n);
        assert forall|x: Seq<char>| #[trigger] u.entries(home).contains_key(x) implies exists|
            k: int,
        |
            0 <= k < n && x == #[trigger] model::label(k) by {
            if x == node.name {
                assert(x == model::label(n - 1));
            } else {
                assert(v.entries(home).contains_key(x));
                let k = choose|k: int| 0 <= k < m && x == #[trigger] model::label(k);
                assert(x == model::label(k));
            }
        }
    }
}

/// Bringing a context in keeps a tree whole.
pub proof fn lemma_add_context_whole(u: Update, ctx: ContextView, now: SystemTime)
    requires
        whole(u.tree),
        !u.tree.contexts.contains_key(ctx.id),
        u.tree.room(9),
    ensures
        whole(u.add_context(ctx, now).tree),
{
    wellformed::lemma_labels_differ();
    wellformed::lemma_add_context_wf(u, ctx, now);
    wellformed::lemma_note_workspace_wf(u, ctx);
    let t = u.note_workspace(ctx).tree;
    lemma_same_listed(u.tree, t);
    wellformed::lemma_take_ino_wf(t);
    let home = t.next_ino;
    let dir = model::dir_node(home, CONTEXTS_INO, ctx.id, now);
    let t0 = t.take_ino();
    lemma_same_listed(t, t0);
    assert(!t0.entries(CONTEXTS_INO).contains_key(ctx.id)) by {
        if t.entries(CONTEXTS_INO).contains_key(ctx.id) {
            let i = t.entries(CONTEXTS_INO)[ctx.id];
            assert(u.tree.entries(CONTEXTS_INO).contains_key(ctx.id));
            assert(u.tree.nodes.contains_key(i));
        }
    }
    lemma_insert_listed(t0, dir);
    let t1 = t0.insert_node(dir);
    wellformed::lemma_insert_wf(t0, dir);
    assert forall|x: Seq<char>| !t1.entries(home).contains_key(x) by {}
    assert forall|id: Seq<char>| #[trigger] t1.contexts.contains_key(id) implies t1.contexts[id]
        != home by {
        assert(t.contexts.contains_key(id));
    }
    lemma_skeleton_listed(t1, home, now, 7);
    wellformed::lemma_grow_wf(t1, home, now, 7);
    let s = model::skeleton(t1, home, now, 7);
    wellformed::lemma_take_ino_wf(s);
    let meta = NodeView {
        ino: s.next_ino,
        parent: home,
        name: CONTEXT_META_FILE@,
        mtime: now,
        content: model::meta_content(ctx),
    };
    let s0 = s.take_ino();
    lemma_same_listed(s, s0);
    assert(!s0.entries(home).contains_key(meta.name)) by {
        if s.entries(home).contains_key(meta.name) {
            let k = choose|k: int| 0 <= k < 7 && meta.name == #[trigger] model::label(k);
        }
    }
    lemma_insert_listed(s0, meta);
    let w = s0.insert_node(meta);
    let contexts = t1.contexts.insert(ctx.id, home);
    wellformed::lemma_skeleton_any_contexts(t1, contexts, home, now, 7);
    let r = u.add_context(ctx, now).tree;
    assert(r =~= (TreeView { contexts, ..w }));
    lemma_same_listed(w, r);
    assert forall|i: u64| #[trigger]
        r.nodes.contains_key(i) && r.nodes[i].parent == CONTEXTS_INO implies
        r.contexts.contains_key(r.nodes[i].name) && r.contexts[r.nodes[i].name] == i by {
        if t1.nodes.contains_key(i) && i != home {
            assert(u.tree.nodes.contains_key(i));
        } else if i != home && i != meta.ino {
            assert(s.nodes.contains_key(i));
        }
    }
}

proof fn lemma_apply_each_whole(u: Update, ctxs: Seq<ContextView>, now: SystemTime)
    requires
        whole(u.tree),
        u.tree.room(9 * ctxs.len() as int),
    ensures
        whole(u.apply_each(ctxs, now).tree),
        u.apply_each(ctxs, now).tree.next_ino <= u.tree.next_ino + 9 * ctxs.len(),
    decreases ctxs.len(),
{
    if ctxs.len() > 0 {
        let f = ctxs.drop_last();
        let ctx = ctxs.last();
        lemma_apply_each_whole(u, f, now);
        let v = u.apply_each(f, now);
        if v.tree.contexts.contains_key(ctx.id) {
            lemma_refresh_meta_whole(v, ctx, now);
            let w = v.refresh_meta(ctx, now);
            wellformed::lemma_note_workspace_wf(w, ctx);
            lemma_same_listed(w.tree, w.note_workspace(ctx).tree);
        } else {
            lemma_add_context_whole(v, ctx, now);
            wellformed::lemma_add_context_wf(v, ctx, now);
        }
    }
}

/// A new tree holds nothing loose.
pub proof fn law_new_tree_is_whole(now: SystemTime)
    ensures
        whole(TreeView::fresh(now)),
{
    wellformed::lemma_fresh_wf(now);
    let t = TreeView::fresh(now);
    assert(t.entries(ROOT_INO).contains_key("Contexts"@));
    assert forall|i: u64| #[trigger] t.nodes.contains_key(i) implies i == ROOT_INO || i
        == CONTEXTS_INO by {}
}

/// When contexts come, go or change, a tree stays whole.
pub proof fn law_contexts_keep_whole(t: TreeView, ctxs: Seq<ContextView>, now: SystemTime)
    requires
        whole(t),
        t.room(9 * ctxs.len() as int),
    ensures
        whole(model::apply_contexts(t, ctxs, now).tree),
{
    let u = Update { tree: t, inv: model::no_invalidation() };
    let ids = model::stale(t, ctxs);
    lemma_drop_contexts_whole(u, ids);
    wellformed::lemma_drop_contexts_wf(u, ids);
    lemma_apply_each_whole(model::without_stale(t, ctxs), ctxs, now);
}

/// When the meta file of a context is brought up to date, a tree stays whole.
pub proof fn law_meta_keeps_whole(t: TreeView, ctx: ContextView, now: SystemTime)
    requires
        whole(t),
    ensures
        whole(model::update_context_meta(t, ctx, now).tree),
{
    if t.contexts.contains_key(ctx.id) {
        lemma_refresh_meta_whole(Update { tree: t, inv: model::no_invalidation() }, ctx, now);
    }
}

// ── documents ────────────────────────────────────────────────────────────────

/// Nodes that do not stand among the contexts can come, change and go.
proof fn lemma_only_contexts_stay(t: TreeView, u: TreeView)
    requires
        only_contexts(t),
        u.contexts == t.contexts,
        forall|i: u64| #[trigger]
            u.nodes.contains_key(i) && u.nodes[i].parent == CONTEXTS_INO ==> t.nodes.contains_key(i)
                && t.nodes[i].parent == CONTEXTS_INO && t.nodes[i].name == u.nodes[i].name,
    ensures
        only_contexts(u),
{
    assert forall|i: u64| #[trigger]
        u.nodes.contains_key(i) && u.nodes[i].parent == CONTEXTS_INO implies
        u.contexts.contains_key(u.nodes[i].name) && u.contexts[u.nodes[i].name] == i by {
        assert(t.nodes.contains_key(i));
    }
}

proof fn lemma_visit_whole(
    s: Sync,
    ctx: Seq<char>,
    dir: u64,
    want: Map<Seq<char>, Wanted>,
    name: Seq<char>,
    ino: u64,
)
    requires
        whole(s.up.tree),
        wellformed::takes_files(s.up.tree, dir),
        wellformed::files_only(want),
        s.up.tree.nodes.contains_key(ino) ==> s.up.tree.nodes[ino].parent == dir,
    ensures
        whole(s.visit(ctx, dir, want, name, ino).up.tree),
{
    let t = s.up.tree;
    let u = s.visit(ctx, dir, want, name, ino).up.tree;
    wellformed::lemma_visit_wf(s, ctx, dir, want, name, ino);
    if want.contains_key(name) && t.bound(ctx, want[name].doc, ino) {
        lemma_same_listed(t, u);
    } else if t.nodes.contains_key(ino) {
        wellformed::lemma_no_directory_in(t, dir, ino);
        lemma_file_leaf(t, ino);
        assert(ino != ROOT_INO);
        lemma_remove_listed(t, ino);
        lemma_same_listed(t.remove_node(ino), u);
    } else {
        lemma_same_listed(t, u);
    }
    lemma_only_contexts_stay(t, u);
}

proof fn lemma_visit_all_whole(
    s: Sync,
    ctx: Seq<char>,
    dir: u64,
    have: Map<Seq<char>, u64>,
    want: Map<Seq<char>, Wanted>,
    names: Seq<Seq<char>>,
)
    requires
        whole(s.up.tree),
        wellformed::takes_files(s.up.tree, dir),
        wellformed::files_only(want),
        forall|j: int|
            0 <= j < names.len() ==> s.up.tree.nodes.contains_key(have[#[trigger] names[j]])
                ==> s.up.tree.nodes[have[names[j]]].parent == dir,
    ensures
        whole(s.visit_all(ctx, dir, have, want, names).up.tree),
    decreases names.len(),
{
    if names.len() > 0 {
        let f = names.drop_last();
        assert(forall|j: int| 0 <= j < f.len() ==> f[j] == names[j]);
        assert(names[names.len() - 1] == names.last());
        lemma_visit_all_whole(s, ctx, dir, have, want, f);
        wellformed::lemma_visit_all_wf(s, ctx, dir, have, want, f);
        let v = s.visit_all(ctx, dir, have, want, f);
        wellformed::lemma_still_takes_files(s.up.tree, v.up.tree, dir);
        lemma_visit_whole(v, ctx, dir, want, names.last(), have[names.last()]);
    }
}

proof fn lemma_place_whole(
    s: Sync,
    ctx: Seq<char>,
    dir: u64,
    want: Map<Seq<char>, Wanted>,
    name: Seq<char>,
)
    requires
        whole(s.up.tree),
        wellformed::takes_files(s.up.tree, dir),
        wellformed::files_only(want),
        want.contains_key(name),
        s.up.tree.room(1),
    ensures
        whole(s.place(ctx, dir, want, name).up.tree),
{
    let t = s.up.tree;
    let r = s.place(ctx, dir, want, name).up.tree;
    wellformed::lemma_place_wf(s, ctx, dir, want, name);
    if t.lookup(dir, name) is None {
        let w = want[name];
        let key = (ctx, w.doc);
        let moves = t.docs.contains_key(key) && t.nodes.contains_key(t.docs[key]);
        let ino = if moves {
            t.docs[key]
        } else {
            t.next_ino
        };
        let u = if moves {
            t.remove_node(ino)
        } else {
            t.take_ino()
        };
        assert(!t.entries(dir).contains_key(name));
        if moves {
            lemma_file_leaf(t, ino);
            assert(ino != ROOT_INO);
            lemma_remove_listed(t, ino);
        } else {
            wellformed::lemma_take_ino_wf(t);
            lemma_same_listed(t, u);
        }
        let b = u.bind(ctx, w.doc, ino);
        lemma_same_listed(u, b);
        let node = NodeView { ino, parent: dir, name, mtime: w.mtime, content: w.content };
        lemma_insert_listed(b, node);
        assert(r == b.insert_node(node));
        assert(dir != CONTEXTS_INO);
        lemma_only_contexts_stay(t, r);
    }
}

proof fn lemma_place_all_whole(
    s: Sync,
    ctx: Seq<char>,
    dir: u64,
    want: Map<Seq<char>, Wanted>,
    names: Seq<Seq<char>>,
)
    requires
        whole(s.up.tree),
        wellformed::takes_files(s.up.tree, dir),
        wellformed::files_only(want),
        forall|j: int| 0 <= j < names.len() ==> want.contains_key(#[trigger] names[j]),
        s.up.tree.room(names.len() as int),
    ensures
        whole(s.place_all(ctx, dir, want, names).up.tree),
    decreases names.len(),
{
    if names.len() > 0 {
        let f = names.drop_last();
        assert(forall|j: int| 0 <= j < f.len() ==> f[j] == names[j]);
        assert(names[names.len() - 1] == names.last());
        lemma_place_all_whole(s, ctx, dir, want, f);
        wellformed::lemma_place_all_wf(s, ctx, dir, want, f);
        let v = s.place_all(ctx, dir, want, f);
        wellformed::lemma_still_takes_files(s.up.tree, v.up.tree, dir);
        lemma_place_whole(v, ctx, dir, want, names.last());
    }
}

proof fn lemma_sync_dir_whole(
    u: Update,
    ctx: Seq<char>,
    dir: u64,
    want: Map<Seq<char>, Wanted>,
    now: SystemTime,
)
    requires
        whole(u.tree),
        wellformed::takes_files(u.tree, dir),
        wellformed::files_only(want),
        want.dom().finite(),
        u.tree.room(want.dom().len() as int),
    ensures
        whole(u.sync_dir(ctx, dir, want, now).tree),
{
    let t = u.tree;
    let have = t.entries(dir);
    let olds = strmap::ordered(have.dom());
    let news = strmap::ordered(want.dom());
    assert(t.nodes.contains_key(dir));
    strmap::lemma_ordered(have.dom());
    strmap::lemma_ordered(want.dom());
    assert forall|j: int|
        0 <= j < olds.len() && t.nodes.contains_key(have[#[trigger] olds[j]]) implies
        t.nodes[have[olds[j]]].parent == dir by {
        assert(olds.to_set().contains(olds[j]));
        assert(t.entries(dir).contains_key(olds[j]));
    }
    assert forall|j: int| 0 <= j < news.len() implies want.contains_key(#[trigger] news[j]) by {
        assert(news.to_set().contains(news[j]));
    }
    let s = Sync { up: u, dirty: false };
    lemma_visit_all_whole(s, ctx, dir, have, want, olds);
    wellformed::lemma_visit_all_wf(s, ctx, dir, have, want, olds);
    let v = s.visit_all(ctx, dir, have, want, olds);
    wellformed::lemma_still_takes_files(t, v.up.tree, dir);
    lemma_place_all_whole(v, ctx, dir, want, news);
    let w = v.place_all(ctx, dir, want, news);
    let r = u.sync_dir(ctx, dir, want, now).tree;
    wellformed::lemma_sync_dir_wf(u, ctx, dir, want, now);
    lemma_same_listed(w.up.tree, r);
    lemma_only_contexts_stay(w.up.tree, r);
}

proof fn lemma_sync_dirs_whole(
    u: Update,
    dirs: Seq<Option<u64>>,
    ctx: Seq<char>,
    p: Plan,
    now: SystemTime,
)
    requires
        whole(u.tree),
        wellformed::plan_fits(p),
        u.tree.room(p.total(dirs.len()) as int),
        forall|k: int|
            0 <= k < dirs.len() && dirs[k] is Some ==> wellformed::takes_files(
                u.tree,
                (#[trigger] dirs[k])->0,
            ),
    ensures
        whole(u.sync_dirs(dirs, ctx, p, now).tree),
    decreases dirs.len(),
{
    if dirs.len() > 0 {
        let rest = dirs.drop_last();
        assert(forall|k: int| 0 <= k < rest.len() ==> dirs[k] == rest[k]);
        lemma_sync_dirs_whole(u, rest, ctx, p, now);
        wellformed::lemma_sync_dirs_wf(u, rest, ctx, p, now);
        let v = u.sync_dirs(rest, ctx, p, now);
        if let Some(dir) = dirs.last() {
            assert(dirs[dirs.len() - 1] == dirs.last());
            let want = p.wants(model::label(dirs.len() - 1));
            wellformed::lemma_still_takes_files(u.tree, v.tree, dir);
            lemma_sync_dir_whole(v, ctx, dir, want, now);
        }
    }
}

/// When the documents of a context come, go or change, a tree stays whole.
pub proof fn law_documents_keep_whole(
    t: TreeView,
    ctx: Seq<char>,
    docs: Seq<DocumentView>,
    names: Map<Seq<char>, Seq<char>>,
    unsaved: Seq<(Seq<char>, Seq<char>)>,
    now: SystemTime,
)
    requires
        whole(t),
        t.contexts.contains_key(ctx),
        t.room(docs.len() as int),
    ensures
        whole(
            model::apply_documents(t, ctx, model::plan(t, ctx, docs, names, unsaved), now).tree,
        ),
{
    let p = model::plan(t, ctx, docs, names, unsaved);
    wellformed::lemma_plan_fits(t, ctx, docs, names, unsaved);
    wellformed::lemma_labels_differ();
    let dirs = model::context_dirs(t, ctx);
    assert(t.has_skeleton(t.contexts[ctx]));
    assert forall|k: int| 0 <= k < dirs.len() && dirs[k] is Some implies wellformed::takes_files(
        t,
        (#[trigger] dirs[k])->0,
    ) by {
        assert(t.context_dir(t.contexts[ctx], model::label(k)) is Some);
        wellformed::lemma_context_dir_takes_files(t, ctx, model::label(k));
    }
    let u = Update { tree: t, inv: model::no_invalidation() };
    lemma_sync_dirs_whole(u, dirs, ctx, p, now);
}

// ── what holds of whole trees ────────────────────────────────────────────────

/// The nodes of inodes that all have one.
pub proof fn lemma_nodes_of(t: TreeView, inos: Seq<u64>)
    requires
        forall|i: int| 0 <= i < inos.len() ==> t.nodes.contains_key(#[trigger] inos[i]),
    ensures
        t.nodes_of(inos) == Seq::new(inos.len(), |i: int| t.nodes[inos[i]]),
    decreases inos.len(),
{
    if inos.len() > 0 {
        let before = inos.drop_last();
        assert(forall|i: int| 0 <= i < before.len() ==> before[i] == inos[i]);
        lemma_nodes_of(t, before);
        assert(t.nodes.contains_key(inos[inos.len() - 1]));
    }
    assert(t.nodes_of(inos) =~= Seq::new(inos.len(), |i: int| t.nodes[inos[i]]));
}

/// The names of some nodes.
pub open spec fn names_of(nodes: Seq<NodeView>) -> Seq<Seq<char>> {
    Seq::new(nodes.len(), |i: int| nodes[i].name)
}

/// In a whole tree exactly the nodes have listings. A listing is in the order of names, holds only
/// what is in the directory and is found there under its name, and holds all of it.
pub proof fn law_listings_are_complete(t: TreeView, dir: u64)
    requires
        whole(t),
    ensures
        t.children.contains_key(dir) <==> t.nodes.contains_key(dir),
        ({
            let list = t.nodes_of(t.entry_inos(dir));
            &&& strmap::ascending(names_of(list))
            &&& forall|j: int|
                0 <= j < list.len() ==> {
                    let n = #[trigger] list[j];
                    n.parent == dir && t.lookup(dir, n.name) == Some(n.ino) && t.nodes[n.ino] == n
                }
            &&& forall|i: u64| #[trigger]
                t.nodes.contains_key(i) && i != ROOT_INO && t.nodes[i].parent == dir
                    ==> list.contains(t.nodes[i])
        }),
{
    let names = t.entry_names(dir);
    let inos = t.entry_inos(dir);
    if t.children.contains_key(dir) {
        assert(t.entries(dir).dom().finite());
    } else {
        assert(t.entries(dir).dom() =~= Set::empty());
    }
    strmap::lemma_ordered(t.entries(dir).dom());
    assert forall|j: int| 0 <= j < names.len() implies t.entries(dir).contains_key(
        #[trigger] names[j],
    ) by {
        assert(names.to_set().contains(names[j]));
    }
    assert forall|j: int| 0 <= j < inos.len() implies t.nodes.contains_key(#[trigger] inos[j]) by {
        assert(t.entries(dir).contains_key(names[j]));
    }
    lemma_nodes_of(t, inos);
    let list = t.nodes_of(inos);
    assert forall|j: int| 0 <= j < list.len() implies {
        let n = #[trigger] list[j];
        n.parent == dir && t.lookup(dir, n.name) == Some(n.ino) && t.nodes[n.ino] == n && n.name
            == names[j]
    } by {
        assert(t.entries(dir).contains_key(names[j]));
        assert(t.nodes.contains_key(inos[j]));
    }
    assert(names_of(list) =~= names);
    assert forall|i: u64| #[trigger]
        t.nodes.contains_key(i) && i != ROOT_INO && t.nodes[i].parent == dir implies list.contains(
        t.nodes[i],
    ) by {
        assert(laws::listed(t, i));
        let n = t.nodes[i].name;
        assert(names.to_set().contains(n));
        let j = choose|j: int| 0 <= j < names.len() && names[j] == n;
        assert(inos[j] == i);
        assert(list[j] == t.nodes[i]);
    }
}

/// In a whole tree, the directories that take documents are those of contexts: one is found as
/// that of a context under a label exactly where the context has it there.
pub proof fn law_schema_dirs_are_those_of_contexts(
    t: TreeView,
    ino: u64,
    ctx: Seq<char>,
    label: Seq<char>,
)
    requires
        whole(t),
    ensures
        t.schema_dir(ino) == Some((ctx, label)) <==> model::is_label(label)
            && t.contexts.contains_key(ctx) && t.lookup(t.contexts[ctx], label) == Some(ino),
{
    if t.schema_dir(ino) == Some((ctx, label)) {
        let p = t.nodes[ino].parent;
        assert(ino != ROOT_INO);
        assert(laws::listed(t, ino));
        assert(t.nodes.contains_key(p));
    }
    if model::is_label(label) && t.contexts.contains_key(ctx) && t.lookup(t.contexts[ctx], label)
        == Some(ino) {
        let home = t.contexts[ctx];
        let k = choose|k: int|
            0 <= k < SCHEMA_DIRS@.len() && label == #[trigger] model::label(k);
        assert(t.has_skeleton(home));
        assert(t.context_dir(home, model::label(k)) is Some);
        assert(t.entries(home).contains_key(label));
    }
}

} // verus!
