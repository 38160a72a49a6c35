//! The kernel is told of everything that changed.

use crate::api::{ContextView, DocumentView};
use crate::docmap::ForgetView;
use crate::model;
use crate::model::{LayoutView, NodeView, Plan, Sync, TreeView, Update, Wanted};
use crate::render::SCHEMA_DIRS;
use crate::state::{CONTEXTS_INO, CONTEXT_META_FILE, ROOT_INO};
use crate::strmap;
use crate::wellformed;
use std::time::SystemTime;
use vstd::prelude::*;

verus! {

/// Whether the removal of a node from its place is reported.
pub open spec fn reported(u: Update, node: NodeView, ino: u64) -> bool {
    u.inv.removed.contains((node.parent, ino, node.name))
}

/// Whether everything that changed from one tree to another is reported, but for what is new in
/// some directories: each node that left its place, each file whose content changed, and each
/// directory with a new entry.
pub open spec fn told(a: Update, b: Update, pending: Set<u64>) -> bool {
    &&& a.tree.next_ino <= b.tree.next_ino
    &&& forall|x: (u64, u64, Seq<char>)| #[trigger]
        a.inv.removed.contains(x) ==> b.inv.removed.contains(x)
    &&& forall|x: u64| #[trigger] a.inv.changed.contains(x) ==> b.inv.changed.contains(x)
    &&& forall|x: u64| #[trigger] a.inv.dirty_dirs.contains(x) ==> b.inv.dirty_dirs.contains(x)
    &&& forall|i: u64| #[trigger]
        a.tree.nodes.contains_key(i) ==> (b.tree.nodes.contains_key(i) && b.tree.nodes[i].parent
            == a.tree.nodes[i].parent && b.tree.nodes[i].name == a.tree.nodes[i].name) || reported(
            b,
            a.tree.nodes[i],
            i,
        )
    &&& forall|i: u64| #[trigger]
        a.tree.nodes.contains_key(i) && b.tree.nodes.contains_key(i) ==> b.tree.nodes[i].content
            == a.tree.nodes[i].content || b.inv.changed.contains(i) || reported(
            b,
            a.tree.nodes[i],
            i,
        )
    &&& forall|d: u64|
        #[trigger] b.tree.is_dir(d) && d < a.tree.next_ino ==> a.tree.is_dir(d)
    &&& forall|d: u64, n: Seq<char>| #[trigger]
        b.tree.entries(d).contains_key(n) && a.tree.is_dir(d) && b.tree.is_dir(d) ==> (
        a.tree.entries(d).contains_key(n) && a.tree.entries(d)[n] == b.tree.entries(d)[n])
            || b.inv.dirty_dirs.contains(d) || pending.contains(d)
}

proof fn lemma_told_self(a: Update)
    ensures
        told(a, a, Set::empty()),
{
}

proof fn lemma_told_trans(a: Update, b: Update, c: Update, p: Set<u64>)
    requires
        a.tree.wf(),
        told(a, b, p),
        told(b, c, p),
    ensures
        told(a, c, p),
{
    assert forall|i: u64| #[trigger] a.tree.nodes.contains_key(i) implies (
    c.tree.nodes.contains_key(i) && c.tree.nodes[i].parent == a.tree.nodes[i].parent
        && c.tree.nodes[i].name == a.tree.nodes[i].name) || reported(c, a.tree.nodes[i], i) by {
        let x = (a.tree.nodes[i].parent, i, a.tree.nodes[i].name);
        assert(b.inv.removed.contains(x) ==> c.inv.removed.contains(x));
    }
    assert forall|i: u64| #[trigger]
        a.tree.nodes.contains_key(i) && c.tree.nodes.contains_key(i) implies c.tree.nodes[i].content
        == a.tree.nodes[i].content || c.inv.changed.contains(i) || reported(
        c,
        a.tree.nodes[i],
        i,
    ) by {
        let x = (a.tree.nodes[i].parent, i, a.tree.nodes[i].name);
        assert(b.inv.removed.contains(x) ==> c.inv.removed.contains(x));
        assert(b.inv.changed.contains(i) ==> c.inv.changed.contains(i));
    }
    assert forall|d: u64| #[trigger]
        c.tree.is_dir(d) && d < a.tree.next_ino implies a.tree.is_dir(d) by {
        assert(b.tree.is_dir(d));
    }
    assert forall|d: u64, n: Seq<char>| #[trigger]
        c.tree.entries(d).contains_key(n) && a.tree.is_dir(d) && c.tree.is_dir(d) implies (
    a.tree.entries(d).contains_key(n) && a.tree.entries(d)[n] == c.tree.entries(d)[n])
        || c.inv.dirty_dirs.contains(d) || p.contains(d) by {
        assert(a.tree.nodes.contains_key(d));
        assert(b.tree.is_dir(d));
        assert(b.inv.dirty_dirs.contains(d) ==> c.inv.dirty_dirs.contains(d));
    }
}

proof fn lemma_told_more(a: Update, b: Update, p: Set<u64>, q: Set<u64>)
    requires
        told(a, b, p),
        p.subset_of(q),
    ensures
        told(a, b, q),
{
}

/// Taking a node away and reporting it.
proof fn lemma_drop_told(u: Update, ino: u64)
    requires
        u.tree.wf(),
    ensures
        told(u, u.drop_node(ino), Set::empty()),
{
    if u.tree.nodes.contains_key(ino) {
        let v = u.drop_node(ino);
        let node = u.tree.nodes[ino];
        let x = (node.parent, ino, node.name);
        assert forall|y: (u64, u64, Seq<char>)| #[trigger]
            v.inv.removed.contains(y) <==> u.inv.removed.contains(y) || y == x by {
            wellformed::lemma_push_contains(u.inv.removed, x, y);
        }
        assert(reported(v, node, ino)) by {
            assert(v.inv.removed.contains(x));
        }
    }
}

proof fn lemma_sweep_told(u: Update, ino: u64)
    requires
        u.tree.wf(),
        wellformed::clearable(u.tree, ino),
    ensures
        told(u, u.sweep(ino), Set::empty()),
    decreases u64::MAX - ino, 1int, 0nat,
{
    wellformed::lemma_entry_inos(u.tree, ino);
    lemma_sweep_inos_told(u, ino, u.tree.entry_inos(ino));
}

proof fn lemma_sweep_inos_told(u: Update, ino: u64, inos: Seq<u64>)
    requires
        u.tree.wf(),
        wellformed::clearable(u.tree, ino),
        forall|j: int|
            0 <= j < inos.len() ==> u.tree.nodes.contains_key(#[trigger] inos[j])
                && u.tree.nodes[inos[j]].parent == ino && inos[j] != ROOT_INO,
    ensures
        told(u, u.sweep_inos(ino, inos), Set::empty()),
    decreases u64::MAX - ino, 0int, inos.len(),
{
    if inos.len() == 0 {
        lemma_told_self(u);
    } else {
        let f = inos.drop_last();
        assert(forall|j: int| 0 <= j < f.len() ==> f[j] == inos[j]);
        lemma_sweep_inos_told(u, ino, f);
        wellformed::lemma_sweep_inos_wf(u, ino, f);
        model::lemma_sweep_inos_frame(u, ino, f);
        let v = u.sweep_inos(ino, f);
        let c = inos.last();
        assert(c == inos[inos.len() - 1]);
        wellformed::lemma_child_is_free(u.tree, ino, c);
        let w = if c > ino {
            lemma_sweep_told(v, c);
            wellformed::lemma_sweep_wf(v, c);
            lemma_told_trans(u, v, v.sweep(c), Set::empty());
            v.sweep(c)
        } else {
            v
        };
        lemma_drop_told(w, c);
        lemma_told_trans(u, w, w.drop_node(c), Set::empty());
    }
}

proof fn lemma_clear_told(u: Update, ino: u64)
    requires
        u.tree.wf(),
        wellformed::clearable(u.tree, ino),
    ensures
        told(u, u.clear(ino), Set::empty()),
{
    wellformed::lemma_clear_is_sweep(u, ino);
    lemma_sweep_told(u, ino);
}

/// Changes of what is neither a node nor an entry need not be reported.
proof fn lemma_same_nodes_told(u: Update, v: Update)
    requires
        v.tree.nodes == u.tree.nodes,
        v.tree.children == u.tree.children,
        u.tree.next_ino <= v.tree.next_ino,
        v.inv == u.inv,
    ensures
        told(u, v, Set::empty()),
{
    assert forall|d: u64| #[trigger] v.tree.entries(d) == u.tree.entries(d) by {}
}

/// What is pending in a directory is told once the directory is reported.
proof fn lemma_dirty_told(a: Update, b: Update, dir: u64, pending: Set<u64>)
    requires
        told(a, b, pending),
        forall|d: u64| #[trigger] pending.contains(d) ==> d == dir || !a.tree.is_dir(d),
    ensures
        told(a, Update { tree: b.tree, inv: b.inv.dirty(dir) }, Set::empty()),
{
    let c = Update { tree: b.tree, inv: b.inv.dirty(dir) };
    assert forall|x: u64| #[trigger]
        c.inv.dirty_dirs.contains(x) <==> b.inv.dirty_dirs.contains(x) || x == dir by {
        wellformed::lemma_push_contains(b.inv.dirty_dirs, dir, x);
    }
    assert forall|d: u64, n: Seq<char>| #[trigger]
        c.tree.entries(d).contains_key(n) && a.tree.is_dir(d) && c.tree.is_dir(d) implies (
    a.tree.entries(d).contains_key(n) && a.tree.entries(d)[n] == c.tree.entries(d)[n])
        || c.inv.dirty_dirs.contains(d) by {
        assert(b.tree.entries(d).contains_key(n) && b.tree.is_dir(d));
        assert(c.inv.dirty_dirs.contains(d) <==> b.inv.dirty_dirs.contains(d) || d == dir);
    }
    assert forall|i: u64| #[trigger]
        a.tree.nodes.contains_key(i) && c.tree.nodes.contains_key(i) implies c.tree.nodes[i].content
        == a.tree.nodes[i].content || c.inv.changed.contains(i) || reported(
        c,
        a.tree.nodes[i],
        i,
    ) by {
        assert(b.tree.nodes.contains_key(i));
    }
}

/// Reporting a directory needs nothing more.
proof fn lemma_dirty_more(a: Update, b: Update, dir: u64)
    requires
        told(a, b, Set::empty()),
    ensures
        told(a, Update { tree: b.tree, inv: b.inv.dirty(dir) }, Set::empty()),
{
    lemma_dirty_told(a, b, dir, Set::empty());
}

/// Putting a new node in place is pending in its directory.
proof fn lemma_insert_told(u: Update, node: NodeView)
    requires
        u.tree.wf(),
        !u.tree.nodes.contains_key(node.ino),
        node.ino == u.tree.next_ino,
        node.ino != node.parent,
        u.tree.room(1),
    ensures
        told(
            u,
            (Update { tree: u.tree.take_ino().insert_node(node), ..u }),
            set![node.parent],
        ),
{
    let v = Update { tree: u.tree.take_ino().insert_node(node), ..u };
    assert forall|d: u64, n: Seq<char>| #[trigger]
        v.tree.entries(d).contains_key(n) && u.tree.is_dir(d) && v.tree.is_dir(d) implies (
    u.tree.entries(d).contains_key(n) && u.tree.entries(d)[n] == v.tree.entries(d)[n])
        || v.inv.dirty_dirs.contains(d) || set![node.parent].contains(d) by {
        if d != node.parent {
            assert(u.tree.nodes.contains_key(d));
        }
    }
}

proof fn lemma_drop_context_told(u: Update, id: Seq<char>)
    requires
        u.tree.wf(),
    ensures
        told(u, u.drop_context(id), Set::empty()),
{
    if u.tree.contexts.contains_key(id) {
        let ino = u.tree.contexts[id];
        let u0 = Update {
            tree: TreeView { contexts: u.tree.contexts.remove(id), ..u.tree },
            ..u
        };
        wellformed::lemma_same_nodes_wf(u.tree, u0.tree);
        assert forall|j: Seq<char>| #[trigger] u0.tree.contexts.contains_key(j) implies
            u0.tree.contexts[j] != ino by {
            assert(u.tree.contexts.contains_key(j));
        }
        lemma_same_nodes_told(u, u0);
        lemma_clear_told(u0, ino);
        wellformed::lemma_clear_wf(u0, ino);
        let u1 = u0.clear(ino);
        lemma_told_trans(u, u0, u1, Set::empty());
        let u2 = if ino == ROOT_INO {
            u1
        } else {
            u1.drop_node(ino)
        };
        lemma_drop_told(u1, ino);
        if ino != ROOT_INO {
            lemma_told_trans(u, u1, u2, Set::empty());
        }
        let t3 = u2.tree.forget(ForgetView::Context(id));
        let u3 = Update {
            tree: TreeView { workspaces: t3.workspaces.remove(id), ..t3 },
            inv: u2.inv,
        };
        lemma_same_nodes_told(u2, u3);
        lemma_told_trans(u, u2, u3, Set::empty());
        lemma_dirty_more(u, u3, t3.top());
    } else {
        lemma_told_self(u);
    }
}

proof fn lemma_drop_contexts_told(u: Update, ids: Seq<Seq<char>>)
    requires
        u.tree.wf(),
    ensures
        told(u, u.drop_contexts(ids), Set::empty()),
    decreases ids.len(),
{
    if ids.len() == 0 {
        lemma_told_self(u);
    } else {
        let f = ids.drop_last();
        lemma_drop_contexts_told(u, f);
        wellformed::lemma_drop_contexts_wf(u, f);
        let v = u.drop_contexts(f);
        lemma_drop_context_told(v, ids.last());
        lemma_told_trans(u, v, u.drop_contexts(ids), Set::empty());
    }
}

proof fn lemma_skeleton_told(u: Update, home: u64, now: SystemTime, n: nat)
    requires
        u.tree.wf(),
        u.tree.is_dir(home),
        n <= SCHEMA_DIRS@.len(),
        u.tree.room(n as int),
        forall|id: Seq<char>| #[trigger]
            u.tree.contexts.contains_key(id) ==> u.tree.contexts[id] != home,
        home == CONTEXTS_INO ==> !(u.tree.layout is Contexts),
        u.tree.layout is Workspace || u.tree.is_home(home),
    ensures
        told(u, Update { tree: model::skeleton(u.tree, home, now, n), ..u }, set![home]),
    decreases n,
{
    if n == 0 {
        lemma_told_self(u);
        lemma_told_more(u, u, Set::empty(), set![home]);
    } else {
        let m = (n - 1) as nat;
        lemma_skeleton_told(u, home, now, m);
        wellformed::lemma_grow_wf(u.tree, home, now, m);
        let t = model::skeleton(u.tree, home, now, m);
        let v = Update { tree: t, ..u };
        wellformed::lemma_take_ino_wf(t);
        let node = model::dir_node(t.next_ino, home, model::label(n - 1), now);
        assert(t.nodes.contains_key(home));
        lemma_insert_told(v, node);
        let w = Update { tree: model::skeleton(u.tree, home, now, n), ..u };
        lemma_told_trans(u, v, w, set![home]);
    }
}

proof fn lemma_add_context_told(u: Update, ctx: ContextView, now: SystemTime)
    requires
        u.tree.wf(),
        u.tree.admits(ctx.id),
        !u.tree.contexts.contains_key(ctx.id),
        u.tree.room(9),
    ensures
        told(u, u.add_context(ctx, now), Set::empty()),
{
    wellformed::lemma_labels_differ();
    wellformed::lemma_note_workspace_wf(u, ctx);
    let u0 = u.note_workspace(ctx);
    lemma_same_nodes_told(u, u0);
    let t = u0.tree;
    let top = t.top();
    let (home, t1) = match t.layout {
        LayoutView::Contexts => {
            let home = t.next_ino;
            (home, t.take_ino().insert_node(model::dir_node(home, CONTEXTS_INO, ctx.id, now)))
        },
        _ => (ROOT_INO, t),
    };
    let p = set![top, home];
    lemma_told_more(u, u0, Set::empty(), p);
    let u1 = Update { tree: t1, ..u0 };
    if t.layout is Contexts {
        wellformed::lemma_take_ino_wf(t);
        wellformed::lemma_insert_wf(
            t.take_ino(),
            model::dir_node(home, CONTEXTS_INO, ctx.id, now),
        );
        lemma_insert_told(u0, model::dir_node(home, CONTEXTS_INO, ctx.id, now));
        lemma_told_more(u0, u1, set![CONTEXTS_INO], p);
    } else {
        lemma_told_self(u0);
        lemma_told_more(u0, u1, Set::empty(), p);
    }
    lemma_told_trans(u, u0, u1, p);
    assert(t1.is_dir(home));
    assert forall|id: Seq<char>| #[trigger] t1.contexts.contains_key(id) implies t1.contexts[id]
        != home by {
        assert(t.contexts.contains_key(id));
        assert(t.admits(id));
    }
    lemma_skeleton_told(u1, home, now, 7);
    wellformed::lemma_grow_wf(t1, home, now, 7);
    let s = model::skeleton(t1, home, now, 7);
    let u2 = Update { tree: s, ..u1 };
    lemma_told_more(u1, u2, set![home], p);
    lemma_told_trans(u, u1, u2, p);
    wellformed::lemma_take_ino_wf(s);
    let meta = NodeView {
        ino: s.next_ino,
        parent: home,
        name: CONTEXT_META_FILE@,
        mtime: now,
        content: model::meta_content(ctx),
    };
    assert(s.nodes.contains_key(home));
    lemma_insert_told(u2, meta);
    let w = s.take_ino().insert_node(meta);
    let u3 = Update { tree: w, ..u2 };
    lemma_told_more(u2, u3, set![home], p);
    lemma_told_trans(u, u2, u3, p);
    let contexts = t1.contexts.insert(ctx.id, home);
    wellformed::lemma_skeleton_any_contexts(t1, contexts, home, now, 7);
    let u4 = Update { tree: TreeView { contexts, ..w }, ..u3 };
    lemma_same_nodes_told(u3, u4);
    lemma_told_more(u3, u4, Set::empty(), p);
    lemma_told_trans(u, u3, u4, p);
    let r = u.add_context(ctx, now);
    assert(r.tree =~= u4.tree);
    assert(u.tree.is_dir(home) ==> home == top) by {
        if t.layout is Contexts {
            assert(!t.nodes.contains_key(home));
        }
    }
    lemma_dirty_told(u, u4, top, p);
}

proof fn lemma_refresh_meta_told(u: Update, ctx: ContextView, now: SystemTime)
    requires
        u.tree.wf(),
        u.tree.contexts.contains_key(ctx.id),
    ensures
        told(u, u.refresh_meta(ctx, now), Set::empty()),
{
    let v = u.refresh_meta(ctx, now);
    let i = u.tree.contexts[ctx.id];
    assert(u.tree.has_skeleton(i));
    let m = u.tree.lookup(i, CONTEXT_META_FILE@)->0;
    lemma_set_content_told(u, m, model::meta_content(ctx), now);
    lemma_told_self(u);
}

proof fn lemma_set_content_told(
    u: Update,
    ino: u64,
    content: model::ContentView,
    mtime: SystemTime,
)
    requires
        u.tree.wf(),
        u.tree.nodes.contains_key(ino) ==> u.tree.nodes[ino].is_dir() == (content is Dir),
    ensures
        told(
            u,
            Update { tree: u.tree.set_content(ino, content, mtime), inv: u.inv.change(ino) },
            Set::empty(),
        ),
{
    let v = Update { tree: u.tree.set_content(ino, content, mtime), inv: u.inv.change(ino) };
    assert forall|x: u64| #[trigger]
        v.inv.changed.contains(x) <==> u.inv.changed.contains(x) || x == ino by {
        wellformed::lemma_push_contains(u.inv.changed, ino, x);
    }
    assert forall|d: u64| #[trigger] v.tree.entries(d) == u.tree.entries(d) by {}
    assert forall|d: u64| #[trigger] v.tree.is_dir(d) == u.tree.is_dir(d) by {}
    assert forall|i: u64| #[trigger]
        u.tree.nodes.contains_key(i) && v.tree.nodes.contains_key(i) implies v.tree.nodes[i].content
        == u.tree.nodes[i].content || v.inv.changed.contains(i) || reported(
        v,
        u.tree.nodes[i],
        i,
    ) by {
        assert(v.inv.changed.contains(i) <==> u.inv.changed.contains(i) || i == ino);
    }
}

proof fn lemma_apply_each_told(u: Update, ctxs: Seq<ContextView>, now: SystemTime)
    requires
        u.tree.wf(),
        u.tree.room(9 * ctxs.len() as int),
    ensures
        told(u, u.apply_each(ctxs, now), Set::empty()),
    decreases ctxs.len(),
{
    lemma_told_self(u);
    if ctxs.len() > 0 {
        let ctx = ctxs.last();
        let f = ctxs.drop_last();
        lemma_apply_each_told(u, f, now);
        wellformed::lemma_apply_each_wf(u, f, now);
        let v = u.apply_each(f, now);
        if v.tree.admits(ctx.id) {
            if v.tree.contexts.contains_key(ctx.id) {
                let w = v.refresh_meta(ctx, now);
                lemma_refresh_meta_told(v, ctx, now);
                lemma_told_trans(u, v, w, Set::empty());
                lemma_same_nodes_told(w, w.note_workspace(ctx));
                lemma_told_trans(u, w, w.note_workspace(ctx), Set::empty());
            } else {
                lemma_add_context_told(v, ctx, now);
                lemma_told_trans(u, v, v.add_context(ctx, now), Set::empty());
            }
        }
    }
}

/// When contexts come, go or change, the kernel is told of each entry that is gone, of each file
/// whose content changed and of each directory with a new entry.
pub proof fn law_contexts_told(t: TreeView, ctxs: Seq<ContextView>, now: SystemTime)
    requires
        t.wf(),
        t.room(9 * ctxs.len() as int),
    ensures
        told(
            Update { tree: t, inv: model::no_invalidation() },
            model::apply_contexts(t, ctxs, now),
            Set::empty(),
        ),
{
    let u = Update { tree: t, inv: model::no_invalidation() };
    let ids = model::stale(t, ctxs);
    lemma_drop_contexts_told(u, ids);
    wellformed::lemma_drop_contexts_wf(u, ids);
    let v = model::without_stale(t, ctxs);
    lemma_apply_each_told(v, ctxs, now);
    lemma_told_trans(u, v, v.apply_each(ctxs, now), Set::empty());
}

proof fn lemma_visit_all_told(
    s: Sync,
    ctx: Seq<char>,
    dir: u64,
    have: Map<Seq<char>, u64>,
    want: Map<Seq<char>, Wanted>,
    names: Seq<Seq<char>>,
)
    requires
        s.up.tree.wf(),
        wellformed::takes_files(s.up.tree, dir),
        wellformed::files_only(want),
        forall|j: int|
            0 <= j < names.len() ==> s.up.tree.nodes.contains_key(have[#[trigger] names[j]])
                ==> s.up.tree.nodes[have[names[j]]].parent == dir
                && s.up.tree.nodes[have[names[j]]].name == names[j],
    ensures
        told(s.up, s.visit_all(ctx, dir, have, want, names).up, Set::empty()),
    decreases names.len(),
{
    lemma_told_self(s.up);
    if names.len() > 0 {
        let f = names.drop_last();
        assert(forall|j: int| 0 <= j < f.len() ==> f[j] == names[j]);
        lemma_visit_all_told(s, ctx, dir, have, want, f);
        wellformed::lemma_visit_all_wf(s, ctx, dir, have, want, f);
        let sv = s.visit_all(ctx, dir, have, want, f);
        let v = sv.up;
        let x = names[names.len() - 1];
        let ino = have[x];
        let w = sv.visit(ctx, dir, want, x, ino).up;
        let t = v.tree;
        lemma_told_self(v);
        if !t.is_dir(ino) {
            if want.contains_key(x) && t.bound(ctx, want[x].doc, ino) {
                lemma_set_content_told(v, ino, want[x].content, want[x].mtime);
            } else if t.nodes.contains_key(ino) {
                assert(t.nodes[ino].parent == dir && t.nodes[ino].name == x);
                let d = v.drop_node(ino);
                lemma_drop_told(v, ino);
                lemma_same_nodes_told(d, w);
                lemma_told_trans(v, d, w, Set::empty());
            } else {
                let d = Update { tree: v.tree, inv: v.inv.remove(dir, ino, x) };
                assert forall|y: (u64, u64, Seq<char>)|
                    v.inv.removed.contains(y) implies #[trigger] d.inv.removed.contains(y) by {
                    wellformed::lemma_push_contains(v.inv.removed, (dir, ino, x), y);
                }
                assert(told(v, d, Set::empty()));
                lemma_same_nodes_told(d, w);
                lemma_told_trans(v, d, w, Set::empty());
            }
        }
        lemma_told_trans(s.up, v, w, Set::empty());
    }
}

proof fn lemma_place_told(
    s: Sync,
    ctx: Seq<char>,
    dir: u64,
    want: Map<Seq<char>, Wanted>,
    name: Seq<char>,
)
    requires
        s.up.tree.wf(),
        wellformed::takes_files(s.up.tree, dir),
        wellformed::files_only(want),
        want.contains_key(name),
        s.up.tree.room(1),
    ensures
        ({
            let r = s.place(ctx, dir, want, name);
            told(s.up, r.up, set![dir]) && (r == s || r.dirty)
        }),
{
    let u = s.up;
    let t = u.tree;
    let r = s.place(ctx, dir, want, name);
    if t.lookup(dir, name) is None {
        let w = want[name];
        let key = (ctx, w.doc);
        let moves = t.docs.contains_key(key) && t.nodes.contains_key(t.docs[key]);
        if moves {
            let ino = t.docs[key];
            let node = t.nodes[ino];
            let x = (node.parent, ino, node.name);
            let v = u.drop_node(ino);
            assert forall|y: (u64, u64, Seq<char>)| #[trigger]
                r.up.inv.removed.contains(y) <==> u.inv.removed.contains(y) || y == x by {
                wellformed::lemma_push_contains(u.inv.removed, x, y);
            }
            assert(reported(r.up, node, ino)) by {
                assert(r.up.inv.removed.contains(x));
            }
            assert forall|d: u64, n: Seq<char>| #[trigger]
                r.up.tree.entries(d).contains_key(n) && t.is_dir(d) && r.up.tree.is_dir(
                    d,
                ) implies (t.entries(d).contains_key(n) && t.entries(d)[n] == r.up.tree.entries(
                d,
            )[n]) || r.up.inv.dirty_dirs.contains(d) || set![dir].contains(d) by {}
            assert(told(u, r.up, set![dir]));
        } else {
            let ino = t.next_ino;
            wellformed::lemma_take_ino_wf(t);
            let node = NodeView {
                ino,
                parent: dir,
                name,
                mtime: w.mtime,
                content: w.content,
            };
            assert(t.nodes.contains_key(dir));
            lemma_insert_told(u, node);
            let v = Update { tree: t.take_ino().insert_node(node), ..u };
            lemma_same_nodes_told(v, r.up);
            lemma_told_more(v, r.up, Set::empty(), set![dir]);
            lemma_told_trans(u, v, r.up, set![dir]);
        }
    } else {
        lemma_told_self(u);
        lemma_told_more(u, u, Set::empty(), set![dir]);
    }
}

proof fn lemma_place_all_told(
    s: Sync,
    ctx: Seq<char>,
    dir: u64,
    want: Map<Seq<char>, Wanted>,
    names: Seq<Seq<char>>,
)
    requires
        s.up.tree.wf(),
        wellformed::takes_files(s.up.tree, dir),
        wellformed::files_only(want),
        forall|j: int| 0 <= j < names.len() ==> want.contains_key(#[trigger] names[j]),
        s.up.tree.room(names.len() as int),
    ensures
        ({
            let r = s.place_all(ctx, dir, want, names);
            told(s.up, r.up, set![dir]) && (r == s || r.dirty)
        }),
    decreases names.len(),
{
    lemma_told_self(s.up);
    lemma_told_more(s.up, s.up, Set::empty(), set![dir]);
    if names.len() > 0 {
        let f = names.drop_last();
        assert(forall|j: int| 0 <= j < f.len() ==> f[j] == names[j]);
        assert(names[names.len() - 1] == names.last());
        lemma_place_all_told(s, ctx, dir, want, f);
        wellformed::lemma_place_all_wf(s, ctx, dir, want, f);
        let v = s.place_all(ctx, dir, want, f);
        wellformed::lemma_still_takes_files(s.up.tree, v.up.tree, dir);
        lemma_place_told(v, ctx, dir, want, names.last());
        lemma_told_trans(s.up, v.up, s.place_all(ctx, dir, want, names).up, set![dir]);
    }
}

/// Making the files of a directory those that it is to hold.
pub proof fn lemma_sync_dir_told(
    u: Update,
    ctx: Seq<char>,
    dir: u64,
    want: Map<Seq<char>, Wanted>,
    now: SystemTime,
)
    requires
        u.tree.wf(),
        wellformed::takes_files(u.tree, dir),
        wellformed::files_only(want),
        want.dom().finite(),
        u.tree.room(want.dom().len() as int),
    ensures
        told(u, u.sync_dir(ctx, dir, want, now), Set::empty()),
{
    let have = u.tree.entries(dir);
    let olds = strmap::ordered(have.dom());
    let news = strmap::ordered(want.dom());
    assert(u.tree.nodes.contains_key(dir));
    strmap::lemma_ordered(have.dom());
    strmap::lemma_ordered(want.dom());
    let s = Sync { up: u, dirty: false };
    assert forall|j: int|
        0 <= j < olds.len() && u.tree.nodes.contains_key(have[#[trigger] olds[j]]) implies
        u.tree.nodes[have[olds[j]]].parent == dir && u.tree.nodes[have[olds[j]]].name == olds[j] by {
        assert(olds.to_set().contains(olds[j]));
        assert(u.tree.entries(dir).contains_key(olds[j]));
    }
    lemma_visit_all_told(s, ctx, dir, have, want, olds);
    wellformed::lemma_visit_all_wf(s, ctx, dir, have, want, olds);
    let v = s.visit_all(ctx, dir, have, want, olds);
    wellformed::lemma_still_takes_files(u.tree, v.up.tree, dir);
    assert forall|j: int| 0 <= j < news.len() implies want.contains_key(#[trigger] news[j]) by {
        assert(news.to_set().contains(news[j]));
    }
    lemma_place_all_told(v, ctx, dir, want, news);
    wellformed::lemma_place_all_wf(v, ctx, dir, want, news);
    let w = v.place_all(ctx, dir, want, news);
    let r = u.sync_dir(ctx, dir, want, now);
    if w.dirty {
        lemma_told_more(u, v.up, Set::empty(), set![dir]);
        lemma_told_trans(u, v.up, w.up, set![dir]);
        let x = Update { tree: w.up.tree.touch(dir, now), ..w.up };
        assert forall|d: u64| #[trigger] x.tree.entries(d) == w.up.tree.entries(d) by {}
        assert(told(w.up, x, set![dir])) by {
            assert forall|d: u64| #[trigger] x.tree.is_dir(d) == w.up.tree.is_dir(d) by {}
        }
        lemma_told_trans(u, w.up, x, set![dir]);
        lemma_dirty_told(u, x, dir, set![dir]);
    } else {
        assert(w == v);
    }
}

proof fn lemma_sync_dirs_told(
    u: Update,
    dirs: Seq<Option<u64>>,
    ctx: Seq<char>,
    p: Plan,
    now: SystemTime,
)
    requires
        u.tree.wf(),
        wellformed::plan_fits(p),
        forall|k: int|
            0 <= k < dirs.len() && dirs[k] is Some ==> wellformed::takes_files(
                u.tree,
                (#[trigger] dirs[k])->0,
            ),
        u.tree.room(p.total(dirs.len()) as int),
    ensures
        told(u, u.sync_dirs(dirs, ctx, p, now), Set::empty()),
    decreases dirs.len(),
{
    lemma_told_self(u);
    if dirs.len() > 0 {
        let rest = dirs.drop_last();
        assert(forall|k: int| 0 <= k < rest.len() ==> dirs[k] == rest[k]);
        lemma_sync_dirs_told(u, rest, ctx, p, now);
        wellformed::lemma_sync_dirs_wf(u, rest, ctx, p, now);
        let v = u.sync_dirs(rest, ctx, p, now);
        if let Some(dir) = dirs.last() {
            assert(dirs[dirs.len() - 1] == dirs.last());
            let want = p.wants(model::label(dirs.len() - 1));
            wellformed::lemma_still_takes_files(u.tree, v.tree, dir);
            lemma_sync_dir_told(v, ctx, dir, want, now);
            lemma_told_trans(u, v, v.sync_dir(ctx, dir, want, now), Set::empty());
        }
    }
}

/// When the documents of a context come, go, move or change, the kernel is told of each entry
/// that is gone, of each file whose content changed and of each directory with a new entry.
pub proof fn law_documents_told(
    t: TreeView,
    ctx: Seq<char>,
    docs: Seq<DocumentView>,
    names: Map<Seq<char>, Seq<char>>,
    unsaved: Seq<(Seq<char>, Seq<char>)>,
    now: SystemTime,
)
    requires
        t.wf(),
        t.contexts.contains_key(ctx),
        t.room(docs.len() as int),
    ensures
        told(
            Update { tree: t, inv: model::no_invalidation() },
            model::apply_documents(t, ctx, model::plan(t, ctx, docs, names, unsaved), now),
            Set::empty(),
        ),
{
    let p = model::plan(t, ctx, docs, names, unsaved);
    wellformed::lemma_plan_fits(t, ctx, docs, names, unsaved);
    wellformed::lemma_labels_differ();
    let dirs = model::context_dirs(t, ctx);
    assert forall|k: int| 0 <= k < dirs.len() && dirs[k] is Some implies wellformed::takes_files(
        t,
        (#[trigger] dirs[k])->0,
    ) by {
        wellformed::lemma_context_dir_takes_files(t, ctx, model::label(k));
    }
    let u = Update { tree: t, inv: model::no_invalidation() };
    lemma_sync_dirs_told(u, dirs, ctx, p, now);
}

} // verus!
