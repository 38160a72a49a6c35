//! Contexts that stay are left alone.

use crate::api::ContextView;
use crate::json;
use crate::laws;
use crate::model;
use crate::model::{TreeView, Update};
use crate::state::{CONTEXTS_INO, CONTEXT_META_FILE, ROOT_INO};
use crate::strmap;
use crate::wellformed;
use crate::whole;
use crate::whole::whole;
use std::time::SystemTime;
use vstd::prelude::*;
use vstd::string::*;

verus! {

// ── what goes with a directory ───────────────────────────────────────────────

/// Whether a directory is another one, or is somewhere below it.
spec fn is_under(t: TreeView, dir: u64, top: u64) -> bool
    decreases dir,
{
    dir == top || (t.is_dir(dir) && dir != ROOT_INO && t.nodes[dir].parent < dir && is_under(
        t,
        t.nodes[dir].parent,
        top,
    ))
}

/// What is below a directory was below it when there was more.
proof fn lemma_under_more(t: TreeView, u: TreeView, dir: u64, top: u64)
    requires
        wellformed::fewer_nodes(u, t),
        is_under(u, dir, top),
    ensures
        is_under(t, dir, top),
    decreases dir,
{
    if dir != top {
        assert(u.nodes.contains_key(dir));
        lemma_under_more(t, u, u.nodes[dir].parent, top);
    }
}

/// What is below a directory is below the one that it is in.
proof fn lemma_under_above(t: TreeView, dir: u64, mid: u64, top: u64)
    requires
        is_under(t, dir, mid),
        t.is_dir(mid),
        mid != ROOT_INO,
        t.nodes[mid].parent == top,
        top < mid,
    ensures
        is_under(t, dir, top),
    decreases dir,
{
    if dir != mid {
        lemma_under_above(t, t.nodes[dir].parent, mid, top);
    } else {
        assert(is_under(t, top, top));
    }
}

proof fn lemma_sweep_removes_under(u: Update, ino: u64, x: u64)
    requires
        u.tree.wf(),
        wellformed::clearable(u.tree, ino),
        u.tree.nodes.contains_key(x),
        !u.sweep(ino).tree.nodes.contains_key(x),
    ensures
        is_under(u.tree, u.tree.nodes[x].parent, ino),
    decreases u64::MAX - ino, 1int, 0nat,
{
    let t = u.tree;
    let names = t.entry_names(ino);
    if !t.children.contains_key(ino) {
        assert(t.entries(ino).dom() =~= Set::empty());
    }
    strmap::lemma_ordered(t.entries(ino).dom());
    assert forall|j: int| 0 <= j < t.entry_inos(ino).len() implies laws::in_dir(
        t,
        ino,
        #[trigger] t.entry_inos(ino)[j],
    ) by {
        assert(names.to_set().contains(names[j]));
        assert(t.entries(ino).contains_key(names[j]));
    }
    lemma_sweep_inos_removes_under(u, ino, t.entry_inos(ino), x);
}

proof fn lemma_sweep_inos_removes_under(u: Update, ino: u64, inos: Seq<u64>, x: u64)
    requires
        u.tree.wf(),
        wellformed::clearable(u.tree, ino),
        forall|j: int| 0 <= j < inos.len() ==> laws::in_dir(u.tree, ino, #[trigger] inos[j]),
        u.tree.nodes.contains_key(x),
        !u.sweep_inos(ino, inos).tree.nodes.contains_key(x),
    ensures
        is_under(u.tree, u.tree.nodes[x].parent, ino),
    decreases u64::MAX - ino, 0int, inos.len(),
{
    if inos.len() > 0 {
        let f = inos.drop_last();
        let c = inos.last();
        assert(c == inos[inos.len() - 1]);
        assert(laws::in_dir(u.tree, ino, c));
        assert(forall|j: int| 0 <= j < f.len() ==> f[j] == inos[j]);
        wellformed::lemma_sweep_inos_wf(u, ino, f);
        model::lemma_sweep_inos_frame(u, ino, f);
        let v = u.sweep_inos(ino, f);
        if !v.tree.nodes.contains_key(x) {
            lemma_sweep_inos_removes_under(u, ino, f, x);
        } else if x != c {
            wellformed::lemma_child_is_free(u.tree, ino, c);
            assert(c > ino);
            if u.tree.is_dir(c) {
                lemma_sweep_removes_under(v, c, x);
                let p = v.tree.nodes[x].parent;
                lemma_under_more(u.tree, v.tree, p, c);
                lemma_under_above(u.tree, p, c, ino);
            } else {
                laws::lemma_sweep_file(u, c);
                assert forall|n: Seq<char>| !v.tree.entries(c).contains_key(n) by {
                    laws::lemma_entries_shrink(u, ino, f, c, n);
                    assert(!u.tree.entries(c).dom().contains(n));
                }
                lemma_no_sweep(v, c);
            }
        }
    }
}

/// There is nothing to take away below what has no entries.
proof fn lemma_no_sweep(u: Update, ino: u64)
    requires
        forall|n: Seq<char>| !u.tree.entries(ino).contains_key(n),
    ensures
        u.sweep(ino) == u,
{
    assert(u.tree.entries(ino).dom() =~= Set::empty());
    strmap::lemma_ordered(u.tree.entries(ino).dom());
    assert(u.tree.entry_inos(ino) =~= Seq::empty());
}

// ── a context that stays ─────────────────────────────────────────────────────

/// Whether a node is in a context: in its directory, or in one of those in it.
pub open spec fn is_below(t: TreeView, home: u64, i: u64) -> bool {
    t.nodes.contains_key(i) && (t.nodes[i].parent == home || (t.nodes.contains_key(
        t.nodes[i].parent,
    ) && t.nodes[t.nodes[i].parent].parent == home))
}

/// Whether a context stays where it is, with the documents that it has and all nodes in it, each
/// as it was, but for one that may have another content.
pub open spec fn stays(t: TreeView, u: TreeView, ctx: Seq<char>, but: Option<u64>) -> bool {
    let home = t.contexts[ctx];
    &&& t.contexts.contains_key(ctx)
    &&& u.contexts.contains_key(ctx)
    &&& u.contexts[ctx] == home
    &&& forall|i: u64| #[trigger]
        is_below(t, home, i) ==> is_below(u, home, i) && (but != Some(i) ==> u.nodes[i]
            == t.nodes[i]) && u.nodes[i].parent == t.nodes[i].parent && u.nodes[i].name
            == t.nodes[i].name
    &&& forall|i: u64| #[trigger] is_below(u, home, i) ==> is_below(t, home, i)
    &&& forall|d: u64| #[trigger]
        u.docs.contains_key((ctx, d)) <==> t.docs.contains_key((ctx, d))
    &&& forall|d: u64| #[trigger]
        t.docs.contains_key((ctx, d)) ==> u.docs[(ctx, d)] == t.docs[(ctx, d)]
}

proof fn lemma_stays_trans(
    a: TreeView,
    b: TreeView,
    c: TreeView,
    ctx: Seq<char>,
    but: Option<u64>,
)
    requires
        stays(a, b, ctx, None) && stays(b, c, ctx, but) || stays(a, b, ctx, but) && stays(
            b,
            c,
            ctx,
            None,
        ),
    ensures
        stays(a, c, ctx, but),
{
    let home = a.contexts[ctx];
    assert forall|i: u64| #[trigger] is_below(a, home, i) implies is_below(c, home, i) && (but
        != Some(i) ==> c.nodes[i] == a.nodes[i]) && c.nodes[i].parent == a.nodes[i].parent
        && c.nodes[i].name == a.nodes[i].name by {
        assert(is_below(b, home, i));
    }
    assert forall|i: u64| #[trigger] is_below(c, home, i) implies is_below(a, home, i) by {
        assert(is_below(b, home, i));
    }
    assert forall|d: u64| #[trigger]
        c.docs.contains_key((ctx, d)) <==> a.docs.contains_key((ctx, d)) by {
        assert(b.docs.contains_key((ctx, d)) <==> a.docs.contains_key((ctx, d)));
    }
    assert forall|d: u64| #[trigger] a.docs.contains_key((ctx, d)) implies c.docs[(ctx, d)]
        == a.docs[(ctx, d)] by {
        assert(b.docs.contains_key((ctx, d)));
    }
}

/// Nothing in one context is below another.
proof fn lemma_not_under(t: TreeView, ctx: Seq<char>, id: Seq<char>, i: u64)
    requires
        whole(t),
        t.contexts.contains_key(ctx),
        t.contexts.contains_key(id),
        id != ctx,
        is_below(t, t.contexts[ctx], i),
    ensures
        !is_under(t, t.nodes[i].parent, t.contexts[id]),
        i != t.contexts[id],
{
    let home = t.contexts[ctx];
    let top = t.contexts[id];
    assert(t.nodes[home].parent == CONTEXTS_INO && t.nodes[top].parent == CONTEXTS_INO);
    assert(home != top);
    reveal_with_fuel(is_under, 5);
}

proof fn lemma_drop_context_stays(u: Update, id: Seq<char>, ctx: Seq<char>)
    requires
        whole(u.tree),
        u.tree.contexts.contains_key(ctx),
        id != ctx,
    ensures
        stays(u.tree, u.drop_context(id).tree, ctx, None),
{
    let t = u.tree;
    let r = u.drop_context(id).tree;
    let home = t.contexts[ctx];
    if t.contexts.contains_key(id) {
        let ino = t.contexts[id];
        let u0 = Update { tree: TreeView { contexts: t.contexts.remove(id), ..t }, ..u };
        wellformed::lemma_same_nodes_wf(t, u0.tree);
        assert forall|j: Seq<char>| #[trigger] u0.tree.contexts.contains_key(j) implies
            u0.tree.contexts[j] != ino by {
            assert(t.contexts.contains_key(j));
        }
        wellformed::lemma_clear_wf(u0, ino);
        wellformed::lemma_clear_is_sweep(u0, ino);
        model::lemma_clear_frame(u0, ino);
        let u1 = u0.clear(ino);
        assert(home != ino);
        assert forall|i: u64| #[trigger] is_below(t, home, i) implies is_below(r, home, i)
            && r.nodes[i] == t.nodes[i] by {
            lemma_kept(t, u0, ctx, id, i);
            let p = t.nodes[i].parent;
            if p != home {
                assert(is_below(t, home, p));
                lemma_kept(t, u0, ctx, id, p);
            }
        }
        assert forall|i: u64| #[trigger] is_below(r, home, i) implies is_below(t, home, i) by {
            assert(u1.tree.nodes.contains_key(i));
        }
    }
}

/// What is in one context is kept when another one is taken away.
proof fn lemma_kept(t: TreeView, u0: Update, ctx: Seq<char>, id: Seq<char>, i: u64)
    requires
        whole(t),
        u0.tree == (TreeView { contexts: t.contexts.remove(id), ..t }),
        u0.tree.wf(),
        t.contexts.contains_key(ctx),
        t.contexts.contains_key(id),
        wellformed::clearable(u0.tree, t.contexts[id]),
        id != ctx,
        is_below(t, t.contexts[ctx], i),
    ensures
        u0.clear(t.contexts[id]).tree.nodes.contains_key(i),
        u0.clear(t.contexts[id]).tree.nodes[i] == t.nodes[i],
        i != t.contexts[id],
{
    let ino = t.contexts[id];
    lemma_not_under(t, ctx, id, i);
    wellformed::lemma_clear_is_sweep(u0, ino);
    wellformed::lemma_clear_wf(u0, ino);
    if !u0.sweep(ino).tree.nodes.contains_key(i) {
        lemma_sweep_removes_under(u0, ino, i);
        lemma_under_more(t, u0.tree, t.nodes[i].parent, ino);
    }
}

proof fn lemma_drop_contexts_stays(u: Update, ids: Seq<Seq<char>>, ctx: Seq<char>)
    requires
        whole(u.tree),
        u.tree.contexts.contains_key(ctx),
        !ids.contains(ctx),
    ensures
        stays(u.tree, u.drop_contexts(ids).tree, ctx, None),
        whole(u.drop_contexts(ids).tree),
        u.drop_contexts(ids).inv.changed == u.inv.changed,
    decreases ids.len(),
{
    if ids.len() > 0 {
        let f = ids.drop_last();
        assert(!f.contains(ctx)) by {
            if f.contains(ctx) {
                let i = choose|i: int| 0 <= i < f.len() && f[i] == ctx;
                assert(ids[i] == ctx);
            }
        }
        assert(ids[ids.len() - 1] == ids.last());
        lemma_drop_contexts_stays(u, f, ctx);
        let v = u.drop_contexts(f);
        let id = ids.last();
        lemma_drop_context_stays(v, id, ctx);
        whole::lemma_drop_context_whole(v, id);
        lemma_stays_trans(u.tree, v.tree, v.drop_context(id).tree, ctx, None);
        if v.tree.contexts.contains_key(id) {
            let v0 = Update {
                tree: TreeView { contexts: v.tree.contexts.remove(id), ..v.tree },
                ..v
            };
            model::lemma_clear_frame(v0, v.tree.contexts[id]);
        }
    }
}

/// The meta file of a context.
pub open spec fn meta_ino(t: TreeView, ctx: Seq<char>) -> u64 {
    t.lookup(t.contexts[ctx], CONTEXT_META_FILE@)->0
}

/// A context's meta file is in it, and in no other.
proof fn lemma_meta(t: TreeView, ctx: Seq<char>)
    requires
        whole(t),
        t.contexts.contains_key(ctx),
    ensures
        t.lookup(t.contexts[ctx], CONTEXT_META_FILE@) == Some(meta_ino(t, ctx)),
        is_below(t, t.contexts[ctx], meta_ino(t, ctx)),
        t.nodes[meta_ino(t, ctx)].parent == t.contexts[ctx],
        t.nodes[meta_ino(t, ctx)].name == CONTEXT_META_FILE@,
        forall|o: Seq<char>| #[trigger]
            t.contexts.contains_key(o) && o != ctx ==> !is_below(
                t,
                t.contexts[o],
                meta_ino(t, ctx),
            ),
{
    let home = t.contexts[ctx];
    assert(t.has_skeleton(home));
    assert(t.entries(home).contains_key(CONTEXT_META_FILE@));
    assert forall|o: Seq<char>| #[trigger] t.contexts.contains_key(o) && o != ctx implies !is_below(
        t,
        t.contexts[o],
        meta_ino(t, ctx),
    ) by {
        assert(t.nodes[t.contexts[o]].name == o && t.nodes[home].name == ctx);
        assert(t.nodes[home].parent == CONTEXTS_INO);
        assert(t.contexts[o] != CONTEXTS_INO);
    }
}

/// Where a context stays, so does its meta file.
proof fn lemma_meta_stays(t: TreeView, u: TreeView, ctx: Seq<char>, but: Option<u64>)
    requires
        whole(t),
        whole(u),
        stays(t, u, ctx, but),
    ensures
        meta_ino(u, ctx) == meta_ino(t, ctx),
        u.lookup(u.contexts[ctx], CONTEXT_META_FILE@) == Some(meta_ino(t, ctx)),
{
    lemma_meta(t, ctx);
    lemma_meta(u, ctx);
    let m = meta_ino(t, ctx);
    assert(is_below(u, u.contexts[ctx], m));
    assert(m != ROOT_INO) by {
        assert(t.nodes[ROOT_INO].parent == ROOT_INO);
    }
    assert(laws::listed(u, m));
}

/// Making directories changes neither contexts nor workspaces.
proof fn lemma_skeleton_notes(t: TreeView, home: u64, now: SystemTime, n: nat)
    ensures
        model::skeleton(t, home, now, n).contexts == t.contexts,
        model::skeleton(t, home, now, n).workspaces == t.workspaces,
        model::skeleton(t, home, now, n).layout == t.layout,
    decreases n,
{
    if n > 0 {
        lemma_skeleton_notes(t, home, now, (n - 1) as nat);
    }
}

/// Whether a context is shown as it is.
pub open spec fn is_shown_as_is(t: TreeView, ctx: ContextView) -> bool {
    &&& t.contexts.contains_key(ctx.id)
    &&& t.lookup(t.contexts[ctx.id], CONTEXT_META_FILE@) is Some
    &&& t.nodes[meta_ino(t, ctx.id)].content == model::meta_content(ctx)
    &&& match ctx.workspace_id {
        Some(ws) => t.workspaces.contains_key(ctx.id) && t.workspaces[ctx.id] == ws,
        None => true,
    }
}

/// Bringing a context in or up to date: others stay, and it is shown as it is.
proof fn lemma_apply_context(u: Update, ctx: ContextView, now: SystemTime)
    requires
        whole(u.tree),
        u.tree.room(9),
    ensures
        ({
            let v = u.apply_context(ctx, now);
            &&& whole(v.tree)
            &&& v.tree.next_ino <= u.tree.next_ino + 9
            &&& is_shown_as_is(v.tree, ctx)
            &&& forall|o: Seq<char>| #[trigger]
                u.tree.contexts.contains_key(o) && o != ctx.id ==> stays(
                    u.tree,
                    v.tree,
                    o,
                    None,
                ) && (v.inv.changed.contains(meta_ino(u.tree, o)) <==> u.inv.changed.contains(
                    meta_ino(u.tree, o),
                ))
            &&& forall|o: Seq<char>|
                o != ctx.id ==> (#[trigger] v.tree.workspaces.contains_key(o)
                    <==> u.tree.workspaces.contains_key(o)) && v.tree.workspaces[o]
                    == u.tree.workspaces[o]
            &&& u.tree.contexts.contains_key(ctx.id) ==> {
                let m = meta_ino(u.tree, ctx.id);
                &&& stays(u.tree, v.tree, ctx.id, Some(m))
                &&& v.inv.changed.contains(m) <==> u.inv.changed.contains(m)
                    || u.tree.nodes[m].content != model::meta_content(ctx)
            }
        }),
{
    let t = u.tree;
    let v = u.apply_context(ctx, now);
    if t.contexts.contains_key(ctx.id) {
        let w = u.refresh_meta(ctx, now);
        whole::lemma_refresh_meta_whole(u, ctx, now);
        wellformed::lemma_note_workspace_wf(w, ctx);
        whole::lemma_same_whole(w.tree, v.tree);
        lemma_meta(t, ctx.id);
        let m = meta_ino(t, ctx.id);
        assert(stays(t, v.tree, ctx.id, Some(m)));
        lemma_meta_stays(t, v.tree, ctx.id, Some(m));
        assert forall|o: Seq<char>| #[trigger]
            t.contexts.contains_key(o) && o != ctx.id implies stays(t, v.tree, o, None) && (
        v.inv.changed.contains(meta_ino(t, o)) <==> u.inv.changed.contains(meta_ino(t, o))) by {
            lemma_meta(t, o);
            assert(!is_below(t, t.contexts[o], m));
            assert(meta_ino(t, o) != m);
            assert forall|i: u64| #[trigger] is_below(t, t.contexts[o], i) implies is_below(
                v.tree,
                t.contexts[o],
                i,
            ) && v.tree.nodes[i] == t.nodes[i] by {}
            assert forall|i: u64| #[trigger] is_below(v.tree, t.contexts[o], i) implies is_below(
                t,
                t.contexts[o],
                i,
            ) by {}
            lemma_pushed(u.inv.changed, m, meta_ino(t, o));
        }
        lemma_pushed(u.inv.changed, m, m);
    } else {
        whole::lemma_add_context_whole(u, ctx, now);
        wellformed::lemma_add_context_wf(u, ctx, now);
        laws::lemma_add_context_frame(u, ctx, now);
        lemma_added_shown(u, ctx, now);
        let r = v.tree;
        let fresh = r.contexts[ctx.id];
        assert forall|o: Seq<char>| #[trigger]
            t.contexts.contains_key(o) && o != ctx.id implies stays(t, r, o, None) by {
            let home = t.contexts[o];
            assert(r.contexts.contains_key(o) && r.contexts[o] == home);
            assert(home != fresh) by {
                assert(r.nodes[home].name == o && r.nodes[fresh].name == ctx.id);
            }
            assert forall|i: u64| #[trigger] is_below(r, home, i) implies is_below(t, home, i) by {
                if !t.nodes.contains_key(i) {
                    let p = r.nodes[i].parent;
                    assert(p == fresh || p == CONTEXTS_INO);
                    assert(r.nodes[fresh].parent == CONTEXTS_INO);
                    assert(r.nodes[CONTEXTS_INO].parent == ROOT_INO);
                    assert(home != CONTEXTS_INO && home != ROOT_INO);
                } else {
                    let p = t.nodes[i].parent;
                    if p != home {
                        assert(i != ROOT_INO);
                        assert(t.nodes.contains_key(p));
                    }
                }
            }
        }
    }
}

proof fn lemma_pushed(s: Seq<u64>, x: u64, y: u64)
    ensures
        s.push(x).contains(y) <==> s.contains(y) || y == x,
{
    wellformed::lemma_push_contains(s, x, y);
}

/// A context that came in is shown as it is, and no other workspace is noted.
proof fn lemma_added_shown(u: Update, ctx: ContextView, now: SystemTime)
    requires
        whole(u.tree),
        !u.tree.contexts.contains_key(ctx.id),
        u.tree.room(9),
    ensures
        is_shown_as_is(u.add_context(ctx, now).tree, ctx),
        u.add_context(ctx, now).tree.workspaces == u.note_workspace(ctx).tree.workspaces,
        u.add_context(ctx, now).inv.changed == u.inv.changed,
{
    let t = u.note_workspace(ctx).tree;
    let home = t.next_ino;
    let t1 = t.take_ino().insert_node(model::dir_node(home, CONTEXTS_INO, ctx.id, now));
    let t2 = TreeView { contexts: t1.contexts.insert(ctx.id, home), ..t1 };
    lemma_skeleton_notes(t2, home, now, 7);
    wellformed::lemma_labels_differ();
    let t3 = model::skeleton(t2, home, now, 7);
    wellformed::lemma_add_context_wf(u, ctx, now);
    laws::lemma_add_context_frame(u, ctx, now);
    let r = u.add_context(ctx, now).tree;
    assert(r.contexts[ctx.id] == home);
    assert(r.entries(home).contains_key(CONTEXT_META_FILE@));
    assert(r.entries(home)[CONTEXT_META_FILE@] == t3.next_ino);
}

// ── lists of contexts ────────────────────────────────────────────────────────

/// Whether no two contexts of a list have the same identifier.
pub open spec fn distinct_contexts(ctxs: Seq<ContextView>) -> bool {
    forall|i: int, j: int|
        0 <= i < j < ctxs.len() ==> (#[trigger] ctxs[i]).id != (#[trigger] ctxs[j]).id
}

/// Where a context of a list stands, it is left alone but for its meta file, of which the kernel is
/// told where it changed; and every context of the list is shown as it is.
proof fn lemma_apply_each(u: Update, ctxs: Seq<ContextView>, now: SystemTime)
    requires
        whole(u.tree),
        u.tree.room(9 * ctxs.len() as int),
        distinct_contexts(ctxs),
    ensures
        ({
            let v = u.apply_each(ctxs, now);
            &&& whole(v.tree)
            &&& v.tree.next_ino <= u.tree.next_ino + 9 * ctxs.len()
            &&& forall|i: int|
                0 <= i < ctxs.len() ==> is_shown_as_is(v.tree, #[trigger] ctxs[i])
            &&& forall|o: Seq<char>| #[trigger]
                u.tree.contexts.contains_key(o) && !model::context_ids(ctxs).contains(o) ==> stays(
                    u.tree,
                    v.tree,
                    o,
                    None,
                ) && (v.inv.changed.contains(meta_ino(u.tree, o)) <==> u.inv.changed.contains(
                    meta_ino(u.tree, o),
                ))
            &&& forall|i: int|
                0 <= i < ctxs.len() && u.tree.contexts.contains_key((#[trigger] ctxs[i]).id) ==> {
                    let m = meta_ino(u.tree, ctxs[i].id);
                    &&& stays(u.tree, v.tree, ctxs[i].id, Some(m))
                    &&& v.inv.changed.contains(m) <==> u.inv.changed.contains(m)
                        || u.tree.nodes[m].content != model::meta_content(ctxs[i])
                }
        }),
    decreases ctxs.len(),
{
    if ctxs.len() == 0 {
        assert forall|o: Seq<char>| #[trigger] u.tree.contexts.contains_key(o) implies stays(
            u.tree,
            u.tree,
            o,
            None,
        ) by {}
    } else {
        let f = ctxs.drop_last();
        let last = ctxs.last();
        assert(forall|i: int| 0 <= i < f.len() ==> f[i] == ctxs[i]);
        assert(ctxs[ctxs.len() - 1] == last);
        assert(distinct_contexts(f));
        lemma_apply_each(u, f, now);
        let v = u.apply_each(f, now);
        let w = u.apply_each(ctxs, now);
        lemma_apply_context(v, last, now);
        assert(w == v.apply_context(last, now));
        assert(!model::context_ids(f).contains(last.id)) by {
            if model::context_ids(f).contains(last.id) {
                let i = choose|i: int| 0 <= i < f.len() && (#[trigger] f[i]).id == last.id;
                assert(ctxs[i].id != ctxs[ctxs.len() - 1].id);
            }
        }
        assert forall|o: Seq<char>|
            model::context_ids(ctxs).contains(o) <==> model::context_ids(f).contains(o) || o
                == last.id by {
            if model::context_ids(f).contains(o) {
                let i = choose|i: int| 0 <= i < f.len() && (#[trigger] f[i]).id == o;
                assert(ctxs[i].id == o);
            }
            if o == last.id {
                assert(ctxs[ctxs.len() - 1].id == o);
            }
            if model::context_ids(ctxs).contains(o) && o != last.id {
                let i = choose|i: int| 0 <= i < ctxs.len() && (#[trigger] ctxs[i]).id == o;
                assert(f[i].id == o);
            }
        }
        assert forall|i: int| 0 <= i < ctxs.len() implies is_shown_as_is(
            w.tree,
            #[trigger] ctxs[i],
        ) by {
            if i < f.len() {
                let c = f[i];
                assert(is_shown_as_is(v.tree, c));
                assert(ctxs[i].id != ctxs[ctxs.len() - 1].id);
                assert(v.tree.contexts.contains_key(c.id));
                assert(stays(v.tree, w.tree, c.id, None));
                lemma_meta(v.tree, c.id);
                lemma_meta_stays(v.tree, w.tree, c.id, None);
                assert(w.tree.workspaces.contains_key(c.id) <==> v.tree.workspaces.contains_key(
                    c.id,
                ));
            }
        }
        assert forall|o: Seq<char>| #[trigger]
            u.tree.contexts.contains_key(o) && !model::context_ids(ctxs).contains(o) implies stays(
            u.tree,
            w.tree,
            o,
            None,
        ) && (w.inv.changed.contains(meta_ino(u.tree, o)) <==> u.inv.changed.contains(
            meta_ino(u.tree, o),
        )) by {
            assert(stays(u.tree, v.tree, o, None));
            assert(v.tree.contexts.contains_key(o));
            lemma_meta_stays(u.tree, v.tree, o, None);
            lemma_stays_trans(u.tree, v.tree, w.tree, o, None);
        }
        assert forall|i: int|
            0 <= i < ctxs.len() && u.tree.contexts.contains_key((#[trigger] ctxs[i]).id) implies {
            let m = meta_ino(u.tree, ctxs[i].id);
            &&& stays(u.tree, w.tree, ctxs[i].id, Some(m))
            &&& w.inv.changed.contains(m) <==> u.inv.changed.contains(m)
                || u.tree.nodes[m].content != model::meta_content(ctxs[i])
        } by {
            let c = ctxs[i];
            let m = meta_ino(u.tree, c.id);
            lemma_meta(u.tree, c.id);
            if i < f.len() {
                assert(f[i] == c);
                assert(ctxs[i].id != ctxs[ctxs.len() - 1].id);
                assert(stays(u.tree, v.tree, c.id, Some(m)));
                assert(v.tree.contexts.contains_key(c.id));
                lemma_meta_stays(u.tree, v.tree, c.id, Some(m));
                lemma_stays_trans(u.tree, v.tree, w.tree, c.id, Some(m));
            } else {
                assert(stays(u.tree, v.tree, c.id, None));
                lemma_meta_stays(u.tree, v.tree, c.id, None);
                assert(v.tree.nodes[m] == u.tree.nodes[m]);
                lemma_stays_trans(u.tree, v.tree, w.tree, c.id, Some(m));
            }
        }
    }
}

/// A context that is shown and is in the list stays where it is, with all its documents and with
/// every node in it as it was, but for its meta file. That file keeps its inode and shows the
/// context's current object, and the kernel is told of it exactly where its content changed.
pub proof fn law_contexts_that_stay_are_left_alone(
    t: TreeView,
    ctxs: Seq<ContextView>,
    now: SystemTime,
    ctx: ContextView,
)
    requires
        whole(t),
        t.room(9 * ctxs.len() as int),
        distinct_contexts(ctxs),
        ctxs.contains(ctx),
        t.contexts.contains_key(ctx.id),
    ensures
        ({
            let u = model::apply_contexts(t, ctxs, now);
            let m = meta_ino(t, ctx.id);
            &&& stays(t, u.tree, ctx.id, Some(m))
            &&& u.tree.lookup(u.tree.contexts[ctx.id], CONTEXT_META_FILE@) == Some(m)
            &&& u.tree.nodes[m].content == model::meta_content(ctx)
            &&& u.inv.changed.contains(m) <==> t.nodes[m].content != model::meta_content(ctx)
        }),
{
    let u0 = Update { tree: t, inv: model::no_invalidation() };
    let ids = model::stale(t, ctxs);
    let m = meta_ino(t, ctx.id);
    let at = choose|i: int| 0 <= i < ctxs.len() && ctxs[i] == ctx;
    strmap::lemma_ordered(t.contexts.dom());
    wellformed::lemma_missing(strmap::ordered(t.contexts.dom()), ctxs);
    assert(ctxs[at].id == ctx.id);
    assert(model::context_ids(ctxs).contains(ctx.id));
    assert(!ids.contains(ctx.id));
    lemma_drop_contexts_stays(u0, ids, ctx.id);
    wellformed::lemma_drop_contexts_wf(u0, ids);
    let v = model::without_stale(t, ctxs);
    lemma_meta(t, ctx.id);
    lemma_meta_stays(t, v.tree, ctx.id, None);
    assert(v.tree.nodes[m] == t.nodes[m]);
    lemma_apply_each(v, ctxs, now);
    let u = model::apply_contexts(t, ctxs, now);
    assert(v.tree.contexts.contains_key(ctxs[at].id));
    lemma_stays_trans(t, v.tree, u.tree, ctx.id, Some(m));
    lemma_meta_stays(t, u.tree, ctx.id, Some(m));
    assert(is_shown_as_is(u.tree, ctxs[at]));
}

/// Contexts that are shown as they are need no change.
proof fn lemma_apply_each_idle(u: Update, ctxs: Seq<ContextView>, now: SystemTime)
    requires
        u.tree.layout is Contexts,
        forall|i: int| 0 <= i < ctxs.len() ==> is_shown_as_is(u.tree, #[trigger] ctxs[i]),
    ensures
        u.apply_each(ctxs, now) == u,
        model::added(u, ctxs, now) == Seq::<Seq<char>>::empty(),
    decreases ctxs.len(),
{
    if ctxs.len() > 0 {
        let f = ctxs.drop_last();
        assert(forall|i: int| 0 <= i < f.len() ==> f[i] == ctxs[i]);
        lemma_apply_each_idle(u, f, now);
        let last = ctxs.last();
        assert(is_shown_as_is(u.tree, ctxs[ctxs.len() - 1]));
        assert(u.refresh_meta(last, now) == u);
        assert(u.note_workspace(last).tree.workspaces =~= u.tree.workspaces);
        assert(u.note_workspace(last) == u);
    }
}

/// Making the contexts those of a list a second time, with the same list, changes nothing, tells
/// the kernel nothing and brings no context in.
pub proof fn law_contexts_twice(
    t: TreeView,
    ctxs: Seq<ContextView>,
    now: SystemTime,
    now2: SystemTime,
)
    requires
        whole(t),
        t.room(9 * ctxs.len() as int),
        distinct_contexts(ctxs),
    ensures
        ({
            let u = model::apply_contexts(t, ctxs, now).tree;
            &&& model::apply_contexts(u, ctxs, now2) == (Update {
                tree: u,
                inv: model::no_invalidation(),
            })
            &&& model::added(model::without_stale(u, ctxs), ctxs, now2)
                == Seq::<Seq<char>>::empty()
        }),
{
    let u0 = Update { tree: t, inv: model::no_invalidation() };
    let ids = model::stale(t, ctxs);
    whole::lemma_drop_contexts_whole(u0, ids);
    wellformed::lemma_drop_contexts_wf(u0, ids);
    let v = model::without_stale(t, ctxs);
    lemma_apply_each(v, ctxs, now);
    let u = model::apply_contexts(t, ctxs, now).tree;
    wellformed::law_contexts_are_those_of_the_list(t, ctxs, now);
    strmap::lemma_ordered(u.contexts.dom());
    let shown = strmap::ordered(u.contexts.dom());
    wellformed::lemma_missing(shown, ctxs);
    let gone = model::stale(u, ctxs);
    assert(gone =~= Seq::empty()) by {
        if gone.len() > 0 {
            assert(gone.contains(gone[0]));
            assert(shown.to_set().contains(gone[0]));
            assert(u.contexts.contains_key(gone[0]));
        }
    }
    let w = Update { tree: u, inv: model::no_invalidation() };
    assert(model::without_stale(u, ctxs) == w);
    lemma_apply_each_idle(w, ctxs, now2);
}

/// After the contexts were made those of a list, each of the list stands under its identifier, with
/// the seven directories that every context has and with its object in its meta file; and the
/// workspace that it is in is known.
pub proof fn law_contexts_show_their_objects(
    t: TreeView,
    ctxs: Seq<ContextView>,
    now: SystemTime,
    ctx: ContextView,
)
    requires
        whole(t),
        t.room(9 * ctxs.len() as int),
        distinct_contexts(ctxs),
        ctxs.contains(ctx),
    ensures
        ({
            let u = model::apply_contexts(t, ctxs, now).tree;
            let home = u.contexts[ctx.id];
            &&& u.contexts.contains_key(ctx.id)
            &&& u.entries(CONTEXTS_INO).contains_key(ctx.id) && u.entries(CONTEXTS_INO)[ctx.id]
                == home
            &&& u.is_dir(home) && u.nodes[home].name == ctx.id
            &&& u.context_dir(home, "Tabs"@) is Some && u.context_dir(home, "Notes"@) is Some
                && u.context_dir(home, "Todos"@) is Some && u.context_dir(home, "Files"@) is Some
                && u.context_dir(home, "Emails"@) is Some && u.context_dir(home, "Links"@) is Some
                && u.context_dir(home, "Other"@) is Some
            &&& u.entries(home).contains_key(".context.json"@)
            &&& u.nodes[u.entries(home)[".context.json"@]].content == model::ContentView::Inline(
                json::pretty_bytes(ctx.raw),
            )
            &&& ctx.workspace_id is Some ==> u.workspaces.contains_key(ctx.id)
                && u.workspaces[ctx.id] == ctx.workspace_id->0
        }),
{
    let u0 = Update { tree: t, inv: model::no_invalidation() };
    let ids = model::stale(t, ctxs);
    whole::lemma_drop_contexts_whole(u0, ids);
    wellformed::lemma_drop_contexts_wf(u0, ids);
    let v = model::without_stale(t, ctxs);
    lemma_apply_each(v, ctxs, now);
    let u = model::apply_contexts(t, ctxs, now).tree;
    let at = choose|i: int| 0 <= i < ctxs.len() && ctxs[i] == ctx;
    assert(is_shown_as_is(u, ctxs[at]));
    let home = u.contexts[ctx.id];
    assert(u.has_skeleton(home));
    assert(model::label(0) == "Tabs"@);
    assert(model::label(1) == "Notes"@);
    assert(model::label(2) == "Todos"@);
    assert(model::label(3) == "Files"@);
    assert(model::label(4) == "Emails"@);
    assert(model::label(5) == "Links"@);
    assert(model::label(6) == "Other"@);
}

/// When a context's object changed, its meta file shows the new one, from now on, and the kernel is
/// told of that file; when it did not, nothing changes and nothing is told. Nothing else changes in
/// either case.
pub proof fn law_meta_is_updated(t: TreeView, ctx: ContextView, now: SystemTime)
    requires
        t.wf(),
        t.contexts.contains_key(ctx.id),
    ensures
        ({
            let u = model::update_context_meta(t, ctx, now);
            let m = t.entries(t.contexts[ctx.id])[".context.json"@];
            let content = model::ContentView::Inline(json::pretty_bytes(ctx.raw));
            &&& t.entries(t.contexts[ctx.id]).contains_key(".context.json"@)
            &&& t.nodes.contains_key(m)
            &&& u.tree.children == t.children && u.tree.docs == t.docs && u.tree.contexts
                == t.contexts && u.tree.next_ino == t.next_ino
            &&& forall|i: u64| #[trigger] u.tree.nodes.contains_key(i) <==> t.nodes.contains_key(i)
            &&& forall|i: u64|
                i != m && #[trigger] t.nodes.contains_key(i) ==> u.tree.nodes[i] == t.nodes[i]
            &&& u.tree.nodes[m].content == content
            &&& t.nodes[m].content == content ==> u == (Update {
                tree: t,
                inv: model::no_invalidation(),
            })
            &&& t.nodes[m].content != content ==> u.tree.nodes[m].mtime == now
                && u.inv.changed == seq![m] && u.inv.removed.len() == 0 && u.inv.dirty_dirs.len()
                == 0
        }),
{
    assert(t.has_skeleton(t.contexts[ctx.id]));
    let u = model::update_context_meta(t, ctx, now);
    let m = t.entries(t.contexts[ctx.id])[".context.json"@];
    assert(t.lookup(t.contexts[ctx.id], CONTEXT_META_FILE@) == Some(m));
    assert(Seq::<u64>::empty().push(m) =~= seq![m]);
}

/// The meta file of a context that is not shown is not made.
pub proof fn law_no_meta_without_context(t: TreeView, ctx: ContextView, now: SystemTime)
    requires
        !t.contexts.contains_key(ctx.id),
    ensures
        model::update_context_meta(t, ctx, now) == (Update {
            tree: t,
            inv: model::no_invalidation(),
        }),
{
}

proof fn lemma_added(u: Update, ctxs: Seq<ContextView>, now: SystemTime, id: Seq<char>)
    requires
        u.tree.wf(),
        u.tree.room(9 * ctxs.len() as int),
    ensures
        model::added(u, ctxs, now).contains(id) <==> !u.tree.contexts.contains_key(id)
            && u.tree.admits(id) && model::context_ids(ctxs).contains(id),
    decreases ctxs.len(),
{
    if ctxs.len() > 0 {
        let f = ctxs.drop_last();
        let last = ctxs.last();
        lemma_added(u, f, now, id);
        wellformed::lemma_apply_each_wf(u, f, now);
        let before = u.apply_each(f, now).tree;
        let s = model::added(u, f, now);
        wellformed::lemma_push_contains(s, last.id, id);
        assert(model::context_ids(ctxs).contains(id) <==> model::context_ids(f).contains(id) || id
            == last.id) by {
            if model::context_ids(f).contains(id) {
                let i = choose|i: int| 0 <= i < f.len() && (#[trigger] f[i]).id == id;
                assert(ctxs[i].id == id);
            }
            if id == last.id {
                assert(ctxs[ctxs.len() - 1].id == id);
            }
            if model::context_ids(ctxs).contains(id) {
                let i = choose|i: int| 0 <= i < ctxs.len() && (#[trigger] ctxs[i]).id == id;
                if i < f.len() {
                    assert(f[i].id == id);
                }
            }
        }
        assert(before.contexts.contains_key(id) <==> u.tree.contexts.contains_key(id) || (
        u.tree.admits(id) && model::context_ids(f).contains(id)));
    }
}

/// The contexts that are said to have come in are those that were not shown before and are now.
pub proof fn law_contexts_that_come_in_are_told(
    t: TreeView,
    ctxs: Seq<ContextView>,
    now: SystemTime,
    id: Seq<char>,
)
    requires
        t.wf(),
        t.room(9 * ctxs.len() as int),
    ensures
        model::added(model::without_stale(t, ctxs), ctxs, now).contains(id)
            <==> !t.contexts.contains_key(id) && model::apply_contexts(
            t,
            ctxs,
            now,
        ).tree.contexts.contains_key(id),
{
    let u0 = Update { tree: t, inv: model::no_invalidation() };
    let ids = model::stale(t, ctxs);
    wellformed::lemma_drop_contexts_wf(u0, ids);
    let v = model::without_stale(t, ctxs);
    lemma_added(v, ctxs, now, id);
    wellformed::law_contexts_are_those_of_the_list(t, ctxs, now);
    strmap::lemma_ordered(t.contexts.dom());
    let shown = strmap::ordered(t.contexts.dom());
    wellformed::lemma_missing(shown, ctxs);
    assert(shown.contains(id) <==> shown.to_set().contains(id));
}

} // verus!
