//! The directories of a workspace's trees stay neat.

use crate::api::{DocumentView, TreeInfoView};
use crate::docmap::ForgetView;
use crate::model;
use crate::model::{LayoutView, TreeView, Update};
use crate::names;
use crate::showing;
use crate::state::{FIRST_OVERLAY_INO, ROOT_INO};
use crate::strmap;
use crate::tree_listing::neat;
use crate::wellformed;
use crate::workspace;
use crate::workspace_laws;
use std::time::SystemTime;
use vstd::prelude::*;

verus! {

/// Whether nodes and entries only went, and each entry only with its node or its directory.
spec fn sheds(t: TreeView, u: TreeView) -> bool {
    &&& wellformed::fewer_nodes(u, t)
    &&& forall|d: u64, n: Seq<char>| #[trigger]
        u.entries(d).contains_key(n) ==> t.entries(d).contains_key(n) && t.entries(d)[n]
            == u.entries(d)[n]
    &&& forall|d: u64, n: Seq<char>| #[trigger]
        t.entries(d).contains_key(n) && u.nodes.contains_key(d) && u.nodes.contains_key(
            t.entries(d)[n],
        ) ==> u.entries(d).contains_key(n)
}

/// Whether a node, where there is one, stands in its directory under its name.
spec fn stands(t: TreeView, ino: u64) -> bool {
    t.nodes.contains_key(ino) ==> {
        let node = t.nodes[ino];
        t.entries(node.parent).contains_key(node.name) && t.entries(node.parent)[node.name] == ino
    }
}

/// What an entry leads to stands there.
proof fn lemma_entry_stands(t: TreeView, u: TreeView, d: u64, n: Seq<char>)
    requires
        t.wf(),
        sheds(t, u),
        u.entries(d).contains_key(n),
    ensures
        stands(t, u.entries(d)[n]),
{
    assert(t.entries(d).contains_key(n));
}

proof fn lemma_entry_inos_stand(t: TreeView, u: TreeView, d: u64)
    requires
        t.wf(),
        sheds(t, u),
    ensures
        forall|j: int| 0 <= j < u.entry_inos(d).len() ==> stands(t, #[trigger] u.entry_inos(d)[j]),
        forall|j: int|
            0 <= j < u.entry_names(d).len() ==> u.entries(d).contains_key(
                #[trigger] u.entry_names(d)[j],
            ),
{
    let names = u.entry_names(d);
    if t.children.contains_key(d) {
        assert(t.entries(d).dom().finite());
    } else {
        assert(t.entries(d).dom() =~= Set::empty());
    }
    assert forall|n: Seq<char>| u.entries(d).dom().contains(n) implies t.entries(d).dom().contains(
        n,
    ) by {
        assert(u.entries(d).contains_key(n));
    }
    assert(u.entries(d).dom().subset_of(t.entries(d).dom()));
    vstd::set_lib::lemma_set_subset_finite(t.entries(d).dom(), u.entries(d).dom());
    strmap::lemma_ordered(u.entries(d).dom());
    assert forall|j: int| 0 <= j < names.len() implies u.entries(d).contains_key(
        #[trigger] names[j],
    ) by {
        assert(names.to_set().contains(names[j]));
    }
    assert forall|j: int| 0 <= j < u.entry_inos(d).len() implies stands(
        t,
        #[trigger] u.entry_inos(d)[j],
    ) by {
        assert(u.entries(d).contains_key(names[j]));
        lemma_entry_stands(t, u, d, names[j]);
    }
}

proof fn lemma_drop_node(t: TreeView, u: Update, ino: u64)
    requires
        t.wf(),
        sheds(t, u.tree),
        stands(t, ino),
    ensures
        sheds(t, u.drop_node(ino).tree),
{
    let v = u.drop_node(ino).tree;
    assert forall|d: u64, n: Seq<char>| #[trigger]
        t.entries(d).contains_key(n) && v.nodes.contains_key(d) && v.nodes.contains_key(
            t.entries(d)[n],
        ) implies v.entries(d).contains_key(n) by {
        assert(u.tree.entries(d).contains_key(n));
    }
    assert forall|d: u64, n: Seq<char>| #[trigger] v.entries(d).contains_key(n) implies t.entries(
        d,
    ).contains_key(n) && t.entries(d)[n] == v.entries(d)[n] by {
        assert(u.tree.entries(d).contains_key(n));
    }
}

proof fn lemma_clear(t: TreeView, u: Update, ino: u64)
    requires
        t.wf(),
        sheds(t, u.tree),
    ensures
        sheds(t, u.clear(ino).tree),
{
    lemma_entry_inos_stand(t, u.tree, ino);
    lemma_clear_inos(t, u, u.tree.entry_inos(ino), u.tree.children.dom().len());
}

proof fn lemma_clear_inos(t: TreeView, u: Update, inos: Seq<u64>, depth: nat)
    requires
        t.wf(),
        sheds(t, u.tree),
        forall|j: int| 0 <= j < inos.len() ==> stands(t, #[trigger] inos[j]),
    ensures
        sheds(t, u.clear_inos(inos, depth).tree),
    decreases depth, inos.len(),
{
    if inos.len() > 0 {
        let f = inos.drop_last();
        assert(forall|j: int| 0 <= j < f.len() ==> f[j] == inos[j]);
        lemma_clear_inos(t, u, f, depth);
        let v = u.clear_inos(f, depth);
        let c = inos.last();
        assert(inos[inos.len() - 1] == c);
        if depth > 0 {
            lemma_entry_inos_stand(t, v.tree, c);
            lemma_clear_inos(t, v, v.tree.entry_inos(c), (depth - 1) as nat);
            lemma_drop_node(t, v.clear_to(c, (depth - 1) as nat), c);
        } else {
            lemma_drop_node(t, v, c);
        }
    }
}

proof fn lemma_drop_dir(t: TreeView, u: Update, ino: u64)
    requires
        t.wf(),
        sheds(t, u.tree),
        stands(t, ino),
    ensures
        sheds(t, u.drop_dir(ino).tree),
{
    lemma_clear(t, u, ino);
    lemma_drop_node(t, u.clear(ino), ino);
}

proof fn lemma_drop_trees(t: TreeView, u: Update, names: Seq<Seq<char>>)
    requires
        t.wf(),
        sheds(t, u.tree),
    ensures
        sheds(t, u.drop_trees(names).tree),
        u.drop_trees(names).tree.docs == u.tree.docs,
    decreases names.len(),
{
    if names.len() > 0 {
        lemma_drop_trees(t, u, names.drop_last());
        let v = u.drop_trees(names.drop_last());
        let r = u.drop_trees(names);
        let w = match v.tree.lookup(ROOT_INO, names.last()) {
            Some(i) => v.drop_dir(i),
            None => v,
        };
        if let Some(i) = v.tree.lookup(ROOT_INO, names.last()) {
            assert(v.tree.entries(ROOT_INO).contains_key(names.last()));
            lemma_entry_stands(t, v.tree, ROOT_INO, names.last());
            lemma_drop_dir(t, v, i);
            model::lemma_clear_frame(v, i);
        }
        assert(sheds(t, w.tree));
        assert(forall|d: u64| #[trigger] r.tree.entries(d) == w.tree.entries(d));
        assert(r.tree.nodes == w.tree.nodes);
    }
}

proof fn lemma_prune(
    t: TreeView,
    u: Update,
    dir: u64,
    at: Seq<Seq<char>>,
    paths: Seq<Seq<char>>,
)
    requires
        t.wf(),
        sheds(t, u.tree),
    ensures
        sheds(t, u.prune(dir, at, paths).tree),
        u.prune(dir, at, paths).tree.docs == u.tree.docs,
    decreases u64::MAX - dir, 1int, 0nat,
{
    let have = u.tree.entries(dir);
    let names = u.tree.entry_names(dir);
    lemma_entry_inos_stand(t, u.tree, dir);
    assert forall|j: int| 0 <= j < names.len() implies stands(t, have[#[trigger] names[j]]) by {
        assert(have.contains_key(names[j]));
        lemma_entry_stands(t, u.tree, dir, names[j]);
    }
    lemma_prune_names(t, u, dir, at, paths, have, names);
}

proof fn lemma_prune_names(
    t: TreeView,
    u: Update,
    dir: u64,
    at: Seq<Seq<char>>,
    paths: Seq<Seq<char>>,
    have: Map<Seq<char>, u64>,
    names: Seq<Seq<char>>,
)
    requires
        t.wf(),
        sheds(t, u.tree),
        forall|j: int| 0 <= j < names.len() ==> stands(t, have[#[trigger] names[j]]),
    ensures
        sheds(t, u.prune_names(dir, at, paths, have, names).tree),
        u.prune_names(dir, at, paths, have, names).tree.docs == u.tree.docs,
    decreases u64::MAX - dir, 0int, names.len(),
{
    if names.len() > 0 {
        let f = names.drop_last();
        assert(forall|j: int| 0 <= j < f.len() ==> f[j] == names[j]);
        lemma_prune_names(t, u, dir, at, paths, have, f);
        let v = u.prune_names(dir, at, paths, have, f);
        let x = names.last();
        assert(names[names.len() - 1] == x);
        let c = have[x];
        if v.tree.is_dir(c) {
            if !workspace::on_the_way(at.push(x), paths) {
                lemma_drop_dir(t, v, c);
                model::lemma_clear_frame(v, c);
            } else if c > dir {
                lemma_prune(t, v, c, at.push(x), paths);
            }
        }
    }
}

/// A directory that stays is neat after others went.
proof fn lemma_sheds_neat(t: TreeView, u: TreeView, key: Seq<char>, dir: u64)
    requires
        t.wf(),
        sheds(t, u),
        neat(t, key, dir),
        u.nodes.contains_key(dir),
        forall|d: u64| #[trigger]
            u.docs.contains_key((key, d)) ==> t.docs.contains_key((key, d)) && t.docs[(key, d)]
                == u.docs[(key, d)],
    ensures
        neat(u, key, dir),
{
    assert forall|d: u64| #[trigger]
        u.docs.contains_key((key, d)) && u.nodes.contains_key(u.docs[(key, d)]) implies {
        let i = u.docs[(key, d)];
        u.entries(dir).contains_key(u.nodes[i].name) && u.entries(dir)[u.nodes[i].name] == i
    } by {
        let i = u.docs[(key, d)];
        assert(t.docs.contains_key((key, d)));
        assert(t.nodes.contains_key(i));
        assert(t.entries(dir).contains_key(t.nodes[i].name));
        assert(u.entries(dir).contains_key(t.nodes[i].name));
    }
    assert forall|d: u64, e: u64|
        #![trigger u.docs.contains_key((key, d)), u.docs.contains_key((key, e))]
        u.docs.contains_key((key, d)) && u.docs.contains_key((key, e)) && u.docs[(key, d)]
            == u.docs[(key, e)] && u.nodes.contains_key(u.docs[(key, d)]) implies d == e by {
        assert(t.docs.contains_key((key, d)) && t.docs.contains_key((key, e)));
    }
}

/// Making a directory keeps the others neat.
proof fn lemma_add_dir_neat(
    u: Update,
    parent: u64,
    name: Seq<char>,
    now: SystemTime,
    key: Seq<char>,
    dir: u64,
)
    requires
        u.tree.wf(),
        u.tree.is_dir(parent),
        u.tree.room(1),
        neat(u.tree, key, dir),
        u.tree.nodes.contains_key(dir),
        parent == dir ==> !u.tree.entries(dir).contains_key(name),
    ensures
        neat(u.add_dir(parent, name, now).tree, key, dir),
        u.add_dir(parent, name, now).tree.nodes.contains_key(dir),
        u.add_dir(parent, name, now).tree.docs == u.tree.docs,
{
    let t = u.tree;
    let v = u.add_dir(parent, name, now).tree;
    let ino = t.next_ino;
    assert(!t.nodes.contains_key(ino) && !t.children.contains_key(ino));
    assert(dir != ino);
    assert forall|d: u64| #[trigger]
        v.docs.contains_key((key, d)) && v.nodes.contains_key(v.docs[(key, d)]) implies {
        let i = v.docs[(key, d)];
        v.entries(dir).contains_key(v.nodes[i].name) && v.entries(dir)[v.nodes[i].name] == i
    } by {
        let i = v.docs[(key, d)];
        assert(t.docs.contains_key((key, d)));
        assert(i < t.next_ino || i >= FIRST_OVERLAY_INO);
        assert(t.nodes.contains_key(i));
    }
    assert forall|d: u64, e: u64|
        #![trigger v.docs.contains_key((key, d)), v.docs.contains_key((key, e))]
        v.docs.contains_key((key, d)) && v.docs.contains_key((key, e)) && v.docs[(key, d)]
            == v.docs[(key, e)] && v.nodes.contains_key(v.docs[(key, d)]) implies d == e by {
        assert(t.docs.contains_key((key, d)) && t.docs.contains_key((key, e)));
        let i = t.docs[(key, d)];
        assert(i < t.next_ino || i >= FIRST_OVERLAY_INO);
        assert(t.nodes.contains_key(i));
    }
}

proof fn lemma_apply_each_tree_neat(
    u: Update,
    infos: Seq<TreeInfoView>,
    now: SystemTime,
    key: Seq<char>,
    dir: u64,
)
    requires
        u.tree.wf(),
        u.tree.layout is Workspace,
        u.tree.room(infos.len() as int),
        neat(u.tree, key, dir),
        u.tree.nodes.contains_key(dir),
        dir != ROOT_INO,
    ensures
        neat(u.apply_each_tree(infos, now).tree, key, dir),
        u.apply_each_tree(infos, now).tree.nodes.contains_key(dir),
    decreases infos.len(),
{
    if infos.len() > 0 {
        let f = infos.drop_last();
        let x = infos.last();
        lemma_apply_each_tree_neat(u, f, now, key, dir);
        workspace_laws::lemma_apply_each_tree_wf(u, f, now);
        let v = u.apply_each_tree(f, now);
        let w = if v.tree.trees.contains_key(x.name) {
            v
        } else {
            v.add_dir(ROOT_INO, x.name, now)
        };
        if !v.tree.trees.contains_key(x.name) {
            lemma_add_dir_neat(v, ROOT_INO, x.name, now, key, dir);
        }
        let r = u.apply_each_tree(infos, now).tree;
        assert(r.docs == w.tree.docs && r.nodes == w.tree.nodes && r.children == w.tree.children);
        assert(forall|d: u64| #[trigger] r.entries(d) == w.tree.entries(d));
    }
}

proof fn lemma_make_path_neat(
    u: Update,
    top: u64,
    segs: Seq<Seq<char>>,
    now: SystemTime,
    key: Seq<char>,
    dir: u64,
)
    requires
        u.tree.wf(),
        u.tree.layout is Workspace,
        u.tree.is_dir(top),
        u.tree.room(segs.len() as int),
        neat(u.tree, key, dir),
        u.tree.nodes.contains_key(dir),
    ensures
        neat(u.make_path(top, segs, now).0.tree, key, dir),
        u.make_path(top, segs, now).0.tree.nodes.contains_key(dir),
    decreases segs.len(),
{
    if segs.len() > 0 {
        let f = segs.drop_last();
        lemma_make_path_neat(u, top, f, now, key, dir);
        workspace_laws::lemma_make_path(u, top, f, now);
        let (v, at) = u.make_path(top, f, now);
        if let Some(i) = at {
            if v.tree.lookup(i, segs.last()) is None {
                assert(!v.tree.entries(i).contains_key(segs.last()));
                lemma_add_dir_neat(v, i, segs.last(), now, key, dir);
            }
        }
    }
}

proof fn lemma_make_paths_neat(
    u: Update,
    top: u64,
    paths: Seq<Seq<char>>,
    now: SystemTime,
    key: Seq<char>,
    dir: u64,
)
    requires
        u.tree.wf(),
        u.tree.layout is Workspace,
        u.tree.is_dir(top),
        u.tree.room(workspace::total_segments(paths) as int),
        neat(u.tree, key, dir),
        u.tree.nodes.contains_key(dir),
    ensures
        neat(u.make_paths(top, paths, now).tree, key, dir),
        u.make_paths(top, paths, now).tree.nodes.contains_key(dir),
    decreases paths.len(),
{
    if paths.len() > 0 {
        let f = paths.drop_last();
        lemma_make_paths_neat(u, top, f, now, key, dir);
        workspace_laws::lemma_make_paths(u, top, f, now);
        let v = u.make_paths(top, f, now);
        lemma_make_path_neat(v, top, workspace::segments(paths.last()), now, key, dir);
    }
}

/// Bindings that are dropped leave fewer.
proof fn lemma_forget_fewer(t: TreeView, u: TreeView, rule: ForgetView, key: Seq<char>)
    requires
        u.docs == t.docs,
    ensures
        forall|d: u64| #[trigger]
            u.forget(rule).docs.contains_key((key, d)) ==> t.docs.contains_key((key, d))
                && t.docs[(key, d)] == u.forget(rule).docs[(key, d)],
{
}

/// When the trees of a mount come, go or change, a directory that stays, stays neat.
pub proof fn law_trees_keep_directories_neat(
    t: TreeView,
    infos: Seq<TreeInfoView>,
    now: SystemTime,
    key: Seq<char>,
    dir: u64,
)
    requires
        t.wf(),
        t.layout is Workspace,
        t.room(infos.len() as int),
        neat(t, key, dir),
        dir != ROOT_INO,
        dir < t.next_ino,
        workspace::apply_trees(t, infos, now).tree.nodes.contains_key(dir),
    ensures
        neat(workspace::apply_trees(t, infos, now).tree, key, dir),
{
    let u = Update { tree: t, inv: model::no_invalidation() };
    let gone = workspace::missing_trees(strmap::ordered(t.trees.dom()), infos);
    lemma_drop_trees(t, u, gone);
    workspace_laws::lemma_drop_trees_wf(u, gone);
    let v = u.drop_trees(gone);
    let rule = ForgetView::Inos(workspace::removed_inos(v.inv));
    let w = Update { tree: v.tree.forget(rule), ..v };
    wellformed::lemma_forget_wf(v.tree, rule);
    lemma_forget_fewer(t, v.tree, rule, key);
    assert(forall|d: u64| #[trigger] w.tree.entries(d) == v.tree.entries(d));
    lemma_apply_each_tree_old(w, infos, now, dir);
    lemma_sheds_neat(t, w.tree, key, dir);
    lemma_apply_each_tree_neat(w, infos, now, key, dir);
}

/// Bringing trees in makes no node with an inode that was handed out.
proof fn lemma_apply_each_tree_old(
    u: Update,
    infos: Seq<TreeInfoView>,
    now: SystemTime,
    dir: u64,
)
    requires
        u.tree.wf(),
        u.tree.layout is Workspace,
        u.tree.room(infos.len() as int),
        dir < u.tree.next_ino,
    ensures
        u.apply_each_tree(infos, now).tree.nodes.contains_key(dir) ==> u.tree.nodes.contains_key(
            dir,
        ),
        u.apply_each_tree(infos, now).tree.next_ino >= u.tree.next_ino,
    decreases infos.len(),
{
    if infos.len() > 0 {
        lemma_apply_each_tree_old(u, infos.drop_last(), now, dir);
        workspace_laws::lemma_apply_each_tree_wf(u, infos.drop_last(), now);
    }
}

/// Making paths makes no node with an inode that was handed out.
proof fn lemma_make_path_old(
    u: Update,
    top: u64,
    segs: Seq<Seq<char>>,
    now: SystemTime,
    dir: u64,
)
    requires
        u.tree.wf(),
        u.tree.layout is Workspace,
        u.tree.is_dir(top),
        u.tree.room(segs.len() as int),
        dir < u.tree.next_ino,
    ensures
        u.make_path(top, segs, now).0.tree.nodes.contains_key(dir) ==> u.tree.nodes.contains_key(
            dir,
        ),
        u.make_path(top, segs, now).0.tree.next_ino >= u.tree.next_ino,
    decreases segs.len(),
{
    if segs.len() > 0 {
        lemma_make_path_old(u, top, segs.drop_last(), now, dir);
        workspace_laws::lemma_make_path(u, top, segs.drop_last(), now);
    }
}

proof fn lemma_make_paths_old(
    u: Update,
    top: u64,
    paths: Seq<Seq<char>>,
    now: SystemTime,
    dir: u64,
)
    requires
        u.tree.wf(),
        u.tree.layout is Workspace,
        u.tree.is_dir(top),
        u.tree.room(workspace::total_segments(paths) as int),
        dir < u.tree.next_ino,
    ensures
        u.make_paths(top, paths, now).tree.nodes.contains_key(dir) ==> u.tree.nodes.contains_key(
            dir,
        ),
        u.make_paths(top, paths, now).tree.next_ino >= u.tree.next_ino,
    decreases paths.len(),
{
    if paths.len() > 0 {
        let f = paths.drop_last();
        lemma_make_paths_old(u, top, f, now, dir);
        workspace_laws::lemma_make_paths(u, top, f, now);
        let v = u.make_paths(top, f, now);
        lemma_make_path_old(v, top, workspace::segments(paths.last()), now, dir);
    }
}

/// When the directories of a tree come and go, a directory that stays, stays neat.
pub proof fn law_paths_keep_directories_neat(
    t: TreeView,
    tree: Seq<char>,
    paths: Seq<Seq<char>>,
    now: SystemTime,
    key: Seq<char>,
    dir: u64,
)
    requires
        t.wf(),
        t.layout is Workspace,
        t.room(workspace::total_segments(paths) as int),
        neat(t, key, dir),
        dir < t.next_ino,
        workspace::apply_tree_paths(t, tree, paths, now).tree.nodes.contains_key(dir),
    ensures
        neat(workspace::apply_tree_paths(t, tree, paths, now).tree, key, dir),
{
    let u = Update { tree: t, inv: model::no_invalidation() };
    if let Some(top) = t.tree_dir(tree, Seq::empty()) {
        workspace_laws::lemma_top_dir(t, tree);
        lemma_prune(t, u, top, Seq::empty(), paths);
        workspace_laws::lemma_prune_wf(u, top, Seq::empty(), paths);
        let v = u.prune(top, Seq::empty(), paths);
        let rule = ForgetView::Inos(workspace::removed_inos(v.inv));
        let w = Update { tree: v.tree.forget(rule), ..v };
        wellformed::lemma_forget_wf(v.tree, rule);
        lemma_forget_fewer(t, v.tree, rule, key);
        assert(forall|d: u64| #[trigger] w.tree.entries(d) == v.tree.entries(d));
        lemma_make_paths_old(w, top, paths, now, dir);
        lemma_sheds_neat(t, w.tree, key, dir);
        lemma_make_paths_neat(w, top, paths, now, key, dir);
    }
}

/// Renaming a directory of a tree that stands under its name keeps every directory neat, and keys
/// those of inodes.
pub proof fn law_renames_keep_directories_neat(
    t: TreeView,
    ino: u64,
    new_name: Seq<char>,
    tree: Seq<char>,
    key: Seq<char>,
    dir: u64,
)
    requires
        t.wf(),
        t.layout is Workspace,
        neat(t, key, dir),
        t.nodes.contains_key(ino) ==> t.lookup(t.nodes[ino].parent, t.nodes[ino].name) == Some(ino),
    ensures
        neat(t.rename_path(ino, new_name, tree), key, dir),
        keyed(t) ==> keyed(t.rename_path(ino, new_name, tree)),
{
    if keyed(t) {
        lemma_keyed_stays(t, t.rename_path(ino, new_name, tree));
    }
    let u = t.rename_path(ino, new_name, tree);
    assert forall|d: u64| #[trigger]
        u.docs.contains_key((key, d)) && u.nodes.contains_key(u.docs[(key, d)]) implies {
        let i = u.docs[(key, d)];
        u.entries(dir).contains_key(u.nodes[i].name) && u.entries(dir)[u.nodes[i].name] == i
    } by {
        let i = u.docs[(key, d)];
        assert(t.docs.contains_key((key, d)));
        assert(t.nodes.contains_key(i) && !t.nodes[i].is_dir());
        assert(t.entries(dir).contains_key(t.nodes[i].name));
    }
    assert forall|d: u64, e: u64|
        #![trigger u.docs.contains_key((key, d)), u.docs.contains_key((key, e))]
        u.docs.contains_key((key, d)) && u.docs.contains_key((key, e)) && u.docs[(key, d)]
            == u.docs[(key, e)] && u.nodes.contains_key(u.docs[(key, d)]) implies d == e by {
        assert(t.docs.contains_key((key, d)) && t.docs.contains_key((key, e)));
    }
}

// ── new directories ──────────────────────────────────────────────────────────

/// Whether a key is that of an inode that was handed out.
pub open spec fn is_key(t: TreeView, key: Seq<char>) -> bool {
    exists|i: u64| i < t.next_ino && key == #[trigger] workspace::dir_key(i)
}

/// Whether documents are bound under the keys of inodes that were handed out.
pub open spec fn keyed(t: TreeView) -> bool {
    forall|k: (Seq<char>, u64)| #[trigger] t.docs.contains_key(k) ==> is_key(t, k.0)
}

/// Where bindings only went and inodes were only handed out, keys stay those of inodes.
proof fn lemma_keyed_stays(t: TreeView, u: TreeView)
    requires
        keyed(t),
        t.next_ino <= u.next_ino,
        forall|k: (Seq<char>, u64)| #[trigger] u.docs.contains_key(k) ==> t.docs.contains_key(k),
    ensures
        keyed(u),
{
    assert forall|k: (Seq<char>, u64)| #[trigger] u.docs.contains_key(k) implies is_key(u, k.0) by {
        assert(is_key(t, k.0));
        let i = choose|i: u64| i < t.next_ino && k.0 == #[trigger] workspace::dir_key(i);
        assert(k.0 == workspace::dir_key(i));
    }
}

/// Under the key of an inode that was not handed out, nothing is bound.
proof fn lemma_new_key(t: TreeView, u: TreeView, dir: u64)
    requires
        keyed(t),
        dir >= t.next_ino,
        forall|k: (Seq<char>, u64)| #[trigger] u.docs.contains_key(k) ==> t.docs.contains_key(k),
    ensures
        neat(u, workspace::dir_key(dir), dir),
{
    let key = workspace::dir_key(dir);
    assert forall|d: u64| !u.docs.contains_key((key, d)) by {
        if u.docs.contains_key((key, d)) {
            assert(t.docs.contains_key((key, d)));
            assert(is_key(t, key));
            let i = choose|i: u64| i < t.next_ino && key == #[trigger] workspace::dir_key(i);
            names::lemma_decimal_differs(i as nat, dir as nat);
        }
    }
}

proof fn lemma_apply_each_tree_docs(u: Update, infos: Seq<TreeInfoView>, now: SystemTime)
    ensures
        u.apply_each_tree(infos, now).tree.docs == u.tree.docs,
    decreases infos.len(),
{
    if infos.len() > 0 {
        lemma_apply_each_tree_docs(u, infos.drop_last(), now);
    }
}

proof fn lemma_make_path_docs(u: Update, top: u64, segs: Seq<Seq<char>>, now: SystemTime)
    ensures
        u.make_path(top, segs, now).0.tree.docs == u.tree.docs,
    decreases segs.len(),
{
    if segs.len() > 0 {
        lemma_make_path_docs(u, top, segs.drop_last(), now);
    }
}

proof fn lemma_make_paths_docs(u: Update, top: u64, paths: Seq<Seq<char>>, now: SystemTime)
    ensures
        u.make_paths(top, paths, now).tree.docs == u.tree.docs,
    decreases paths.len(),
{
    if paths.len() > 0 {
        lemma_make_paths_docs(u, top, paths.drop_last(), now);
        let v = u.make_paths(top, paths.drop_last(), now);
        lemma_make_path_docs(v, top, workspace::segments(paths.last()), now);
    }
}

/// A new mount of a workspace binds nothing.
pub proof fn law_new_mount_is_keyed(layout: LayoutView, now: SystemTime)
    ensures
        keyed(TreeView::rooted(layout, now)),
{
}

/// When the trees of a mount come, go or change, keys stay those of inodes, and each directory that
/// is new is neat.
pub proof fn law_new_trees_are_neat(
    t: TreeView,
    infos: Seq<TreeInfoView>,
    now: SystemTime,
    dir: u64,
)
    requires
        t.wf(),
        t.layout is Workspace,
        t.room(infos.len() as int),
        keyed(t),
    ensures
        keyed(workspace::apply_trees(t, infos, now).tree),
        dir >= t.next_ino ==> neat(
            workspace::apply_trees(t, infos, now).tree,
            workspace::dir_key(dir),
            dir,
        ),
{
    let u = Update { tree: t, inv: model::no_invalidation() };
    let gone = workspace::missing_trees(strmap::ordered(t.trees.dom()), infos);
    lemma_drop_trees(t, u, gone);
    workspace_laws::lemma_drop_trees_wf(u, gone);
    let v = u.drop_trees(gone);
    let rule = ForgetView::Inos(workspace::removed_inos(v.inv));
    let w = Update { tree: v.tree.forget(rule), ..v };
    wellformed::lemma_forget_wf(v.tree, rule);
    lemma_apply_each_tree_docs(w, infos, now);
    lemma_apply_each_tree_old(w, infos, now, ROOT_INO);
    let r = workspace::apply_trees(t, infos, now).tree;
    lemma_keyed_stays(t, r);
    if dir >= t.next_ino {
        lemma_new_key(t, r, dir);
    }
}

/// When the directories of a tree come and go, keys stay those of inodes, and each directory that
/// is new is neat.
pub proof fn law_new_directories_are_neat(
    t: TreeView,
    tree: Seq<char>,
    paths: Seq<Seq<char>>,
    now: SystemTime,
    dir: u64,
)
    requires
        t.wf(),
        t.layout is Workspace,
        t.room(workspace::total_segments(paths) as int),
        keyed(t),
    ensures
        keyed(workspace::apply_tree_paths(t, tree, paths, now).tree),
        dir >= t.next_ino ==> neat(
            workspace::apply_tree_paths(t, tree, paths, now).tree,
            workspace::dir_key(dir),
            dir,
        ),
{
    let u = Update { tree: t, inv: model::no_invalidation() };
    let r = workspace::apply_tree_paths(t, tree, paths, now).tree;
    if let Some(top) = t.tree_dir(tree, Seq::empty()) {
        workspace_laws::lemma_top_dir(t, tree);
        lemma_prune(t, u, top, Seq::empty(), paths);
        workspace_laws::lemma_prune_wf(u, top, Seq::empty(), paths);
        let v = u.prune(top, Seq::empty(), paths);
        let rule = ForgetView::Inos(workspace::removed_inos(v.inv));
        let w = Update { tree: v.tree.forget(rule), ..v };
        wellformed::lemma_forget_wf(v.tree, rule);
        lemma_make_paths_docs(w, top, paths, now);
        lemma_make_paths_old(w, top, paths, now, ROOT_INO);
    }
    lemma_keyed_stays(t, r);
    if dir >= t.next_ino {
        lemma_new_key(t, r, dir);
    }
}

/// When the documents of a directory of a tree come, go or change, keys stay those of inodes.
pub proof fn law_tree_documents_keep_keyed(
    t: TreeView,
    tree: Seq<char>,
    path: Seq<char>,
    docs: Seq<DocumentView>,
    now: SystemTime,
)
    requires
        t.wf(),
        t.layout is Workspace,
        t.room(docs.len() as int),
        keyed(t),
    ensures
        keyed(workspace::apply_tree_documents(t, tree, path, docs, now).tree),
{
    let u = workspace::apply_tree_documents(t, tree, path, docs, now).tree;
    if let Some(dir) = t.tree_dir(tree, path) {
        let key = workspace::dir_key(dir);
        let want = workspace::tree_files(
            model::by_id(docs),
            t.subdirs(dir),
            workspace::shown_workspace(t),
        );
        let up = Update { tree: t, inv: model::no_invalidation() };
        let top = t.context_dir(ROOT_INO, tree)->0;
        workspace_laws::lemma_walk_is_dir(t, top, workspace::segments(path));
        workspace_laws::law_tree_documents_keep_directories(t, tree, path, docs, now);
        showing::lemma_sync_dir_docs(up, dir, key, want, now);
        assert(dir < t.next_ino);
        assert forall|k: (Seq<char>, u64)| #[trigger] u.docs.contains_key(k) implies is_key(
            u,
            k.0,
        ) by {
            if k.0 == key {
                assert(k.0 == workspace::dir_key(dir));
            } else {
                assert(t.docs.contains_key(k));
                assert(is_key(t, k.0));
                let i = choose|i: u64| i < t.next_ino && k.0 == #[trigger] workspace::dir_key(i);
                assert(k.0 == workspace::dir_key(i));
            }
        }
    }
}

} // verus!
