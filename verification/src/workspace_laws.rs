//! What the trees of a workspace promise.

use crate::api::{DocumentView, TreeInfoView};
use crate::docmap::ForgetView;
use crate::model;
use crate::model::{TreeView, Update};
use crate::state::ROOT_INO;
use crate::strmap;
use crate::wellformed;
use crate::workspace;
use std::time::SystemTime;
use vstd::prelude::*;

verus! {

/// A mount of a workspace shows no contexts.
pub proof fn lemma_no_contexts(t: TreeView)
    requires
        t.wf(),
        t.layout is Workspace,
    ensures
        forall|id: Seq<char>| !t.contexts.contains_key(id),
{
    assert forall|id: Seq<char>| !t.contexts.contains_key(id) by {
        if t.contexts.contains_key(id) {
            assert(t.admits(id));
        }
    }
}

proof fn lemma_drop_dir_wf(u: Update, ino: u64)
    requires
        u.tree.wf(),
        u.tree.layout is Workspace,
        ino != ROOT_INO,
    ensures
        u.drop_dir(ino).tree.wf(),
        model::same_but_nodes(u.drop_dir(ino).tree, u.tree),
        wellformed::fewer_nodes(u.drop_dir(ino).tree, u.tree),
{
    lemma_no_contexts(u.tree);
    wellformed::lemma_drop_wf(u, ino);
    wellformed::lemma_clear_wf(u, ino);
    model::lemma_clear_frame(u, ino);
}

/// The top directory is in no other.
proof fn lemma_entry_not_root(t: TreeView, dir: u64, name: Seq<char>)
    requires
        t.wf(),
        t.entries(dir).contains_key(name),
    ensures
        t.entries(dir)[name] != ROOT_INO,
{
}

proof fn lemma_add_dir_wf(u: Update, parent: u64, name: Seq<char>, now: SystemTime)
    requires
        u.tree.wf(),
        u.tree.layout is Workspace,
        u.tree.is_dir(parent),
        u.tree.room(1),
    ensures
        u.add_dir(parent, name, now).tree.wf(),
        u.add_dir(parent, name, now).tree.is_dir(u.tree.next_ino),
        forall|d: u64| #[trigger]
            u.tree.is_dir(d) ==> u.add_dir(parent, name, now).tree.is_dir(d),
{
    let t = u.tree;
    lemma_no_contexts(t);
    wellformed::lemma_take_ino_wf(t);
    assert(t.nodes.contains_key(parent));
    wellformed::lemma_insert_wf(t.take_ino(), model::dir_node(t.next_ino, parent, name, now));
}

proof fn lemma_trees_wf(t: TreeView, u: TreeView)
    requires
        t.wf(),
        u == (TreeView { trees: u.trees, ..t }),
    ensures
        u.wf(),
{
    wellformed::lemma_same_nodes_wf(t, u);
}

/// Taking trees away keeps the tree of nodes well-formed.
pub proof fn lemma_drop_trees_wf(u: Update, names: Seq<Seq<char>>)
    requires
        u.tree.wf(),
        u.tree.layout is Workspace,
    ensures
        u.drop_trees(names).tree.wf(),
        u.drop_trees(names).tree.layout == u.tree.layout,
        u.drop_trees(names).tree.next_ino == u.tree.next_ino,
        forall|n: Seq<char>| #[trigger]
            u.drop_trees(names).tree.trees.contains_key(n) <==> u.tree.trees.contains_key(n)
                && !names.contains(n),
    decreases names.len(),
{
    if names.len() > 0 {
        let f = names.drop_last();
        let x = names.last();
        lemma_drop_trees_wf(u, f);
        let v = u.drop_trees(f);
        let w = match v.tree.lookup(ROOT_INO, x) {
            Some(i) => v.drop_dir(i),
            None => v,
        };
        if let Some(i) = v.tree.lookup(ROOT_INO, x) {
            lemma_entry_not_root(v.tree, ROOT_INO, x);
            lemma_drop_dir_wf(v, i);
        }
        lemma_trees_wf(w.tree, u.drop_trees(names).tree);
        assert(names == f.push(x));
        assert forall|n: Seq<char>| #[trigger]
            u.drop_trees(names).tree.trees.contains_key(n) <==> u.tree.trees.contains_key(n)
                && !names.contains(n) by {
            wellformed::lemma_push_contains(f, x, n);
            assert(v.tree.trees.contains_key(n) <==> u.tree.trees.contains_key(n) && !f.contains(
                n,
            ));
        }
    }
}

/// Whether a list tells of a tree.
pub open spec fn has_tree(infos: Seq<TreeInfoView>, name: Seq<char>) -> bool {
    exists|i: int| 0 <= i < infos.len() && (#[trigger] infos[i]).name == name
}

/// Bringing trees in keeps the tree of nodes well-formed.
pub proof fn lemma_apply_each_tree_wf(u: Update, infos: Seq<TreeInfoView>, now: SystemTime)
    requires
        u.tree.wf(),
        u.tree.layout is Workspace,
        u.tree.room(infos.len() as int),
    ensures
        u.apply_each_tree(infos, now).tree.wf(),
        u.apply_each_tree(infos, now).tree.layout == u.tree.layout,
        u.apply_each_tree(infos, now).tree.next_ino <= u.tree.next_ino + infos.len(),
        forall|n: Seq<char>| #[trigger]
            u.apply_each_tree(infos, now).tree.trees.contains_key(n) <==> u.tree.trees.contains_key(
                n,
            ) || has_tree(infos, n),
    decreases infos.len(),
{
    if infos.len() > 0 {
        let f = infos.drop_last();
        let x = infos.last();
        lemma_apply_each_tree_wf(u, f, now);
        let v = u.apply_each_tree(f, now);
        let w = if v.tree.trees.contains_key(x.name) {
            v
        } else {
            v.add_dir(ROOT_INO, x.name, now)
        };
        if !v.tree.trees.contains_key(x.name) {
            lemma_add_dir_wf(v, ROOT_INO, x.name, now);
        }
        let r = u.apply_each_tree(infos, now);
        lemma_trees_wf(w.tree, r.tree);
        assert forall|n: Seq<char>| #[trigger]
            r.tree.trees.contains_key(n) <==> u.tree.trees.contains_key(n) || has_tree(infos, n) by {
            assert(v.tree.trees.contains_key(n) <==> u.tree.trees.contains_key(n) || has_tree(
                f,
                n,
            ));
            if has_tree(f, n) {
                let i = choose|i: int| 0 <= i < f.len() && (#[trigger] f[i]).name == n;
                assert(infos[i].name == n);
            }
            if n == x.name {
                assert(infos[infos.len() - 1].name == n);
            }
            if has_tree(infos, n) && n != x.name {
                let i = choose|i: int| 0 <= i < infos.len() && (#[trigger] infos[i]).name == n;
                assert(f[i].name == n);
            }
        }
    } else {
        assert forall|n: Seq<char>| !has_tree(infos, n) by {}
    }
}

proof fn lemma_missing_trees(names: Seq<Seq<char>>, infos: Seq<TreeInfoView>)
    ensures
        forall|n: Seq<char>| #[trigger]
            workspace::missing_trees(names, infos).contains(n) <==> names.contains(n) && !has_tree(
                infos,
                n,
            ),
    decreases names.len(),
{
    if names.len() > 0 {
        let f = names.drop_last();
        lemma_missing_trees(f, infos);
        assert(names == f.push(names.last()));
        assert forall|n: Seq<char>| #[trigger]
            workspace::missing_trees(names, infos).contains(n) <==> names.contains(n) && !has_tree(
                infos,
                n,
            ) by {
            wellformed::lemma_push_contains(f, names.last(), n);
            wellformed::lemma_push_contains(
                workspace::missing_trees(f, infos),
                names.last(),
                n,
            );
        }
    }
}

/// Making the trees of a mount those of a list keeps the tree of nodes well-formed; the mount
/// then shows exactly the trees of the list.
pub proof fn law_trees_are_those_of_the_list(
    t: TreeView,
    infos: Seq<TreeInfoView>,
    now: SystemTime,
)
    requires
        t.wf(),
        t.layout is Workspace,
        t.trees.dom().finite(),
        t.room(infos.len() as int),
    ensures
        workspace::apply_trees(t, infos, now).tree.wf(),
        forall|n: Seq<char>| #[trigger]
            workspace::apply_trees(t, infos, now).tree.trees.contains_key(n) <==> has_tree(
                infos,
                n,
            ),
{
    let u = Update { tree: t, inv: model::no_invalidation() };
    let names = strmap::ordered(t.trees.dom());
    strmap::lemma_ordered(t.trees.dom());
    lemma_missing_trees(names, infos);
    let gone = workspace::missing_trees(names, infos);
    lemma_drop_trees_wf(u, gone);
    let v = u.drop_trees(gone);
    let rule = ForgetView::Inos(workspace::removed_inos(v.inv));
    wellformed::lemma_forget_wf(v.tree, rule);
    let w = Update { tree: v.tree.forget(rule), ..v };
    lemma_apply_each_tree_wf(w, infos, now);
    let r = workspace::apply_trees(t, infos, now).tree;
    assert forall|n: Seq<char>| #[trigger] r.trees.contains_key(n) <==> has_tree(infos, n) by {
        assert(names.to_set().contains(n) <==> names.contains(n));
        assert(v.tree.trees.contains_key(n) <==> t.trees.contains_key(n) && !gone.contains(n));
        assert(w.tree.trees.contains_key(n) <==> v.tree.trees.contains_key(n));
        assert(gone.contains(n) <==> names.contains(n) && !has_tree(infos, n));
    }
}

/// Taking directories away that are on no way keeps the tree of nodes well-formed.
pub proof fn lemma_prune_wf(u: Update, dir: u64, at: Seq<Seq<char>>, paths: Seq<Seq<char>>)
    requires
        u.tree.wf(),
        u.tree.layout is Workspace,
    ensures
        u.prune(dir, at, paths).tree.wf(),
        model::same_but_nodes(u.prune(dir, at, paths).tree, u.tree),
        wellformed::fewer_nodes(u.prune(dir, at, paths).tree, u.tree),
        u.tree.is_dir(dir) ==> u.prune(dir, at, paths).tree.is_dir(dir),
    decreases u64::MAX - dir, 1int, 0nat,
{
    let t = u.tree;
    let have = t.entries(dir);
    let names = t.entry_names(dir);
    if !t.children.contains_key(dir) {
        assert(have.dom() =~= Set::empty());
    }
    strmap::lemma_ordered(have.dom());
    assert forall|j: int| 0 <= j < names.len() implies have[#[trigger] names[j]] != ROOT_INO && (
    t.is_dir(have[names[j]]) ==> have[names[j]] > dir) by {
        assert(names.to_set().contains(names[j]));
        assert(t.entries(dir).contains_key(names[j]));
        lemma_entry_not_root(t, dir, names[j]);
    }
    lemma_prune_names_wf(u, dir, at, paths, have, names);
}

proof fn lemma_prune_names_wf(
    u: Update,
    dir: u64,
    at: Seq<Seq<char>>,
    paths: Seq<Seq<char>>,
    have: Map<Seq<char>, u64>,
    names: Seq<Seq<char>>,
)
    requires
        u.tree.wf(),
        u.tree.layout is Workspace,
        forall|j: int|
            0 <= j < names.len() ==> have[#[trigger] names[j]] != ROOT_INO && (u.tree.is_dir(
                have[names[j]],
            ) ==> have[names[j]] > dir),
    ensures
        ({
            let r = u.prune_names(dir, at, paths, have, names).tree;
            &&& r.wf()
            &&& model::same_but_nodes(r, u.tree)
            &&& wellformed::fewer_nodes(r, u.tree)
            &&& u.tree.is_dir(dir) ==> r.is_dir(dir)
        }),
    decreases u64::MAX - dir, 0int, names.len(),
{
    if names.len() > 0 {
        let f = names.drop_last();
        assert(forall|j: int| 0 <= j < f.len() ==> f[j] == names[j]);
        lemma_prune_names_wf(u, dir, at, paths, have, f);
        let v = u.prune_names(dir, at, paths, have, f);
        let x = names.last();
        assert(names[names.len() - 1] == x);
        let c = have[x];
        if v.tree.is_dir(c) {
            assert(v.tree.nodes.contains_key(c));
            if !workspace::on_the_way(at.push(x), paths) {
                lemma_drop_dir_wf(v, c);
                lemma_keeps_below(v, c, dir);
            } else if c > dir {
                lemma_prune_wf(v, c, at.push(x), paths);
                lemma_prune_keeps(v, c, at.push(x), paths, dir);
            }
        }
    }
}

/// Taking a directory away keeps those with smaller inodes.
proof fn lemma_keeps_below(u: Update, ino: u64, dir: u64)
    requires
        u.tree.wf(),
        u.tree.layout is Workspace,
        dir < ino,
    ensures
        u.tree.is_dir(dir) ==> u.drop_dir(ino).tree.is_dir(dir),
{
    if u.tree.is_dir(dir) {
        lemma_no_contexts(u.tree);
        wellformed::lemma_clear_wf(u, ino);
        if !u.clear(ino).tree.nodes.contains_key(dir) {
            crate::laws::lemma_clear_removes(u, ino, dir);
        }
    }
}

/// Pruning below a directory keeps those with smaller inodes.
proof fn lemma_prune_keeps(
    u: Update,
    ino: u64,
    at: Seq<Seq<char>>,
    paths: Seq<Seq<char>>,
    dir: u64,
)
    requires
        u.tree.wf(),
        u.tree.layout is Workspace,
        dir <= ino,
    ensures
        u.tree.is_dir(dir) ==> u.prune(ino, at, paths).tree.is_dir(dir),
    decreases u64::MAX - ino, 1int, 0nat,
{
    let t = u.tree;
    let have = t.entries(ino);
    let names = t.entry_names(ino);
    if !t.children.contains_key(ino) {
        assert(have.dom() =~= Set::empty());
    }
    strmap::lemma_ordered(have.dom());
    assert forall|j: int| 0 <= j < names.len() implies have[#[trigger] names[j]] != ROOT_INO && (
    t.is_dir(have[names[j]]) ==> have[names[j]] > ino) by {
        assert(names.to_set().contains(names[j]));
        assert(t.entries(ino).contains_key(names[j]));
        lemma_entry_not_root(t, ino, names[j]);
    }
    lemma_prune_names_keeps(u, ino, at, paths, have, names, dir);
}

proof fn lemma_prune_names_keeps(
    u: Update,
    ino: u64,
    at: Seq<Seq<char>>,
    paths: Seq<Seq<char>>,
    have: Map<Seq<char>, u64>,
    names: Seq<Seq<char>>,
    dir: u64,
)
    requires
        u.tree.wf(),
        u.tree.layout is Workspace,
        dir <= ino,
        forall|j: int|
            0 <= j < names.len() ==> have[#[trigger] names[j]] != ROOT_INO && (u.tree.is_dir(
                have[names[j]],
            ) ==> have[names[j]] > ino),
    ensures
        u.tree.is_dir(dir) ==> u.prune_names(ino, at, paths, have, names).tree.is_dir(dir),
    decreases u64::MAX - ino, 0int, names.len(),
{
    if names.len() > 0 {
        let f = names.drop_last();
        assert(forall|j: int| 0 <= j < f.len() ==> f[j] == names[j]);
        lemma_prune_names_keeps(u, ino, at, paths, have, f, dir);
        lemma_prune_names_wf(u, ino, at, paths, have, f);
        let v = u.prune_names(ino, at, paths, have, f);
        let x = names.last();
        assert(names[names.len() - 1] == x);
        let c = have[x];
        if v.tree.is_dir(c) {
            assert(v.tree.nodes.contains_key(c));
            if !workspace::on_the_way(at.push(x), paths) {
                lemma_keeps_below(v, c, dir);
            } else if c > ino {
                lemma_prune_keeps(v, c, at.push(x), paths, dir);
            }
        }
    }
}

/// Whether directories and entries only came.
pub open spec fn only_more(t: TreeView, u: TreeView) -> bool {
    &&& forall|d: u64| #[trigger] t.is_dir(d) ==> u.is_dir(d)
    &&& forall|d: u64, n: Seq<char>|
        (#[trigger] t.lookup(d, n)) is Some ==> u.lookup(d, n) == t.lookup(d, n)
}

proof fn lemma_add_dir_only_more(u: Update, parent: u64, name: Seq<char>, now: SystemTime)
    requires
        u.tree.wf(),
        u.tree.layout is Workspace,
        u.tree.is_dir(parent),
        u.tree.room(1),
        u.tree.lookup(parent, name) is None,
    ensures
        only_more(u.tree, u.add_dir(parent, name, now).tree),
        u.add_dir(parent, name, now).tree.lookup(parent, name) == Some(u.tree.next_ino),
{
    let t = u.tree;
    let r = u.add_dir(parent, name, now).tree;
    lemma_add_dir_wf(u, parent, name, now);
    wellformed::lemma_take_ino_wf(t);
    assert(t.nodes.contains_key(parent));
    assert forall|d: u64, n: Seq<char>| (#[trigger] t.lookup(d, n)) is Some implies r.lookup(d, n)
        == t.lookup(d, n) by {}
}

/// Making the directories along a way.
pub proof fn lemma_make_path(u: Update, dir: u64, segs: Seq<Seq<char>>, now: SystemTime)
    requires
        u.tree.wf(),
        u.tree.layout is Workspace,
        u.tree.is_dir(dir),
        u.tree.room(segs.len() as int),
    ensures
        ({
            let (v, at) = u.make_path(dir, segs, now);
            &&& v.tree.wf()
            &&& v.tree.layout == u.tree.layout
            &&& v.tree.next_ino <= u.tree.next_ino + segs.len()
            &&& only_more(u.tree, v.tree)
            &&& at is Some ==> v.tree.is_dir(at->0)
            &&& v.tree.walk(dir, segs) == at
            &&& is_made(v.tree, dir, segs)
        }),
    decreases segs.len(),
{
    if segs.len() > 0 {
        let f = segs.drop_last();
        lemma_make_path(u, dir, f, now);
        let (v, at) = u.make_path(dir, f, now);
        let (r, end) = u.make_path(dir, segs, now);
        if let Some(i) = at {
            let x = segs.last();
            if v.tree.lookup(i, x) is None {
                lemma_add_dir_wf(v, i, x, now);
                lemma_add_dir_only_more(v, i, x, now);
            }
        }
        lemma_walk_stays(v.tree, r.tree, dir, f);
        assert forall|d: u64| #[trigger] u.tree.is_dir(d) implies r.tree.is_dir(d) by {
            assert(v.tree.is_dir(d));
        }
        assert forall|d: u64, n: Seq<char>| (#[trigger] u.tree.lookup(d, n)) is Some implies
            r.tree.lookup(d, n) == u.tree.lookup(d, n) by {
            assert(v.tree.lookup(d, n) == u.tree.lookup(d, n));
        }
        assert forall|j: int| 0 <= j < segs.len() implies is_there(
            r.tree,
            r.tree.walk(dir, #[trigger] segs.take(j)),
            segs[j],
        ) by {
            if j < f.len() {
                assert(f.take(j) =~= segs.take(j));
                assert(is_there(v.tree, v.tree.walk(dir, f.take(j)), f[j]));
                lemma_walk_back(v.tree, r.tree, dir, f, f.take(j), j);
            } else {
                assert(segs.take(j) =~= f);
                if v.tree.walk(dir, f) is None {
                    lemma_blocked_stays(v.tree, r.tree, dir, f);
                }
            }
        }
    }
}

/// Whether a name is in a directory, where there is the directory.
pub open spec fn is_there(t: TreeView, dir: Option<u64>, name: Seq<char>) -> bool {
    dir is Some ==> t.lookup(dir->0, name) is Some
}

/// Whether each segment of a way is there: as a directory, unless a file has its name.
pub open spec fn is_made(t: TreeView, dir: u64, segs: Seq<Seq<char>>) -> bool {
    forall|j: int|
        0 <= j < segs.len() ==> is_there(t, t.walk(dir, #[trigger] segs.take(j)), segs[j])
}

/// A way that leads somewhere still does.
proof fn lemma_walk_stays(t: TreeView, u: TreeView, dir: u64, segs: Seq<Seq<char>>)
    requires
        only_more(t, u),
        t.wf(),
    ensures
        t.walk(dir, segs) is Some ==> u.walk(dir, segs) == t.walk(dir, segs),
    decreases segs.len(),
{
    if segs.len() > 0 {
        lemma_walk_stays(t, u, dir, segs.drop_last());
    }
}

/// A way whose segments are there leads on only through what was there.
proof fn lemma_walk_back(
    t: TreeView,
    u: TreeView,
    dir: u64,
    segs: Seq<Seq<char>>,
    front: Seq<Seq<char>>,
    j: int,
)
    requires
        only_more(t, u),
        t.wf(),
        u.wf(),
        is_made(t, dir, segs),
        0 <= j < segs.len(),
        front == segs.take(j),
        kinds_stay(t, u),
    ensures
        is_there(u, u.walk(dir, front), segs[j]),
{
    lemma_walk_same(t, u, dir, segs, j);
    assert(is_there(t, t.walk(dir, segs.take(j)), segs[j]));
}

/// Whether what is there keeps its kind.
spec fn kinds_stay(t: TreeView, u: TreeView) -> bool {
    forall|i: u64| #[trigger] t.nodes.contains_key(i) ==> t.is_dir(i) == u.is_dir(i)
}

proof fn lemma_walk_same(t: TreeView, u: TreeView, dir: u64, segs: Seq<Seq<char>>, j: int)
    requires
        only_more(t, u),
        t.wf(),
        is_made(t, dir, segs),
        0 <= j <= segs.len(),
        kinds_stay(t, u),
    ensures
        u.walk(dir, segs.take(j)) == t.walk(dir, segs.take(j)),
    decreases j,
{
    if j > 0 {
        let f = segs.take(j - 1);
        lemma_walk_same(t, u, dir, segs, j - 1);
        assert(segs.take(j).drop_last() =~= f);
        assert(segs.take(j).last() == segs[j - 1]);
        assert(is_there(t, t.walk(dir, segs.take(j - 1)), segs[j - 1]));
        if let Some(d) = t.walk(dir, f) {
            let c = t.lookup(d, segs[j - 1])->0;
            assert(u.lookup(d, segs[j - 1]) == t.lookup(d, segs[j - 1]));
            assert(t.nodes.contains_key(c));
        }
    }
}

proof fn lemma_blocked_stays(t: TreeView, u: TreeView, dir: u64, segs: Seq<Seq<char>>)
    requires
        only_more(t, u),
        t.wf(),
        is_made(t, dir, segs),
        kinds_stay(t, u),
        t.walk(dir, segs) is None,
    ensures
        u.walk(dir, segs) is None,
{
    lemma_walk_same(t, u, dir, segs, segs.len() as int);
    assert(segs.take(segs.len() as int) =~= segs);
}

proof fn lemma_made_stays(t: TreeView, u: TreeView, dir: u64, segs: Seq<Seq<char>>)
    requires
        only_more(t, u),
        t.wf(),
        u.wf(),
        is_made(t, dir, segs),
        kinds_stay(t, u),
    ensures
        is_made(u, dir, segs),
{
    assert forall|j: int| 0 <= j < segs.len() implies is_there(
        u,
        u.walk(dir, #[trigger] segs.take(j)),
        segs[j],
    ) by {
        lemma_walk_back(t, u, dir, segs, segs.take(j), j);
    }
}

/// Making the directories along some ways.
pub proof fn lemma_make_paths(u: Update, dir: u64, paths: Seq<Seq<char>>, now: SystemTime)
    requires
        u.tree.wf(),
        u.tree.layout is Workspace,
        u.tree.is_dir(dir),
        u.tree.room(workspace::total_segments(paths) as int),
    ensures
        ({
            let v = u.make_paths(dir, paths, now).tree;
            &&& v.wf()
            &&& v.layout == u.tree.layout
            &&& v.is_dir(dir)
            &&& v.next_ino <= u.tree.next_ino + workspace::total_segments(paths)
            &&& forall|i: int|
                0 <= i < paths.len() ==> is_made(
                    v,
                    dir,
                    workspace::segments(#[trigger] paths[i]),
                )
        }),
    decreases paths.len(),
{
    if paths.len() > 0 {
        let f = paths.drop_last();
        lemma_make_paths(u, dir, f, now);
        let v = u.make_paths(dir, f, now);
        let segs = workspace::segments(paths.last());
        lemma_make_path(v, dir, segs, now);
        let r = u.make_paths(dir, paths, now).tree;
        assert(r.is_dir(dir));
        lemma_make_path_kinds(v, dir, segs, now);
        assert forall|i: int| 0 <= i < paths.len() implies is_made(
            r,
            dir,
            workspace::segments(#[trigger] paths[i]),
        ) by {
            if i < f.len() {
                assert(f[i] == paths[i]);
                assert(is_made(v.tree, dir, workspace::segments(f[i])));
                lemma_made_stays(v.tree, r, dir, workspace::segments(f[i]));
            }
        }
    }
}

proof fn lemma_make_path_kinds(u: Update, dir: u64, segs: Seq<Seq<char>>, now: SystemTime)
    requires
        u.tree.wf(),
        u.tree.layout is Workspace,
        u.tree.is_dir(dir),
        u.tree.room(segs.len() as int),
    ensures
        kinds_stay(u.tree, u.make_path(dir, segs, now).0.tree),
        forall|i: u64| #[trigger]
            u.tree.nodes.contains_key(i) ==> u.make_path(
                dir,
                segs,
                now,
            ).0.tree.nodes.contains_key(i),
    decreases segs.len(),
{
    if segs.len() > 0 {
        let f = segs.drop_last();
        lemma_make_path_kinds(u, dir, f, now);
        lemma_make_path(u, dir, f, now);
        let (v, at) = u.make_path(dir, f, now);
        let r = u.make_path(dir, segs, now).0;
        wellformed::lemma_take_ino_wf(v.tree);
        assert forall|i: u64| #[trigger] u.tree.nodes.contains_key(i) implies
            r.tree.nodes.contains_key(i) && u.tree.is_dir(i) == r.tree.is_dir(i) by {
            assert(v.tree.nodes.contains_key(i));
        }
    }
}

/// Making the directories of a tree those on the way to some paths keeps the tree of nodes
/// well-formed; then each segment of each path is there, as a directory unless a file has its
/// name.
pub proof fn law_paths_are_made(
    t: TreeView,
    tree: Seq<char>,
    paths: Seq<Seq<char>>,
    now: SystemTime,
)
    requires
        t.wf(),
        t.layout is Workspace,
        t.tree_dir(tree, Seq::empty()) is Some,
        t.room(workspace::total_segments(paths) as int),
    ensures
        ({
            let u = workspace::apply_tree_paths(t, tree, paths, now).tree;
            let dir = t.tree_dir(tree, Seq::empty())->0;
            &&& u.wf()
            &&& forall|i: int|
                0 <= i < paths.len() ==> is_made(
                    u,
                    dir,
                    workspace::segments(#[trigger] paths[i]),
                )
        }),
{
    let u = Update { tree: t, inv: model::no_invalidation() };
    let dir = t.tree_dir(tree, Seq::empty())->0;
    lemma_top_dir(t, tree);
    lemma_prune_wf(u, dir, Seq::empty(), paths);
    let v = u.prune(dir, Seq::empty(), paths);
    let rule = ForgetView::Inos(workspace::removed_inos(v.inv));
    wellformed::lemma_forget_wf(v.tree, rule);
    let w = Update { tree: v.tree.forget(rule), ..v };
    assert(w.tree.is_dir(dir)) by {
        assert(v.tree.is_dir(dir));
    }
    lemma_make_paths(w, dir, paths, now);
}

/// The directory of a tree is one.
pub proof fn lemma_top_dir(t: TreeView, tree: Seq<char>)
    requires
        t.tree_dir(tree, Seq::empty()) is Some,
    ensures
        t.is_dir(t.tree_dir(tree, Seq::empty())->0),
{
    let e = Seq::<char>::empty();
    let i = crate::text::find(e, crate::text::CharClass::Is('/'));
    assert(i == 0);
    assert(workspace::segments(e) =~= Seq::empty());
}

/// A walk from a directory leads to a directory.
pub proof fn lemma_walk_is_dir(t: TreeView, dir: u64, segs: Seq<Seq<char>>)
    requires
        t.is_dir(dir),
    ensures
        t.walk(dir, segs) is Some ==> t.is_dir(t.walk(dir, segs)->0),
    decreases segs.len(),
{
    if segs.len() > 0 {
        lemma_walk_is_dir(t, dir, segs.drop_last());
    }
}

/// The files that a directory is to hold are files, and no more than there are documents.
pub proof fn lemma_tree_files_fit(
    docs: Seq<DocumentView>,
    taken: Set<Seq<char>>,
    workspace_id: Option<Seq<char>>,
)
    ensures
        wellformed::files_only(workspace::tree_files(docs, taken, workspace_id)),
        workspace::tree_files(docs, taken, workspace_id).dom().finite(),
        workspace::tree_files(docs, taken, workspace_id).dom().len() <= docs.len(),
    decreases docs.len(),
{
    if docs.len() > 0 {
        lemma_tree_files_fit(docs.drop_last(), taken, workspace_id);
    }
}

/// Making the files of a directory of a tree those of a list of documents keeps the tree of nodes
/// well-formed, changes no directory, and tells the kernel of all that changed.
pub proof fn law_tree_documents_keep_directories(
    t: TreeView,
    tree: Seq<char>,
    path: Seq<char>,
    docs: Seq<DocumentView>,
    now: SystemTime,
)
    requires
        t.wf(),
        t.layout is Workspace,
        t.room(docs.len() as int),
    ensures
        ({
            let r = workspace::apply_tree_documents(t, tree, path, docs, now);
            &&& r.tree.wf()
            &&& wellformed::only_files_change(t, r.tree)
            &&& crate::notices::told(
                Update { tree: t, inv: model::no_invalidation() },
                r,
                Set::empty(),
            )
        }),
{
    let u = Update { tree: t, inv: model::no_invalidation() };
    if let Some(dir) = t.tree_dir(tree, path) {
        lemma_no_contexts(t);
        let top = t.context_dir(ROOT_INO, tree)->0;
        lemma_walk_is_dir(t, top, workspace::segments(path));
        let want = workspace::tree_files(
            model::by_id(docs),
            t.subdirs(dir),
            workspace::shown_workspace(t),
        );
        lemma_tree_files_fit(
            model::by_id(docs),
            t.subdirs(dir),
            workspace::shown_workspace(t),
        );
        model::lemma_by_id_len(docs);
        wellformed::lemma_sync_dir_wf(u, workspace::dir_key(dir), dir, want, now);
        crate::notices::lemma_sync_dir_told(u, workspace::dir_key(dir), dir, want, now);
    }
}

// ── what is gone ─────────────────────────────────────────────────────────────

/// Whether entries only went.
spec fn only_less(t: TreeView, u: TreeView) -> bool {
    &&& wellformed::fewer_nodes(u, t)
    &&& forall|d: u64, n: Seq<char>| #[trigger]
        u.entries(d).contains_key(n) ==> t.entries(d).contains_key(n) && t.entries(d)[n]
            == u.entries(d)[n]
}

proof fn lemma_only_less_trans(a: TreeView, b: TreeView, c: TreeView)
    requires
        only_less(a, b),
        only_less(b, c),
    ensures
        only_less(a, c),
{
    assert forall|d: u64, n: Seq<char>| #[trigger] c.entries(d).contains_key(n) implies a.entries(
        d,
    ).contains_key(n) && a.entries(d)[n] == c.entries(d)[n] by {
        assert(b.entries(d).contains_key(n));
    }
    assert forall|i: u64| #[trigger] c.nodes.contains_key(i) implies a.nodes.contains_key(i)
        && c.nodes[i] == a.nodes[i] by {
        assert(b.nodes.contains_key(i));
    }
}

proof fn lemma_drop_node_less(u: Update, ino: u64)
    ensures
        only_less(u.tree, u.drop_node(ino).tree),
{
}

proof fn lemma_clear_less(u: Update, ino: u64)
    ensures
        only_less(u.tree, u.clear(ino).tree),
{
    lemma_clear_inos_less(u, u.tree.entry_inos(ino), u.tree.children.dom().len());
}

proof fn lemma_clear_inos_less(u: Update, inos: Seq<u64>, depth: nat)
    ensures
        only_less(u.tree, u.clear_inos(inos, depth).tree),
    decreases depth, inos.len(),
{
    if inos.len() > 0 {
        let f = inos.drop_last();
        lemma_clear_inos_less(u, f, depth);
        let v = u.clear_inos(f, depth);
        let c = inos.last();
        let w = if depth > 0 {
            v.clear_to(c, (depth - 1) as nat)
        } else {
            v
        };
        if depth > 0 {
            lemma_clear_inos_less(v, v.tree.entry_inos(c), (depth - 1) as nat);
            lemma_only_less_trans(u.tree, v.tree, w.tree);
        }
        lemma_drop_node_less(w, c);
        lemma_only_less_trans(u.tree, w.tree, w.drop_node(c).tree);
    }
}

proof fn lemma_drop_dir_less(u: Update, ino: u64)
    ensures
        only_less(u.tree, u.drop_dir(ino).tree),
        !u.drop_dir(ino).tree.nodes.contains_key(ino),
{
    lemma_clear_less(u, ino);
    lemma_drop_node_less(u.clear(ino), ino);
    lemma_only_less_trans(u.tree, u.clear(ino).tree, u.drop_dir(ino).tree);
}

proof fn lemma_prune_less(u: Update, dir: u64, at: Seq<Seq<char>>, paths: Seq<Seq<char>>)
    ensures
        only_less(u.tree, u.prune(dir, at, paths).tree),
    decreases u64::MAX - dir, 1int, 0nat,
{
    lemma_prune_names_less(u, dir, at, paths, u.tree.entries(dir), u.tree.entry_names(dir));
}

proof fn lemma_prune_names_less(
    u: Update,
    dir: u64,
    at: Seq<Seq<char>>,
    paths: Seq<Seq<char>>,
    have: Map<Seq<char>, u64>,
    names: Seq<Seq<char>>,
)
    ensures
        only_less(u.tree, u.prune_names(dir, at, paths, have, names).tree),
    decreases u64::MAX - dir, 0int, names.len(),
{
    if names.len() > 0 {
        let f = names.drop_last();
        lemma_prune_names_less(u, dir, at, paths, have, f);
        let v = u.prune_names(dir, at, paths, have, f);
        let c = have[names.last()];
        let r = u.prune_names(dir, at, paths, have, names);
        if v.tree.is_dir(c) {
            if !workspace::on_the_way(at.push(names.last()), paths) {
                lemma_drop_dir_less(v, c);
                lemma_only_less_trans(u.tree, v.tree, r.tree);
            } else if c > dir {
                lemma_prune_less(v, c, at.push(names.last()), paths);
                lemma_only_less_trans(u.tree, v.tree, r.tree);
            }
        }
    }
}

/// A way that leads somewhere led there before.
proof fn lemma_walk_less(t: TreeView, u: TreeView, dir: u64, segs: Seq<Seq<char>>)
    requires
        only_less(t, u),
    ensures
        u.walk(dir, segs) is Some ==> t.walk(dir, segs) == u.walk(dir, segs),
    decreases segs.len(),
{
    if segs.len() > 0 {
        lemma_walk_less(t, u, dir, segs.drop_last());
        if let Some(d) = u.walk(dir, segs.drop_last()) {
            if u.context_dir(d, segs.last()) is Some {
                assert(u.entries(d).contains_key(segs.last()));
                let c = u.entries(d)[segs.last()];
                assert(u.nodes.contains_key(c));
            }
        }
    }
}

/// A way starts with its first step.
proof fn lemma_walk_first(t: TreeView, dir: u64, segs: Seq<Seq<char>>)
    requires
        segs.len() > 0,
    ensures
        t.walk(dir, segs) == (match t.context_dir(dir, segs[0]) {
            Some(c) => t.walk(c, segs.drop_first()),
            None => None,
        }),
    decreases segs.len(),
{
    if segs.len() == 1 {
        assert(segs.drop_last() =~= Seq::empty());
        assert(segs.drop_first() =~= Seq::empty());
        assert(t.walk(dir, segs.drop_last()) == Some(dir));
    } else {
        let f = segs.drop_last();
        lemma_walk_first(t, dir, f);
        assert(f[0] == segs[0]);
        assert(f.drop_first() =~= segs.drop_first().drop_last());
        assert(segs.drop_first().last() == segs.last());
    }
}

/// Whether every way below a directory is on the way to one of some paths.
spec fn all_on_the_way(t: TreeView, dir: u64, at: Seq<Seq<char>>, paths: Seq<Seq<char>>) -> bool {
    forall|segs: Seq<Seq<char>>|
        segs.len() > 0 && (#[trigger] t.walk(dir, segs)) is Some ==> workspace::on_the_way(
            at + segs,
            paths,
        )
}

/// What is on the way further down is on the way.
proof fn lemma_on_the_way_front(a: Seq<Seq<char>>, b: Seq<Seq<char>>, paths: Seq<Seq<char>>)
    requires
        workspace::on_the_way(a + b, paths),
    ensures
        workspace::on_the_way(a, paths),
{
    let i = choose|i: int|
        0 <= i < paths.len() && #[trigger] workspace::segments(paths[i]).len() >= (a + b).len()
            && workspace::segments(paths[i]).take((a + b).len() as int) == a + b;
    let s = workspace::segments(paths[i]);
    assert(s.take(a.len() as int) =~= (a + b).take(a.len() as int));
    assert((a + b).take(a.len() as int) =~= a);
}

proof fn lemma_prune_leaves(u: Update, dir: u64, at: Seq<Seq<char>>, paths: Seq<Seq<char>>)
    requires
        u.tree.wf(),
        u.tree.layout is Workspace,
    ensures
        all_on_the_way(u.prune(dir, at, paths).tree, dir, at, paths),
    decreases u64::MAX - dir, 1int, 0nat,
{
    let t = u.tree;
    let have = t.entries(dir);
    let names = t.entry_names(dir);
    if !t.children.contains_key(dir) {
        assert(have.dom() =~= Set::empty());
    }
    strmap::lemma_ordered(have.dom());
    assert forall|j: int| 0 <= j < names.len() implies have[#[trigger] names[j]] != ROOT_INO && (
    t.is_dir(have[names[j]]) ==> have[names[j]] > dir) by {
        assert(names.to_set().contains(names[j]));
        assert(t.entries(dir).contains_key(names[j]));
        lemma_entry_not_root(t, dir, names[j]);
    }
    lemma_prune_names_leaves(u, dir, at, paths, have, names);
    lemma_prune_less(u, dir, at, paths);
    let r = u.prune(dir, at, paths).tree;
    assert forall|segs: Seq<Seq<char>>| segs.len() > 0 && (#[trigger] r.walk(dir, segs)) is Some
        implies workspace::on_the_way(at + segs, paths) by {
        lemma_walk_first(r, dir, segs);
        let x = segs[0];
        let c = r.context_dir(dir, x)->0;
        assert(r.entries(dir).contains_key(x));
        assert(t.entries(dir).contains_key(x) && have[x] == c);
        assert(names.to_set().contains(x));
        let j = choose|j: int| 0 <= j < names.len() && names[j] == x;
        assert(cleaned(r, at, paths, have, names[j]));
        let rest = segs.drop_first();
        if rest.len() == 0 {
            assert(at.push(x) =~= at + segs);
        } else {
            assert(workspace::on_the_way(at.push(x) + rest, paths));
            assert(at.push(x) + rest =~= at + segs);
        }
    }
}

/// Whether an entry was pruned: it is no directory any more, or it is on the way and so is all
/// that is below it.
spec fn cleaned(
    t: TreeView,
    at: Seq<Seq<char>>,
    paths: Seq<Seq<char>>,
    have: Map<Seq<char>, u64>,
    name: Seq<char>,
) -> bool {
    t.is_dir(have[name]) ==> workspace::on_the_way(at.push(name), paths) && all_on_the_way(
        t,
        have[name],
        at.push(name),
        paths,
    )
}

proof fn lemma_cleaned_less(
    t: TreeView,
    u: TreeView,
    at: Seq<Seq<char>>,
    paths: Seq<Seq<char>>,
    have: Map<Seq<char>, u64>,
    name: Seq<char>,
)
    requires
        only_less(t, u),
        cleaned(t, at, paths, have, name),
    ensures
        cleaned(u, at, paths, have, name),
{
    if u.is_dir(have[name]) {
        assert(u.nodes.contains_key(have[name]));
        assert(t.is_dir(have[name]));
        let b = at.push(name);
        assert forall|segs: Seq<Seq<char>>|
            segs.len() > 0 && (#[trigger] u.walk(have[name], segs)) is Some implies workspace::on_the_way(
            b + segs,
            paths,
        ) by {
            lemma_walk_less(t, u, have[name], segs);
            assert(t.walk(have[name], segs) is Some);
        }
    }
}

proof fn lemma_prune_names_leaves(
    u: Update,
    dir: u64,
    at: Seq<Seq<char>>,
    paths: Seq<Seq<char>>,
    have: Map<Seq<char>, u64>,
    names: Seq<Seq<char>>,
)
    requires
        u.tree.wf(),
        u.tree.layout is Workspace,
        forall|j: int|
            0 <= j < names.len() ==> have[#[trigger] names[j]] != ROOT_INO && (u.tree.is_dir(
                have[names[j]],
            ) ==> have[names[j]] > dir),
    ensures
        ({
            let r = u.prune_names(dir, at, paths, have, names).tree;
            forall|j: int|
                0 <= j < names.len() ==> cleaned(r, at, paths, have, #[trigger] names[j])
        }),
    decreases u64::MAX - dir, 0int, names.len(),
{
    if names.len() > 0 {
        let f = names.drop_last();
        let x = names.last();
        assert(names[names.len() - 1] == x);
        assert(forall|j: int| 0 <= j < f.len() ==> f[j] == names[j]);
        lemma_prune_names_leaves(u, dir, at, paths, have, f);
        lemma_prune_names_wf(u, dir, at, paths, have, f);
        let v = u.prune_names(dir, at, paths, have, f);
        let r = u.prune_names(dir, at, paths, have, names).tree;
        let c = have[x];
        if v.tree.is_dir(c) {
            assert(v.tree.nodes.contains_key(c));
            if !workspace::on_the_way(at.push(x), paths) {
                lemma_drop_dir_less(v, c);
            } else {
                assert(c > dir);
                lemma_prune_leaves(v, c, at.push(x), paths);
                lemma_prune_less(v, c, at.push(x), paths);
            }
        }
        assert(only_less(v.tree, r));
        assert forall|j: int| 0 <= j < names.len() implies cleaned(
            r,
            at,
            paths,
            have,
            #[trigger] names[j],
        ) by {
            if j < f.len() {
                assert(cleaned(v.tree, at, paths, have, f[j]));
                lemma_cleaned_less(v.tree, r, at, paths, have, f[j]);
            }
        }
    }
}

/// A way leads to a greater inode than it starts from.
proof fn lemma_walk_greater(t: TreeView, dir: u64, segs: Seq<Seq<char>>)
    requires
        t.wf(),
    ensures
        t.walk(dir, segs) is Some && segs.len() > 0 ==> t.walk(dir, segs)->0 > dir,
    decreases segs.len(),
{
    if segs.len() > 0 {
        lemma_walk_greater(t, dir, segs.drop_last());
        if let Some(d) = t.walk(dir, segs.drop_last()) {
            if t.context_dir(d, segs.last()) is Some {
                assert(t.entries(d).contains_key(segs.last()));
            }
        }
    }
}

/// Only one way leads to a directory.
proof fn lemma_one_way(t: TreeView, dir: u64, a: Seq<Seq<char>>, b: Seq<Seq<char>>)
    requires
        t.wf(),
        t.walk(dir, a) is Some,
        t.walk(dir, a) == t.walk(dir, b),
    ensures
        a == b,
    decreases a.len(),
{
    lemma_walk_greater(t, dir, a);
    lemma_walk_greater(t, dir, b);
    if a.len() == 0 {
        assert(a =~= b);
    } else {
        let p = t.walk(dir, a.drop_last())->0;
        let q = t.walk(dir, b.drop_last())->0;
        assert(t.entries(p).contains_key(a.last()));
        assert(t.entries(q).contains_key(b.last()));
        lemma_one_way(t, dir, a.drop_last(), b.drop_last());
        assert(a =~= a.drop_last().push(a.last()));
        assert(b =~= b.drop_last().push(b.last()));
    }
}

/// Where a directory is made, only the way to it is new.
proof fn lemma_add_dir_ways(
    u: Update,
    dir: u64,
    f: Seq<Seq<char>>,
    name: Seq<char>,
    now: SystemTime,
    segs: Seq<Seq<char>>,
)
    requires
        u.tree.wf(),
        u.tree.layout is Workspace,
        u.tree.room(1),
        u.tree.is_dir(dir),
        u.tree.walk(dir, f) is Some,
        u.tree.is_dir(u.tree.walk(dir, f)->0),
        u.tree.lookup(u.tree.walk(dir, f)->0, name) is None,
    ensures
        ({
            let r = u.add_dir(u.tree.walk(dir, f)->0, name, now).tree;
            r.walk(dir, segs) is Some ==> (u.tree.walk(dir, segs) == r.walk(dir, segs)) || (segs
                == f.push(name) && r.walk(dir, segs) == Some(u.tree.next_ino))
        }),
    decreases segs.len(),
{
    let t = u.tree;
    let i = t.walk(dir, f)->0;
    let r = u.add_dir(i, name, now).tree;
    let n = t.next_ino;
    wellformed::lemma_take_ino_wf(t);
    lemma_add_dir_wf(u, i, name, now);
    assert(t.nodes.contains_key(i));
    if segs.len() > 0 && r.walk(dir, segs) is Some {
        let g = segs.drop_last();
        let z = segs.last();
        assert(segs =~= g.push(z));
        lemma_add_dir_ways(u, dir, f, name, now, g);
        let p = r.walk(dir, g)->0;
        assert(r.entries(p).contains_key(z));
        if t.walk(dir, g) == r.walk(dir, g) {
            if p == i && z == name {
                lemma_one_way(t, dir, g, f);
            } else {
                assert(p != n) by {
                    lemma_walk_is_dir(t, dir, g);
                }
                assert(t.entries(p).contains_key(z) && t.entries(p)[z] == r.entries(p)[z]);
                let c = t.entries(p)[z];
                assert(t.nodes.contains_key(c));
            }
        } else {
            assert(p == n);
            assert(r.entries(n) =~= Map::empty());
        }
    }
}

proof fn lemma_make_path_ways(
    u: Update,
    dir: u64,
    full: Seq<Seq<char>>,
    segs: Seq<Seq<char>>,
    now: SystemTime,
    paths: Seq<Seq<char>>,
)
    requires
        u.tree.wf(),
        u.tree.layout is Workspace,
        u.tree.is_dir(dir),
        u.tree.room(segs.len() as int),
        all_on_the_way(u.tree, dir, Seq::empty(), paths),
        segs.len() <= full.len(),
        segs == full.take(segs.len() as int),
        workspace::on_the_way(full, paths),
    ensures
        all_on_the_way(u.make_path(dir, segs, now).0.tree, dir, Seq::empty(), paths),
    decreases segs.len(),
{
    if segs.len() > 0 {
        let f = segs.drop_last();
        assert(f =~= full.take(f.len() as int));
        lemma_make_path_ways(u, dir, full, f, now, paths);
        lemma_make_path(u, dir, f, now);
        let (v, at) = u.make_path(dir, f, now);
        let r = u.make_path(dir, segs, now).0;
        if let Some(i) = at {
            let x = segs.last();
            if v.tree.lookup(i, x) is None {
                assert forall|s: Seq<Seq<char>>|
                    s.len() > 0 && (#[trigger] r.tree.walk(dir, s)) is Some implies workspace::on_the_way(
                    Seq::<Seq<char>>::empty() + s,
                    paths,
                ) by {
                    lemma_add_dir_ways(v, dir, f, x, now, s);
                    assert(Seq::<Seq<char>>::empty() + s =~= s);
                    if v.tree.walk(dir, s) is Some {
                        assert(workspace::on_the_way(Seq::<Seq<char>>::empty() + s, paths));
                    } else {
                        assert(s =~= segs);
                        assert(full =~= segs + full.skip(segs.len() as int));
                        lemma_on_the_way_front(segs, full.skip(segs.len() as int), paths);
                    }
                }
            }
        }
    }
}

proof fn lemma_make_paths_ways(
    u: Update,
    dir: u64,
    made: Seq<Seq<char>>,
    now: SystemTime,
    paths: Seq<Seq<char>>,
)
    requires
        u.tree.wf(),
        u.tree.layout is Workspace,
        u.tree.is_dir(dir),
        u.tree.room(workspace::total_segments(made) as int),
        all_on_the_way(u.tree, dir, Seq::empty(), paths),
        made.len() <= paths.len(),
        made == paths.take(made.len() as int),
    ensures
        all_on_the_way(u.make_paths(dir, made, now).tree, dir, Seq::empty(), paths),
    decreases made.len(),
{
    if made.len() > 0 {
        let f = made.drop_last();
        assert(f =~= paths.take(f.len() as int));
        lemma_make_paths_ways(u, dir, f, now, paths);
        lemma_make_paths(u, dir, f, now);
        let v = u.make_paths(dir, f, now);
        let segs = workspace::segments(made.last());
        assert(made.last() == paths[made.len() - 1]);
        assert(workspace::on_the_way(segs, paths)) by {
            let i = made.len() - 1;
            assert(workspace::segments(paths[i]).take(segs.len() as int) =~= segs);
            assert(workspace::segments(paths[i]).len() >= segs.len());
        }
        assert(segs =~= segs.take(segs.len() as int));
        lemma_make_path_ways(v, dir, segs, segs, now, paths);
    }
}

/// After the directories of a tree were made those on the way to some paths, there is no other
/// directory in it.
pub proof fn law_other_paths_are_gone(
    t: TreeView,
    tree: Seq<char>,
    paths: Seq<Seq<char>>,
    now: SystemTime,
    segs: Seq<Seq<char>>,
)
    requires
        t.wf(),
        t.layout is Workspace,
        t.tree_dir(tree, Seq::empty()) is Some,
        t.room(workspace::total_segments(paths) as int),
        segs.len() > 0,
    ensures
        ({
            let u = workspace::apply_tree_paths(t, tree, paths, now).tree;
            let dir = t.tree_dir(tree, Seq::empty())->0;
            u.walk(dir, segs) is Some ==> workspace::on_the_way(segs, paths)
        }),
{
    let u = Update { tree: t, inv: model::no_invalidation() };
    let dir = t.tree_dir(tree, Seq::empty())->0;
    lemma_top_dir(t, tree);
    lemma_prune_wf(u, dir, Seq::empty(), paths);
    lemma_prune_leaves(u, dir, Seq::empty(), paths);
    let v = u.prune(dir, Seq::empty(), paths);
    let rule = ForgetView::Inos(workspace::removed_inos(v.inv));
    wellformed::lemma_forget_wf(v.tree, rule);
    let w = Update { tree: v.tree.forget(rule), ..v };
    assert(v.tree.is_dir(dir));
    assert(w.tree.is_dir(dir));
    assert(only_less(v.tree, w.tree)) by {
        assert forall|d: u64| #[trigger] w.tree.entries(d) == v.tree.entries(d) by {}
    }
    assert forall|s: Seq<Seq<char>>| s.len() > 0 && (#[trigger] w.tree.walk(dir, s)) is Some implies
        workspace::on_the_way(Seq::<Seq<char>>::empty() + s, paths) by {
        lemma_walk_less(v.tree, w.tree, dir, s);
        assert(v.tree.walk(dir, s) is Some);
    }
    assert(paths =~= paths.take(paths.len() as int));
    lemma_make_paths_ways(w, dir, paths, now, paths);
    let r = workspace::apply_tree_paths(t, tree, paths, now).tree;
    assert(Seq::<Seq<char>>::empty() + segs =~= segs);
    if r.walk(dir, segs) is Some {
        assert(workspace::on_the_way(Seq::<Seq<char>>::empty() + segs, paths));
    }
}

// ── renames ──────────────────────────────────────────────────────────────────

/// Whether a directory is another one or is below it.
pub open spec fn is_under(t: TreeView, dir: u64, top: u64) -> bool
    decreases dir,
{
    dir == top || (t.is_dir(dir) && t.nodes[dir].parent != ROOT_INO && t.nodes[dir].parent < dir
        && is_under(t, t.nodes[dir].parent, top))
}

/// The segments of what is below a directory start with those of the directory.
proof fn lemma_under_segments(t: TreeView, dir: u64, top: u64)
    requires
        t.wf(),
        is_under(t, dir, top),
        t.dir_path(top) is Some,
    ensures
        (match (t.dir_path(dir), t.dir_path(top)) {
            (Some((a, s)), Some((b, p))) => a == b && s.len() >= p.len(),
            _ => false,
        }),
    decreases dir,
{
    if dir != top {
        lemma_under_segments(t, t.nodes[dir].parent, top);
    }
}

/// A directory that was renamed has its new name in its path, and so has everything below it; all
/// other paths stay.
pub proof fn law_paths_follow_a_rename(
    t: TreeView,
    ino: u64,
    new_name: Seq<char>,
    tree: Seq<char>,
    segs: Seq<Seq<char>>,
    dir: u64,
)
    requires
        t.wf(),
        t.dir_path(ino) == Some((tree, segs)),
        segs.len() > 0,
        t.lookup(t.nodes[ino].parent, new_name) is None,
    ensures
        ({
            let u = t.rename_path(ino, new_name, tree);
            u.dir_path(dir) == (match t.dir_path(dir) {
                Some((own, s)) => if is_under(t, dir, ino) {
                    Some((own, s.update(segs.len() - 1, new_name)))
                } else {
                    Some((own, s))
                },
                None => None,
            })
        }),
    decreases dir,
{
    let u = t.rename_path(ino, new_name, tree);
    assert(t.nodes.contains_key(ino));
    assert(t.nodes[ino].parent != ROOT_INO);
    if t.is_dir(dir) && dir != ROOT_INO {
        assert(u.is_dir(dir));
        let p = t.nodes[dir].parent;
        assert(u.nodes[dir].parent == p);
        if p != ROOT_INO && p < dir {
            law_paths_follow_a_rename(t, ino, new_name, tree, segs, p);
            if dir == ino {
                let front = t.dir_path(p)->0;
                assert(segs =~= front.1.push(t.nodes[ino].name));
                assert(!is_under(t, p, ino)) by {
                    if is_under(t, p, ino) {
                        lemma_under_segments(t, p, ino);
                    }
                }
                assert(front.1.push(new_name) =~= segs.update(segs.len() - 1, new_name));
            } else {
                if is_under(t, p, ino) && t.dir_path(p) is Some {
                    lemma_under_segments(t, p, ino);
                    let s = (t.dir_path(p)->0).1;
                    assert(s.update(segs.len() - 1, new_name).push(t.nodes[dir].name)
                        =~= s.push(t.nodes[dir].name).update(segs.len() - 1, new_name));
                }
            }
        }
    } else {
        assert(!u.is_dir(dir) || dir == ROOT_INO);
    }
}

} // verus!
