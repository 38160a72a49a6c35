//! The trees of a workspace as directories.

use crate::api;
use crate::api::{Document, DocumentView, TreeInfo, TreeInfoView};
use crate::docmap;
use crate::docmap::Forget;
use crate::model;
use crate::model::{LayoutView, TreeView, Update, Wanted};
use crate::render;
use crate::render::flat;
use crate::state;
use crate::state::{
    file_content, free_name, sorted_by_id, Invalidation, Node, NodeContent, Tree, WantedFile, ROOT_INO,
};
use crate::strmap;
use crate::strmap::StrMap;
use crate::text;
use crate::text::{chars_of, copy_text, decimal_text, find_in, same_text, slice_of, text_of, CharClass};
use crate::time::time_now;
use std::time::SystemTime;
use vstd::prelude::*;
use vstd::string::*;

verus! {

/// The segments of a path.
pub open spec fn segments(path: Seq<char>) -> Seq<Seq<char>>
    decreases path.len(),
{
    let i = text::find(path, CharClass::Is('/'));
    let rest = if 0 <= i < path.len() {
        segments(path.skip(i + 1))
    } else {
        Seq::empty()
    };
    if i == 0 {
        rest
    } else {
        seq![path.take(i)] + rest
    }
}

/// A path with some segments.
pub open spec fn path_text(segs: Seq<Seq<char>>) -> Seq<char> {
    if segs.len() == 0 {
        "/"@
    } else {
        path_from(segs)
    }
}

pub open spec fn path_from(segs: Seq<Seq<char>>) -> Seq<char>
    decreases segs.len(),
{
    if segs.len() == 0 {
        Seq::empty()
    } else {
        path_from(segs.drop_last()) + "/"@ + segs.last()
    }
}

/// Whether a directory with some segments is on the way to one of some paths.
pub open spec fn on_the_way(segs: Seq<Seq<char>>, paths: Seq<Seq<char>>) -> bool {
    exists|i: int| 0 <= i < paths.len() && #[trigger] segments(paths[i]).len() >= segs.len()
        && segments(paths[i]).take(segs.len() as int) == segs
}

/// The number of segments of some paths.
pub open spec fn total_segments(paths: Seq<Seq<char>>) -> nat
    decreases paths.len(),
{
    if paths.len() == 0 {
        0
    } else {
        total_segments(paths.drop_last()) + segments(paths.last()).len()
    }
}

impl TreeView {
    /// The tree that a directory belongs to, and its segments below it.
    pub open spec fn dir_path(self, ino: u64) -> Option<(Seq<char>, Seq<Seq<char>>)>
        decreases ino,
    {
        if !self.is_dir(ino) || ino == ROOT_INO {
            None
        } else {
            let node = self.nodes[ino];
            if node.parent == ROOT_INO {
                if self.trees.contains_key(node.name) {
                    Some((node.name, Seq::empty()))
                } else {
                    None
                }
            } else if node.parent < ino {
                match self.dir_path(node.parent) {
                    Some((tree, segs)) => Some((tree, segs.push(node.name))),
                    None => None,
                }
            } else {
                None
            }
        }
    }

    /// Whether an inode shows a document.
    pub open spec fn shows(self, doc: u64, ino: u64) -> bool {
        exists|key: Seq<char>| #[trigger] self.bound(key, doc, ino)
    }

    /// The directory that some segments lead to.
    pub open spec fn walk(self, ino: u64, segs: Seq<Seq<char>>) -> Option<u64>
        decreases segs.len(),
    {
        if segs.len() == 0 {
            Some(ino)
        } else {
            match self.walk(ino, segs.drop_last()) {
                Some(i) => self.context_dir(i, segs.last()),
                None => None,
            }
        }
    }

    /// The directory of a path in a tree.
    pub open spec fn tree_dir(self, tree: Seq<char>, path: Seq<char>) -> Option<u64> {
        if self.trees.contains_key(tree) {
            match self.context_dir(ROOT_INO, tree) {
                Some(i) => self.walk(i, segments(path)),
                None => None,
            }
        } else {
            None
        }
    }

    /// The names of the directories in a directory.
    pub open spec fn subdirs(self, ino: u64) -> Set<Seq<char>> {
        Set::new(|n: Seq<char>| self.context_dir(ino, n) is Some)
    }

    /// Gives a directory of a tree another name, where that name is free.
    pub open spec fn rename_path(self, ino: u64, new_name: Seq<char>, tree: Seq<char>) -> TreeView {
        match self.dir_path(ino) {
            Some((own, segs)) => if own == tree && segs.len() > 0 && self.lookup(
                self.nodes[ino].parent,
                new_name,
            ) is None {
                self.rename_entry(ino, new_name)
            } else {
                self
            },
            None => self,
        }
    }
}

/// The trees among some that are not in a list.
pub open spec fn missing_trees(names: Seq<Seq<char>>, infos: Seq<TreeInfoView>) -> Seq<Seq<char>>
    decreases names.len(),
{
    if names.len() == 0 {
        Seq::empty()
    } else {
        let s = missing_trees(names.drop_last(), infos);
        if exists|i: int| 0 <= i < infos.len() && (#[trigger] infos[i]).name == names.last() {
            s
        } else {
            s.push(names.last())
        }
    }
}

impl Update {
    /// Takes a directory away, with everything below it.
    pub open spec fn drop_dir(self, ino: u64) -> Update {
        self.clear(ino).drop_node(ino)
    }

    /// Takes a tree away.
    pub open spec fn drop_tree(self, name: Seq<char>) -> Update {
        let u = match self.tree.lookup(ROOT_INO, name) {
            Some(i) => self.drop_dir(i),
            None => self,
        };
        Update {
            tree: TreeView { trees: u.tree.trees.remove(name), ..u.tree },
            inv: u.inv.dirty(ROOT_INO),
        }
    }

    /// Takes some trees away.
    pub open spec fn drop_trees(self, names: Seq<Seq<char>>) -> Update
        decreases names.len(),
    {
        if names.len() == 0 {
            self
        } else {
            self.drop_trees(names.drop_last()).drop_tree(names.last())
        }
    }

    /// Makes a directory in another one.
    pub open spec fn add_dir(self, parent: u64, name: Seq<char>, now: SystemTime) -> Update {
        Update {
            tree: self.tree.take_ino().insert_node(
                model::dir_node(self.tree.next_ino, parent, name, now),
            ),
            inv: self.inv.dirty(parent),
        }
    }

    /// Brings a tree in or up to date.
    pub open spec fn apply_tree(self, info: TreeInfoView, now: SystemTime) -> Update {
        let u = if self.tree.trees.contains_key(info.name) {
            self
        } else {
            self.add_dir(ROOT_INO, info.name, now)
        };
        Update {
            tree: TreeView {
                trees: u.tree.trees.insert(info.name, (info.id, info.tree_type)),
                ..u.tree
            },
            ..u
        }
    }

    /// Brings trees in or up to date.
    pub open spec fn apply_each_tree(self, infos: Seq<TreeInfoView>, now: SystemTime) -> Update
        decreases infos.len(),
    {
        if infos.len() == 0 {
            self
        } else {
            self.apply_each_tree(infos.drop_last(), now).apply_tree(infos.last(), now)
        }
    }

    /// Takes the directories below one away that are on the way to none of some paths.
    pub open spec fn prune(
        self,
        dir: u64,
        at: Seq<Seq<char>>,
        paths: Seq<Seq<char>>,
    ) -> Update
        decreases u64::MAX - dir, 1int, 0nat,
    {
        self.prune_names(dir, at, paths, self.tree.entries(dir), self.tree.entry_names(dir))
    }

    pub open spec fn prune_names(
        self,
        dir: u64,
        at: Seq<Seq<char>>,
        paths: Seq<Seq<char>>,
        have: Map<Seq<char>, u64>,
        names: Seq<Seq<char>>,
    ) -> Update
        decreases u64::MAX - dir, 0int, names.len(),
    {
        if names.len() == 0 {
            self
        } else {
            let u = self.prune_names(dir, at, paths, have, names.drop_last());
            let c = have[names.last()];
            if !u.tree.is_dir(c) {
                u
            } else if !on_the_way(at.push(names.last()), paths) {
                let v = u.drop_dir(c);
                Update { tree: v.tree, inv: v.inv.dirty(dir) }
            } else if c > dir {
                u.prune(c, at.push(names.last()), paths)
            } else {
                u
            }
        }
    }

    /// Makes the directories on the way from one along some segments.
    pub open spec fn make_path(self, dir: u64, segs: Seq<Seq<char>>, now: SystemTime) -> (
        Update,
        Option<u64>,
    )
        decreases segs.len(),
    {
        if segs.len() == 0 {
            (self, Some(dir))
        } else {
            let (u, at) = self.make_path(dir, segs.drop_last(), now);
            match at {
                Some(i) => match u.tree.lookup(i, segs.last()) {
                    Some(c) => if u.tree.is_dir(c) {
                        (u, Some(c))
                    } else {
                        (u, None)
                    },
                    None => (u.add_dir(i, segs.last(), now), Some(u.tree.next_ino)),
                },
                None => (u, None),
            }
        }
    }

    /// Makes the directories on the way to some paths.
    pub open spec fn make_paths(
        self,
        dir: u64,
        paths: Seq<Seq<char>>,
        now: SystemTime,
    ) -> Update
        decreases paths.len(),
    {
        if paths.len() == 0 {
            self
        } else {
            self.make_paths(dir, paths.drop_last(), now).make_path(
                dir,
                segments(paths.last()),
                now,
            ).0
        }
    }
}

/// The inodes of the entries that are gone.
pub open spec fn removed_inos(inv: model::InvalidationView) -> Seq<u64> {
    Seq::new(inv.removed.len(), |i: int| inv.removed[i].1)
}

/// Makes the trees that are shown those of a list.
pub open spec fn apply_trees(t: TreeView, infos: Seq<TreeInfoView>, now: SystemTime) -> Update {
    let u = Update { tree: t, inv: model::no_invalidation() };
    if t.layout is Workspace {
        let v = u.drop_trees(missing_trees(strmap::ordered(t.trees.dom()), infos));
        let w = Update {
            tree: v.tree.forget(docmap::ForgetView::Inos(removed_inos(v.inv))),
            ..v
        };
        w.apply_each_tree(infos, now)
    } else {
        u
    }
}

/// Makes the directories of a tree those on the way to some paths.
pub open spec fn apply_tree_paths(
    t: TreeView,
    tree: Seq<char>,
    paths: Seq<Seq<char>>,
    now: SystemTime,
) -> Update {
    let u = Update { tree: t, inv: model::no_invalidation() };
    match t.tree_dir(tree, Seq::empty()) {
        Some(dir) => {
            let v = u.prune(dir, Seq::empty(), paths);
            let w = Update {
                tree: v.tree.forget(docmap::ForgetView::Inos(removed_inos(v.inv))),
                ..v
            };
            w.make_paths(dir, paths, now)
        },
        None => u,
    }
}

/// The files that a directory of a tree is to hold, for documents by identifier. A name that a
/// document or a directory has taken gets the document's identifier.
pub open spec fn tree_files(
    docs: Seq<DocumentView>,
    taken: Set<Seq<char>>,
    workspace: Option<Seq<char>>,
) -> Map<Seq<char>, Wanted>
    decreases docs.len(),
{
    if docs.len() == 0 {
        Map::empty()
    } else {
        let m = tree_files(docs.drop_last(), taken, workspace);
        let doc = docs.last();
        m.insert(
            model::pick_name(None, render::flat_name(doc), doc.id, m.dom().union(taken)),
            Wanted {
                doc: doc.id,
                content: model::file_content(render::rendered_content(doc), doc, workspace),
                mtime: doc.updated_at,
            },
        )
    }
}

/// The workspace whose trees are shown.
pub open spec fn shown_workspace(t: TreeView) -> Option<Seq<char>> {
    match t.layout {
        LayoutView::Workspace { id, .. } => Some(id),
        _ => None,
    }
}

/// By what the documents of a directory are bound to their files.
pub open spec fn dir_key(dir: u64) -> Seq<char> {
    text::decimal(dir as nat)
}

/// Makes the files of a directory of a tree those of a list of documents.
pub open spec fn apply_tree_documents(
    t: TreeView,
    tree: Seq<char>,
    path: Seq<char>,
    docs: Seq<DocumentView>,
    now: SystemTime,
) -> Update {
    let u = Update { tree: t, inv: model::no_invalidation() };
    match t.tree_dir(tree, path) {
        Some(dir) => u.sync_dir(
            dir_key(dir),
            dir,
            tree_files(model::by_id(docs), t.subdirs(dir), shown_workspace(t)),
            now,
        ),
        None => u,
    }
}

/// Splits a path into its segments.
pub fn path_segments(path: &str) -> (r: Vec<String>)
    ensures
        api::texts(r@) == segments(path@),
{
    let c = chars_of(path);
    let n = c.len();
    let mut out: Vec<String> = Vec::new();
    let mut at: usize = 0;
    let mut done = false;
    assert(c@.skip(0) =~= c@);
    assert(api::texts(out@) + segments(c@) =~= segments(c@));
    while !done
        invariant
            n == c@.len(),
            at <= n,
            !done ==> api::texts(out@) + segments(c@.skip(at as int)) == segments(c@),
            done ==> api::texts(out@) == segments(c@),
        decreases
            n - at,
            (if done {
                0int
            } else {
                1int
            }),
    {
        let ghost o = api::texts(out@);
        let rest = slice_of(&c, at, n);
        assert(rest@ =~= c@.skip(at as int));
        let i = find_in(&rest, CharClass::Is('/'));
        let ghost tail = if i < rest@.len() {
            segments(rest@.skip(i + 1))
        } else {
            Seq::empty()
        };
        if i > 0 {
            let head = slice_of(&rest, 0, i);
            out.push(text_of(&head));
            proof {
                assert(head@ =~= rest@.take(i as int));
                assert(api::texts(out@) =~= o.push(rest@.take(i as int)));
                assert(o + (seq![rest@.take(i as int)] + tail) =~= api::texts(out@) + tail);
            }
        }
        assert(api::texts(out@) + tail == segments(c@));
        if i < rest.len() {
            assert(rest@.skip(i + 1) =~= c@.skip(at + i + 1));
            at = at + i + 1;
        } else {
            assert(api::texts(out@) + tail =~= api::texts(out@));
            at = n;
            done = true;
        }
    }
    out
}

/// Writes segments as a path.
fn path_of(segs: &Vec<String>) -> (r: String)
    ensures
        r@ == path_text(api::texts(segs@)),
{
    let ghost all = api::texts(segs@);
    if segs.len() == 0 {
        return copy_text("/");
    }
    let mut out = String::new();
    let n = segs.len();
    let mut i: usize = 0;
    assert(out@ =~= path_from(all.take(0)));
    while i < n
        invariant
            n == segs@.len(),
            i <= n,
            all == api::texts(segs@),
            out@ == path_from(all.take(i as int)),
        decreases n - i,
    {
        proof {
            assert(all.take(i + 1).drop_last() =~= all.take(i as int));
        }
        out.append("/");
        out.append(segs[i].as_str());
        i = i + 1;
    }
    assert(all.take(n as int) =~= all);
    out
}

/// Whether a directory is on the way to one of some paths.
fn leads_to(segs: &Vec<String>, paths: &Vec<Vec<String>>, Ghost(all): Ghost<Seq<Seq<char>>>) -> (r:
    bool)
    requires
        all.len() == paths@.len(),
        forall|i: int| 0 <= i < all.len() ==> api::texts((#[trigger] paths@[i])@) == segments(all[i]),
    ensures
        r == on_the_way(api::texts(segs@), all),
{
    let ghost s = api::texts(segs@);
    let n = paths.len();
    let mut i: usize = 0;
    while i < n
        invariant
            n == paths@.len(),
            n == all.len(),
            i <= n,
            s == api::texts(segs@),
            forall|i: int|
                0 <= i < all.len() ==> api::texts((#[trigger] paths@[i])@) == segments(all[i]),
            forall|j: int|
                0 <= j < i ==> !(#[trigger] segments(all[j]).len() >= s.len() && segments(
                    all[j],
                ).take(s.len() as int) == s),
        decreases n - i,
    {
        let p = &paths[i];
        let ghost ps = segments(all[i as int]);
        assert(api::texts(p@) == ps);
        if p.len() >= segs.len() {
            let m = segs.len();
            let mut k: usize = 0;
            let mut same = true;
            while k < m
                invariant
                    m == segs@.len(),
                    k <= m,
                    m <= p@.len(),
                    s == api::texts(segs@),
                    ps == api::texts(p@),
                    same ==> forall|j: int| 0 <= j < k ==> ps[j] == s[j],
                    !same ==> exists|j: int| 0 <= j < m && ps[j] != s[j],
                decreases m - k,
            {
                if !same_text(p[k].as_str(), segs[k].as_str()) {
                    assert(ps[k as int] != s[k as int]);
                    same = false;
                }
                k = k + 1;
            }
            if same {
                assert(ps.take(s.len() as int) =~= s);
                return true;
            }
            proof {
                let j = choose|j: int| 0 <= j < m && ps[j] != s[j];
                assert(ps.take(s.len() as int)[j] != s[j]);
            }
        }
        i = i + 1;
    }
    false
}

/// The segments of each of some paths.
fn all_segments(paths: &[String]) -> (r: Vec<Vec<String>>)
    ensures
        r@.len() == paths@.len(),
        forall|i: int|
            0 <= i < r@.len() ==> api::texts((#[trigger] r@[i])@) == segments(
                api::texts(paths@)[i],
            ),
{
    let mut out: Vec<Vec<String>> = Vec::new();
    let mut i: usize = 0;
    while i < paths.len()
        invariant
            i <= paths@.len(),
            out@.len() == i,
            forall|j: int|
                0 <= j < i ==> api::texts((#[trigger] out@[j])@) == segments(
                    api::texts(paths@)[j],
                ),
        decreases paths@.len() - i,
    {
        out.push(path_segments(paths[i].as_str()));
        i = i + 1;
    }
    out
}

/// The trees among some that are not in a list.
fn gone_trees(names: &Vec<String>, infos: &[TreeInfo]) -> (r: Vec<String>)
    ensures
        api::texts(r@) == missing_trees(api::texts(names@), api::tree_views(infos@)),
{
    let ghost all = api::texts(names@);
    let ghost views = api::tree_views(infos@);
    let mut out: Vec<String> = Vec::new();
    let n = names.len();
    let mut i: usize = 0;
    assert(api::texts(out@) =~= missing_trees(all.take(0), views));
    while i < n
        invariant
            n == names@.len(),
            i <= n,
            all == api::texts(names@),
            views == api::tree_views(infos@),
            api::texts(out@) == missing_trees(all.take(i as int), views),
        decreases n - i,
    {
        let ghost o = out@;
        proof {
            assert(all.take(i + 1).drop_last() =~= all.take(i as int));
        }
        let mut found = false;
        let mut k: usize = 0;
        while k < infos.len()
            invariant
                k <= infos@.len(),
                i < names@.len(),
                views == api::tree_views(infos@),
                found ==> exists|j: int|
                    0 <= j < views.len() && (#[trigger] views[j]).name == names@[i as int]@,
                !found ==> forall|j: int|
                    0 <= j < k ==> (#[trigger] views[j]).name != names@[i as int]@,
            decreases infos@.len() - k,
        {
            if same_text(infos[k].name.as_str(), names[i].as_str()) {
                assert(views[k as int].name == names@[i as int]@);
                found = true;
            }
            k = k + 1;
        }
        if !found {
            out.push(copy_text(names[i].as_str()));
            assert(api::texts(out@) =~= api::texts(o).push(all[i as int]));
        }
        i = i + 1;
    }
    assert(all.take(n as int) =~= all);
    out
}

/// The inodes of the entries that are gone.
fn inos_removed(inv: &Invalidation) -> (r: Vec<u64>)
    ensures
        r@ == removed_inos(inv@),
{
    let mut out: Vec<u64> = Vec::new();
    let mut i: usize = 0;
    while i < inv.removed.len()
        invariant
            i <= inv.removed@.len(),
            out@.len() == i,
            forall|j: int| 0 <= j < i ==> #[trigger] out@[j] == inv.removed@[j].1,
        decreases inv.removed@.len() - i,
    {
        out.push(inv.removed[i].1);
        i = i + 1;
    }
    assert(out@ =~= removed_inos(inv@));
    out
}

proof fn lemma_prune_frame(
    u: Update,
    dir: u64,
    at: Seq<Seq<char>>,
    paths: Seq<Seq<char>>,
)
    ensures
        model::same_but_nodes(u.prune(dir, at, paths).tree, u.tree),
    decreases u64::MAX - dir, 1int, 0nat,
{
    lemma_prune_names_frame(u, dir, at, paths, u.tree.entries(dir), u.tree.entry_names(dir));
}

proof fn lemma_prune_names_frame(
    u: Update,
    dir: u64,
    at: Seq<Seq<char>>,
    paths: Seq<Seq<char>>,
    have: Map<Seq<char>, u64>,
    names: Seq<Seq<char>>,
)
    ensures
        model::same_but_nodes(u.prune_names(dir, at, paths, have, names).tree, u.tree),
    decreases u64::MAX - dir, 0int, names.len(),
{
    if names.len() > 0 {
        lemma_prune_names_frame(u, dir, at, paths, have, names.drop_last());
        let v = u.prune_names(dir, at, paths, have, names.drop_last());
        let c = have[names.last()];
        model::lemma_clear_frame(v, c);
        if c > dir {
            lemma_prune_frame(v, c, at.push(names.last()), paths);
        }
    }
}

proof fn lemma_total_segments(paths: Seq<Seq<char>>, i: int)
    requires
        0 <= i < paths.len(),
    ensures
        total_segments(paths.take(i)) + segments(paths[i]).len() == total_segments(paths.take(i + 1)),
        total_segments(paths.take(i + 1)) <= total_segments(paths),
    decreases paths.len(),
{
    assert(paths.take(i + 1).drop_last() =~= paths.take(i));
    if i + 1 == paths.len() {
        assert(paths.take(i + 1) =~= paths);
    } else {
        lemma_total_segments(paths.drop_last(), i);
        assert(paths.drop_last().take(i + 1) =~= paths.take(i + 1));
        assert(paths.drop_last().take(i) =~= paths.take(i));
    }
}

impl Tree {
    /// Takes a directory away, with everything below it.
    fn drop_dir(&mut self, ino: u64, inv: &mut Invalidation)
        ensures
            (Update { tree: final(self)@, inv: final(inv)@ }) == (Update {
                tree: old(self)@,
                inv: old(inv)@,
            }).drop_dir(ino),
            model::same_but_nodes(final(self)@, old(self)@),
    {
        proof {
            model::lemma_clear_frame(Update { tree: self@, inv: inv@ }, ino);
        }
        self.remove_subtree(ino, inv);
        self.drop_node(ino, inv);
    }

    /// Makes a directory in another one.
    fn add_dir(&mut self, parent: u64, name: &str, now: SystemTime, inv: &mut Invalidation) -> (r:
        u64)
        requires
            old(self)@.room(1),
        ensures
            r == old(self)@.next_ino,
            (Update { tree: final(self)@, inv: final(inv)@ }) == (Update {
                tree: old(self)@,
                inv: old(inv)@,
            }).add_dir(parent, name@, now),
    {
        let ino = self.take_ino();
        self.insert_node(
            Node { ino, parent, name: copy_text(name), mtime: now, content: NodeContent::Dir },
        );
        inv.dirty(parent);
        ino
    }

    /// Makes the trees that are shown those of a list, each with a directory at the top.
    pub fn apply_trees(&mut self, infos: &[TreeInfo]) -> (r: Invalidation)
        requires
            old(self)@.layout is Workspace ==> old(self)@.room(infos@.len() as int),
        ensures
            exists|now: SystemTime|
                (Update { tree: final(self)@, inv: r@ }) == #[trigger] apply_trees(
                    old(self)@,
                    api::tree_views(infos@),
                    now,
                ),
    {
        let now = time_now();
        let ghost t0 = self@;
        let ghost views = api::tree_views(infos@);
        let mut inv = Invalidation::new();
        let ghost u0 = Update { tree: t0, inv: model::no_invalidation() };
        if !self.is_workspace() {
            assert(u0 == apply_trees(t0, views, now));
            return inv;
        }
        let gone = gone_trees(&self.tree_names(), infos);
        let ghost names = api::texts(gone@);
        let n = gone.len();
        let mut i: usize = 0;
        assert(names.take(0) =~= Seq::empty());
        while i < n
            invariant
                n == gone@.len(),
                i <= n,
                names == api::texts(gone@),
                (Update { tree: self@, inv: inv@ }) == u0.drop_trees(names.take(i as int)),
                self@.next_ino == t0.next_ino,
            decreases n - i,
        {
            proof {
                assert(names.take(i + 1).drop_last() =~= names.take(i as int));
            }
            if let Some(ino) = self.lookup_ino(ROOT_INO, gone[i].as_str()) {
                self.drop_dir(ino, &mut inv);
            }
            self.forget_tree(gone[i].as_str());
            inv.dirty(ROOT_INO);
            i = i + 1;
        }
        assert(names.take(n as int) =~= names);
        let rule = Forget::Inos(inos_removed(&inv));
        self.forget(&rule);

        let ghost w = Update { tree: self@, inv: inv@ };
        let m = infos.len();
        let mut j: usize = 0;
        assert(views.take(0) =~= Seq::empty());
        while j < m
            invariant
                m == infos@.len(),
                j <= m,
                views == api::tree_views(infos@),
                (Update { tree: self@, inv: inv@ }) == w.apply_each_tree(
                    views.take(j as int),
                    now,
                ),
                self@.next_ino <= t0.next_ino + j,
                t0.room(m as int),
            decreases m - j,
        {
            proof {
                assert(views.take(j + 1).drop_last() =~= views.take(j as int));
            }
            let info = &infos[j];
            if self.ws_tree_meta(info.name.as_str()).is_none() {
                self.add_dir(ROOT_INO, info.name.as_str(), now, &mut inv);
            }
            self.note_tree(info);
            j = j + 1;
        }
        assert(views.take(m as int) =~= views);
        assert((Update { tree: self@, inv: inv@ }) == apply_trees(t0, views, now));
        inv
    }

    /// The directory of a path in a tree.
    fn tree_dir(&self, tree: &str, path: &str) -> (r: Option<u64>)
        ensures
            r == self@.tree_dir(tree@, path@),
    {
        if self.ws_tree_meta(tree).is_none() {
            return None;
        }
        let top = match self.context_dir(ROOT_INO, tree) {
            Some(i) => i,
            None => {
                return None;
            },
        };
        let segs = path_segments(path);
        let ghost all = api::texts(segs@);
        let mut at = Some(top);
        let n = segs.len();
        let mut i: usize = 0;
        assert(all.take(0) =~= Seq::empty());
        while i < n
            invariant
                n == segs@.len(),
                i <= n,
                all == api::texts(segs@),
                at == self@.walk(top, all.take(i as int)),
            decreases n - i,
        {
            proof {
                assert(all.take(i + 1).drop_last() =~= all.take(i as int));
            }
            at = match at {
                Some(d) => self.context_dir(d, segs[i].as_str()),
                None => None,
            };
            i = i + 1;
        }
        assert(all.take(n as int) =~= all);
        at
    }

    /// Takes the directories below one away that are on the way to none of some paths.
    fn prune(
        &mut self,
        dir: u64,
        at: &mut Vec<String>,
        paths: &Vec<Vec<String>>,
        inv: &mut Invalidation,
        Ghost(all): Ghost<Seq<Seq<char>>>,
    )
        requires
            all.len() == paths@.len(),
            forall|i: int|
                0 <= i < all.len() ==> api::texts((#[trigger] paths@[i])@) == segments(all[i]),
        ensures
            (Update { tree: final(self)@, inv: final(inv)@ }) == (Update {
                tree: old(self)@,
                inv: old(inv)@,
            }).prune(dir, api::texts(old(at)@), all),
            final(at)@ == old(at)@,
        decreases u64::MAX - dir,
    {
        let ghost u0 = Update { tree: self@, inv: inv@ };
        let ghost have = self@.entries(dir);
        let names = self.entry_names(dir);
        let inos = self.entry_inos(dir);
        let ghost ns = api::texts(names@);
        let ghost at0 = at@;
        let ghost s = api::texts(at@);
        let n = names.len();
        let mut i: usize = 0;
        assert(ns.take(0) =~= Seq::empty());
        while i < n
            invariant
                n == names@.len(),
                n == inos@.len(),
                i <= n,
                ns == api::texts(names@),
                at@ == at0,
                s == api::texts(at0),
                forall|j: int| 0 <= j < n ==> #[trigger] inos@[j] == have[ns[j]],
                all.len() == paths@.len(),
                forall|i: int|
                    0 <= i < all.len() ==> api::texts((#[trigger] paths@[i])@) == segments(all[i]),
                (Update { tree: self@, inv: inv@ }) == u0.prune_names(
                    dir,
                    s,
                    all,
                    have,
                    ns.take(i as int),
                ),
            decreases n - i,
        {
            proof {
                assert(ns.take(i + 1).drop_last() =~= ns.take(i as int));
            }
            let c = inos[i];
            let is_dir = match self.get(c) {
                Some(node) => node.is_dir(),
                None => false,
            };
            if is_dir {
                at.push(copy_text(names[i].as_str()));
                assert(api::texts(at@) =~= s.push(ns[i as int]));
                if !leads_to(at, paths, Ghost(all)) {
                    self.drop_dir(c, inv);
                    inv.dirty(dir);
                } else if c > dir {
                    self.prune(c, at, paths, inv, Ghost(all));
                }
                at.pop();
                assert(at@ =~= at0);
            }
            i = i + 1;
        }
        assert(ns.take(n as int) =~= ns);
    }

    /// Makes the directories on the way from one along some segments.
    fn make_path(
        &mut self,
        dir: u64,
        segs: &Vec<String>,
        now: SystemTime,
        inv: &mut Invalidation,
    )
        requires
            old(self)@.room(segs@.len() as int),
        ensures
            (Update { tree: final(self)@, inv: final(inv)@ }) == (Update {
                tree: old(self)@,
                inv: old(inv)@,
            }).make_path(dir, api::texts(segs@), now).0,
            final(self)@.next_ino <= old(self)@.next_ino + segs@.len(),
    {
        let ghost u0 = Update { tree: self@, inv: inv@ };
        let ghost all = api::texts(segs@);
        let mut at = Some(dir);
        let n = segs.len();
        let mut i: usize = 0;
        assert(all.take(0) =~= Seq::empty());
        while i < n
            invariant
                n == segs@.len(),
                i <= n,
                all == api::texts(segs@),
                (Update { tree: self@, inv: inv@ }, at) == u0.make_path(
                    dir,
                    all.take(i as int),
                    now,
                ),
                self@.next_ino <= u0.tree.next_ino + i,
                u0.tree.room(n as int),
            decreases n - i,
        {
            proof {
                assert(all.take(i + 1).drop_last() =~= all.take(i as int));
            }
            if let Some(d) = at {
                at = match self.lookup_ino(d, segs[i].as_str()) {
                    Some(c) => match self.get(c) {
                        Some(node) => if node.is_dir() {
                            Some(c)
                        } else {
                            None
                        },
                        None => None,
                    },
                    None => Some(self.add_dir(d, segs[i].as_str(), now, inv)),
                };
            }
            i = i + 1;
        }
        assert(all.take(n as int) =~= all);
    }

    /// Makes the directories of a tree those on the way to some paths.
    pub fn apply_tree_paths(&mut self, tree: &str, paths: &[String]) -> (r: Invalidation)
        requires
            old(self)@.tree_dir(tree@, Seq::empty()) is Some ==> old(self)@.room(
                total_segments(api::texts(paths@)) as int,
            ),
        ensures
            exists|now: SystemTime|
                (Update { tree: final(self)@, inv: r@ }) == #[trigger] apply_tree_paths(
                    old(self)@,
                    tree@,
                    api::texts(paths@),
                    now,
                ),
    {
        let now = time_now();
        let ghost t0 = self@;
        let ghost all = api::texts(paths@);
        let mut inv = Invalidation::new();
        let ghost u0 = Update { tree: t0, inv: model::no_invalidation() };
        let empty = String::new();
        assert(empty@ =~= Seq::empty());
        let dir = match self.tree_dir(tree, empty.as_str()) {
            Some(d) => d,
            None => {
                assert(u0 == apply_tree_paths(t0, tree@, all, now));
                return inv;
            },
        };
        let segs = all_segments(paths);
        let mut at: Vec<String> = Vec::new();
        assert(api::texts(at@) =~= Seq::empty());
        proof {
            lemma_prune_frame(u0, dir, Seq::empty(), all);
        }
        self.prune(dir, &mut at, &segs, &mut inv, Ghost(all));
        let rule = Forget::Inos(inos_removed(&inv));
        self.forget(&rule);

        let ghost w = Update { tree: self@, inv: inv@ };
        let n = segs.len();
        let mut i: usize = 0;
        assert(all.take(0) =~= Seq::empty());
        while i < n
            invariant
                n == segs@.len(),
                n == all.len(),
                i <= n,
                forall|i: int|
                    0 <= i < n ==> api::texts((#[trigger] segs@[i])@) == segments(all[i]),
                (Update { tree: self@, inv: inv@ }) == w.make_paths(dir, all.take(i as int), now),
                self@.next_ino <= t0.next_ino + total_segments(all.take(i as int)),
                t0.room(total_segments(all) as int),
            decreases n - i,
        {
            proof {
                assert(all.take(i + 1).drop_last() =~= all.take(i as int));
                lemma_total_segments(all, i as int);
            }
            self.make_path(dir, &segs[i], now, &mut inv);
            i = i + 1;
        }
        assert(all.take(n as int) =~= all);
        assert((Update { tree: self@, inv: inv@ }) == apply_tree_paths(t0, tree@, all, now));
        inv
    }
}

proof fn lemma_tree_files(
    docs: Seq<DocumentView>,
    taken: Set<Seq<char>>,
    workspace: Option<Seq<char>>,
)
    ensures
        tree_files(docs, taken, workspace).dom().finite(),
        tree_files(docs, taken, workspace).dom().len() <= docs.len(),
    decreases docs.len(),
{
    if docs.len() > 0 {
        lemma_tree_files(docs.drop_last(), taken, workspace);
    }
}

impl Tree {
    /// The names of the directories in a directory.
    fn subdir_names(&self, dir: u64) -> (r: StrMap<bool>)
        ensures
            r@.dom() == self@.subdirs(dir),
    {
        let names = self.entry_names(dir);
        let ghost all = api::texts(names@);
        let mut out: StrMap<bool> = StrMap::new();
        let n = names.len();
        let mut i: usize = 0;
        while i < n
            invariant
                n == names@.len(),
                i <= n,
                all == api::texts(names@),
                forall|x: Seq<char>| #[trigger]
                    out@.contains_key(x) <==> self@.subdirs(dir).contains(x) && all.take(
                        i as int,
                    ).contains(x),
            decreases n - i,
        {
            let ghost o = out@;
            proof {
                assert(all.take(i + 1) =~= all.take(i as int).push(all[i as int]));
            }
            if self.context_dir(dir, names[i].as_str()).is_some() {
                out.insert(copy_text(names[i].as_str()), true);
            }
            proof {
                assert forall|x: Seq<char>| #[trigger]
                    out@.contains_key(x) <==> self@.subdirs(dir).contains(x) && all.take(
                        i + 1,
                    ).contains(x) by {
                    crate::wellformed::lemma_push_contains(
                        all.take(i as int),
                        all[i as int],
                        x,
                    );
                    assert(o.contains_key(x) <==> self@.subdirs(dir).contains(x) && all.take(
                        i as int,
                    ).contains(x));
                }
            }
            i = i + 1;
        }
        proof {
            assert(all.take(n as int) =~= all);
            assert forall|x: Seq<char>| self@.subdirs(dir).contains(x) implies all.contains(x) by {
                assert(self@.entries(dir).dom().contains(x));
                assert(all.to_set().contains(x));
            }
            assert(out@.dom() =~= self@.subdirs(dir));
        }
        out
    }

    /// Works out which files a directory of a tree is to hold.
    fn plan_dir(&self, dir: u64, docs: &[Document]) -> (r: StrMap<WantedFile>)
        ensures
            state::files_view(r) == tree_files(
                model::by_id(api::document_views(docs@)),
                self@.subdirs(dir),
                shown_workspace(self@),
            ),
    {
        let sorted = sorted_by_id(docs);
        let ghost all = state::ref_views(sorted@);
        let workspace = self.ws_id();
        let ghost ws = shown_workspace(self@);
        let ghost taken = self@.subdirs(dir);
        let dirs = self.subdir_names(dir);
        let mut want: StrMap<WantedFile> = StrMap::new();
        let n = sorted.len();
        let mut i: usize = 0;
        assert(state::files_view(want) =~= tree_files(all.take(0), taken, ws));
        while i < n
            invariant
                n == sorted@.len(),
                i <= n,
                all == state::ref_views(sorted@),
                ws == api::option_text(workspace),
                taken == dirs@.dom(),
                state::files_view(want) == tree_files(all.take(i as int), taken, ws),
            decreases n - i,
        {
            proof {
                assert(all.take(i + 1).drop_last() =~= all.take(i as int));
            }
            let ghost m = state::files_view(want);
            let doc = sorted[i];
            let (base, content) = flat(doc);
            assert(want@.dom() =~= m.dom());
            let name = free_name(&want, &dirs, base, doc.id);
            let file = WantedFile {
                doc: doc.id,
                content: file_content(content, doc, workspace.as_ref()),
                mtime: doc.updated_at,
            };
            let ghost nm = name@;
            let ghost w = file@;
            want.insert(name, file);
            assert(state::files_view(want) =~= m.insert(nm, w));
            i = i + 1;
        }
        assert(all.take(n as int) =~= all);
        want
    }

    /// Makes the files of a directory of a tree those of a list of documents.
    pub fn apply_tree_documents(
        &mut self,
        tree: &str,
        path: &str,
        docs: &[Document],
    ) -> (r: Invalidation)
        requires
            old(self)@.tree_dir(tree@, path@) is Some ==> old(self)@.room(docs@.len() as int),
        ensures
            exists|now: SystemTime|
                (Update { tree: final(self)@, inv: r@ }) == #[trigger] apply_tree_documents(
                    old(self)@,
                    tree@,
                    path@,
                    api::document_views(docs@),
                    now,
                ),
    {
        let now = time_now();
        let ghost t0 = self@;
        let ghost views = api::document_views(docs@);
        let mut inv = Invalidation::new();
        if let Some(dir) = self.tree_dir(tree, path) {
            let want = self.plan_dir(dir, docs);
            proof {
                let files = state::files_view(want);
                model::lemma_by_id_len(views);
                lemma_tree_files(model::by_id(views), t0.subdirs(dir), shown_workspace(t0));
                assert(want@.dom() =~= files.dom());
                strmap::lemma_ordered(files.dom());
            }
            self.sync_dir(decimal_text(dir).as_str(), dir, &want, now, &mut inv);
        }
        assert((Update { tree: self@, inv: inv@ }) == apply_tree_documents(
            t0,
            tree@,
            path@,
            views,
            now,
        ));
        inv
    }

    /// The tree that a directory belongs to, and its segments below it.
    fn dir_path(&self, ino: u64) -> (r: Option<(String, Vec<String>)>)
        ensures
            (match r {
                Some(p) => self@.dir_path(ino) == Some((p.0@, api::texts(p.1@))),
                None => self@.dir_path(ino) is None,
            }),
        decreases ino,
    {
        let node = match self.get(ino) {
            Some(n) => n,
            None => {
                return None;
            },
        };
        if !node.is_dir() || ino == ROOT_INO {
            return None;
        }
        if node.parent == ROOT_INO {
            if self.ws_tree_meta(node.name.as_str()).is_some() {
                let segs: Vec<String> = Vec::new();
                assert(api::texts(segs@) =~= Seq::empty());
                Some((copy_text(node.name.as_str()), segs))
            } else {
                None
            }
        } else if node.parent < ino {
            match self.dir_path(node.parent) {
                Some((tree, mut segs)) => {
                    let ghost s = segs@;
                    segs.push(copy_text(node.name.as_str()));
                    assert(api::texts(segs@) =~= api::texts(s).push(node.name@));
                    Some((tree, segs))
                },
                None => None,
            }
        } else {
            None
        }
    }

    /// The tree that a directory belongs to, with the tree's identifier and type, and the
    /// directory's path in it.
    pub fn locate_tree_dir(&self, ino: u64) -> (r: Option<(String, String, String, String)>)
        ensures
            (match r {
                Some(p) => match self@.dir_path(ino) {
                    Some((tree, segs)) => p.0@ == tree && self@.trees.contains_key(tree)
                        && self@.trees[tree] == (p.1@, p.2@) && p.3@ == path_text(segs),
                    None => false,
                },
                None => self@.dir_path(ino) is None,
            }),
    {
        proof {
            lemma_dir_path_tree(self@, ino);
        }
        match self.dir_path(ino) {
            Some((tree, segs)) => match self.ws_tree_meta(tree.as_str()) {
                Some((id, kind)) => Some((tree, id, kind, path_of(&segs))),
                None => None,
            },
            None => None,
        }
    }

    /// The tree that a document's file belongs to, with the tree's identifier and type, the path
    /// of its directory, and the document.
    pub fn tree_file(&self, ino: u64) -> (r: Option<(String, String, String, String, u64)>)
        ensures
            (match r {
                Some(p) => {
                    &&& self@.is_file(ino)
                    &&& self@.shows(p.4, ino)
                    &&& match self@.dir_path(self@.nodes[ino].parent) {
                        Some((tree, segs)) => p.0@ == tree && self@.trees.contains_key(tree)
                            && self@.trees[tree] == (p.1@, p.2@) && p.3@ == path_text(segs),
                        None => false,
                    }
                },
                None => !(self@.is_file(ino) && (exists|doc: u64|
                    self@.shows(doc, ino)) && self@.dir_path(
                    self@.nodes[ino].parent,
                ) is Some),
            }),
    {
        let node = match self.get(ino) {
            Some(n) => n,
            None => {
                return None;
            },
        };
        if node.is_dir() {
            return None;
        }
        match (self.doc_for_ino(ino), self.locate_tree_dir(node.parent)) {
            (Some((key, doc)), Some((tree, id, kind, path))) => {
                assert(self@.bound(key@, doc, ino));
                Some((tree, id, kind, path, doc))
            },
            _ => None,
        }
    }

    /// Gives a directory of a tree another name. The paths of what is below it follow.
    pub fn rename_tree_path(&mut self, ino: u64, new_name: &str, tree: &str)
        ensures
            final(self)@ == old(self)@.rename_path(ino, new_name@, tree@),
    {
        if let Some((own, segs)) = self.dir_path(ino) {
            if segs.len() > 0 && same_text(own.as_str(), tree) {
                let taken = match self.get(ino) {
                    Some(node) => self.lookup_ino(node.parent, new_name).is_some(),
                    None => true,
                };
                if !taken {
                    self.rename_entry(ino, new_name);
                }
            }
        }
    }
}

proof fn lemma_dir_path_tree(t: TreeView, ino: u64)
    ensures
        (match t.dir_path(ino) {
            Some((tree, segs)) => t.trees.contains_key(tree),
            None => true,
        }),
    decreases ino,
{
    if t.is_dir(ino) && ino != ROOT_INO && t.nodes[ino].parent != ROOT_INO && t.nodes[ino].parent
        < ino {
        lemma_dir_path_tree(t, t.nodes[ino].parent);
    }
}

} // verus!
