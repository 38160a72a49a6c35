//! What holds of every tree, and that every operation keeps it.

use crate::api::{ContextView, DocumentView};
use crate::docmap::ForgetView;
use crate::model;
use crate::model::{ContentView, LayoutView, NodeView, Plan, Sync, TreeView, Update, Wanted};
use crate::render;
use crate::render::SCHEMA_DIRS;
use crate::state::{
    CONTEXTS_INO, CONTEXT_META_FILE, FIRST_DYNAMIC_INO, FIRST_OVERLAY_INO, ROOT_INO,
};
use crate::strmap;
use std::time::SystemTime;
use vstd::prelude::*;
use vstd::string::*;

verus! {

impl TreeView {
    /// Whether an inode is that of a place where contexts or their own entries stand.
    pub open spec fn is_home(self, ino: u64) -> bool {
        match self.layout {
            LayoutView::Contexts => ino == CONTEXTS_INO || (self.nodes.contains_key(ino)
                && self.nodes[ino].parent == CONTEXTS_INO),
            LayoutView::Context(_) => ino == ROOT_INO,
            LayoutView::Workspace { .. } => false,
        }
    }

    /// Each entry leads to a node that knows its place. Only directories have entries, and
    /// directories have greater inodes than those that they are in.
    pub open spec fn entries_lead_to_nodes(self) -> bool {
        forall|p: u64, n: Seq<char>| #[trigger]
            self.entries(p).contains_key(n) ==> {
                let c = self.entries(p)[n];
                &&& self.nodes.contains_key(c)
                &&& self.nodes[c].parent == p
                &&& self.nodes[c].name == n
                &&& !self.is_file(p)
                &&& self.nodes[c].is_dir() ==> p < c
            }
    }

    /// Each node has its own inode, which was handed out.
    pub open spec fn nodes_have_inodes(self) -> bool {
        &&& FIRST_DYNAMIC_INO <= self.next_ino <= FIRST_OVERLAY_INO
        &&& self.children.dom().finite()
        &&& forall|i: u64| #[trigger]
            self.nodes.contains_key(i) ==> {
                &&& self.nodes[i].ino == i
                &&& self.children.contains_key(i)
                &&& self.nodes[i].parent < self.next_ino
                &&& i < self.next_ino || (i >= FIRST_OVERLAY_INO && !self.nodes[i].is_dir())
            }
        &&& forall|i: u64| #[trigger]
            self.children.contains_key(i) ==> (i < self.next_ino || i >= FIRST_OVERLAY_INO)
                && self.children[i].dom().finite()
    }

    /// What documents are bound to is no directory, and no file of a context's own.
    pub open spec fn documents_are_files(self) -> bool {
        &&& forall|k: (Seq<char>, u64)| #[trigger]
            self.docs.contains_key(k) ==> self.docs[k] < self.next_ino || self.docs[k]
                >= FIRST_OVERLAY_INO
        &&& forall|k: (Seq<char>, u64)| #[trigger]
            self.docs.contains_key(k) && self.nodes.contains_key(self.docs[k]) ==> {
                &&& !self.nodes[self.docs[k]].is_dir()
                &&& !self.is_home(self.nodes[self.docs[k]].parent)
            }
    }

    /// The top is there.
    pub open spec fn has_top(self) -> bool {
        &&& self.is_dir(ROOT_INO)
        &&& self.nodes[ROOT_INO].parent == ROOT_INO
        &&& self.nodes[ROOT_INO].name.len() == 0
        &&& self.layout is Contexts ==> self.is_dir(CONTEXTS_INO) && self.nodes[CONTEXTS_INO].parent
            == ROOT_INO
    }

    /// A context has its directories and its meta file.
    pub open spec fn has_skeleton(self, ctx_ino: u64) -> bool {
        &&& forall|k: int|
            0 <= k < SCHEMA_DIRS@.len() ==> self.context_dir(
                ctx_ino,
                #[trigger] model::label(k),
            ) is Some
        &&& self.lookup(ctx_ino, CONTEXT_META_FILE@) is Some
        &&& self.is_file(self.lookup(ctx_ino, CONTEXT_META_FILE@)->0)
    }

    /// Each context stands in its place, with its directories and its meta file.
    pub open spec fn contexts_stand(self) -> bool {
        &&& self.contexts.dom().finite()
        &&& forall|id: Seq<char>| #[trigger]
            self.contexts.contains_key(id) ==> {
                let i = self.contexts[id];
                &&& self.admits(id)
                &&& self.is_dir(i)
                &&& self.layout is Contexts ==> i >= FIRST_DYNAMIC_INO && self.nodes[i].parent
                    == CONTEXTS_INO && self.nodes[i].name == id && self.lookup(CONTEXTS_INO, id)
                    == Some(i)
                &&& self.layout is Context ==> i == ROOT_INO
                &&& self.has_skeleton(i)
            }
    }

    /// Where contexts are shown, directories stand at the top, among the contexts and in a
    /// context: the directories that files stand in hold none.
    pub open spec fn directories_stand_at_homes(self) -> bool {
        !(self.layout is Workspace) ==> forall|i: u64| #[trigger]
            self.is_dir(i) && i != ROOT_INO && !(self.layout is Contexts && i == CONTEXTS_INO)
                && self.is_dir(self.nodes[i].parent) ==> self.is_home(self.nodes[i].parent)
    }

    /// What holds of every tree.
    pub open spec fn wf(self) -> bool {
        &&& self.entries_lead_to_nodes()
        &&& self.nodes_have_inodes()
        &&& self.documents_are_files()
        &&& self.has_top()
        &&& self.contexts_stand()
        &&& self.directories_stand_at_homes()
    }
}

/// Whether an entry is one of those that a context always has.
pub open spec fn is_own_entry(name: Seq<char>) -> bool {
    model::is_label(name) || name == CONTEXT_META_FILE@
}

/// A context stands at a home.
pub proof fn lemma_context_home(t: TreeView, id: Seq<char>)
    requires
        t.contexts_stand(),
        t.contexts.contains_key(id),
    ensures
        t.is_home(t.contexts[id]),
{
}

/// Two trees that agree on a context's entries and on what they lead to agree on its skeleton.
proof fn lemma_skeleton_stays(t: TreeView, u: TreeView, ctx_ino: u64)
    requires
        t.has_skeleton(ctx_ino),
        forall|n: Seq<char>|
            is_own_entry(n) && #[trigger] t.lookup(ctx_ino, n) is Some ==> u.lookup(ctx_ino, n)
                == t.lookup(ctx_ino, n) && u.is_dir(t.lookup(ctx_ino, n)->0) == t.is_dir(
                t.lookup(ctx_ino, n)->0,
            ) && u.nodes.contains_key(t.lookup(ctx_ino, n)->0),
    ensures
        u.has_skeleton(ctx_ino),
{
    assert forall|k: int| 0 <= k < SCHEMA_DIRS@.len() implies u.context_dir(
        ctx_ino,
        #[trigger] model::label(k),
    ) is Some by {
        let n = model::label(k);
        assert(t.context_dir(ctx_ino, n) is Some);
        assert(is_own_entry(n));
        assert(t.lookup(ctx_ino, n) is Some);
    }
    assert(t.lookup(ctx_ino, CONTEXT_META_FILE@) is Some);
}

/// Directories that stay where they were, or go, still stand at homes.
proof fn lemma_homes_stay(t: TreeView, u: TreeView)
    requires
        t.directories_stand_at_homes(),
        u.layout == t.layout,
        forall|i: u64| #[trigger]
            u.is_dir(i) ==> t.is_dir(i) && u.nodes[i].parent == t.nodes[i].parent,
    ensures
        u.directories_stand_at_homes(),
{
    if !(u.layout is Workspace) {
        assert forall|i: u64| #[trigger]
            u.is_dir(i) && i != ROOT_INO && !(u.layout is Contexts && i == CONTEXTS_INO)
                && u.is_dir(u.nodes[i].parent) implies u.is_home(u.nodes[i].parent) by {
            let p = u.nodes[i].parent;
            assert(t.is_dir(i) && t.is_dir(p));
            assert(t.is_home(p));
        }
    }
}

/// A directory that files stand in holds no directory, where contexts are shown.
pub proof fn lemma_no_directory_in(t: TreeView, dir: u64, ino: u64)
    requires
        t.wf(),
        takes_files(t, dir),
        !(t.layout is Workspace),
        t.nodes.contains_key(ino),
        t.nodes[ino].parent == dir,
    ensures
        !t.is_dir(ino),
{
}

/// Putting a node in place keeps a tree well-formed, where its inode is new and its directory is
/// one that takes it.
pub proof fn lemma_insert_wf(t: TreeView, node: NodeView)
    requires
        t.wf(),
        node.ino != ROOT_INO,
        !t.nodes.contains_key(node.ino),
        !t.children.contains_key(node.ino),
        node.ino < t.next_ino || (node.ino >= FIRST_OVERLAY_INO && !node.is_dir()),
        node.parent < t.next_ino,
        node.parent != node.ino,
        !t.is_file(node.parent),
        node.is_dir() ==> node.parent < node.ino,
        forall|k: (Seq<char>, u64)| #[trigger]
            t.docs.contains_key(k) && t.docs[k] == node.ino ==> !node.is_dir() && !t.is_home(
                node.parent,
            ),
        forall|id: Seq<char>| #[trigger]
            t.contexts.contains_key(id) && t.contexts[id] == node.parent ==> !is_own_entry(
                node.name,
            ),
        t.layout is Contexts && node.parent == CONTEXTS_INO ==> !t.contexts.contains_key(node.name)
            && forall|i: u64| #[trigger]
            t.nodes.contains_key(i) ==> t.nodes[i].parent != node.ino,
        node.is_dir() ==> t.layout is Workspace || t.is_home(node.parent),
        node.is_dir() ==> forall|i: u64| #[trigger]
            t.nodes.contains_key(i) ==> t.nodes[i].parent != node.ino,
    ensures
        t.insert_node(node).wf(),
{
    let u = t.insert_node(node);
    if !(t.layout is Workspace) {
        assert forall|i: u64| #[trigger]
            u.is_dir(i) && i != ROOT_INO && !(u.layout is Contexts && i == CONTEXTS_INO)
                && u.is_dir(u.nodes[i].parent) implies u.is_home(u.nodes[i].parent) by {
            if i != node.ino {
                assert(t.is_dir(i));
                let p = t.nodes[i].parent;
                if p == node.ino {
                    assert(t.nodes.contains_key(i));
                } else {
                    assert(t.is_dir(p));
                    assert(t.is_home(p));
                }
            }
        }
    }
    assert forall|p: u64, n: Seq<char>| #[trigger] u.entries(p).contains_key(n) implies {
        let c = u.entries(p)[n];
        &&& u.nodes.contains_key(c)
        &&& u.nodes[c].parent == p
        &&& u.nodes[c].name == n
        &&& !u.is_file(p)
        &&& u.nodes[c].is_dir() ==> p < c
    } by {
        if !(p == node.parent && n == node.name) {
            assert(t.entries(p).contains_key(n));
        }
    }
    assert forall|i: u64| u.is_home(i) && i != node.ino implies t.is_home(i) by {}
    assert forall|k: (Seq<char>, u64)| #[trigger]
        u.docs.contains_key(k) && u.nodes.contains_key(u.docs[k]) implies {
        &&& !u.nodes[u.docs[k]].is_dir()
        &&& !u.is_home(u.nodes[u.docs[k]].parent)
    } by {
        assert(t.docs.contains_key(k));
        if u.docs[k] != node.ino {
            assert(t.nodes.contains_key(t.docs[k]));
            let p = t.nodes[t.docs[k]].parent;
            if p == node.ino {
                assert(t.nodes.contains_key(t.docs[k]));
            }
        }
    }
    assert forall|id: Seq<char>| #[trigger] u.contexts.contains_key(id) implies u.has_skeleton(
        u.contexts[id],
    ) by {
        let i = t.contexts[id];
        assert(t.contexts.contains_key(id));
        lemma_skeleton_stays(t, u, i);
    }
}

/// Taking a node away keeps a tree well-formed, where it is not one that must stay.
pub proof fn lemma_remove_wf(t: TreeView, ino: u64)
    requires
        t.wf(),
        ino != ROOT_INO,
        t.layout is Contexts ==> ino != CONTEXTS_INO,
        forall|id: Seq<char>| #[trigger] t.contexts.contains_key(id) ==> t.contexts[id] != ino,
        t.nodes.contains_key(ino) ==> !(exists|id: Seq<char>| #[trigger]
            t.contexts.contains_key(id) && t.contexts[id] == t.nodes[ino].parent),
        t.layout is Contexts && t.nodes.contains_key(ino) && t.nodes[ino].parent == CONTEXTS_INO
            ==> !t.contexts.contains_key(t.nodes[ino].name),
    ensures
        t.remove_node(ino).wf(),
{
    let u = t.remove_node(ino);
    lemma_homes_stay(t, u);
    if t.nodes.contains_key(ino) {
        assert forall|p: u64, n: Seq<char>| #[trigger] u.entries(p).contains_key(n) implies {
            let c = u.entries(p)[n];
            &&& u.nodes.contains_key(c)
            &&& u.nodes[c].parent == p
            &&& u.nodes[c].name == n
            &&& !u.is_file(p)
            &&& u.nodes[c].is_dir() ==> p < c
        } by {
            assert(t.entries(p).contains_key(n));
        }
        assert forall|k: (Seq<char>, u64)| #[trigger]
            u.docs.contains_key(k) && u.nodes.contains_key(u.docs[k]) implies {
            &&& !u.nodes[u.docs[k]].is_dir()
            &&& !u.is_home(u.nodes[u.docs[k]].parent)
        } by {
            assert(t.docs.contains_key(k) && t.nodes.contains_key(t.docs[k]));
        }
        assert forall|id: Seq<char>| #[trigger] u.contexts.contains_key(id) implies u.has_skeleton(
            u.contexts[id],
        ) by {
            let i = t.contexts[id];
            assert(t.contexts.contains_key(id));
            assert forall|n: Seq<char>|
                is_own_entry(n) && #[trigger] t.lookup(i, n) is Some implies u.lookup(i, n)
                == t.lookup(i, n) && u.is_dir(t.lookup(i, n)->0) == t.is_dir(t.lookup(i, n)->0)
                && u.nodes.contains_key(t.lookup(i, n)->0) by {
                assert(t.entries(i).contains_key(n));
                let c = t.entries(i)[n];
                assert(t.nodes[c].parent == i);
                assert(c != ino);
            }
            lemma_skeleton_stays(t, u, i);
        }
    }
}

/// Giving a node another content of its kind keeps a tree well-formed.
pub proof fn lemma_set_content_wf(t: TreeView, ino: u64, content: ContentView, mtime: SystemTime)
    requires
        t.wf(),
        t.nodes.contains_key(ino) ==> t.nodes[ino].is_dir() == (content is Dir),
    ensures
        t.set_content(ino, content, mtime).wf(),
{
    let u = t.set_content(ino, content, mtime);
    if t.nodes.contains_key(ino) {
        lemma_same_shape_wf(t, u);
    }
}

/// Trees with the same entries whose nodes are of the same kind and in the same place are
/// well-formed together.
proof fn lemma_same_shape_wf(t: TreeView, u: TreeView)
    requires
        t.wf(),
        u.children == t.children,
        u.next_ino == t.next_ino,
        u.docs == t.docs,
        u.contexts == t.contexts,
        u.layout == t.layout,
        u.nodes.dom() =~= t.nodes.dom(),
        forall|i: u64| #[trigger]
            t.nodes.contains_key(i) ==> {
                &&& u.nodes[i].ino == t.nodes[i].ino
                &&& u.nodes[i].parent == t.nodes[i].parent
                &&& u.nodes[i].name == t.nodes[i].name
                &&& u.nodes[i].is_dir() == t.nodes[i].is_dir()
            },
    ensures
        u.wf(),
{
    assert forall|p: u64, n: Seq<char>| #[trigger] u.entries(p).contains_key(n) implies {
        let c = u.entries(p)[n];
        &&& u.nodes.contains_key(c)
        &&& u.nodes[c].parent == p
        &&& u.nodes[c].name == n
        &&& !u.is_file(p)
        &&& u.nodes[c].is_dir() ==> p < c
    } by {
        assert(t.entries(p).contains_key(n));
    }
    assert forall|i: u64| #[trigger] u.nodes.contains_key(i) implies {
        &&& u.nodes[i].ino == i
        &&& u.children.contains_key(i)
        &&& u.nodes[i].parent < u.next_ino
        &&& i < u.next_ino || (i >= FIRST_OVERLAY_INO && !u.nodes[i].is_dir())
    } by {
        assert(t.nodes.contains_key(i));
    }
    assert forall|k: (Seq<char>, u64)| #[trigger]
        u.docs.contains_key(k) && u.nodes.contains_key(u.docs[k]) implies {
        &&& !u.nodes[u.docs[k]].is_dir()
        &&& !u.is_home(u.nodes[u.docs[k]].parent)
    } by {
        assert(t.docs.contains_key(k) && t.nodes.contains_key(t.docs[k]));
        let p = t.nodes[t.docs[k]].parent;
        if t.nodes.contains_key(p) {
            assert(u.nodes[p].parent == t.nodes[p].parent);
        }
    }
    assert(t.nodes.contains_key(ROOT_INO));
    assert(t.layout is Contexts ==> t.nodes.contains_key(CONTEXTS_INO));
    assert forall|i: u64| #[trigger] u.is_dir(i) implies t.is_dir(i) && u.nodes[i].parent
        == t.nodes[i].parent by {
        assert(t.nodes.contains_key(i));
    }
    lemma_homes_stay(t, u);
    assert forall|id: Seq<char>| #[trigger] u.contexts.contains_key(id) implies {
        let i = u.contexts[id];
        &&& u.admits(id)
        &&& u.is_dir(i)
        &&& u.layout is Contexts ==> i >= FIRST_DYNAMIC_INO && u.nodes[i].parent == CONTEXTS_INO
            && u.nodes[i].name == id && u.lookup(CONTEXTS_INO, id) == Some(i)
        &&& u.layout is Context ==> i == ROOT_INO
        &&& u.has_skeleton(i)
    } by {
        let i = t.contexts[id];
        assert(t.contexts.contains_key(id));
        assert(t.nodes.contains_key(i));
        assert forall|n: Seq<char>|
            is_own_entry(n) && #[trigger] t.lookup(i, n) is Some implies u.lookup(i, n)
            == t.lookup(i, n) && u.is_dir(t.lookup(i, n)->0) == t.is_dir(t.lookup(i, n)->0)
            && u.nodes.contains_key(t.lookup(i, n)->0) by {
            assert(t.nodes.contains_key(t.entries(i)[n]));
        }
        lemma_skeleton_stays(t, u, i);
    }
}

/// A later modification time keeps a tree well-formed.
pub proof fn lemma_touch_wf(t: TreeView, ino: u64, mtime: SystemTime)
    requires
        t.wf(),
    ensures
        t.touch(ino, mtime).wf(),
{
    if t.nodes.contains_key(ino) {
        lemma_set_content_wf(t, ino, t.nodes[ino].content, mtime);
    }
}

/// Handing out an inode keeps a tree well-formed.
pub proof fn lemma_take_ino_wf(t: TreeView)
    requires
        t.wf(),
        t.room(1),
    ensures
        t.take_ino().wf(),
        !t.take_ino().nodes.contains_key(t.next_ino),
        !t.take_ino().children.contains_key(t.next_ino),
        forall|i: u64| #[trigger]
            t.nodes.contains_key(i) ==> t.nodes[i].parent != t.next_ino,
        forall|k: (Seq<char>, u64)| #[trigger]
            t.docs.contains_key(k) ==> t.docs[k] != t.next_ino,
{
    let u = t.take_ino();
    lemma_same_nodes_wf(t, u);
}

/// Trees with the same nodes and entries are well-formed together, where bindings only went and
/// inodes were only handed out.
pub proof fn lemma_same_nodes_wf(t: TreeView, u: TreeView)
    requires
        t.wf(),
        u.children == t.children,
        u.nodes == t.nodes,
        t.next_ino <= u.next_ino <= FIRST_OVERLAY_INO,
        forall|k: (Seq<char>, u64)| #[trigger]
            u.docs.contains_key(k) ==> t.docs.contains_key(k) && t.docs[k] == u.docs[k],
        forall|id: Seq<char>| #[trigger]
            u.contexts.contains_key(id) ==> t.contexts.contains_key(id) && t.contexts[id]
                == u.contexts[id],
        u.contexts.dom().finite(),
        u.layout == t.layout,
    ensures
        u.wf(),
{
    lemma_homes_stay(t, u);
    assert forall|p: u64, n: Seq<char>| #[trigger] u.entries(p).contains_key(n) implies {
        let c = u.entries(p)[n];
        &&& u.nodes.contains_key(c)
        &&& u.nodes[c].parent == p
        &&& u.nodes[c].name == n
        &&& !u.is_file(p)
        &&& u.nodes[c].is_dir() ==> p < c
    } by {
        assert(t.entries(p).contains_key(n));
    }
    assert forall|k: (Seq<char>, u64)| #[trigger]
        u.docs.contains_key(k) && u.nodes.contains_key(u.docs[k]) implies {
        &&& !u.nodes[u.docs[k]].is_dir()
        &&& !u.is_home(u.nodes[u.docs[k]].parent)
    } by {
        assert(t.docs.contains_key(k) && t.nodes.contains_key(t.docs[k]));
    }
    assert forall|id: Seq<char>| #[trigger] u.contexts.contains_key(id) implies u.has_skeleton(
        u.contexts[id],
    ) by {
        assert(t.contexts.contains_key(id));
        lemma_skeleton_stays(t, u, t.contexts[id]);
    }
}

/// Dropping bindings keeps a tree well-formed.
pub proof fn lemma_forget_wf(t: TreeView, rule: ForgetView)
    requires
        t.wf(),
    ensures
        t.forget(rule).wf(),
{
    lemma_same_nodes_wf(t, t.forget(rule));
}

/// Binding a document to what is no directory and no file of a context's own keeps a tree
/// well-formed.
pub proof fn lemma_bind_wf(t: TreeView, ctx: Seq<char>, doc: u64, ino: u64)
    requires
        t.wf(),
        ino < t.next_ino || ino >= FIRST_OVERLAY_INO,
        t.nodes.contains_key(ino) ==> !t.nodes[ino].is_dir() && !t.is_home(t.nodes[ino].parent),
    ensures
        t.bind(ctx, doc, ino).wf(),
{
    let u = t.bind(ctx, doc, ino);
    let v = TreeView { docs: t.docs.remove((ctx, doc)), ..t };
    lemma_same_nodes_wf(t, v);
    lemma_homes_stay(t, u);
    assert forall|k: (Seq<char>, u64)| #[trigger]
        u.docs.contains_key(k) && u.nodes.contains_key(u.docs[k]) implies {
        &&& !u.nodes[u.docs[k]].is_dir()
        &&& !u.is_home(u.nodes[u.docs[k]].parent)
    } by {
        if k != (ctx, doc) {
            assert(v.docs.contains_key(k) && v.nodes.contains_key(v.docs[k]));
        }
    }
    assert forall|p: u64, n: Seq<char>| #[trigger] u.entries(p).contains_key(n) implies {
        let c = u.entries(p)[n];
        &&& u.nodes.contains_key(c)
        &&& u.nodes[c].parent == p
        &&& u.nodes[c].name == n
        &&& !u.is_file(p)
        &&& u.nodes[c].is_dir() ==> p < c
    } by {
        assert(t.entries(p).contains_key(n));
    }
    assert forall|id: Seq<char>| #[trigger] u.contexts.contains_key(id) implies u.has_skeleton(
        u.contexts[id],
    ) by {
        assert(t.contexts.contains_key(id));
        lemma_skeleton_stays(t, u, t.contexts[id]);
    }
}

/// Whether the nodes of one tree are among those of another.
pub open spec fn fewer_nodes(a: TreeView, b: TreeView) -> bool {
    forall|i: u64| #[trigger]
        a.nodes.contains_key(i) ==> b.nodes.contains_key(i) && a.nodes[i] == b.nodes[i]
}

/// Whether what is below a directory belongs to no context.
pub open spec fn clearable(t: TreeView, ino: u64) -> bool {
    &&& t.layout is Contexts ==> ino >= FIRST_DYNAMIC_INO
    &&& forall|id: Seq<char>| #[trigger] t.contexts.contains_key(id) ==> t.contexts[id] != ino
}

/// The entries of a directory lead to nodes that are in it.
pub proof fn lemma_entry_inos(t: TreeView, ino: u64)
    requires
        t.wf(),
    ensures
        forall|j: int|
            0 <= j < t.entry_inos(ino).len() ==> t.nodes.contains_key(
                #[trigger] t.entry_inos(ino)[j],
            ) && t.nodes[t.entry_inos(ino)[j]].parent == ino && t.entry_inos(ino)[j] != ROOT_INO && (
            t.is_dir(t.entry_inos(ino)[j]) ==> t.entry_inos(ino)[j] > ino),
{
    if t.children.contains_key(ino) {
        assert(t.children[ino].dom().finite());
    } else {
        assert(t.entries(ino).dom() =~= Set::empty());
    }
    strmap::lemma_ordered(t.entries(ino).dom());
    let names = t.entry_names(ino);
    assert forall|j: int| 0 <= j < t.entry_inos(ino).len() implies t.nodes.contains_key(
        #[trigger] t.entry_inos(ino)[j],
    ) && t.nodes[t.entry_inos(ino)[j]].parent == ino && t.entry_inos(ino)[j] != ROOT_INO && (
    t.is_dir(t.entry_inos(ino)[j]) ==> t.entry_inos(ino)[j] > ino) by {
        assert(names.to_set().contains(names[j]));
        assert(t.entries(ino).contains_key(names[j]));
    }
}

/// Taking everything below a directory away keeps a tree well-formed.
pub proof fn lemma_sweep_wf(u: Update, ino: u64)
    requires
        u.tree.wf(),
        clearable(u.tree, ino),
    ensures
        u.sweep(ino).tree.wf(),
        fewer_nodes(u.sweep(ino).tree, u.tree),
    decreases u64::MAX - ino, 1int, 0nat,
{
    lemma_entry_inos(u.tree, ino);
    lemma_sweep_inos_wf(u, ino, u.tree.entry_inos(ino));
}

pub proof fn lemma_sweep_inos_wf(u: Update, ino: u64, inos: Seq<u64>)
    requires
        u.tree.wf(),
        clearable(u.tree, ino),
        forall|j: int|
            0 <= j < inos.len() ==> u.tree.nodes.contains_key(#[trigger] inos[j])
                && u.tree.nodes[inos[j]].parent == ino && inos[j] != ROOT_INO,
    ensures
        u.sweep_inos(ino, inos).tree.wf(),
        fewer_nodes(u.sweep_inos(ino, inos).tree, u.tree),
    decreases u64::MAX - ino, 0int, inos.len(),
{
    if inos.len() > 0 {
        lemma_sweep_inos_wf(u, ino, inos.drop_last());
        model::lemma_sweep_inos_frame(u, ino, inos.drop_last());
        let v = u.sweep_inos(ino, inos.drop_last());
        let c = inos.last();
        assert(c == inos[inos.len() - 1]);
        assert(u.tree.nodes[c].parent == ino);
        lemma_child_is_free(u.tree, ino, c);
        let w = if c > ino {
            lemma_sweep_wf(v, c);
            model::lemma_sweep_frame(v, c);
            v.sweep(c)
        } else {
            v
        };
        if w.tree.nodes.contains_key(c) {
            lemma_child_is_free(w.tree, ino, c);
            lemma_remove_wf(w.tree, c);
        }
    }
}

/// What is in a directory that belongs to no context is not what must stay.
pub proof fn lemma_child_is_free(t: TreeView, ino: u64, c: u64)
    requires
        t.wf(),
        clearable(t, ino),
        t.nodes.contains_key(c),
        t.nodes[c].parent == ino,
        c != ROOT_INO,
    ensures
        t.layout is Contexts ==> c != CONTEXTS_INO,
        forall|id: Seq<char>| #[trigger] t.contexts.contains_key(id) ==> t.contexts[id] != c,
        c > ino ==> clearable(t, c),
{
}

/// The listings of greater inodes.
spec fn listings_above(t: TreeView, ino: u64) -> Set<u64> {
    t.children.dom().filter(|k: u64| k > ino)
}

/// In a well-formed tree, taking everything below a directory away goes down to the last of it.
pub proof fn lemma_clear_is_sweep(u: Update, ino: u64)
    requires
        u.tree.wf(),
        clearable(u.tree, ino),
    ensures
        u.clear(ino) == u.sweep(ino),
{
    let all = u.tree.children.dom();
    all.lemma_len_filter(|k: u64| k > ino);
    lemma_clear_to_is_sweep(u, ino, all.len());
}

proof fn lemma_clear_to_is_sweep(u: Update, ino: u64, depth: nat)
    requires
        u.tree.wf(),
        clearable(u.tree, ino),
        listings_above(u.tree, ino).len() <= depth,
    ensures
        u.clear_to(ino, depth) == u.sweep(ino),
    decreases u64::MAX - ino, 1int, 0nat,
{
    lemma_entry_inos(u.tree, ino);
    lemma_clear_inos_is_sweep(u, ino, u.tree.entry_inos(ino), depth);
}

proof fn lemma_clear_inos_is_sweep(u: Update, ino: u64, inos: Seq<u64>, depth: nat)
    requires
        u.tree.wf(),
        clearable(u.tree, ino),
        listings_above(u.tree, ino).len() <= depth,
        forall|j: int|
            0 <= j < inos.len() ==> u.tree.nodes.contains_key(#[trigger] inos[j])
                && u.tree.nodes[inos[j]].parent == ino && inos[j] != ROOT_INO && (
            u.tree.is_dir(inos[j]) ==> inos[j] > ino),
    ensures
        u.clear_inos(inos, depth) == u.sweep_inos(ino, inos),
    decreases u64::MAX - ino, 0int, inos.len(),
{
    if inos.len() > 0 {
        let f = inos.drop_last();
        assert(forall|j: int| 0 <= j < f.len() ==> f[j] == inos[j]);
        lemma_clear_inos_is_sweep(u, ino, f, depth);
        lemma_sweep_inos_wf(u, ino, f);
        model::lemma_sweep_inos_frame(u, ino, f);
        let v = u.sweep_inos(ino, f);
        let c = inos.last();
        assert(c == inos[inos.len() - 1]);
        lemma_child_is_free(u.tree, ino, c);
        let all = u.tree.children.dom();
        let above = listings_above(u.tree, ino);
        all.lemma_len_filter(|k: u64| k > ino);
        if c > ino {
            assert(u.tree.children.contains_key(c));
            assert(above.contains(c));
            let rest = listings_above(v.tree, c);
            assert(rest.subset_of(above.remove(c)));
            vstd::set_lib::lemma_len_subset(rest, above.remove(c));
            lemma_clear_to_is_sweep(v, c, (depth - 1) as nat);
        } else if depth > 0 {
            assert forall|n: Seq<char>| !v.tree.entries(c).contains_key(n) by {
                crate::laws::lemma_entries_shrink(u, ino, f, c, n);
                if u.tree.entries(c).contains_key(n) {
                    assert(!u.tree.is_file(c));
                }
            }
            lemma_nothing_below(v, c, (depth - 1) as nat);
        }
    }
}

/// There is nothing to take away below what has no entries.
proof fn lemma_nothing_below(u: Update, ino: u64, depth: nat)
    requires
        forall|n: Seq<char>| !u.tree.entries(ino).contains_key(n),
    ensures
        u.clear_to(ino, depth) == u,
{
    let t = u.tree;
    assert(t.entries(ino).dom() =~= Set::empty());
    strmap::lemma_ordered(t.entries(ino).dom());
    assert(t.entry_inos(ino) =~= Seq::empty());
}

/// Taking everything below a directory away keeps a tree well-formed.
pub proof fn lemma_clear_wf(u: Update, ino: u64)
    requires
        u.tree.wf(),
        clearable(u.tree, ino),
    ensures
        u.clear(ino).tree.wf(),
        fewer_nodes(u.clear(ino).tree, u.tree),
{
    lemma_clear_is_sweep(u, ino);
    lemma_sweep_wf(u, ino);
}

/// Taking a directory that belongs to no context away, with everything below it, keeps a tree
/// well-formed.
pub proof fn lemma_drop_wf(u: Update, ino: u64)
    requires
        u.tree.wf(),
        clearable(u.tree, ino),
        ino != ROOT_INO,
        u.tree.nodes.contains_key(ino) ==> !(exists|id: Seq<char>| #[trigger]
            u.tree.contexts.contains_key(id) && u.tree.contexts[id] == u.tree.nodes[ino].parent),
        u.tree.nodes.contains_key(ino) ==> !u.tree.contexts.contains_key(u.tree.nodes[ino].name),
    ensures
        u.clear(ino).drop_node(ino).tree.wf(),
{
    lemma_clear_wf(u, ino);
    model::lemma_clear_frame(u, ino);
    lemma_remove_wf(u.clear(ino).tree, ino);
}

/// Taking a context away keeps a tree well-formed.
pub proof fn lemma_drop_context_wf(u: Update, id: Seq<char>)
    requires
        u.tree.wf(),
    ensures
        u.drop_context(id).tree.wf(),
        u.drop_context(id).tree.next_ino == u.tree.next_ino,
        u.drop_context(id).tree.contexts == u.tree.contexts.remove(id),
        u.drop_context(id).tree.layout == u.tree.layout,
{
    if u.tree.contexts.contains_key(id) {
        let ino = u.tree.contexts[id];
        let u0 = Update {
            tree: TreeView { contexts: u.tree.contexts.remove(id), ..u.tree },
            ..u
        };
        lemma_same_nodes_wf(u.tree, u0.tree);
        assert(u.tree.contexts.contains_key(id));
        assert forall|j: Seq<char>| #[trigger] u0.tree.contexts.contains_key(j) implies
            u0.tree.contexts[j] != ino by {
            assert(u.tree.contexts.contains_key(j));
        }
        assert(clearable(u0.tree, ino));
        model::lemma_clear_frame(u0, ino);
        let u1 = u0.clear(ino);
        if ino == ROOT_INO {
            lemma_clear_wf(u0, ino);
        } else {
            lemma_drop_wf(u0, ino);
        }
        let u2 = if ino == ROOT_INO {
            u1
        } else {
            u1.drop_node(ino)
        };
        lemma_forget_wf(u2.tree, ForgetView::Context(id));
        let t3 = u2.tree.forget(ForgetView::Context(id));
        lemma_same_nodes_wf(t3, u.drop_context(id).tree);
    } else {
        assert(u.tree.contexts.remove(id) =~= u.tree.contexts);
    }
}

/// Taking contexts away keeps a tree well-formed.
pub proof fn lemma_drop_contexts_wf(u: Update, ids: Seq<Seq<char>>)
    requires
        u.tree.wf(),
    ensures
        u.drop_contexts(ids).tree.wf(),
        u.drop_contexts(ids).tree.next_ino == u.tree.next_ino,
        u.drop_contexts(ids).tree.layout == u.tree.layout,
        forall|id: Seq<char>| #[trigger]
            u.drop_contexts(ids).tree.contexts.contains_key(id) <==> u.tree.contexts.contains_key(
                id,
            ) && !ids.contains(id),
    decreases ids.len(),
{
    if ids.len() > 0 {
        lemma_drop_contexts_wf(u, ids.drop_last());
        lemma_drop_context_wf(u.drop_contexts(ids.drop_last()), ids.last());
        assert forall|id: Seq<char>| #[trigger]
            u.drop_contexts(ids).tree.contexts.contains_key(id) <==> u.tree.contexts.contains_key(
                id,
            ) && !ids.contains(id) by {
            assert(ids == ids.drop_last().push(ids.last()));
            assert(ids.contains(id) <==> ids.drop_last().contains(id) || id == ids.last());
        }
    }
}

/// The names of a context's own entries differ.
pub proof fn lemma_labels_differ()
    ensures
        forall|i: int, j: int|
            0 <= i < j < SCHEMA_DIRS@.len() ==> #[trigger] model::label(i) != #[trigger] model::label(
                j,
            ),
        forall|i: int|
            0 <= i < SCHEMA_DIRS@.len() ==> #[trigger] model::label(i) != CONTEXT_META_FILE@
                && model::label(i).len() > 0,
        SCHEMA_DIRS@.len() == 7,
{
    reveal_strlit("Tabs");
    reveal_strlit("Links");
    reveal_strlit("Notes");
    reveal_strlit("Todos");
    reveal_strlit("Files");
    reveal_strlit("Emails");
    reveal_strlit("Other");
    reveal_strlit(".context.json");
    assert(model::label(0) == "Tabs"@);
    assert(model::label(1) == "Notes"@);
    assert(model::label(2) == "Todos"@);
    assert(model::label(3) == "Files"@);
    assert(model::label(4) == "Emails"@);
    assert(model::label(5) == "Links"@);
    assert(model::label(6) == "Other"@);
    assert("Tabs"@[0] == 'T' && "Todos"@[0] == 'T' && "Tabs"@[1] == 'a' && "Todos"@[1] == 'o');
    assert("Links"@[0] == 'L' && "Notes"@[0] == 'N' && "Files"@[0] == 'F');
    assert("Emails"@[0] == 'E' && "Other"@[0] == 'O');
    assert(CONTEXT_META_FILE@[0] == '.');
}

/// What a home holds while its skeleton grows, from some inode on.
pub open spec fn grown(t: TreeView, home: u64, n: nat, from: u64) -> bool {
    forall|k: int|
        0 <= k < n ==> t.context_dir(home, #[trigger] model::label(k)) is Some && t.context_dir(
            home,
            model::label(k),
        )->0 >= from
}

/// Making the first directories of a context keeps a tree well-formed.
pub proof fn lemma_grow_wf(t: TreeView, home: u64, now: SystemTime, n: nat)
    requires
        t.wf(),
        t.is_dir(home),
        n <= SCHEMA_DIRS@.len(),
        t.room(n as int),
        forall|id: Seq<char>| #[trigger] t.contexts.contains_key(id) ==> t.contexts[id] != home,
        home == CONTEXTS_INO ==> !(t.layout is Contexts),
        t.layout is Workspace || t.is_home(home),
    ensures
        ({
            let u = model::skeleton(t, home, now, n);
            &&& u.wf()
            &&& u.is_dir(home)
            &&& u.next_ino == t.next_ino + n
            &&& u.contexts == t.contexts
            &&& u.layout == t.layout
            &&& u.nodes[home].parent == t.nodes[home].parent
            &&& u.nodes[home].name == t.nodes[home].name
            &&& grown(u, home, n, t.next_ino)
            &&& forall|e: u64|
                e != home && e < t.next_ino ==> #[trigger] u.entries(e) == t.entries(e)
            &&& forall|i: u64| #[trigger]
                t.nodes.contains_key(i) ==> u.nodes.contains_key(i) && u.nodes[i] == t.nodes[i]
            &&& forall|i: u64| #[trigger]
                u.nodes.contains_key(i) && !t.nodes.contains_key(i) ==> u.nodes[i].parent == home
                    && i >= t.next_ino
            &&& forall|n: Seq<char>| #[trigger]
                t.entries(home).contains_key(n) && !model::is_label(n) ==> u.entries(
                    home,
                ).contains_key(n) && u.entries(home)[n] == t.entries(home)[n]
            &&& u.docs == t.docs
        }),
    decreases n,
{
    if n > 0 {
        lemma_labels_differ();
        let m = (n - 1) as nat;
        lemma_grow_wf(t, home, now, m);
        let v = model::skeleton(t, home, now, m);
        lemma_take_ino_wf(v);
        let node = model::dir_node(v.next_ino, home, model::label(n - 1), now);
        lemma_insert_wf(v.take_ino(), node);
        let u = model::skeleton(t, home, now, n);
        assert forall|e: u64| e != home && e < t.next_ino implies #[trigger] u.entries(e)
            == t.entries(e) by {
            assert(v.entries(e) == t.entries(e));
        }
        assert forall|k: int| 0 <= k < n implies u.context_dir(
            home,
            #[trigger] model::label(k),
        ) is Some && u.context_dir(home, model::label(k))->0 >= t.next_ino by {
            if k < n - 1 {
                assert(v.context_dir(home, model::label(k)) is Some);
                assert(model::label(k) != model::label(n - 1));
            }
        }
    }
}

/// Directories are made in the same way whichever contexts are noted.
pub proof fn lemma_skeleton_any_contexts(
    t: TreeView,
    contexts: Map<Seq<char>, u64>,
    home: u64,
    now: SystemTime,
    n: nat,
)
    ensures
        model::skeleton(TreeView { contexts, ..t }, home, now, n) == (TreeView {
            contexts,
            ..model::skeleton(t, home, now, n)
        }),
    decreases n,
{
    if n > 0 {
        lemma_skeleton_any_contexts(t, contexts, home, now, (n - 1) as nat);
        let u = model::skeleton(t, home, now, (n - 1) as nat);
        let v = model::skeleton(TreeView { contexts, ..t }, home, now, (n - 1) as nat);
        assert(v.entries(home) == u.entries(home));
    }
}

/// Noting a workspace keeps a tree well-formed.
pub proof fn lemma_note_workspace_wf(u: Update, ctx: ContextView)
    requires
        u.tree.wf(),
    ensures
        u.note_workspace(ctx).tree.wf(),
{
    lemma_same_nodes_wf(u.tree, u.note_workspace(ctx).tree);
}

/// Bringing a context in keeps a tree well-formed.
pub proof fn lemma_add_context_wf(u: Update, ctx: ContextView, now: SystemTime)
    requires
        u.tree.wf(),
        u.tree.admits(ctx.id),
        !u.tree.contexts.contains_key(ctx.id),
        u.tree.room(9),
    ensures
        u.add_context(ctx, now).tree.wf(),
        u.add_context(ctx, now).tree.next_ino <= u.tree.next_ino + 9,
        u.add_context(ctx, now).tree.layout == u.tree.layout,
        u.add_context(ctx, now).tree.contexts.contains_key(ctx.id),
        u.add_context(ctx, now).tree.contexts.dom() == u.tree.contexts.dom().insert(ctx.id),
{
    lemma_labels_differ();
    lemma_note_workspace_wf(u, ctx);
    let t = u.note_workspace(ctx).tree;
    let (home, t1) = match t.layout {
        LayoutView::Contexts => {
            let home = t.next_ino;
            (home, t.take_ino().insert_node(model::dir_node(home, CONTEXTS_INO, ctx.id, now)))
        },
        _ => (ROOT_INO, t),
    };
    if t.layout is Contexts {
        lemma_take_ino_wf(t);
        lemma_insert_wf(t.take_ino(), model::dir_node(home, CONTEXTS_INO, ctx.id, now));
    }
    assert(t1.wf());
    assert(t1.is_dir(home));
    assert forall|id: Seq<char>| #[trigger] t1.contexts.contains_key(id) implies t1.contexts[id]
        != home by {
        assert(t.contexts.contains_key(id));
        assert(t.admits(id));
    }
    lemma_grow_wf(t1, home, now, 7);
    let s = model::skeleton(t1, home, now, 7);
    lemma_take_ino_wf(s);
    let meta = NodeView {
        ino: s.next_ino,
        parent: home,
        name: CONTEXT_META_FILE@,
        mtime: now,
        content: model::meta_content(ctx),
    };
    lemma_insert_wf(s.take_ino(), meta);
    let w = s.take_ino().insert_node(meta);
    let contexts = t1.contexts.insert(ctx.id, home);
    lemma_skeleton_any_contexts(t1, contexts, home, now, 7);
    let r = u.add_context(ctx, now).tree;
    assert(r =~= (TreeView { contexts, ..w }));
    lemma_homes_stay(w, r);
    assert(r.has_skeleton(home)) by {
        assert forall|k: int| 0 <= k < SCHEMA_DIRS@.len() implies r.context_dir(
            home,
            #[trigger] model::label(k),
        ) is Some by {
            assert(s.context_dir(home, model::label(k)) is Some);
            assert(model::label(k) != CONTEXT_META_FILE@);
        }
        assert(r.lookup(home, CONTEXT_META_FILE@) == Some(meta.ino));
    }
    assert forall|p: u64, n: Seq<char>| #[trigger] r.entries(p).contains_key(n) implies {
        let c = r.entries(p)[n];
        &&& r.nodes.contains_key(c)
        &&& r.nodes[c].parent == p
        &&& r.nodes[c].name == n
        &&& !r.is_file(p)
        &&& r.nodes[c].is_dir() ==> p < c
    } by {
        assert(w.entries(p).contains_key(n));
    }
    assert forall|k: (Seq<char>, u64)| #[trigger]
        r.docs.contains_key(k) && r.nodes.contains_key(r.docs[k]) implies {
        &&& !r.nodes[r.docs[k]].is_dir()
        &&& !r.is_home(r.nodes[r.docs[k]].parent)
    } by {
        assert(w.docs.contains_key(k) && w.nodes.contains_key(w.docs[k]));
    }
    assert forall|id: Seq<char>| #[trigger] r.contexts.contains_key(id) implies {
        let i = r.contexts[id];
        &&& r.admits(id)
        &&& r.is_dir(i)
        &&& r.layout is Contexts ==> i >= FIRST_DYNAMIC_INO && r.nodes[i].parent == CONTEXTS_INO
            && r.nodes[i].name == id && r.lookup(CONTEXTS_INO, id) == Some(i)
        &&& r.layout is Context ==> i == ROOT_INO
        &&& r.has_skeleton(i)
    } by {
        if id != ctx.id {
            assert(w.contexts.contains_key(id));
            lemma_skeleton_stays(w, r, w.contexts[id]);
        } else {
            assert(w.is_dir(home));
            if t.layout is Contexts {
                assert(t1.entries(CONTEXTS_INO)[id] == home);
                assert(s.entries(CONTEXTS_INO) == t1.entries(CONTEXTS_INO));
                assert(r.entries(CONTEXTS_INO) == s.entries(CONTEXTS_INO));
            }
        }
    }
    assert(r.contexts.dom() =~= u.tree.contexts.dom().insert(ctx.id));
}

/// Showing a context's current object keeps a tree well-formed.
pub proof fn lemma_refresh_meta_wf(u: Update, ctx: ContextView, now: SystemTime)
    requires
        u.tree.wf(),
        u.tree.contexts.contains_key(ctx.id),
    ensures
        u.refresh_meta(ctx, now).tree.wf(),
{
    let i = u.tree.contexts[ctx.id];
    assert(u.tree.has_skeleton(i));
    let m = u.tree.lookup(i, CONTEXT_META_FILE@)->0;
    lemma_set_content_wf(u.tree, m, model::meta_content(ctx), now);
}

/// Bringing contexts in or up to date keeps a tree well-formed.
pub proof fn lemma_apply_each_wf(u: Update, ctxs: Seq<ContextView>, now: SystemTime)
    requires
        u.tree.wf(),
        u.tree.room(9 * ctxs.len() as int),
    ensures
        u.apply_each(ctxs, now).tree.wf(),
        u.apply_each(ctxs, now).tree.next_ino <= u.tree.next_ino + 9 * ctxs.len(),
        u.apply_each(ctxs, now).tree.layout == u.tree.layout,
        forall|id: Seq<char>| #[trigger]
            u.apply_each(ctxs, now).tree.contexts.contains_key(id) <==> u.tree.contexts.contains_key(
                id,
            ) || (u.tree.admits(id) && model::context_ids(ctxs).contains(id)),
    decreases ctxs.len(),
{
    if ctxs.len() > 0 {
        let ctx = ctxs.last();
        let rest = ctxs.drop_last();
        lemma_apply_each_wf(u, rest, now);
        let v = u.apply_each(rest, now);
        if v.tree.admits(ctx.id) {
            if v.tree.contexts.contains_key(ctx.id) {
                lemma_refresh_meta_wf(v, ctx, now);
                lemma_note_workspace_wf(v.refresh_meta(ctx, now), ctx);
            } else {
                lemma_add_context_wf(v, ctx, now);
            }
        }
        let r = u.apply_each(ctxs, now);
        assert forall|id: Seq<char>| #[trigger]
            r.tree.contexts.contains_key(id) <==> u.tree.contexts.contains_key(id) || (
            u.tree.admits(id) && model::context_ids(ctxs).contains(id)) by {
            assert(r.tree.contexts.contains_key(id) <==> v.tree.contexts.contains_key(id) || (id
                == ctx.id && v.tree.admits(id)));
            assert(model::context_ids(ctxs).contains(id) <==> model::context_ids(rest).contains(id)
                || id == ctx.id) by {
                if model::context_ids(ctxs).contains(id) {
                    let i = choose|i: int| 0 <= i < ctxs.len() && (#[trigger] ctxs[i]).id == id;
                    if i < rest.len() {
                        assert(rest[i].id == id);
                    }
                }
                if model::context_ids(rest).contains(id) {
                    let i = choose|i: int| 0 <= i < rest.len() && (#[trigger] rest[i]).id == id;
                    assert(ctxs[i].id == id);
                }
                if id == ctx.id {
                    assert(ctxs[ctxs.len() - 1].id == id);
                }
            }
        }
    } else {
        assert forall|id: Seq<char>| !model::context_ids(ctxs).contains(id) by {}
    }
}

/// What a list holds with one more at its end.
pub proof fn lemma_push_contains<A>(s: Seq<A>, x: A, y: A)
    ensures
        s.push(x).contains(y) <==> s.contains(y) || y == x,
{
    if s.contains(y) {
        let i = choose|i: int| 0 <= i < s.len() && s[i] == y;
        assert(s.push(x)[i] == y);
    }
    if y == x {
        assert(s.push(x)[s.len() as int] == y);
    }
}

/// Which contexts are missing in a list.
pub proof fn lemma_missing(names: Seq<Seq<char>>, ctxs: Seq<ContextView>)
    ensures
        forall|id: Seq<char>| #[trigger]
            model::missing(names, ctxs).contains(id) <==> names.contains(id)
                && !model::context_ids(ctxs).contains(id),
    decreases names.len(),
{
    if names.len() > 0 {
        lemma_missing(names.drop_last(), ctxs);
        let m = model::missing(names.drop_last(), ctxs);
        assert forall|id: Seq<char>| #[trigger]
            model::missing(names, ctxs).contains(id) <==> names.contains(id)
                && !model::context_ids(ctxs).contains(id) by {
            assert(names == names.drop_last().push(names.last()));
            assert(names.contains(id) <==> names.drop_last().contains(id) || id == names.last());
            lemma_push_contains(m, names.last(), id);
        }
    }
}

/// Making the contexts of a tree those of a list keeps the tree well-formed, and then the tree
/// shows exactly the contexts of the list that it admits, each with its directories and its meta
/// file.
pub proof fn law_contexts_are_those_of_the_list(
    t: TreeView,
    ctxs: Seq<ContextView>,
    now: SystemTime,
)
    requires
        t.wf(),
        t.room(9 * ctxs.len() as int),
    ensures
        ({
            let u = model::apply_contexts(t, ctxs, now).tree;
            &&& u.wf()
            &&& forall|id: Seq<char>| #[trigger]
                u.contexts.contains_key(id) <==> t.admits(id) && model::context_ids(ctxs).contains(
                    id,
                )
            &&& forall|id: Seq<char>| #[trigger]
                u.contexts.contains_key(id) ==> u.has_skeleton(u.contexts[id])
        }),
{
    let ids = strmap::ordered(t.contexts.dom());
    strmap::lemma_ordered(t.contexts.dom());
    lemma_missing(ids, ctxs);
    let u0 = Update { tree: t, inv: model::no_invalidation() };
    lemma_drop_contexts_wf(u0, model::stale(t, ctxs));
    let v = model::without_stale(t, ctxs);
    lemma_apply_each_wf(v, ctxs, now);
    let u = model::apply_contexts(t, ctxs, now).tree;
    assert forall|id: Seq<char>| #[trigger]
        u.contexts.contains_key(id) <==> t.admits(id) && model::context_ids(ctxs).contains(id) by {
        assert(ids.to_set().contains(id) <==> ids.contains(id));
        assert(v.tree.contexts.contains_key(id) <==> t.contexts.contains_key(id)
            && !model::stale(t, ctxs).contains(id));
        assert(model::stale(t, ctxs).contains(id) <==> ids.contains(id)
            && !model::context_ids(ctxs).contains(id));
    }
}

/// Whether a directory is one that documents' files stand in.
pub open spec fn takes_files(t: TreeView, dir: u64) -> bool {
    &&& t.is_dir(dir)
    &&& !t.is_home(dir)
    &&& t.layout is Contexts ==> dir != ROOT_INO
    &&& forall|id: Seq<char>| #[trigger] t.contexts.contains_key(id) ==> t.contexts[id] != dir
}

/// A directory of a context is one that documents' files stand in.
pub proof fn lemma_context_dir_takes_files(t: TreeView, ctx: Seq<char>, name: Seq<char>)
    requires
        t.wf(),
        t.contexts.contains_key(ctx),
        t.context_dir(t.contexts[ctx], name) is Some,
    ensures
        takes_files(t, t.context_dir(t.contexts[ctx], name)->0),
        t.nodes[t.context_dir(t.contexts[ctx], name)->0].parent == t.contexts[ctx],
        t.nodes[t.context_dir(t.contexts[ctx], name)->0].name == name,
{
    let i = t.contexts[ctx];
    assert(t.entries(i).contains_key(name));
    let d = t.entries(i)[name];
    assert(t.nodes[d].parent == i);
    assert forall|id: Seq<char>| #[trigger] t.contexts.contains_key(id) implies t.contexts[id]
        != d by {
        assert(t.is_dir(t.contexts[id]));
    }
}

/// Whether nothing but files is wanted.
pub open spec fn files_only(want: Map<Seq<char>, Wanted>) -> bool {
    forall|n: Seq<char>| #[trigger] want.contains_key(n) ==> !(want[n].content is Dir)
}

/// What stays of a tree while the files of a directory change.
pub open spec fn only_files_change(t: TreeView, u: TreeView) -> bool {
    &&& u.contexts == t.contexts
    &&& u.layout == t.layout
    &&& u.workspaces == t.workspaces
    &&& u.trees == t.trees
    &&& t.next_ino <= u.next_ino
    &&& forall|i: u64| #[trigger]
        t.is_dir(i) ==> u.is_dir(i) && u.nodes[i].parent == t.nodes[i].parent && u.nodes[i].name
            == t.nodes[i].name
    &&& forall|i: u64| #[trigger] u.is_dir(i) ==> t.is_dir(i)
}

/// What stays over one change and another stays over both.
pub proof fn lemma_only_files_change_trans(a: TreeView, b: TreeView, c: TreeView)
    requires
        only_files_change(a, b),
        only_files_change(b, c),
    ensures
        only_files_change(a, c),
{
    assert forall|i: u64| #[trigger] a.is_dir(i) implies c.is_dir(i) && c.nodes[i].parent
        == a.nodes[i].parent && c.nodes[i].name == a.nodes[i].name by {
        assert(b.is_dir(i));
    }
    assert forall|i: u64| #[trigger] c.is_dir(i) implies a.is_dir(i) by {
        assert(b.is_dir(i));
    }
}

/// A directory that documents' files stand in stays one.
pub proof fn lemma_still_takes_files(t: TreeView, u: TreeView, dir: u64)
    requires
        only_files_change(t, u),
        takes_files(t, dir),
    ensures
        takes_files(u, dir),
{
    assert(t.is_dir(dir));
}

/// Going through an entry of a directory keeps a tree well-formed.
pub proof fn lemma_visit_wf(
    s: Sync,
    ctx: Seq<char>,
    dir: u64,
    want: Map<Seq<char>, Wanted>,
    name: Seq<char>,
    ino: u64,
)
    requires
        s.up.tree.wf(),
        takes_files(s.up.tree, dir),
        files_only(want),
        s.up.tree.nodes.contains_key(ino) ==> s.up.tree.nodes[ino].parent == dir,
    ensures
        s.visit(ctx, dir, want, name, ino).up.tree.wf(),
        only_files_change(s.up.tree, s.visit(ctx, dir, want, name, ino).up.tree),
        s.visit(ctx, dir, want, name, ino).up.tree.next_ino == s.up.tree.next_ino,
        forall|i: u64| #[trigger]
            s.visit(ctx, dir, want, name, ino).up.tree.nodes.contains_key(i)
                ==> s.up.tree.nodes.contains_key(i) && s.visit(
                ctx,
                dir,
                want,
                name,
                ino,
            ).up.tree.nodes[i].parent == s.up.tree.nodes[i].parent && s.visit(
                ctx,
                dir,
                want,
                name,
                ino,
            ).up.tree.nodes[i].name == s.up.tree.nodes[i].name,
{
    let t = s.up.tree;
    if t.is_dir(ino) && !(t.layout is Workspace) {
        lemma_no_directory_in(t, dir, ino);
    }
    if !t.is_dir(ino) {
        if want.contains_key(name) && t.bound(ctx, want[name].doc, ino) {
            lemma_set_content_wf(t, ino, want[name].content, want[name].mtime);
        } else {
            lemma_remove_wf(t, ino);
            lemma_forget_wf(t.remove_node(ino), ForgetView::ContextIno(ctx, ino));
        }
    }
}

/// Going through the entries of a directory keeps a tree well-formed.
pub proof fn lemma_visit_all_wf(
    s: Sync,
    ctx: Seq<char>,
    dir: u64,
    have: Map<Seq<char>, u64>,
    want: Map<Seq<char>, Wanted>,
    names: Seq<Seq<char>>,
)
    requires
        s.up.tree.wf(),
        takes_files(s.up.tree, dir),
        files_only(want),
        forall|j: int|
            0 <= j < names.len() ==> s.up.tree.nodes.contains_key(have[#[trigger] names[j]])
                ==> s.up.tree.nodes[have[names[j]]].parent == dir,
    ensures
        ({
            let r = s.visit_all(ctx, dir, have, want, names).up.tree;
            &&& r.wf()
            &&& only_files_change(s.up.tree, r)
            &&& r.next_ino == s.up.tree.next_ino
            &&& forall|i: u64| #[trigger]
                r.nodes.contains_key(i) ==> s.up.tree.nodes.contains_key(i) && r.nodes[i].parent
                    == s.up.tree.nodes[i].parent && r.nodes[i].name == s.up.tree.nodes[i].name
        }),
    decreases names.len(),
{
    if names.len() > 0 {
        let v = s.visit_all(ctx, dir, have, want, names.drop_last());
        assert forall|j: int|
            0 <= j < names.drop_last().len() && s.up.tree.nodes.contains_key(
                have[#[trigger] names.drop_last()[j]],
            ) implies s.up.tree.nodes[have[names.drop_last()[j]]].parent == dir by {
            assert(names[j] == names.drop_last()[j]);
        }
        lemma_visit_all_wf(s, ctx, dir, have, want, names.drop_last());
        lemma_still_takes_files(s.up.tree, v.up.tree, dir);
        assert(names[names.len() - 1] == names.last());
        lemma_visit_wf(v, ctx, dir, want, names.last(), have[names.last()]);
    }
}

/// Putting a file in place keeps a tree well-formed.
pub proof fn lemma_place_wf(
    s: Sync,
    ctx: Seq<char>,
    dir: u64,
    want: Map<Seq<char>, Wanted>,
    name: Seq<char>,
)
    requires
        s.up.tree.wf(),
        takes_files(s.up.tree, dir),
        files_only(want),
        want.contains_key(name),
        s.up.tree.room(1),
    ensures
        s.place(ctx, dir, want, name).up.tree.wf(),
        only_files_change(s.up.tree, s.place(ctx, dir, want, name).up.tree),
        s.place(ctx, dir, want, name).up.tree.next_ino <= s.up.tree.next_ino + 1,
{
    let t = s.up.tree;
    if t.lookup(dir, name) is None {
        let w = want[name];
        let key = (ctx, w.doc);
        let moves = t.docs.contains_key(key) && t.nodes.contains_key(t.docs[key]);
        let ino = if moves {
            t.docs[key]
        } else {
            t.next_ino
        };
        let u = if moves {
            t.remove_node(ino)
        } else {
            t.take_ino()
        };
        if moves {
            assert forall|id: Seq<char>| #[trigger] t.contexts.contains_key(id) implies
                t.contexts[id] != ino && t.contexts[id] != t.nodes[ino].parent by {
                lemma_context_home(t, id);
            }
            lemma_remove_wf(t, ino);
        } else {
            lemma_take_ino_wf(t);
        }
        lemma_bind_wf(u, ctx, w.doc, ino);
        let node = NodeView { ino, parent: dir, name, mtime: w.mtime, content: w.content };
        assert(takes_files(u, dir));
        lemma_insert_wf(u.bind(ctx, w.doc, ino), node);
    }
}

/// Putting files in place keeps a tree well-formed.
pub proof fn lemma_place_all_wf(
    s: Sync,
    ctx: Seq<char>,
    dir: u64,
    want: Map<Seq<char>, Wanted>,
    names: Seq<Seq<char>>,
)
    requires
        s.up.tree.wf(),
        takes_files(s.up.tree, dir),
        files_only(want),
        forall|j: int| 0 <= j < names.len() ==> want.contains_key(#[trigger] names[j]),
        s.up.tree.room(names.len() as int),
    ensures
        s.place_all(ctx, dir, want, names).up.tree.wf(),
        only_files_change(s.up.tree, s.place_all(ctx, dir, want, names).up.tree),
        s.place_all(ctx, dir, want, names).up.tree.next_ino <= s.up.tree.next_ino + names.len(),
    decreases names.len(),
{
    if names.len() > 0 {
        let v = s.place_all(ctx, dir, want, names.drop_last());
        assert forall|j: int| 0 <= j < names.drop_last().len() implies want.contains_key(
            #[trigger] names.drop_last()[j],
        ) by {
            assert(names[j] == names.drop_last()[j]);
        }
        lemma_place_all_wf(s, ctx, dir, want, names.drop_last());
        lemma_still_takes_files(s.up.tree, v.up.tree, dir);
        assert(names[names.len() - 1] == names.last());
        lemma_place_wf(v, ctx, dir, want, names.last());
    }
}

/// Making the files of a directory those that it is to hold keeps a tree well-formed.
pub proof fn lemma_sync_dir_wf(
    u: Update,
    ctx: Seq<char>,
    dir: u64,
    want: Map<Seq<char>, Wanted>,
    now: SystemTime,
)
    requires
        u.tree.wf(),
        takes_files(u.tree, dir),
        files_only(want),
        want.dom().finite(),
        u.tree.room(want.dom().len() as int),
    ensures
        u.sync_dir(ctx, dir, want, now).tree.wf(),
        only_files_change(u.tree, u.sync_dir(ctx, dir, want, now).tree),
        u.sync_dir(ctx, dir, want, now).tree.next_ino <= u.tree.next_ino + want.dom().len(),
{
    let have = u.tree.entries(dir);
    let olds = strmap::ordered(have.dom());
    let news = strmap::ordered(want.dom());
    strmap::lemma_ordered(have.dom());
    strmap::lemma_ordered(want.dom());
    let s = Sync { up: u, dirty: false };
    assert forall|j: int|
        0 <= j < olds.len() && u.tree.nodes.contains_key(have[#[trigger] olds[j]]) implies
        u.tree.nodes[have[olds[j]]].parent == dir by {
        assert(olds.to_set().contains(olds[j]));
        assert(u.tree.entries(dir).contains_key(olds[j]));
    }
    lemma_visit_all_wf(s, ctx, dir, have, want, olds);
    let v = s.visit_all(ctx, dir, have, want, olds);
    lemma_still_takes_files(u.tree, v.up.tree, dir);
    assert forall|j: int| 0 <= j < news.len() implies want.contains_key(#[trigger] news[j]) by {
        assert(news.to_set().contains(news[j]));
    }
    lemma_place_all_wf(v, ctx, dir, want, news);
    let w = v.place_all(ctx, dir, want, news);
    lemma_touch_wf(w.up.tree, dir, now);
    let r = u.sync_dir(ctx, dir, want, now).tree;
    lemma_only_files_change_trans(u.tree, v.up.tree, w.up.tree);
    assert forall|i: u64| #[trigger] w.up.tree.is_dir(i) implies r.is_dir(i) && r.nodes[i].parent
        == w.up.tree.nodes[i].parent && r.nodes[i].name == w.up.tree.nodes[i].name by {}
    lemma_only_files_change_trans(u.tree, w.up.tree, r);
}

/// Whether a plan wants nothing but files.
pub open spec fn plans_files(p: Plan) -> bool {
    forall|dir: Seq<char>| files_only(#[trigger] p.wants(dir))
}

proof fn lemma_add_doc_plans_files(
    p: Plan,
    ctx: Seq<char>,
    doc: DocumentView,
    workspace: Option<Seq<char>>,
)
    requires
        plans_files(p),
    ensures
        plans_files(p.add_doc(ctx, doc, workspace)),
{
    let q = p.add_doc(ctx, doc, workspace);
    assert forall|dir: Seq<char>| files_only(#[trigger] q.wants(dir)) by {
        assert(files_only(p.wants(dir)));
    }
}

proof fn lemma_claim_plans_files(
    p: Plan,
    t: TreeView,
    ctx: Seq<char>,
    docs: Seq<DocumentView>,
    workspace: Option<Seq<char>>,
)
    requires
        plans_files(p),
    ensures
        plans_files(p.claim(t, ctx, docs, workspace).0),
    decreases docs.len(),
{
    if docs.len() > 0 {
        lemma_claim_plans_files(p, t, ctx, docs.drop_last(), workspace);
        let q = p.claim(t, ctx, docs.drop_last(), workspace).0;
        lemma_add_doc_plans_files(q, ctx, docs.last(), workspace);
    }
}

proof fn lemma_add_docs_plans_files(
    p: Plan,
    ctx: Seq<char>,
    docs: Seq<DocumentView>,
    workspace: Option<Seq<char>>,
)
    requires
        plans_files(p),
    ensures
        plans_files(p.add_docs(ctx, docs, workspace)),
    decreases docs.len(),
{
    if docs.len() > 0 {
        lemma_add_docs_plans_files(p, ctx, docs.drop_last(), workspace);
        lemma_add_doc_plans_files(
            p.add_docs(ctx, docs.drop_last(), workspace),
            ctx,
            docs.last(),
            workspace,
        );
    }
}

/// A plan wants nothing but files.
pub proof fn lemma_plan_plans_files(
    t: TreeView,
    ctx: Seq<char>,
    docs: Seq<DocumentView>,
    names: Map<Seq<char>, Seq<char>>,
    unsaved: Seq<(Seq<char>, Seq<char>)>,
)
    ensures
        plans_files(model::plan(t, ctx, docs, names, unsaved)),
{
    let workspace = model::workspace_of(t, ctx);
    let p0 = model::no_plan(names, unsaved);
    let (p, rest) = p0.claim(t, ctx, model::by_id(docs), workspace);
    assert(plans_files(p0));
    lemma_claim_plans_files(p0, t, ctx, model::by_id(docs), workspace);
    lemma_add_docs_plans_files(p, ctx, rest, workspace);
}

/// Whether a plan can be carried out.
pub open spec fn plan_fits(p: Plan) -> bool {
    &&& plans_files(p)
    &&& forall|dir: Seq<char>| (#[trigger] p.wants(dir)).dom().finite()
}

/// More directories are to hold no fewer files.
pub proof fn lemma_total_grows(p: Plan, j: nat, k: nat)
    requires
        j <= k,
    ensures
        p.total(j) <= p.total(k),
    decreases k,
{
    if j < k {
        lemma_total_grows(p, j, (k - 1) as nat);
    }
}

/// A document adds at most one file, and that in one directory.
proof fn lemma_add_doc_total(
    p: Plan,
    ctx: Seq<char>,
    doc: DocumentView,
    workspace: Option<Seq<char>>,
    k: nat,
)
    requires
        k <= SCHEMA_DIRS@.len(),
        forall|dir: Seq<char>| (#[trigger] p.wants(dir)).dom().finite(),
    ensures
        p.add_doc(ctx, doc, workspace).total(k) <= p.total(k) + 1,
        (forall|j: int| 0 <= j < k ==> #[trigger] model::label(j) != render::schema_dir(doc.schema))
            ==> p.add_doc(ctx, doc, workspace).total(k) == p.total(k),
        forall|dir: Seq<char>|
            (#[trigger] p.add_doc(ctx, doc, workspace).wants(dir)).dom().finite(),
    decreases k,
{
    let q = p.add_doc(ctx, doc, workspace);
    let home = render::schema_dir(doc.schema);
    assert forall|dir: Seq<char>| (#[trigger] q.wants(dir)).dom().finite() by {
        assert(p.wants(dir).dom().finite());
    }
    if k > 0 {
        let m = (k - 1) as nat;
        lemma_add_doc_total(p, ctx, doc, workspace, m);
        lemma_labels_differ();
        let l = model::label(k - 1);
        if l == home {
            assert(forall|j: int| 0 <= j < m ==> #[trigger] model::label(j) != home);
        } else {
            assert(q.wants(l) == p.wants(l));
        }
    }
}

proof fn lemma_claim_total(
    p: Plan,
    t: TreeView,
    ctx: Seq<char>,
    docs: Seq<DocumentView>,
    workspace: Option<Seq<char>>,
    k: nat,
)
    requires
        k <= SCHEMA_DIRS@.len(),
        forall|dir: Seq<char>| (#[trigger] p.wants(dir)).dom().finite(),
    ensures
        ({
            let (q, rest) = p.claim(t, ctx, docs, workspace);
            &&& q.total(k) + rest.len() <= p.total(k) + docs.len()
            &&& forall|dir: Seq<char>| (#[trigger] q.wants(dir)).dom().finite()
        }),
    decreases docs.len(),
{
    if docs.len() > 0 {
        lemma_claim_total(p, t, ctx, docs.drop_last(), workspace, k);
        let (q, rest) = p.claim(t, ctx, docs.drop_last(), workspace);
        lemma_add_doc_total(q, ctx, docs.last(), workspace, k);
    }
}

proof fn lemma_add_docs_total(
    p: Plan,
    ctx: Seq<char>,
    docs: Seq<DocumentView>,
    workspace: Option<Seq<char>>,
    k: nat,
)
    requires
        k <= SCHEMA_DIRS@.len(),
        forall|dir: Seq<char>| (#[trigger] p.wants(dir)).dom().finite(),
    ensures
        p.add_docs(ctx, docs, workspace).total(k) <= p.total(k) + docs.len(),
        forall|dir: Seq<char>|
            (#[trigger] p.add_docs(ctx, docs, workspace).wants(dir)).dom().finite(),
    decreases docs.len(),
{
    if docs.len() > 0 {
        lemma_add_docs_total(p, ctx, docs.drop_last(), workspace, k);
        let q = p.add_docs(ctx, docs.drop_last(), workspace);
        lemma_add_doc_total(q, ctx, docs.last(), workspace, k);
    }
}

proof fn lemma_no_plan_total(
    names: Map<Seq<char>, Seq<char>>,
    unsaved: Seq<(Seq<char>, Seq<char>)>,
    k: nat,
)
    ensures
        model::no_plan(names, unsaved).total(k) == 0,
    decreases k,
{
    if k > 0 {
        lemma_no_plan_total(names, unsaved, (k - 1) as nat);
    }
}

/// A plan for some documents can be carried out, with no more files than there are documents.
pub proof fn lemma_plan_fits(
    t: TreeView,
    ctx: Seq<char>,
    docs: Seq<DocumentView>,
    names: Map<Seq<char>, Seq<char>>,
    unsaved: Seq<(Seq<char>, Seq<char>)>,
)
    ensures
        plan_fits(model::plan(t, ctx, docs, names, unsaved)),
        model::plan(t, ctx, docs, names, unsaved).total(SCHEMA_DIRS@.len()) <= docs.len(),
{
    lemma_plan_plans_files(t, ctx, docs, names, unsaved);
    let k = SCHEMA_DIRS@.len();
    let workspace = model::workspace_of(t, ctx);
    let p0 = model::no_plan(names, unsaved);
    let (p, rest) = p0.claim(t, ctx, model::by_id(docs), workspace);
    model::lemma_by_id_len(docs);
    lemma_no_plan_total(names, unsaved, k);
    lemma_claim_total(p0, t, ctx, model::by_id(docs), workspace, k);
    lemma_add_docs_total(p, ctx, rest, workspace, k);
}

/// Making the files of some directories those of a plan keeps a tree well-formed.
pub proof fn lemma_sync_dirs_wf(
    u: Update,
    dirs: Seq<Option<u64>>,
    ctx: Seq<char>,
    p: Plan,
    now: SystemTime,
)
    requires
        u.tree.wf(),
        plan_fits(p),
        forall|k: int|
            0 <= k < dirs.len() && dirs[k] is Some ==> takes_files(
                u.tree,
                (#[trigger] dirs[k])->0,
            ),
        u.tree.room(p.total(dirs.len()) as int),
    ensures
        u.sync_dirs(dirs, ctx, p, now).tree.wf(),
        only_files_change(u.tree, u.sync_dirs(dirs, ctx, p, now).tree),
        u.sync_dirs(dirs, ctx, p, now).tree.next_ino <= u.tree.next_ino + p.total(
            dirs.len(),
        ),
    decreases dirs.len(),
{
    if dirs.len() > 0 {
        let rest = dirs.drop_last();
        assert forall|k: int| 0 <= k < rest.len() && rest[k] is Some implies takes_files(
            u.tree,
            (#[trigger] rest[k])->0,
        ) by {
            assert(dirs[k] == rest[k]);
        }
        lemma_sync_dirs_wf(u, rest, ctx, p, now);
        let v = u.sync_dirs(rest, ctx, p, now);
        if let Some(dir) = dirs.last() {
            assert(dirs[dirs.len() - 1] == dirs.last());
            let want = p.wants(model::label(dirs.len() - 1));
            lemma_still_takes_files(u.tree, v.tree, dir);
            lemma_sync_dir_wf(v, ctx, dir, want, now);
            lemma_only_files_change_trans(
                u.tree,
                v.tree,
                v.sync_dir(ctx, dir, want, now).tree,
            );
        }
    }
}

/// Making the files of a context those of a list of documents keeps a tree well-formed and changes
/// no directory.
pub proof fn law_documents_keep_directories(
    t: TreeView,
    ctx: Seq<char>,
    docs: Seq<DocumentView>,
    names: Map<Seq<char>, Seq<char>>,
    unsaved: Seq<(Seq<char>, Seq<char>)>,
    now: SystemTime,
)
    requires
        t.wf(),
        t.contexts.contains_key(ctx),
        t.room(docs.len() as int),
    ensures
        ({
            let p = model::plan(t, ctx, docs, names, unsaved);
            let u = model::apply_documents(t, ctx, p, now).tree;
            &&& u.wf()
            &&& only_files_change(t, u)
            &&& u.has_skeleton(t.contexts[ctx])
        }),
{
    let p = model::plan(t, ctx, docs, names, unsaved);
    lemma_plan_fits(t, ctx, docs, names, unsaved);
    lemma_labels_differ();
    let dirs = model::context_dirs(t, ctx);
    assert forall|k: int| 0 <= k < dirs.len() && dirs[k] is Some implies takes_files(
        t,
        (#[trigger] dirs[k])->0,
    ) by {
        lemma_context_dir_takes_files(t, ctx, model::label(k));
    }
    assert(dirs.len() == 7);
    lemma_sync_dirs_wf(
        Update { tree: t, inv: model::no_invalidation() },
        dirs,
        ctx,
        p,
        now,
    );
    let u = model::apply_documents(t, ctx, p, now).tree;
    assert(u.contexts.contains_key(ctx));
}

/// A tree with the directory for the contexts is well-formed.
pub proof fn lemma_fresh_wf(now: SystemTime)
    ensures
        TreeView::fresh(now).wf(),
{
    lemma_rooted_wf(LayoutView::Workspace { id: Seq::empty(), name: Seq::empty() }, now);
    let t = TreeView::fresh(now);
    assert(t.entries(ROOT_INO).dom() =~= set!["Contexts"@]);
    assert forall|p: u64, n: Seq<char>| #[trigger] t.entries(p).contains_key(n) implies p
        == ROOT_INO && n == "Contexts"@ && t.entries(p)[n] == CONTEXTS_INO by {}
    assert(t.entries_lead_to_nodes());
}

/// A tree with its top directory only is well-formed, where it is to hold one context or the
/// trees of a workspace.
pub proof fn lemma_rooted_wf(layout: LayoutView, now: SystemTime)
    requires
        !(layout is Contexts),
    ensures
        TreeView::rooted(layout, now).wf(),
{
    let t = TreeView::rooted(layout, now);
    assert forall|p: u64, n: Seq<char>| !#[trigger] t.entries(p).contains_key(n) by {}
    assert(t.entries(ROOT_INO).dom() =~= Set::empty());
}

/// Giving an entry that is no context's own another name keeps a tree well-formed.
pub proof fn lemma_rename_wf(t: TreeView, ino: u64, new_name: Seq<char>)
    requires
        t.wf(),
        t.nodes.contains_key(ino) ==> forall|id: Seq<char>| #[trigger]
            t.contexts.contains_key(id) ==> t.contexts[id] != t.nodes[ino].parent
                && t.contexts[id] != ino,
        t.nodes.contains_key(ino) ==> t.lookup(t.nodes[ino].parent, t.nodes[ino].name) == Some(ino),
        t.layout is Contexts && t.nodes.contains_key(ino) ==> t.nodes[ino].parent != CONTEXTS_INO,
    ensures
        t.rename_entry(ino, new_name).wf(),
{
    let u = t.rename_entry(ino, new_name);
    if t.nodes.contains_key(ino) {
        let p0 = t.nodes[ino].parent;
        let n0 = t.nodes[ino].name;
        assert(t.entries(p0).contains_key(n0));
        lemma_homes_stay(t, u);
        assert forall|p: u64, n: Seq<char>| #[trigger] u.entries(p).contains_key(n) implies {
            let c = u.entries(p)[n];
            &&& u.nodes.contains_key(c)
            &&& u.nodes[c].parent == p
            &&& u.nodes[c].name == n
            &&& !u.is_file(p)
            &&& u.nodes[c].is_dir() ==> p < c
        } by {
            if !(p == p0 && n == new_name) {
                assert(t.entries(p).contains_key(n));
            }
        }
        assert forall|k: (Seq<char>, u64)| #[trigger]
            u.docs.contains_key(k) && u.nodes.contains_key(u.docs[k]) implies {
            &&& !u.nodes[u.docs[k]].is_dir()
            &&& !u.is_home(u.nodes[u.docs[k]].parent)
        } by {
            assert(t.docs.contains_key(k) && t.nodes.contains_key(t.docs[k]));
        }
        assert forall|id: Seq<char>| #[trigger] u.contexts.contains_key(id) implies u.has_skeleton(
            u.contexts[id],
        ) by {
            assert(t.contexts.contains_key(id));
            lemma_skeleton_stays(t, u, t.contexts[id]);
        }
    }
}

} // verus!
