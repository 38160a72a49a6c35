//! What a tree of nodes is, and how each operation changes it.

use crate::api;
use crate::api::{ContextView, DocumentView};
use crate::docmap;
use crate::docmap::ForgetView;
use crate::json;
use crate::names;
use crate::render;
use crate::render::{RenderedContent, SCHEMA_DIRS};
use crate::state::{
    CONTEXTS_INO, CONTEXT_META_FILE, FIRST_DYNAMIC_INO, FIRST_OVERLAY_INO, ROOT_INO,
};
use crate::strmap;
use std::time::SystemTime;
use vstd::prelude::*;

verus! {

/// What a node serves.
pub ghost enum ContentView {
    Dir,
    Inline(Seq<u8>),
    Remote { workspace_id: Seq<char>, doc_id: u64, size: u64, checksum: Option<Seq<char>> },
}

/// A node.
pub ghost struct NodeView {
    pub ino: u64,
    pub parent: u64,
    pub name: Seq<char>,
    pub mtime: SystemTime,
    pub content: ContentView,
}

/// What stands at the top of a mount.
pub ghost enum LayoutView {
    /// A directory that holds every context
    Contexts,
    /// One context, whose directories are the top level
    Context(Seq<char>),
    /// The trees of a workspace
    Workspace { id: Seq<char>, name: Seq<char> },
}

/// A tree.
#[verifier::ext_equal]
pub ghost struct TreeView {
    /// The nodes by inode
    pub nodes: Map<u64, NodeView>,
    /// The entries of each directory
    pub children: Map<u64, Map<Seq<char>, u64>>,
    /// The next inode to hand out
    pub next_ino: u64,
    /// The inode of each document of each context
    pub docs: Map<(Seq<char>, u64), u64>,
    /// The directory of each context
    pub contexts: Map<Seq<char>, u64>,
    /// The workspace of each context, where it is known
    pub workspaces: Map<Seq<char>, Seq<char>>,
    /// The identifier and the type of each tree of the workspace
    pub trees: Map<Seq<char>, (Seq<char>, Seq<char>)>,
    pub layout: LayoutView,
}

/// What the kernel has to be told.
#[verifier::ext_equal]
pub ghost struct InvalidationView {
    /// Directory, inode and name of entries that are gone
    pub removed: Seq<(u64, u64, Seq<char>)>,
    /// Files whose content changed
    pub changed: Seq<u64>,
    /// Directories whose listing changed
    pub dirty_dirs: Seq<u64>,
}

/// A tree under change, with what the kernel has to be told of it.
#[verifier::ext_equal]
pub ghost struct Update {
    pub tree: TreeView,
    pub inv: InvalidationView,
}

/// A file that a directory is to hold.
pub ghost struct Wanted {
    pub doc: u64,
    pub content: ContentView,
    pub mtime: SystemTime,
}

/// Which files a context is to hold, and the names they were given.
#[verifier::ext_equal]
pub ghost struct Plan {
    /// The names that stick
    pub names: Map<Seq<char>, Seq<char>>,
    /// The names among them that are not saved yet
    pub unsaved: Seq<(Seq<char>, Seq<char>)>,
    /// For each directory, its files
    pub want: Map<Seq<char>, Map<Seq<char>, Wanted>>,
}

/// A directory under change.
#[verifier::ext_equal]
pub ghost struct Sync {
    pub up: Update,
    /// Whether its listing changed
    pub dirty: bool,
}

/// The name of one of the directories that every context has.
pub open spec fn label(k: int) -> Seq<char> {
    SCHEMA_DIRS@[k]@
}

/// Whether a name is that of one of the directories that every context has.
pub open spec fn is_label(name: Seq<char>) -> bool {
    exists|k: int| 0 <= k < SCHEMA_DIRS@.len() && #[trigger] label(k) == name
}

/// Nothing to tell the kernel.
pub open spec fn no_invalidation() -> InvalidationView {
    InvalidationView { removed: Seq::empty(), changed: Seq::empty(), dirty_dirs: Seq::empty() }
}

impl NodeView {
    pub open spec fn is_dir(self) -> bool {
        self.content is Dir
    }

    /// The size that is shown for a node.
    pub open spec fn size(self) -> nat {
        match self.content {
            ContentView::Dir => 0,
            ContentView::Inline(b) => b.len(),
            ContentView::Remote { size, .. } => size as nat,
        }
    }
}

/// A directory.
pub open spec fn dir_node(ino: u64, parent: u64, name: Seq<char>, now: SystemTime) -> NodeView {
    NodeView { ino, parent, name, mtime: now, content: ContentView::Dir }
}

impl TreeView {
    /// A tree with no nodes.
    pub open spec fn bare(layout: LayoutView) -> TreeView {
        TreeView {
            nodes: Map::empty(),
            children: Map::empty(),
            next_ino: FIRST_DYNAMIC_INO,
            docs: Map::empty(),
            contexts: Map::empty(),
            workspaces: Map::empty(),
            trees: Map::empty(),
            layout,
        }
    }

    /// A tree with its top directory only.
    pub open spec fn rooted(layout: LayoutView, now: SystemTime) -> TreeView {
        TreeView::bare(layout).insert_node(dir_node(ROOT_INO, ROOT_INO, Seq::empty(), now))
    }

    /// A tree with its top directory and the directory for the contexts.
    pub open spec fn fresh(now: SystemTime) -> TreeView {
        TreeView::rooted(LayoutView::Contexts, now).insert_node(
            dir_node(CONTEXTS_INO, ROOT_INO, "Contexts"@, now),
        )
    }

    /// Whether an inode is that of a directory.
    pub open spec fn is_dir(self, ino: u64) -> bool {
        self.nodes.contains_key(ino) && self.nodes[ino].is_dir()
    }

    /// Whether an inode is that of a file.
    pub open spec fn is_file(self, ino: u64) -> bool {
        self.nodes.contains_key(ino) && !self.nodes[ino].is_dir()
    }

    /// The entries of a directory.
    pub open spec fn entries(self, ino: u64) -> Map<Seq<char>, u64> {
        if self.children.contains_key(ino) {
            self.children[ino]
        } else {
            Map::empty()
        }
    }

    /// The names in a directory, in order.
    pub open spec fn entry_names(self, ino: u64) -> Seq<Seq<char>> {
        strmap::ordered(self.entries(ino).dom())
    }

    /// The inodes in a directory, in the order of their names.
    pub open spec fn entry_inos(self, ino: u64) -> Seq<u64> {
        Seq::new(
            self.entry_names(ino).len(),
            |i: int| self.entries(ino)[self.entry_names(ino)[i]],
        )
    }

    /// The node of a name in a directory.
    pub open spec fn lookup(self, parent: u64, name: Seq<char>) -> Option<u64> {
        let e = self.entries(parent);
        if e.contains_key(name) && self.nodes.contains_key(e[name]) {
            Some(e[name])
        } else {
            None
        }
    }

    /// The nodes of some inodes, without those that have none.
    pub open spec fn nodes_of(self, inos: Seq<u64>) -> Seq<NodeView>
        decreases inos.len(),
    {
        if inos.len() == 0 {
            Seq::empty()
        } else {
            let s = self.nodes_of(inos.drop_last());
            if self.nodes.contains_key(inos.last()) {
                s.push(self.nodes[inos.last()])
            } else {
                s
            }
        }
    }

    /// Puts a node in place.
    pub open spec fn insert_node(self, node: NodeView) -> TreeView {
        let c1 = if node.ino != ROOT_INO {
            self.children.insert(
                node.parent,
                self.entries(node.parent).insert(node.name, node.ino),
            )
        } else {
            self.children
        };
        let c2 = if c1.contains_key(node.ino) {
            c1
        } else {
            c1.insert(node.ino, Map::empty())
        };
        TreeView { nodes: self.nodes.insert(node.ino, node), children: c2, ..self }
    }

    /// Takes a node away.
    pub open spec fn remove_node(self, ino: u64) -> TreeView {
        if self.nodes.contains_key(ino) {
            let node = self.nodes[ino];
            let c1 = if self.children.contains_key(node.parent) {
                self.children.insert(node.parent, self.children[node.parent].remove(node.name))
            } else {
                self.children
            };
            TreeView { nodes: self.nodes.remove(ino), children: c1.remove(ino), ..self }
        } else {
            self
        }
    }

    /// Hands out an inode.
    pub open spec fn take_ino(self) -> TreeView {
        TreeView { next_ino: (self.next_ino + 1) as u64, ..self }
    }

    /// Whether so many more inodes can be handed out.
    pub open spec fn room(self, n: int) -> bool {
        self.next_ino + n <= FIRST_OVERLAY_INO
    }

    /// Gives a node another content.
    pub open spec fn set_content(
        self,
        ino: u64,
        content: ContentView,
        mtime: SystemTime,
    ) -> TreeView {
        if self.nodes.contains_key(ino) {
            TreeView {
                nodes: self.nodes.insert(ino, NodeView { content, mtime, ..self.nodes[ino] }),
                ..self
            }
        } else {
            self
        }
    }

    /// Gives a node another modification time.
    pub open spec fn touch(self, ino: u64, mtime: SystemTime) -> TreeView {
        if self.nodes.contains_key(ino) {
            self.set_content(ino, self.nodes[ino].content, mtime)
        } else {
            self
        }
    }

    /// Gives a node another name in its directory.
    pub open spec fn rename_entry(self, ino: u64, new_name: Seq<char>) -> TreeView {
        if self.nodes.contains_key(ino) {
            let node = self.nodes[ino];
            let c1 = if self.children.contains_key(node.parent) {
                self.children.insert(
                    node.parent,
                    self.children[node.parent].remove(node.name).insert(new_name, ino),
                )
            } else {
                self.children
            };
            TreeView {
                nodes: self.nodes.insert(ino, NodeView { name: new_name, ..node }),
                children: c1,
                ..self
            }
        } else {
            self
        }
    }

    /// Binds a document of a context to an inode.
    pub open spec fn bind(self, ctx: Seq<char>, doc: u64, ino: u64) -> TreeView {
        TreeView { docs: self.docs.insert((ctx, doc), ino), ..self }
    }

    /// Drops bindings.
    pub open spec fn forget(self, rule: ForgetView) -> TreeView {
        TreeView { docs: docmap::forgotten(self.docs, rule), ..self }
    }

    /// Whether a document of a context is bound to an inode.
    pub open spec fn bound(self, ctx: Seq<char>, doc: u64, ino: u64) -> bool {
        self.docs.contains_key((ctx, doc)) && self.docs[(ctx, doc)] == ino
    }

    /// Puts a document's file in place.
    pub open spec fn adopt(
        self,
        dir_ino: u64,
        name: Seq<char>,
        ctx: Seq<char>,
        doc: u64,
        ino: u64,
        content: Seq<u8>,
        now: SystemTime,
    ) -> TreeView {
        self.bind(ctx, doc, ino).insert_node(
            NodeView {
                ino,
                parent: dir_ino,
                name,
                mtime: now,
                content: ContentView::Inline(content),
            },
        )
    }

    /// Takes a document's file away.
    pub open spec fn remove_doc(self, ino: u64) -> TreeView {
        self.remove_node(ino).forget(ForgetView::Ino(ino))
    }

    /// The context and the label of a directory that every context has.
    pub open spec fn schema_dir(self, ino: u64) -> Option<(Seq<char>, Seq<char>)> {
        if self.is_dir(ino) && is_label(self.nodes[ino].name) {
            let node = self.nodes[ino];
            match self.layout {
                LayoutView::Contexts => if self.nodes.contains_key(node.parent)
                    && self.nodes[node.parent].parent == CONTEXTS_INO {
                    Some((self.nodes[node.parent].name, node.name))
                } else {
                    None
                },
                LayoutView::Context(id) => if node.parent == ROOT_INO {
                    Some((id, node.name))
                } else {
                    None
                },
                LayoutView::Workspace { .. } => None,
            }
        } else {
            None
        }
    }

    /// The directory that is listed anew when a context comes or goes.
    pub open spec fn top(self) -> u64 {
        match self.layout {
            LayoutView::Contexts => CONTEXTS_INO,
            _ => ROOT_INO,
        }
    }

    /// Whether a context is shown in this mount.
    pub open spec fn admits(self, id: Seq<char>) -> bool {
        match self.layout {
            LayoutView::Contexts => true,
            LayoutView::Context(own) => id == own,
            LayoutView::Workspace { .. } => false,
        }
    }

    /// The directory of a name in another one.
    pub open spec fn context_dir(self, ctx_ino: u64, name: Seq<char>) -> Option<u64> {
        match self.lookup(ctx_ino, name) {
            Some(i) => if self.is_dir(i) {
                Some(i)
            } else {
                None
            },
            None => None,
        }
    }
}

impl InvalidationView {
    pub open spec fn remove(self, parent: u64, ino: u64, name: Seq<char>) -> InvalidationView {
        InvalidationView { removed: self.removed.push((parent, ino, name)), ..self }
    }

    pub open spec fn change(self, ino: u64) -> InvalidationView {
        InvalidationView { changed: self.changed.push(ino), ..self }
    }

    pub open spec fn dirty(self, ino: u64) -> InvalidationView {
        InvalidationView { dirty_dirs: self.dirty_dirs.push(ino), ..self }
    }
}

/// The rendered file of a context.
pub open spec fn meta_content(ctx: ContextView) -> ContentView {
    ContentView::Inline(json::pretty_bytes(ctx.raw))
}

impl Update {
    /// Takes a node away and reports it.
    pub open spec fn drop_node(self, ino: u64) -> Update {
        if self.tree.nodes.contains_key(ino) {
            let node = self.tree.nodes[ino];
            Update {
                tree: self.tree.remove_node(ino),
                inv: self.inv.remove(node.parent, ino, node.name),
            }
        } else {
            self
        }
    }

    /// Takes everything below a directory away. A way down is no longer than there are listings.
    pub open spec fn clear(self, ino: u64) -> Update {
        self.clear_to(ino, self.tree.children.dom().len())
    }

    /// Takes everything below a directory away, down to a depth.
    pub open spec fn clear_to(self, ino: u64, depth: nat) -> Update
        decreases depth, 1int, 0nat,
    {
        self.clear_inos(self.tree.entry_inos(ino), depth)
    }

    /// Takes some nodes away, with everything below them, down to a depth.
    pub open spec fn clear_inos(self, inos: Seq<u64>, depth: nat) -> Update
        decreases depth, 0int, inos.len(),
    {
        if inos.len() == 0 {
            self
        } else {
            let u = self.clear_inos(inos.drop_last(), depth);
            let c = inos.last();
            let u1 = if depth > 0 {
                u.clear_to(c, (depth - 1) as nat)
            } else {
                u
            };
            u1.drop_node(c)
        }
    }

    /// What taking everything below a directory away comes to in a well-formed tree, where inodes
    /// rise on the way down to what has entries.
    pub open spec fn sweep(self, ino: u64) -> Update
        decreases u64::MAX - ino, 1int, 0nat,
    {
        self.sweep_inos(ino, self.tree.entry_inos(ino))
    }

    /// Takes some entries of a directory away, with everything below them. Only a file can have
    /// a smaller inode than its directory, and there is nothing below it.
    pub open spec fn sweep_inos(self, ino: u64, inos: Seq<u64>) -> Update
        decreases u64::MAX - ino, 0int, inos.len(),
    {
        if inos.len() == 0 {
            self
        } else {
            let u = self.sweep_inos(ino, inos.drop_last());
            let c = inos.last();
            let u1 = if c > ino {
                u.sweep(c)
            } else {
                u
            };
            u1.drop_node(c)
        }
    }

    /// Takes a context away.
    pub open spec fn drop_context(self, id: Seq<char>) -> Update {
        if self.tree.contexts.contains_key(id) {
            let ino = self.tree.contexts[id];
            let u0 = Update {
                tree: TreeView { contexts: self.tree.contexts.remove(id), ..self.tree },
                ..self
            };
            let u1 = u0.clear(ino);
            let u2 = if ino == ROOT_INO {
                u1
            } else {
                u1.drop_node(ino)
            };
            let t3 = u2.tree.forget(ForgetView::Context(id));
            Update {
                tree: TreeView { workspaces: t3.workspaces.remove(id), ..t3 },
                inv: u2.inv.dirty(t3.top()),
            }
        } else {
            self
        }
    }

    /// Takes some contexts away.
    pub open spec fn drop_contexts(self, ids: Seq<Seq<char>>) -> Update
        decreases ids.len(),
    {
        if ids.len() == 0 {
            self
        } else {
            self.drop_contexts(ids.drop_last()).drop_context(ids.last())
        }
    }

    /// Shows a context's current object in its meta file.
    pub open spec fn refresh_meta(self, ctx: ContextView, now: SystemTime) -> Update {
        match self.tree.lookup(self.tree.contexts[ctx.id], CONTEXT_META_FILE@) {
            Some(i) => if self.tree.nodes[i].content != meta_content(ctx) {
                Update {
                    tree: self.tree.set_content(i, meta_content(ctx), now),
                    inv: self.inv.change(i),
                }
            } else {
                self
            },
            None => self,
        }
    }

    /// Notes the workspace of a context.
    pub open spec fn note_workspace(self, ctx: ContextView) -> Update {
        match ctx.workspace_id {
            Some(ws) => Update {
                tree: TreeView {
                    workspaces: self.tree.workspaces.insert(ctx.id, ws),
                    ..self.tree
                },
                ..self
            },
            None => self,
        }
    }

    /// Brings a context in.
    pub open spec fn add_context(self, ctx: ContextView, now: SystemTime) -> Update {
        let u = self.note_workspace(ctx);
        let (home, t1) = match u.tree.layout {
            LayoutView::Contexts => {
                let home = u.tree.next_ino;
                (home, u.tree.take_ino().insert_node(dir_node(home, CONTEXTS_INO, ctx.id, now)))
            },
            _ => (ROOT_INO, u.tree),
        };
        let t2 = TreeView { contexts: t1.contexts.insert(ctx.id, home), ..t1 };
        let t3 = skeleton(t2, home, now, SCHEMA_DIRS@.len());
        let t4 = t3.take_ino().insert_node(
            NodeView {
                ino: t3.next_ino,
                parent: home,
                name: CONTEXT_META_FILE@,
                mtime: now,
                content: meta_content(ctx),
            },
        );
        Update { tree: t4, inv: u.inv.dirty(t4.top()) }
    }

    /// Brings a context in or up to date, where the mount shows it.
    pub open spec fn apply_context(self, ctx: ContextView, now: SystemTime) -> Update {
        if !self.tree.admits(ctx.id) {
            self
        } else if self.tree.contexts.contains_key(ctx.id) {
            self.refresh_meta(ctx, now).note_workspace(ctx)
        } else {
            self.add_context(ctx, now)
        }
    }

    /// Brings contexts in or up to date.
    pub open spec fn apply_each(self, ctxs: Seq<ContextView>, now: SystemTime) -> Update
        decreases ctxs.len(),
    {
        if ctxs.len() == 0 {
            self
        } else {
            self.apply_each(ctxs.drop_last(), now).apply_context(ctxs.last(), now)
        }
    }
}

/// A directory with the first few of the directories that every context has.
pub open spec fn skeleton(t: TreeView, home: u64, now: SystemTime, n: nat) -> TreeView
    decreases n,
{
    if n == 0 {
        t
    } else {
        let u = skeleton(t, home, now, (n - 1) as nat);
        u.take_ino().insert_node(dir_node(u.next_ino, home, label(n - 1), now))
    }
}

/// The identifiers of contexts.
pub open spec fn context_ids(ctxs: Seq<ContextView>) -> Set<Seq<char>> {
    Set::new(|id: Seq<char>| exists|i: int| 0 <= i < ctxs.len() && (#[trigger] ctxs[i]).id == id)
}

/// The contexts among some that are not in a list.
pub open spec fn missing(names: Seq<Seq<char>>, ctxs: Seq<ContextView>) -> Seq<Seq<char>>
    decreases names.len(),
{
    if names.len() == 0 {
        Seq::empty()
    } else {
        let s = missing(names.drop_last(), ctxs);
        if context_ids(ctxs).contains(names.last()) {
            s
        } else {
            s.push(names.last())
        }
    }
}

/// The contexts that are shown and are gone from a list, in order.
pub open spec fn stale(t: TreeView, ctxs: Seq<ContextView>) -> Seq<Seq<char>> {
    missing(strmap::ordered(t.contexts.dom()), ctxs)
}

/// A tree without the contexts that are gone from a list.
pub open spec fn without_stale(t: TreeView, ctxs: Seq<ContextView>) -> Update {
    (Update { tree: t, inv: no_invalidation() }).drop_contexts(stale(t, ctxs))
}

/// Makes the contexts of a tree those of a list.
pub open spec fn apply_contexts(t: TreeView, ctxs: Seq<ContextView>, now: SystemTime) -> Update {
    without_stale(t, ctxs).apply_each(ctxs, now)
}

/// Makes the meta file of a context show its current object.
pub open spec fn update_context_meta(t: TreeView, ctx: ContextView, now: SystemTime) -> Update {
    let u = Update { tree: t, inv: no_invalidation() };
    if t.contexts.contains_key(ctx.id) {
        u.refresh_meta(ctx, now)
    } else {
        u
    }
}

/// The contexts of a list that come in, in its order.
pub open spec fn added(u: Update, ctxs: Seq<ContextView>, now: SystemTime) -> Seq<Seq<char>>
    decreases ctxs.len(),
{
    if ctxs.len() == 0 {
        Seq::empty()
    } else {
        let s = added(u, ctxs.drop_last(), now);
        let before = u.apply_each(ctxs.drop_last(), now).tree;
        let id = ctxs.last().id;
        if before.admits(id) && !before.contexts.contains_key(id) {
            s.push(id)
        } else {
            s
        }
    }
}

/// Puts a document in a list ordered by identifier, behind its equals.
pub open spec fn insert_by_id(s: Seq<DocumentView>, d: DocumentView) -> Seq<DocumentView>
    decreases s.len(),
{
    if s.len() == 0 || s.last().id <= d.id {
        s.push(d)
    } else {
        insert_by_id(s.drop_last(), d).push(s.last())
    }
}

/// Documents by identifier; equals keep their order.
pub open spec fn by_id(docs: Seq<DocumentView>) -> Seq<DocumentView>
    decreases docs.len(),
{
    if docs.len() == 0 {
        Seq::empty()
    } else {
        insert_by_id(by_id(docs.drop_last()), docs.last())
    }
}

/// What the file of a document serves. Without a workspace to fetch the blob from, the document
/// itself.
pub open spec fn file_content(
    content: RenderedContent,
    doc: DocumentView,
    workspace: Option<Seq<char>>,
) -> ContentView {
    match content {
        RenderedContent::Inline(b) => ContentView::Inline(b),
        RenderedContent::Remote(size) => match workspace {
            Some(workspace_id) => ContentView::Remote {
                workspace_id,
                doc_id: doc.id,
                size,
                checksum: doc.checksum,
            },
            None => ContentView::Inline(json::pretty_bytes(doc.data)),
        },
    }
}

/// A name that is free: a given one, or else that name with an identifier, as often as it takes.
/// A name that was tried need not be tried again, since those that follow are longer.
pub open spec fn free_name(name: Seq<char>, id: u64, taken: Set<Seq<char>>) -> Seq<char>
    decreases taken.len(),
    when taken.finite()
{
    if taken.contains(name) {
        free_name(render::suffixed(name, id), id, taken.remove(name))
    } else {
        name
    }
}

/// Names that are shorter than a name do not matter for it.
proof fn lemma_shorter_names(
    name: Seq<char>,
    id: u64,
    taken: Set<Seq<char>>,
    other: Seq<char>,
)
    requires
        taken.finite(),
        other.len() < name.len(),
    ensures
        free_name(name, id, taken.remove(other)) == free_name(name, id, taken),
    decreases taken.len(),
{
    if taken.contains(name) {
        let next = render::suffixed(name, id);
        render::lemma_suffixed_is_longer(name, id);
        lemma_shorter_names(next, id, taken.remove(name), other);
        assert(taken.remove(other).remove(name) =~= taken.remove(name).remove(other));
    }
}

/// Where a name is taken, the one with the identifier is tried.
pub proof fn lemma_free_name_step(name: Seq<char>, id: u64, taken: Set<Seq<char>>)
    requires
        taken.finite(),
        taken.contains(name),
    ensures
        free_name(name, id, taken) == free_name(render::suffixed(name, id), id, taken),
{
    render::lemma_suffixed_is_longer(name, id);
    lemma_shorter_names(render::suffixed(name, id), id, taken, name);
}

/// The free name is free.
pub proof fn lemma_free_name(name: Seq<char>, id: u64, taken: Set<Seq<char>>)
    requires
        taken.finite(),
    ensures
        !taken.contains(free_name(name, id, taken)),
        free_name(name, id, taken).len() >= name.len(),
    decreases taken.len(),
{
    if taken.contains(name) {
        render::lemma_suffixed_is_longer(name, id);
        lemma_free_name(render::suffixed(name, id), id, taken.remove(name));
    }
}

/// The name of a file: the one that it has, where it is free; else its own, with the document's
/// identifier where that is taken.
pub open spec fn pick_name(
    kept: Option<Seq<char>>,
    base: Seq<char>,
    id: u64,
    taken: Set<Seq<char>>,
) -> Seq<char> {
    if kept is Some && !taken.contains(kept->0) {
        kept->0
    } else {
        free_name(base, id, taken)
    }
}

/// The name of a file is one that is free.
pub proof fn lemma_pick_name(
    kept: Option<Seq<char>>,
    base: Seq<char>,
    id: u64,
    taken: Set<Seq<char>>,
)
    requires
        taken.finite(),
    ensures
        !taken.contains(pick_name(kept, base, id, taken)),
{
    lemma_free_name(base, id, taken);
}

impl Plan {
    /// The files that a directory is to hold.
    pub open spec fn wants(self, dir: Seq<char>) -> Map<Seq<char>, Wanted> {
        if self.want.contains_key(dir) {
            self.want[dir]
        } else {
            Map::empty()
        }
    }

    /// How many files the first few directories of a context are to hold.
    pub open spec fn total(self, k: nat) -> nat
        decreases k,
    {
        if k == 0 {
            0
        } else {
            self.total((k - 1) as nat) + self.wants(label(k - 1)).dom().len()
        }
    }

    /// The name that a document was given before.
    pub open spec fn kept(self, ctx: Seq<char>, doc: DocumentView) -> Option<Seq<char>> {
        let key = names::name_key(ctx, render::schema_dir(doc.schema), doc.id);
        if self.names.contains_key(key) {
            Some(self.names[key])
        } else {
            None
        }
    }

    /// Whether a document has a name that is free.
    pub open spec fn keeps(self, ctx: Seq<char>, doc: DocumentView) -> bool {
        let kept = self.kept(ctx, doc);
        kept is Some && !self.wants(render::schema_dir(doc.schema)).dom().contains(kept->0)
    }

    /// The name that a document gets.
    pub open spec fn name_for(self, ctx: Seq<char>, doc: DocumentView) -> Seq<char> {
        pick_name(
            self.kept(ctx, doc),
            render::rendered_name(doc),
            doc.id,
            self.wants(render::schema_dir(doc.schema)).dom(),
        )
    }

    /// Adds a document.
    pub open spec fn add_doc(
        self,
        ctx: Seq<char>,
        doc: DocumentView,
        workspace: Option<Seq<char>>,
    ) -> Plan {
        let dir = render::schema_dir(doc.schema);
        let name = self.name_for(ctx, doc);
        let key = names::name_key(ctx, dir, doc.id);
        let w = Wanted {
            doc: doc.id,
            content: file_content(render::rendered_content(doc), doc, workspace),
            mtime: doc.updated_at,
        };
        let keeps = self.keeps(ctx, doc);
        Plan {
            names: if keeps {
                self.names
            } else {
                self.names.insert(key, name)
            },
            unsaved: if keeps {
                self.unsaved
            } else {
                self.unsaved.push((key, name))
            },
            want: self.want.insert(dir, self.wants(dir).insert(name, w)),
        }
    }

    /// Adds the documents that have a name that is free, as far as the context has the directory
    /// for them. The others are handed back.
    pub open spec fn claim(
        self,
        t: TreeView,
        ctx: Seq<char>,
        docs: Seq<DocumentView>,
        workspace: Option<Seq<char>>,
    ) -> (Plan, Seq<DocumentView>)
        decreases docs.len(),
    {
        if docs.len() == 0 {
            (self, Seq::empty())
        } else {
            let (p, rest) = self.claim(t, ctx, docs.drop_last(), workspace);
            let doc = docs.last();
            if t.lookup(t.contexts[ctx], render::schema_dir(doc.schema)) is None {
                (p, rest)
            } else if p.keeps(ctx, doc) {
                (p.add_doc(ctx, doc, workspace), rest)
            } else {
                (p, rest.push(doc))
            }
        }
    }

    /// Adds documents.
    pub open spec fn add_docs(
        self,
        ctx: Seq<char>,
        docs: Seq<DocumentView>,
        workspace: Option<Seq<char>>,
    ) -> Plan
        decreases docs.len(),
    {
        if docs.len() == 0 {
            self
        } else {
            self.add_docs(ctx, docs.drop_last(), workspace).add_doc(ctx, docs.last(), workspace)
        }
    }
}

/// The workspace of a context, where it is known.
pub open spec fn workspace_of(t: TreeView, ctx: Seq<char>) -> Option<Seq<char>> {
    if t.workspaces.contains_key(ctx) {
        Some(t.workspaces[ctx])
    } else {
        None
    }
}

/// No files yet.
pub open spec fn no_plan(
    names: Map<Seq<char>, Seq<char>>,
    unsaved: Seq<(Seq<char>, Seq<char>)>,
) -> Plan {
    Plan { names, unsaved, want: Map::empty() }
}

/// The files that a context is to hold for a list of documents. The documents that have a name
/// come first, so that no other document takes it; then those that have none, each by
/// identifier.
pub open spec fn plan(
    t: TreeView,
    ctx: Seq<char>,
    docs: Seq<DocumentView>,
    names: Map<Seq<char>, Seq<char>>,
    unsaved: Seq<(Seq<char>, Seq<char>)>,
) -> Plan {
    let workspace = workspace_of(t, ctx);
    let (p, rest) = no_plan(names, unsaved).claim(t, ctx, by_id(docs), workspace);
    p.add_docs(ctx, rest, workspace)
}

impl Sync {
    /// Takes a file away.
    pub open spec fn evict(self, ctx: Seq<char>, dir: u64, name: Seq<char>, ino: u64) -> Sync {
        Sync {
            up: Update {
                tree: self.up.tree.remove_node(ino).forget(ForgetView::ContextIno(ctx, ino)),
                inv: self.up.inv.remove(dir, ino, name),
            },
            dirty: true,
        }
    }

    /// Goes through an entry that a directory has: a file that shows the document that its name
    /// is for gets that document's content, anything else goes. In the trees of a workspace,
    /// directories stay.
    pub open spec fn visit(
        self,
        ctx: Seq<char>,
        dir: u64,
        want: Map<Seq<char>, Wanted>,
        name: Seq<char>,
        ino: u64,
    ) -> Sync {
        let t = self.up.tree;
        if t.layout is Workspace && t.is_dir(ino) {
            self
        } else if want.contains_key(name) && t.bound(ctx, want[name].doc, ino) {
            let w = want[name];
            if t.nodes.contains_key(ino) && t.nodes[ino].content != w.content {
                Sync {
                    up: Update {
                        tree: t.set_content(ino, w.content, w.mtime),
                        inv: self.up.inv.change(ino),
                    },
                    ..self
                }
            } else {
                self
            }
        } else {
            self.evict(ctx, dir, name, ino)
        }
    }

    /// Goes through entries that a directory has.
    pub open spec fn visit_all(
        self,
        ctx: Seq<char>,
        dir: u64,
        have: Map<Seq<char>, u64>,
        want: Map<Seq<char>, Wanted>,
        names: Seq<Seq<char>>,
    ) -> Sync
        decreases names.len(),
    {
        if names.len() == 0 {
            self
        } else {
            self.visit_all(ctx, dir, have, want, names.drop_last()).visit(
                ctx,
                dir,
                want,
                names.last(),
                have[names.last()],
            )
        }
    }

    /// Puts a file that a directory is to hold in place, where it is not there. A document that
    /// has a node keeps its inode.
    pub open spec fn place(
        self,
        ctx: Seq<char>,
        dir: u64,
        want: Map<Seq<char>, Wanted>,
        name: Seq<char>,
    ) -> Sync {
        let t = self.up.tree;
        let w = want[name];
        let key = (ctx, w.doc);
        if t.lookup(dir, name) is Some {
            self
        } else {
            let moves = t.docs.contains_key(key) && t.nodes.contains_key(t.docs[key]);
            let ino = if moves {
                t.docs[key]
            } else {
                t.next_ino
            };
            let u = if moves {
                self.up.drop_node(ino)
            } else {
                Update { tree: t.take_ino(), ..self.up }
            };
            Sync {
                up: Update {
                    tree: u.tree.bind(ctx, w.doc, ino).insert_node(
                        NodeView { ino, parent: dir, name, mtime: w.mtime, content: w.content },
                    ),
                    ..u
                },
                dirty: true,
            }
        }
    }

    /// Puts files in place.
    pub open spec fn place_all(
        self,
        ctx: Seq<char>,
        dir: u64,
        want: Map<Seq<char>, Wanted>,
        names: Seq<Seq<char>>,
    ) -> Sync
        decreases names.len(),
    {
        if names.len() == 0 {
            self
        } else {
            self.place_all(ctx, dir, want, names.drop_last()).place(ctx, dir, want, names.last())
        }
    }

    /// Reports a directory whose listing changed.
    pub open spec fn finish(self, dir: u64, now: SystemTime) -> Update {
        if self.dirty {
            Update { tree: self.up.tree.touch(dir, now), inv: self.up.inv.dirty(dir) }
        } else {
            self.up
        }
    }
}

impl Update {
    /// Makes the files of a directory those that it is to hold.
    pub open spec fn sync_dir(
        self,
        ctx: Seq<char>,
        dir: u64,
        want: Map<Seq<char>, Wanted>,
        now: SystemTime,
    ) -> Update {
        let have = self.tree.entries(dir);
        Sync { up: self, dirty: false }.visit_all(
            ctx,
            dir,
            have,
            want,
            strmap::ordered(have.dom()),
        ).place_all(ctx, dir, want, strmap::ordered(want.dom())).finish(dir, now)
    }

    /// Makes the files of the first few directories of a context those that they are to hold.
    pub open spec fn sync_dirs(
        self,
        dirs: Seq<Option<u64>>,
        ctx: Seq<char>,
        p: Plan,
        now: SystemTime,
    ) -> Update
        decreases dirs.len(),
    {
        if dirs.len() == 0 {
            self
        } else {
            let u = self.sync_dirs(dirs.drop_last(), ctx, p, now);
            match dirs.last() {
                Some(dir) => u.sync_dir(ctx, dir, p.wants(label(dirs.len() - 1)), now),
                None => u,
            }
        }
    }
}

/// The directories of a context.
pub open spec fn context_dirs(t: TreeView, ctx: Seq<char>) -> Seq<Option<u64>> {
    Seq::new(SCHEMA_DIRS@.len(), |k: int| t.lookup(t.contexts[ctx], label(k)))
}

/// Makes the files of a context those of a list of documents.
pub open spec fn apply_documents(
    t: TreeView,
    ctx: Seq<char>,
    p: Plan,
    now: SystemTime,
) -> Update {
    (Update { tree: t, inv: no_invalidation() }).sync_dirs(context_dirs(t, ctx), ctx, p, now)
}

/// Taking nodes away changes nothing but nodes and entries.
pub open spec fn same_but_nodes(a: TreeView, b: TreeView) -> bool {
    &&& a.next_ino == b.next_ino
    &&& a.docs == b.docs
    &&& a.contexts == b.contexts
    &&& a.workspaces == b.workspaces
    &&& a.trees == b.trees
    &&& a.layout == b.layout
}

/// Taking everything below a directory away changes nothing but nodes and entries.
pub proof fn lemma_clear_frame(u: Update, ino: u64)
    ensures
        same_but_nodes(u.clear(ino).tree, u.tree),
        u.clear(ino).inv.changed == u.inv.changed,
        u.clear(ino).inv.dirty_dirs == u.inv.dirty_dirs,
{
    lemma_clear_inos_frame(u, u.tree.entry_inos(ino), u.tree.children.dom().len());
}

proof fn lemma_clear_inos_frame(u: Update, inos: Seq<u64>, depth: nat)
    ensures
        same_but_nodes(u.clear_inos(inos, depth).tree, u.tree),
        u.clear_inos(inos, depth).inv.changed == u.inv.changed,
        u.clear_inos(inos, depth).inv.dirty_dirs == u.inv.dirty_dirs,
    decreases depth, inos.len(),
{
    if inos.len() > 0 {
        lemma_clear_inos_frame(u, inos.drop_last(), depth);
        if depth > 0 {
            let v = u.clear_inos(inos.drop_last(), depth);
            let c = inos.last();
            lemma_clear_inos_frame(v, v.tree.entry_inos(c), (depth - 1) as nat);
            assert(v.clear_to(c, (depth - 1) as nat) == v.clear_inos(
                v.tree.entry_inos(c),
                (depth - 1) as nat,
            ));
        }
    }
}

pub proof fn lemma_sweep_frame(u: Update, ino: u64)
    ensures
        same_but_nodes(u.sweep(ino).tree, u.tree),
        u.sweep(ino).inv.changed == u.inv.changed,
        u.sweep(ino).inv.dirty_dirs == u.inv.dirty_dirs,
        u.sweep(ino).tree.children.dom().subset_of(u.tree.children.dom()),
    decreases u64::MAX - ino, 1int, 0nat,
{
    lemma_sweep_inos_frame(u, ino, u.tree.entry_inos(ino));
}

pub proof fn lemma_sweep_inos_frame(u: Update, ino: u64, inos: Seq<u64>)
    ensures
        same_but_nodes(u.sweep_inos(ino, inos).tree, u.tree),
        u.sweep_inos(ino, inos).inv.changed == u.inv.changed,
        u.sweep_inos(ino, inos).inv.dirty_dirs == u.inv.dirty_dirs,
        u.sweep_inos(ino, inos).tree.children.dom().subset_of(u.tree.children.dom()),
    decreases u64::MAX - ino, 0int, inos.len(),
{
    if inos.len() > 0 {
        lemma_sweep_inos_frame(u, ino, inos.drop_last());
        if inos.last() > ino {
            lemma_sweep_frame(u.sweep_inos(ino, inos.drop_last()), inos.last());
        }
    }
}

/// A document stands behind its equals and before what is greater.
pub proof fn lemma_insert_by_id(s: Seq<DocumentView>, d: DocumentView, at: int)
    requires
        0 <= at <= s.len(),
        at == 0 || s[at - 1].id <= d.id,
        forall|i: int| at <= i < s.len() ==> (#[trigger] s[i]).id > d.id,
    ensures
        insert_by_id(s, d) == s.insert(at, d),
    decreases s.len(),
{
    if at == s.len() {
        assert(s.insert(at, d) =~= s.push(d));
    } else {
        assert(s[s.len() - 1].id > d.id);
        lemma_insert_by_id(s.drop_last(), d, at);
        assert(s.insert(at, d) =~= s.drop_last().insert(at, d).push(s.last()));
    }
}

/// Putting files in place hands out at most one inode for each.
pub proof fn lemma_place_all_next(
    s: Sync,
    ctx: Seq<char>,
    dir: u64,
    want: Map<Seq<char>, Wanted>,
    names: Seq<Seq<char>>,
)
    requires
        s.up.tree.room(names.len() as int),
    ensures
        s.up.tree.next_ino <= s.place_all(ctx, dir, want, names).up.tree.next_ino
            <= s.up.tree.next_ino + names.len(),
    decreases names.len(),
{
    if names.len() > 0 {
        lemma_place_all_next(s, ctx, dir, want, names.drop_last());
    }
}

/// Going through the entries of a directory hands out no inode.
pub proof fn lemma_visit_all_next(
    s: Sync,
    ctx: Seq<char>,
    dir: u64,
    have: Map<Seq<char>, u64>,
    want: Map<Seq<char>, Wanted>,
    names: Seq<Seq<char>>,
)
    ensures
        s.visit_all(ctx, dir, have, want, names).up.tree.next_ino == s.up.tree.next_ino,
    decreases names.len(),
{
    if names.len() > 0 {
        lemma_visit_all_next(s, ctx, dir, have, want, names.drop_last());
    }
}

proof fn lemma_insert_by_id_len(s: Seq<DocumentView>, d: DocumentView)
    ensures
        insert_by_id(s, d).len() == s.len() + 1,
    decreases s.len(),
{
    if s.len() > 0 && s.last().id > d.id {
        lemma_insert_by_id_len(s.drop_last(), d);
    }
}

/// Ordering documents keeps their number.
pub proof fn lemma_by_id_len(docs: Seq<DocumentView>)
    ensures
        by_id(docs).len() == docs.len(),
    decreases docs.len(),
{
    if docs.len() > 0 {
        lemma_by_id_len(docs.drop_last());
        lemma_insert_by_id_len(by_id(docs.drop_last()), docs.last());
    }
}

} // verus!
