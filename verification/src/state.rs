//! The tree of nodes that a mount shows.

use crate::api::{ContextInfo, Document, TreeInfo};
use crate::api;
use crate::docmap::{DocMap, Forget};
use crate::docmap;
use crate::model;
use crate::model::{
    ContentView, InvalidationView, LayoutView, NodeView, Plan, Sync, TreeView, Update, Wanted,
};
use crate::names::NameStore;
use crate::render::{render, with_id_suffix, Content, Rendered, SCHEMA_DIRS};
use crate::render;
use crate::strmap::StrMap;
use crate::strmap;
use crate::text::{copy_text, same_bytes, same_text};
use crate::time::time_now;
use crate::wellformed;
use std::collections::HashMap;
use std::sync::Arc;
use std::time::SystemTime;
use vstd::prelude::*;
use vstd::string::*;

verus! {

broadcast use vstd::std_specs::hash::group_hash_axioms;

/// The inode of the mount's top directory.
pub const ROOT_INO: u64 = 1;

/// The inode of the directory that holds the contexts.
pub const CONTEXTS_INO: u64 = 2;

/// The first inode that is handed out.
pub const FIRST_DYNAMIC_INO: u64 = 16;

/// The first inode of files that exist only locally so far: far above any that a tree hands out.
pub const FIRST_OVERLAY_INO: u64 = 0x1_0000_0000_0000;

/// The file in each context that holds the context object.
pub const CONTEXT_META_FILE: &'static str = ".context.json";

/// What a node serves on read.
#[derive(Debug, PartialEq)]
pub enum NodeContent {
    Dir,
    Inline(Arc<Vec<u8>>),
    /// A blob that the workspace serves, fetched on first read
    Remote { workspace_id: String, doc_id: u64, size: u64, checksum: Option<String> },
}

/// A file or a directory.
#[derive(Debug)]
pub struct Node {
    pub ino: u64,
    pub parent: u64,
    pub name: String,
    pub mtime: SystemTime,
    pub content: NodeContent,
}

/// What an update of the view has to tell the kernel, once the tree is free again.
#[derive(Debug)]
pub struct Invalidation {
    /// Directory, inode and name of entries that are gone
    pub removed: Vec<(u64, u64, String)>,
    /// Files whose content changed: cached data must be dropped
    pub changed: Vec<u64>,
    /// Directories whose listing changed: cached listings must be dropped
    pub dirty_dirs: Vec<u64>,
}

/// What stands at the top of a mount.
enum Layout {
    Contexts,
    Context(String),
    Workspace { id: String, name: String },
}

/// The tree of nodes.
pub struct Tree {
    nodes: HashMap<u64, Node>,
    children: HashMap<u64, StrMap<u64>>,
    next_ino: u64,
    /// Keeps the inodes of documents stable across switches of a context's URL, so that open
    /// file handles survive a change of the view
    docs: DocMap,
    contexts: StrMap<u64>,
    /// Needed to address the content of blobs
    workspaces: StrMap<String>,
    trees: StrMap<(String, String)>,
    layout: Layout,
}

/// A file that a directory is to hold.
pub struct WantedFile {
    pub doc: u64,
    pub content: NodeContent,
    pub mtime: SystemTime,
}

impl View for NodeContent {
    type V = ContentView;

    open spec fn view(&self) -> ContentView {
        match *self {
            NodeContent::Dir => ContentView::Dir,
            NodeContent::Inline(b) => ContentView::Inline(b@),
            NodeContent::Remote { workspace_id, doc_id, size, checksum } => ContentView::Remote {
                workspace_id: workspace_id@,
                doc_id,
                size,
                checksum: api::option_text(checksum),
            },
        }
    }
}

impl View for Node {
    type V = NodeView;

    open spec fn view(&self) -> NodeView {
        NodeView {
            ino: self.ino,
            parent: self.parent,
            name: self.name@,
            mtime: self.mtime,
            content: self.content@,
        }
    }
}

/// The entries that are gone.
pub open spec fn removed_view(s: Seq<(u64, u64, String)>) -> Seq<(u64, u64, Seq<char>)> {
    Seq::new(s.len(), |i: int| (s[i].0, s[i].1, s[i].2@))
}

impl View for Invalidation {
    type V = InvalidationView;

    open spec fn view(&self) -> InvalidationView {
        InvalidationView {
            removed: removed_view(self.removed@),
            changed: self.changed@,
            dirty_dirs: self.dirty_dirs@,
        }
    }
}

impl View for Layout {
    type V = LayoutView;

    closed spec fn view(&self) -> LayoutView {
        match *self {
            Layout::Contexts => LayoutView::Contexts,
            Layout::Context(id) => LayoutView::Context(id@),
            Layout::Workspace { id, name } => LayoutView::Workspace { id: id@, name: name@ },
        }
    }
}

impl View for WantedFile {
    type V = Wanted;

    open spec fn view(&self) -> Wanted {
        Wanted { doc: self.doc, content: self.content@, mtime: self.mtime }
    }
}

impl View for Tree {
    type V = TreeView;

    closed spec fn view(&self) -> TreeView {
        TreeView {
            nodes: self.nodes@.map_values(|n: Node| n@),
            children: self.children@.map_values(|m: StrMap<u64>| m@),
            next_ino: self.next_ino,
            docs: self.docs@,
            contexts: self.contexts@,
            workspaces: self.workspaces@.map_values(|s: String| s@),
            trees: self.trees@.map_values(|p: (String, String)| (p.0@, p.1@)),
            layout: self.layout@,
        }
    }
}

impl NodeContent {
    /// Copies a content; inline bytes are shared.
    pub fn copy(&self) -> (r: NodeContent)
        ensures
            r@ == self@,
    {
        match self {
            NodeContent::Dir => NodeContent::Dir,
            NodeContent::Inline(b) => NodeContent::Inline(b.clone()),
            NodeContent::Remote { workspace_id, doc_id, size, checksum } => NodeContent::Remote {
                workspace_id: copy_text(workspace_id.as_str()),
                doc_id: *doc_id,
                size: *size,
                checksum: copy_option(checksum),
            },
        }
    }

    /// Whether two contents are the same.
    pub fn same(&self, other: &NodeContent) -> (r: bool)
        ensures
            r == (self@ == other@),
    {
        match (self, other) {
            (NodeContent::Dir, NodeContent::Dir) => true,
            (NodeContent::Inline(a), NodeContent::Inline(b)) => same_bytes(&**a, &**b),
            (
                NodeContent::Remote { workspace_id: w1, doc_id: d1, size: s1, checksum: c1 },
                NodeContent::Remote { workspace_id: w2, doc_id: d2, size: s2, checksum: c2 },
            ) => *d1 == *d2 && *s1 == *s2 && same_text(w1.as_str(), w2.as_str()) && same_option(
                c1,
                c2,
            ),
            _ => false,
        }
    }
}

fn copy_option(s: &Option<String>) -> (r: Option<String>)
    ensures
        api::option_text(r) == api::option_text(*s),
{
    match s {
        Some(t) => Some(copy_text(t.as_str())),
        None => None,
    }
}

fn same_option(a: &Option<String>, b: &Option<String>) -> (r: bool)
    ensures
        r == (api::option_text(*a) == api::option_text(*b)),
{
    match (a, b) {
        (Some(x), Some(y)) => same_text(x.as_str(), y.as_str()),
        (None, None) => true,
        _ => false,
    }
}

impl Node {
    pub fn is_dir(&self) -> (r: bool)
        ensures
            r == self@.is_dir(),
    {
        matches!(self.content, NodeContent::Dir)
    }

    /// The size that is shown for a node: none for a directory.
    pub fn size(&self) -> (r: u64)
        ensures
            r == self@.size(),
    {
        match &self.content {
            NodeContent::Dir => 0,
            NodeContent::Inline(bytes) => bytes.len() as u64,
            NodeContent::Remote { size, .. } => *size,
        }
    }
}

impl Invalidation {
    /// Nothing to tell.
    pub fn new() -> (r: Self)
        ensures
            r@ == model::no_invalidation(),
    {
        let r = Invalidation { removed: Vec::new(), changed: Vec::new(), dirty_dirs: Vec::new() };
        assert(r@ =~= model::no_invalidation());
        r
    }

    pub fn is_empty(&self) -> (r: bool)
        ensures
            r == (self@ == model::no_invalidation()),
    {
        let r = self.removed.len() == 0 && self.changed.len() == 0 && self.dirty_dirs.len() == 0;
        proof {
            if r {
                assert(self@ =~= model::no_invalidation());
            } else {
                assert(self@.removed.len() == self.removed@.len());
            }
        }
        r
    }

    pub(crate) fn remove(&mut self, parent: u64, ino: u64, name: String)
        ensures
            final(self)@ == old(self)@.remove(parent, ino, name@),
    {
        let ghost n = name@;
        self.removed.push((parent, ino, name));
        assert(self@ =~= old(self)@.remove(parent, ino, n));
    }

    fn change(&mut self, ino: u64)
        ensures
            final(self)@ == old(self)@.change(ino),
    {
        self.changed.push(ino);
    }

    pub(crate) fn dirty(&mut self, ino: u64)
        ensures
            final(self)@ == old(self)@.dirty(ino),
    {
        self.dirty_dirs.push(ino);
    }
}

impl Default for Invalidation {
    fn default() -> (r: Self)
        ensures
            r@ == model::no_invalidation(),
    {
        Invalidation::new()
    }
}

impl Tree {
    fn bare(layout: Layout) -> (r: Tree)
        ensures
            r@ == TreeView::bare(layout@),
    {
        let r = Tree {
            nodes: HashMap::new(),
            children: HashMap::new(),
            next_ino: FIRST_DYNAMIC_INO,
            docs: DocMap::new(),
            contexts: StrMap::new(),
            workspaces: StrMap::new(),
            trees: StrMap::new(),
            layout,
        };
        assert(r@ =~= TreeView::bare(layout@));
        r
    }

    fn rooted(layout: Layout, now: SystemTime) -> (r: Tree)
        ensures
            r@ == TreeView::rooted(layout@, now),
    {
        let mut t = Tree::bare(layout);
        let name = String::new();
        assert(name@ =~= Seq::empty());
        t.insert_node(
            Node {
                ino: ROOT_INO,
                parent: ROOT_INO,
                name,
                mtime: now,
                content: NodeContent::Dir,
            },
        );
        t
    }

    pub(crate) fn take_ino(&mut self) -> (r: u64)
        requires
            old(self)@.room(1),
        ensures
            r == old(self)@.next_ino,
            final(self)@ == old(self)@.take_ino(),
    {
        let ino = self.next_ino;
        self.next_ino = ino + 1;
        assert(self@ =~= old(self)@.take_ino());
        ino
    }

    pub(crate) fn insert_node(&mut self, node: Node)
        ensures
            final(self)@ == old(self)@.insert_node(node@),
    {
        let ghost n = node@;
        let ghost t0 = self@;
        let ino = node.ino;
        let parent = node.parent;
        if ino != ROOT_INO {
            let mut kids = match self.children.remove(&parent) {
                Some(k) => k,
                None => StrMap::new(),
            };
            kids.insert(copy_text(node.name.as_str()), ino);
            self.children.insert(parent, kids);
        }
        if !self.children.contains_key(&ino) {
            self.children.insert(ino, StrMap::new());
        }
        self.nodes.insert(ino, node);
        proof {
            assert(self@.children =~= t0.insert_node(n).children);
            assert(self@.nodes =~= t0.insert_node(n).nodes);
            assert(self@ =~= t0.insert_node(n));
        }
    }

    fn remove_node(&mut self, ino: u64) -> (r: Option<Node>)
        ensures
            final(self)@ == old(self)@.remove_node(ino),
            (match r {
                Some(n) => old(self)@.nodes.contains_key(ino) && n@ == old(self)@.nodes[ino],
                None => !old(self)@.nodes.contains_key(ino),
            }),
    {
        let ghost t0 = self@;
        match self.nodes.remove(&ino) {
            Some(node) => {
                let parent = node.parent;
                if let Some(mut kids) = self.children.remove(&parent) {
                    kids.remove(node.name.as_str());
                    self.children.insert(parent, kids);
                }
                self.children.remove(&ino);
                proof {
                    assert(self@.children =~= t0.remove_node(ino).children);
                    assert(self@.nodes =~= t0.remove_node(ino).nodes);
                    assert(self@ =~= t0.remove_node(ino));
                }
                Some(node)
            },
            None => {
                assert(self@ =~= t0);
                None
            },
        }
    }

    /// The node of an inode.
    pub fn get(&self, ino: u64) -> (r: Option<&Node>)
        ensures
            (match r {
                Some(n) => self@.nodes.contains_key(ino) && n@ == self@.nodes[ino],
                None => !self@.nodes.contains_key(ino),
            }),
    {
        self.nodes.get(&ino)
    }

    /// The node of a name in a directory.
    pub fn lookup(&self, parent: u64, name: &str) -> (r: Option<&Node>)
        ensures
            (match r {
                Some(n) => match self@.lookup(parent, name@) {
                    Some(i) => self@.nodes.contains_key(i) && n@ == self@.nodes[i],
                    None => false,
                },
                None => self@.lookup(parent, name@) is None,
            }),
    {
        match self.children.get(&parent) {
            Some(kids) => match kids.get(name) {
                Some(i) => self.nodes.get(i),
                None => None,
            },
            None => None,
        }
    }

    /// The inode of a name in a directory.
    pub(crate) fn lookup_ino(&self, parent: u64, name: &str) -> (r: Option<u64>)
        ensures
            r == self@.lookup(parent, name@),
    {
        match self.children.get(&parent) {
            Some(kids) => match kids.get(name) {
                Some(i) => if self.nodes.contains_key(i) {
                    Some(*i)
                } else {
                    None
                },
                None => None,
            },
            None => None,
        }
    }

    /// The inodes in a directory, in the order of their names.
    pub(crate) fn entry_inos(&self, ino: u64) -> (r: Vec<u64>)
        ensures
            r@ == self@.entry_inos(ino),
    {
        let mut out: Vec<u64> = Vec::new();
        match self.children.get(&ino) {
            Some(kids) => {
                let n = kids.len();
                let mut i: usize = 0;
                while i < n
                    invariant
                        n == kids.keys().len(),
                        i <= n,
                        kids@ == self@.entries(ino),
                        out@.len() == i,
                        forall|j: int| 0 <= j < i ==> #[trigger] out@[j] == self@.entry_inos(ino)[j],
                    decreases n - i,
                {
                    out.push(*kids.value_at(i));
                    i = i + 1;
                }
                assert(out@ =~= self@.entry_inos(ino));
            },
            None => {
                proof {
                    assert(self@.entries(ino).dom() =~= Set::empty());
                    strmap::lemma_ordered(self@.entries(ino).dom());
                    assert(out@ =~= self@.entry_inos(ino));
                }
            },
        }
        out
    }

    /// The nodes in a directory, in the order of their names; none where the inode is that of
    /// nothing.
    pub fn list(&self, ino: u64) -> (r: Option<Vec<&Node>>)
        ensures
            (match r {
                Some(v) => self@.children.contains_key(ino) && node_views(v@) == self@.nodes_of(
                    self@.entry_inos(ino),
                ),
                None => !self@.children.contains_key(ino),
            }),
    {
        if !self.children.contains_key(&ino) {
            return None;
        }
        let inos = self.entry_inos(ino);
        let mut out: Vec<&Node> = Vec::new();
        let n = inos.len();
        let mut i: usize = 0;
        assert(node_views(out@) =~= self@.nodes_of(inos@.take(0)));
        while i < n
            invariant
                n == inos@.len(),
                i <= n,
                node_views(out@) == self@.nodes_of(inos@.take(i as int)),
            decreases n - i,
        {
            let ghost o = out@;
            proof {
                assert(inos@.take(i + 1).drop_last() =~= inos@.take(i as int));
            }
            if let Some(node) = self.get(inos[i]) {
                out.push(node);
                assert(node_views(out@) =~= node_views(o).push(node@));
            }
            i = i + 1;
        }
        assert(inos@.take(n as int) =~= inos@);
        Some(out)
    }

    /// The contexts that are shown.
    pub fn context_ids(&self) -> (r: Vec<String>)
        ensures
            api::texts(r@) == strmap::ordered(self@.contexts.dom()),
    {
        let n = self.contexts.len();
        let mut out: Vec<String> = Vec::new();
        let mut i: usize = 0;
        while i < n
            invariant
                n == self.contexts.keys().len(),
                i <= n,
                out@.len() == i,
                forall|j: int| 0 <= j < i ==> (#[trigger] out@[j])@ == self.contexts.keys()[j],
            decreases n - i,
        {
            out.push(copy_text(self.contexts.key_at(i).as_str()));
            i = i + 1;
        }
        assert(api::texts(out@) =~= strmap::ordered(self@.contexts.dom()));
        out
    }

    /// The directory of a context.
    pub fn context_ino(&self, ctx: &str) -> (r: Option<u64>)
        ensures
            (match r {
                Some(i) => self@.contexts.contains_key(ctx@) && self@.contexts[ctx@] == i,
                None => !self@.contexts.contains_key(ctx@),
            }),
    {
        match self.contexts.get(ctx) {
            Some(i) => Some(*i),
            None => None,
        }
    }

    /// The context and the label of a directory that every context has. By it the write path
    /// tells where a file belongs.
    pub fn locate_schema_dir(&self, ino: u64) -> (r: Option<(String, String)>)
        ensures
            (match r {
                Some(p) => self@.schema_dir(ino) == Some((p.0@, p.1@)),
                None => self@.schema_dir(ino) is None,
            }),
    {
        let node = match self.get(ino) {
            Some(n) => n,
            None => {
                return None;
            },
        };
        if !node.is_dir() || !is_schema_dir(node.name.as_str()) {
            return None;
        }
        match &self.layout {
            Layout::Contexts => match self.get(node.parent) {
                Some(ctx) => if ctx.parent == CONTEXTS_INO {
                    Some((copy_text(ctx.name.as_str()), copy_text(node.name.as_str())))
                } else {
                    None
                },
                None => None,
            },
            Layout::Context(id) => if node.parent == ROOT_INO {
                Some((copy_text(id.as_str()), copy_text(node.name.as_str())))
            } else {
                None
            },
            Layout::Workspace { .. } => None,
        }
    }

    /// The inode of a document of a context.
    pub fn ino_for_doc(&self, ctx: &str, doc_id: u64) -> (r: Option<u64>)
        ensures
            (match r {
                Some(i) => self@.bound(ctx@, doc_id, i),
                None => !self@.docs.contains_key((ctx@, doc_id)),
            }),
    {
        self.docs.get(ctx, doc_id)
    }

    /// The context and the document that an inode shows. Where there are several, any of them.
    pub fn doc_for_ino(&self, ino: u64) -> (r: Option<(String, u64)>)
        ensures
            (match r {
                Some(p) => self@.bound(p.0@, p.1, ino),
                None => forall|ctx: Seq<char>, doc: u64| !self@.bound(ctx, doc, ino),
            }),
    {
        let r = self.docs.find_ino(ino);
        proof {
            assert forall|ctx: Seq<char>, doc: u64| r is None implies !self@.bound(
                ctx,
                doc,
                ino,
            ) by {
                assert(self.docs@.contains_key((ctx, doc)) ==> self.docs@[(ctx, doc)] != ino);
            }
        }
        r
    }

    /// Puts the file of a document in place. The write path calls it when it made the document,
    /// so that the file is there before the next refresh; it hands over the inode to keep open
    /// handles stable.
    pub fn adopt_document(
        &mut self,
        dir_ino: u64,
        name: &str,
        ctx_id: &str,
        doc_id: u64,
        ino: u64,
        content: Arc<Vec<u8>>,
    )
        ensures
            exists|now: SystemTime|
                final(self)@ == #[trigger] old(self)@.adopt(
                    dir_ino,
                    name@,
                    ctx_id@,
                    doc_id,
                    ino,
                    content@,
                    now,
                ),
    {
        let now = time_now();
        self.docs.insert(ctx_id, doc_id, ino);
        assert(self@ =~= old(self)@.bind(ctx_id@, doc_id, ino));
        self.insert_node(
            Node {
                ino,
                parent: dir_ino,
                name: copy_text(name),
                mtime: now,
                content: NodeContent::Inline(content),
            },
        );
        assert(self@ == old(self)@.adopt(dir_ino, name@, ctx_id@, doc_id, ino, content@, now));
    }

    fn set_content(&mut self, ino: u64, content: NodeContent, mtime: SystemTime)
        ensures
            final(self)@ == old(self)@.set_content(ino, content@, mtime),
    {
        let ghost t0 = self@;
        let ghost c = content@;
        if let Some(mut node) = self.nodes.remove(&ino) {
            node.content = content;
            node.mtime = mtime;
            self.nodes.insert(ino, node);
        }
        proof {
            assert(self@.nodes =~= t0.set_content(ino, c, mtime).nodes);
            assert(self@ =~= t0.set_content(ino, c, mtime));
        }
    }

    /// Replaces the content of a file by what was saved.
    pub fn set_inline_content(&mut self, ino: u64, content: Arc<Vec<u8>>)
        ensures
            exists|now: SystemTime|
                final(self)@ == #[trigger] old(self)@.set_content(
                    ino,
                    ContentView::Inline(content@),
                    now,
                ),
    {
        let now = time_now();
        self.set_content(ino, NodeContent::Inline(content), now);
    }

    fn touch(&mut self, ino: u64, mtime: SystemTime)
        ensures
            final(self)@ == old(self)@.touch(ino, mtime),
    {
        let ghost t0 = self@;
        if let Some(mut node) = self.nodes.remove(&ino) {
            node.mtime = mtime;
            self.nodes.insert(ino, node);
        }
        proof {
            assert(self@.nodes =~= t0.touch(ino, mtime).nodes);
            assert(self@ =~= t0.touch(ino, mtime));
        }
    }

    /// Renames an entry within its directory.
    pub fn rename_entry(&mut self, ino: u64, new_name: &str)
        ensures
            final(self)@ == old(self)@.rename_entry(ino, new_name@),
    {
        let ghost t0 = self@;
        if let Some(mut node) = self.nodes.remove(&ino) {
            let parent = node.parent;
            if let Some(mut kids) = self.children.remove(&parent) {
                kids.remove(node.name.as_str());
                kids.insert(copy_text(new_name), ino);
                self.children.insert(parent, kids);
            }
            node.name = copy_text(new_name);
            self.nodes.insert(ino, node);
        }
        proof {
            assert(self@.nodes =~= t0.rename_entry(ino, new_name@).nodes);
            assert(self@.children =~= t0.rename_entry(ino, new_name@).children);
            assert(self@ =~= t0.rename_entry(ino, new_name@));
        }
    }

    /// Removes the file of a document, and what binds documents to it.
    pub fn remove_doc_node(&mut self, ino: u64)
        ensures
            final(self)@ == old(self)@.remove_doc(ino),
    {
        self.remove_node(ino);
        let ghost t1 = self@;
        self.docs.forget(&Forget::Ino(ino));
        assert(self@ =~= t1.forget(docmap::ForgetView::Ino(ino)));
    }

    /// Binds a document to an inode.
    pub fn bind_doc(&mut self, ctx: &str, doc_id: u64, ino: u64)
        ensures
            final(self)@ == old(self)@.bind(ctx@, doc_id, ino),
    {
        self.docs.insert(ctx, doc_id, ino);
        assert(self@ =~= old(self)@.bind(ctx@, doc_id, ino));
    }

    /// Binds a document to no inode.
    pub fn unbind_doc(&mut self, ctx: &str, doc_id: u64)
        ensures
            final(self)@ == old(self)@.forget(docmap::ForgetView::Doc(ctx@, doc_id)),
    {
        self.docs.forget(&Forget::Doc(copy_text(ctx), doc_id));
        assert(self@ =~= old(self)@.forget(docmap::ForgetView::Doc(ctx@, doc_id)));
    }
}

impl Tree {
    /// A tree with the directory for the contexts and no context in it.
    pub fn new() -> (r: Tree)
        ensures
            exists|now: SystemTime| r@ == #[trigger] TreeView::fresh(now),
            r@.wf(),
    {
        let now = time_now();
        let mut t = Tree::rooted(Layout::Contexts, now);
        t.insert_node(
            Node {
                ino: CONTEXTS_INO,
                parent: ROOT_INO,
                name: copy_text("Contexts"),
                mtime: now,
                content: NodeContent::Dir,
            },
        );
        proof {
            assert(t@ == TreeView::fresh(now));
            wellformed::lemma_fresh_wf(now);
        }
        t
    }

    /// A tree that has the directories of one context at its top.
    pub fn context_rooted(id: String) -> (r: Tree)
        ensures
            exists|now: SystemTime|
                r@ == #[trigger] TreeView::rooted(LayoutView::Context(id@), now),
            r@.wf(),
    {
        let now = time_now();
        proof {
            wellformed::lemma_rooted_wf(LayoutView::Context(id@), now);
        }
        Tree::rooted(Layout::Context(id), now)
    }

    /// A tree that has the trees of a workspace at its top.
    pub fn workspace_rooted(ws_id: String, ws_name: String) -> (r: Tree)
        ensures
            exists|now: SystemTime|
                r@ == #[trigger] TreeView::rooted(
                    LayoutView::Workspace { id: ws_id@, name: ws_name@ },
                    now,
                ),
            r@.wf(),
    {
        let now = time_now();
        proof {
            wellformed::lemma_rooted_wf(
                LayoutView::Workspace { id: ws_id@, name: ws_name@ },
                now,
            );
        }
        Tree::rooted(Layout::Workspace { id: ws_id, name: ws_name }, now)
    }

    /// Whether so many more inodes can be handed out.
    pub fn has_room(&self, n: u64) -> (r: bool)
        ensures
            r == self@.room(n as int),
    {
        self.next_ino <= FIRST_OVERLAY_INO && n <= FIRST_OVERLAY_INO - self.next_ino
    }

    /// Takes a node away and reports it.
    pub(crate) fn drop_node(&mut self, ino: u64, inv: &mut Invalidation)
        ensures
            (Update { tree: final(self)@, inv: final(inv)@ }) == (Update {
                tree: old(self)@,
                inv: old(inv)@,
            }).drop_node(ino),
    {
        if let Some(node) = self.remove_node(ino) {
            inv.remove(node.parent, ino, node.name);
        }
    }

    /// Takes everything below a directory away and reports it.
    pub(crate) fn remove_subtree(&mut self, ino: u64, inv: &mut Invalidation)
        ensures
            (Update { tree: final(self)@, inv: final(inv)@ }) == (Update {
                tree: old(self)@,
                inv: old(inv)@,
            }).clear(ino),
    {
        let depth = self.children.len();
        assert(self@.children.dom() =~= self.children@.dom());
        self.remove_below(ino, depth, inv);
    }

    /// Takes everything below a directory away, down to a depth, and reports it.
    fn remove_below(&mut self, ino: u64, depth: usize, inv: &mut Invalidation)
        ensures
            (Update { tree: final(self)@, inv: final(inv)@ }) == (Update {
                tree: old(self)@,
                inv: old(inv)@,
            }).clear_to(ino, depth as nat),
        decreases depth,
    {
        let ghost u0 = Update { tree: self@, inv: inv@ };
        let inos = self.entry_inos(ino);
        let n = inos.len();
        let mut i: usize = 0;
        while i < n
            invariant
                n == inos@.len(),
                i <= n,
                (Update { tree: self@, inv: inv@ }) == u0.clear_inos(
                    inos@.take(i as int),
                    depth as nat,
                ),
            decreases n - i,
        {
            proof {
                assert(inos@.take(i + 1).drop_last() =~= inos@.take(i as int));
            }
            let c = inos[i];
            if depth > 0 {
                self.remove_below(c, depth - 1, inv);
            }
            self.drop_node(c, inv);
            i = i + 1;
        }
        assert(inos@.take(n as int) =~= inos@);
    }

    /// The directory that is listed anew when a context comes or goes.
    fn top(&self) -> (r: u64)
        ensures
            r == self@.top(),
    {
        match &self.layout {
            Layout::Contexts => CONTEXTS_INO,
            _ => ROOT_INO,
        }
    }

    /// Whether a context is shown in this mount.
    fn admits(&self, id: &str) -> (r: bool)
        ensures
            r == self@.admits(id@),
    {
        match &self.layout {
            Layout::Contexts => true,
            Layout::Context(own) => same_text(id, own.as_str()),
            Layout::Workspace { .. } => false,
        }
    }

    /// Takes a context away.
    fn drop_context(&mut self, id: &str, inv: &mut Invalidation)
        ensures
            (Update { tree: final(self)@, inv: final(inv)@ }) == (Update {
                tree: old(self)@,
                inv: old(inv)@,
            }).drop_context(id@),
            final(self)@.next_ino == old(self)@.next_ino,
    {
        let ghost u = Update { tree: self@, inv: inv@ };
        if let Some(ino) = self.contexts.remove(id) {
            assert(self@ =~= TreeView { contexts: u.tree.contexts.remove(id@), ..u.tree });
            proof {
                model::lemma_clear_frame(Update { tree: self@, inv: inv@ }, ino);
            }
            self.remove_subtree(ino, inv);
            if ino != ROOT_INO {
                self.drop_node(ino, inv);
            }
            let ghost t2 = self@;
            self.docs.forget(&Forget::Context(copy_text(id)));
            let ghost t3 = t2.forget(docmap::ForgetView::Context(id@));
            assert(self@ =~= t3);
            self.workspaces.remove(id);
            assert(self@ =~= TreeView { workspaces: t3.workspaces.remove(id@), ..t3 });
            let top = self.top();
            inv.dirty(top);
        } else {
            assert(self@ =~= u.tree);
        }
    }

    /// Shows a context's current object in its meta file.
    fn refresh_meta(&mut self, ctx: &ContextInfo, now: SystemTime, inv: &mut Invalidation)
        requires
            old(self)@.contexts.contains_key(ctx@.id),
        ensures
            (Update { tree: final(self)@, inv: final(inv)@ }) == (Update {
                tree: old(self)@,
                inv: old(inv)@,
            }).refresh_meta(ctx@, now),
    {
        if let Some(ctx_ino) = self.context_ino(ctx.id.as_str()) {
            let fresh = render_context_meta(ctx);
            if let Some(ino) = self.lookup_ino(ctx_ino, CONTEXT_META_FILE) {
                let same = match self.get(ino) {
                    Some(node) => node.content.same(&fresh),
                    None => true,
                };
                if !same {
                    self.set_content(ino, fresh, now);
                    inv.change(ino);
                }
            }
        }
    }

    /// Notes the workspace of a context.
    fn note_workspace(&mut self, ctx: &ContextInfo, inv: &mut Invalidation)
        ensures
            (Update { tree: final(self)@, inv: final(inv)@ }) == (Update {
                tree: old(self)@,
                inv: old(inv)@,
            }).note_workspace(ctx@),
    {
        let ghost t0 = self@;
        if let Some(ws) = &ctx.workspace_id {
            self.workspaces.insert(copy_text(ctx.id.as_str()), copy_text(ws.as_str()));
            assert(self@ =~= TreeView {
                workspaces: t0.workspaces.insert(ctx.id@, ws@),
                ..t0
            });
        }
    }

    /// Brings a context in.
    fn add_context(&mut self, ctx: &ContextInfo, now: SystemTime, inv: &mut Invalidation)
        requires
            old(self)@.room(9),
        ensures
            (Update { tree: final(self)@, inv: final(inv)@ }) == (Update {
                tree: old(self)@,
                inv: old(inv)@,
            }).add_context(ctx@, now),
            final(self)@.next_ino <= old(self)@.next_ino + 9,
    {
        let ghost u0 = Update { tree: self@, inv: inv@ };
        let ghost n0 = self@.next_ino;
        self.note_workspace(ctx, inv);
        let ghost t = self@;
        let home = match &self.layout {
            Layout::Contexts => {
                let home = self.take_ino();
                self.insert_node(
                    Node {
                        ino: home,
                        parent: CONTEXTS_INO,
                        name: copy_text(ctx.id.as_str()),
                        mtime: now,
                        content: NodeContent::Dir,
                    },
                );
                home
            },
            _ => ROOT_INO,
        };
        let ghost t1 = self@;
        self.contexts.insert(copy_text(ctx.id.as_str()), home);
        let ghost t2 = TreeView { contexts: t1.contexts.insert(ctx.id@, home), ..t1 };
        assert(self@ =~= t2);
        let mut k: usize = 0;
        while k < SCHEMA_DIRS.len()
            invariant
                k <= SCHEMA_DIRS@.len(),
                SCHEMA_DIRS@.len() == 7,
                self@ == model::skeleton(t2, home, now, k as nat),
                self@.next_ino <= n0 + 1 + k,
                n0 + 9 <= FIRST_OVERLAY_INO,
            decreases SCHEMA_DIRS@.len() - k,
        {
            let ino = self.take_ino();
            self.insert_node(
                Node {
                    ino,
                    parent: home,
                    name: copy_text(SCHEMA_DIRS[k]),
                    mtime: now,
                    content: NodeContent::Dir,
                },
            );
            k = k + 1;
        }
        let meta_ino = self.take_ino();
        self.insert_node(
            Node {
                ino: meta_ino,
                parent: home,
                name: copy_text(CONTEXT_META_FILE),
                mtime: now,
                content: render_context_meta(ctx),
            },
        );
        let top = self.top();
        inv.dirty(top);
    }
}

impl Tree {
    /// The contexts that are shown and are gone from a list.
    fn stale_contexts(&self, contexts: &[ContextInfo]) -> (r: Vec<String>)
        ensures
            api::texts(r@) == model::stale(self@, api::context_views(contexts@)),
    {
        let ids = self.context_ids();
        let ghost ctxs = api::context_views(contexts@);
        let mut out: Vec<String> = Vec::new();
        let n = ids.len();
        let mut i: usize = 0;
        assert(api::texts(out@) =~= model::missing(api::texts(ids@).take(0), ctxs));
        while i < n
            invariant
                n == ids@.len(),
                i <= n,
                ctxs == api::context_views(contexts@),
                api::texts(out@) == model::missing(api::texts(ids@).take(i as int), ctxs),
            decreases n - i,
        {
            let ghost o = out@;
            proof {
                assert(api::texts(ids@).take(i + 1).drop_last() =~= api::texts(ids@).take(
                    i as int,
                ));
            }
            if !has_context(contexts, ids[i].as_str()) {
                out.push(copy_text(ids[i].as_str()));
                assert(api::texts(out@) =~= api::texts(o).push(ids@[i as int]@));
            }
            i = i + 1;
        }
        assert(api::texts(ids@).take(n as int) =~= api::texts(ids@));
        out
    }

    /// Makes the contexts that are shown those of a list, each with its directories and its meta
    /// file. Tells what the kernel has to be told, and which contexts came in.
    pub fn apply_contexts(&mut self, contexts: &[ContextInfo]) -> (r: (Invalidation, Vec<String>))
        requires
            old(self)@.room(9 * contexts@.len() as int),
        ensures
            exists|now: SystemTime|
                {
                    let ctxs = api::context_views(contexts@);
                    let u = #[trigger] model::apply_contexts(
                        old(self)@,
                        api::context_views(contexts@),
                        now,
                    );
                    &&& final(self)@ == u.tree
                    &&& r.0@ == u.inv
                    &&& api::texts(r.1@) == model::added(
                        model::without_stale(old(self)@, ctxs),
                        ctxs,
                        now,
                    )
                },
            old(self)@.wf() ==> final(self)@.wf(),
    {
        let now = time_now();
        let ghost t0 = self@;
        let ghost ctxs = api::context_views(contexts@);
        let mut inv = Invalidation::new();
        let ghost u0 = Update { tree: t0, inv: model::no_invalidation() };

        let stale = self.stale_contexts(contexts);
        let ghost ids = api::texts(stale@);
        let n = stale.len();
        let mut i: usize = 0;
        assert(ids.take(0) =~= Seq::empty());
        while i < n
            invariant
                n == stale@.len(),
                i <= n,
                ids == api::texts(stale@),
                (Update { tree: self@, inv: inv@ }) == u0.drop_contexts(ids.take(i as int)),
                self@.next_ino == t0.next_ino,
            decreases n - i,
        {
            proof {
                assert(ids.take(i + 1).drop_last() =~= ids.take(i as int));
            }
            self.drop_context(stale[i].as_str(), &mut inv);
            i = i + 1;
        }
        assert(ids.take(n as int) =~= ids);

        let ghost u1 = model::without_stale(t0, ctxs);
        assert(u1 == (Update { tree: self@, inv: inv@ }));
        let mut added: Vec<String> = Vec::new();
        let m = contexts.len();
        let mut j: usize = 0;
        assert(ctxs.take(0) =~= Seq::empty());
        assert(api::texts(added@) =~= Seq::empty());
        while j < m
            invariant
                m == contexts@.len(),
                j <= m,
                ctxs == api::context_views(contexts@),
                (Update { tree: self@, inv: inv@ }) == u1.apply_each(ctxs.take(j as int), now),
                api::texts(added@) == model::added(u1, ctxs.take(j as int), now),
                self@.next_ino <= t0.next_ino + 9 * j,
                t0.room(9 * m),
            decreases m - j,
        {
            let ghost a = added@;
            proof {
                assert(ctxs.take(j + 1).drop_last() =~= ctxs.take(j as int));
            }
            let ctx = &contexts[j];
            if self.admits(ctx.id.as_str()) {
                if self.contexts.contains_key(ctx.id.as_str()) {
                    self.refresh_meta(ctx, now, &mut inv);
                    self.note_workspace(ctx, &mut inv);
                } else {
                    self.add_context(ctx, now, &mut inv);
                    added.push(copy_text(ctx.id.as_str()));
                    assert(api::texts(added@) =~= api::texts(a).push(ctx.id@));
                }
            }
            j = j + 1;
        }
        assert(ctxs.take(m as int) =~= ctxs);
        proof {
            assert((Update { tree: self@, inv: inv@ }) == model::apply_contexts(t0, ctxs, now));
            if t0.wf() {
                wellformed::law_contexts_are_those_of_the_list(t0, ctxs, now);
            }
        }
        (inv, added)
    }

    /// Makes the meta file of a context show its current object, so that a switch of its URL can
    /// be read before the next full refresh.
    pub fn update_context_meta(&mut self, ctx: &ContextInfo) -> (r: Invalidation)
        ensures
            exists|now: SystemTime|
                {
                    let u = #[trigger] model::update_context_meta(old(self)@, ctx@, now);
                    &&& final(self)@ == u.tree
                    &&& r@ == u.inv
                },
            old(self)@.wf() ==> final(self)@.wf(),
    {
        let now = time_now();
        let mut inv = Invalidation::new();
        if self.contexts.contains_key(ctx.id.as_str()) {
            proof {
                if self@.wf() {
                    wellformed::lemma_refresh_meta_wf(
                        Update { tree: self@, inv: inv@ },
                        ctx@,
                        now,
                    );
                }
            }
            self.refresh_meta(ctx, now, &mut inv);
        }
        assert((Update { tree: self@, inv: inv@ }) == model::update_context_meta(
            old(self)@,
            ctx@,
            now,
        ));
        inv
    }
}

/// The files that directories are to hold.
spec fn want_view(m: StrMap<StrMap<WantedFile>>) -> Map<Seq<char>, Map<Seq<char>, Wanted>> {
    m@.map_values(|w: StrMap<WantedFile>| files_view(w))
}

/// The files that a directory is to hold.
pub open spec fn files_view(m: StrMap<WantedFile>) -> Map<Seq<char>, Wanted> {
    m@.map_values(|w: WantedFile| w@)
}

/// The documents behind some references.
pub open spec fn ref_views(v: Seq<&Document>) -> Seq<api::DocumentView> {
    Seq::new(v.len(), |i: int| v[i]@)
}

/// Documents by identifier.
pub(crate) fn sorted_by_id<'a>(docs: &'a [Document]) -> (r: Vec<&'a Document>)
    ensures
        ref_views(r@) == model::by_id(api::document_views(docs@)),
{
    let ghost all = api::document_views(docs@);
    let mut out: Vec<&Document> = Vec::new();
    let mut i: usize = 0;
    assert(all.take(0) =~= Seq::empty());
    assert(ref_views(out@) =~= model::by_id(all.take(0)));
    while i < docs.len()
        invariant
            i <= docs@.len(),
            all == api::document_views(docs@),
            ref_views(out@) == model::by_id(all.take(i as int)),
        decreases docs@.len() - i,
    {
        let d: &'a Document = &docs[i];
        let ghost o = ref_views(out@);
        let mut at: usize = out.len();
        while at > 0 && out[at - 1].id > d.id
            invariant
                at <= out@.len(),
                o == ref_views(out@),
                forall|j: int| at <= j < out@.len() ==> (#[trigger] o[j]).id > d.id,
            decreases at,
        {
            at = at - 1;
        }
        proof {
            assert(at > 0 ==> o[at - 1].id <= d.id);
            model::lemma_insert_by_id(o, d@, at as int);
            assert(all.take(i + 1).drop_last() =~= all.take(i as int));
            assert(all.take(i + 1).last() == d@);
        }
        out.insert(at, d);
        assert(ref_views(out@) =~= o.insert(at as int, d@));
        i = i + 1;
    }
    assert(all.take(docs@.len() as int) =~= all);
    out
}

/// What the file of a document serves.
pub(crate) fn file_content(content: Content, doc: &Document, workspace: Option<&String>) -> (r: NodeContent)
    ensures
        r@ == model::file_content(
            content@,
            doc@,
            match workspace {
                Some(ws) => Some(ws@),
                None => None,
            },
        ),
{
    match content {
        Content::Inline(bytes) => NodeContent::Inline(Arc::new(bytes)),
        Content::Remote { size } => match workspace {
            Some(ws) => NodeContent::Remote {
                workspace_id: copy_text(ws.as_str()),
                doc_id: doc.id,
                size,
                checksum: copy_option(&doc.checksum),
            },
            None => NodeContent::Inline(Arc::new(doc.data.pretty())),
        },
    }
}

/// The files that a context is to hold so far, and the names that were given.
spec fn plan_view(names: NameStore, want: StrMap<StrMap<WantedFile>>) -> Plan {
    Plan { names: names@, unsaved: names.unsaved(), want: want_view(want) }
}

/// Whether a document has a name that is free.
fn keeps_name(
    want: &StrMap<StrMap<WantedFile>>,
    ctx: &str,
    dir: &str,
    doc: &Document,
    names: &NameStore,
) -> (r: bool)
    requires
        dir@ == render::schema_dir(doc@.schema),
    ensures
        r == plan_view(*names, *want).keeps(ctx@, doc@),
{
    let ghost p = plan_view(*names, *want);
    match names.get(ctx, dir, doc.id) {
        Some(n) => match want.get(dir) {
            Some(files) => {
                assert(p.wants(dir@) == files_view(*files));
                assert(files@.dom() =~= p.wants(dir@).dom());
                !files.contains_key(n.as_str())
            },
            None => true,
        },
        None => false,
    }
}

/// Finds a name that is taken neither by a file nor otherwise.
pub(crate) fn free_name(
    files: &StrMap<WantedFile>,
    others: &StrMap<bool>,
    base: String,
    id: u64,
) -> (r: String)
    ensures
        r@ == model::free_name(base@, id, files@.dom().union(others@.dom())),
{
    let ghost taken = files@.dom().union(others@.dom());
    let ghost mut left = taken;
    let n = files.len();
    let m = others.len();
    proof {
        vstd::seq_lib::seq_to_set_is_finite(files.keys());
        vstd::seq_lib::seq_to_set_is_finite(others.keys());
    }
    if n == 0 && m == 0 {
        assert(files.keys().to_set() =~= Set::empty() && others.keys().to_set() =~= Set::empty());
        return base;
    }
    let ghost b = base@;
    let mut name = base;
    while files.contains_key(name.as_str()) || others.contains_key(name.as_str())
        invariant
            taken == files@.dom().union(others@.dom()),
            taken.finite(),
            left.finite(),
            forall|x: Seq<char>| #[trigger]
                taken.contains(x) && x.len() >= name@.len() ==> left.contains(x),
            model::free_name(name@, id, taken) == model::free_name(b, id, taken),
        decreases left.len(),
    {
        proof {
            model::lemma_free_name_step(name@, id, taken);
            render::lemma_suffixed_is_longer(name@, id);
            assert(taken.contains(name@));
            left = left.remove(name@);
        }
        name = with_id_suffix(name.as_str(), id);
    }
    name
}

/// Adds a document to the files that a context is to hold.
fn plan_doc(
    want: &mut StrMap<StrMap<WantedFile>>,
    ctx: &str,
    doc: &Document,
    rendered: Rendered,
    workspace: Option<&String>,
    names: &mut NameStore,
)
    requires
        rendered.shows(doc@),
    ensures
        plan_view(*final(names), *final(want)) == plan_view(*old(names), *old(want)).add_doc(
            ctx@,
            doc@,
            match workspace {
                Some(ws) => Some(ws@),
                None => None,
            },
        ),
{
    let ghost p = plan_view(*names, *want);
    let ghost ws = match workspace {
        Some(ws) => Some(ws@),
        None => None,
    };
    let dir = rendered.dir;
    let mut files = match want.remove(dir) {
        Some(f) => f,
        None => StrMap::new(),
    };
    assert(files_view(files) =~= p.wants(dir@));
    assert(files@.dom() =~= p.wants(dir@).dom());
    let kept = match names.get(ctx, dir, doc.id) {
        Some(n) => if files.contains_key(n.as_str()) {
            None
        } else {
            Some(n)
        },
        None => None,
    };
    let name = match kept {
        Some(n) => n,
        None => {
            let none: StrMap<bool> = StrMap::new();
            let candidate = free_name(&files, &none, rendered.base_name, doc.id);
            assert(files@.dom().union(none@.dom()) =~= files@.dom());
            names.put(ctx, dir, doc.id, candidate.as_str());
            candidate
        },
    };
    assert(name@ == p.name_for(ctx@, doc@));
    let ghost f0 = files_view(files);
    let file = WantedFile {
        doc: doc.id,
        content: file_content(rendered.content, doc, workspace),
        mtime: doc.updated_at,
    };
    let ghost w = file@;
    let ghost nm = name@;
    files.insert(name, file);
    assert(files_view(files) =~= f0.insert(nm, w));
    want.insert(copy_text(dir), files);
    assert(want_view(*want) =~= p.add_doc(ctx@, doc@, ws).want);
}

impl Tree {
    /// The directory of a name in another one.
    pub(crate) fn context_dir(&self, ctx_ino: u64, name: &str) -> (r: Option<u64>)
        ensures
            r == self@.context_dir(ctx_ino, name@),
    {
        match self.lookup_ino(ctx_ino, name) {
            Some(i) => match self.get(i) {
                Some(node) => if node.is_dir() {
                    Some(i)
                } else {
                    None
                },
                None => None,
            },
            None => None,
        }
    }

    /// Works out which files a context is to hold, and names them.
    fn plan(
        &self,
        ctx: &str,
        ctx_ino: u64,
        docs: &[Document],
        names: &mut NameStore,
    ) -> (r: StrMap<StrMap<WantedFile>>)
        requires
            self@.contexts.contains_key(ctx@),
            self@.contexts[ctx@] == ctx_ino,
        ensures
            plan_view(*final(names), r) == model::plan(
                self@,
                ctx@,
                api::document_views(docs@),
                old(names)@,
                old(names).unsaved(),
            ),
    {
        let sorted = sorted_by_id(docs);
        let ghost all = ref_views(sorted@);
        let workspace = self.workspaces.get(ctx);
        let ghost ws = model::workspace_of(self@, ctx@);
        let mut want: StrMap<StrMap<WantedFile>> = StrMap::new();
        let ghost p0 = model::no_plan(names@, names.unsaved());
        assert(want_view(want) =~= p0.want);

        let mut rest: Vec<&Document> = Vec::new();
        let n = sorted.len();
        let mut i: usize = 0;
        assert(all.take(0) =~= Seq::empty());
        assert(ref_views(rest@) =~= Seq::empty());
        while i < n
            invariant
                n == sorted@.len(),
                i <= n,
                all == ref_views(sorted@),
                self@.contexts[ctx@] == ctx_ino,
                ws == (match workspace {
                    Some(w) => Some(w@),
                    None => None,
                }),
                (plan_view(*names, want), ref_views(rest@)) == p0.claim(
                    self@,
                    ctx@,
                    all.take(i as int),
                    ws,
                ),
            decreases n - i,
        {
            let ghost r0 = ref_views(rest@);
            proof {
                assert(all.take(i + 1).drop_last() =~= all.take(i as int));
            }
            let doc = sorted[i];
            let rendered = render(doc);
            if self.lookup_ino(ctx_ino, rendered.dir).is_some() {
                if keeps_name(&want, ctx, rendered.dir, doc, names) {
                    plan_doc(&mut want, ctx, doc, rendered, workspace, names);
                } else {
                    rest.push(doc);
                    assert(ref_views(rest@) =~= r0.push(doc@));
                }
            }
            i = i + 1;
        }
        assert(all.take(n as int) =~= all);

        let ghost p1 = plan_view(*names, want);
        let ghost others = ref_views(rest@);
        let m = rest.len();
        let mut j: usize = 0;
        assert(others.take(0) =~= Seq::empty());
        while j < m
            invariant
                m == rest@.len(),
                j <= m,
                others == ref_views(rest@),
                ws == (match workspace {
                    Some(w) => Some(w@),
                    None => None,
                }),
                plan_view(*names, want) == p1.add_docs(ctx@, others.take(j as int), ws),
            decreases m - j,
        {
            proof {
                assert(others.take(j + 1).drop_last() =~= others.take(j as int));
            }
            let doc = rest[j];
            let rendered = render(doc);
            plan_doc(&mut want, ctx, doc, rendered, workspace, names);
            j = j + 1;
        }
        assert(others.take(m as int) =~= others);
        want
    }

    /// Goes through an entry that a directory has. Hands back whether the listing changed.
    fn visit(
        &mut self,
        ctx: &str,
        dir: u64,
        want: &StrMap<WantedFile>,
        name: &str,
        ino: u64,
        dirty: bool,
        inv: &mut Invalidation,
    ) -> (r: bool)
        ensures
            (Sync { up: Update { tree: final(self)@, inv: final(inv)@ }, dirty: r }) == (Sync {
                up: Update { tree: old(self)@, inv: old(inv)@ },
                dirty,
            }).visit(ctx@, dir, files_view(*want), name@, ino),
    {
        let ghost t0 = self@;
        if self.is_workspace() {
            match self.get(ino) {
                Some(node) => if node.is_dir() {
                    return dirty;
                },
                None => {},
            }
        }
        if let Some(w) = want.get(name) {
            assert(files_view(*want)[name@] == w@);
            let same_doc = match self.docs.get(ctx, w.doc) {
                Some(i) => i == ino,
                None => false,
            };
            if same_doc {
                let same = match self.get(ino) {
                    Some(node) => node.content.same(&w.content),
                    None => true,
                };
                if !same {
                    self.set_content(ino, w.content.copy(), w.mtime);
                    inv.change(ino);
                }
                return dirty;
            }
        }
        self.remove_node(ino);
        let ghost t1 = self@;
        self.docs.forget(&Forget::ContextIno(copy_text(ctx), ino));
        assert(self@ =~= t1.forget(docmap::ForgetView::ContextIno(ctx@, ino)));
        inv.remove(dir, ino, copy_text(name));
        true
    }

    /// Puts a file that a directory is to hold in place, where it is not there. Hands back whether
    /// the listing changed.
    fn place(
        &mut self,
        ctx: &str,
        dir: u64,
        w: &WantedFile,
        name: &str,
        dirty: bool,
        inv: &mut Invalidation,
    ) -> (r: bool)
        requires
            old(self)@.room(1),
        ensures
            forall|want: Map<Seq<char>, Wanted>|
                want[name@] == w@ ==> (Sync {
                    up: Update { tree: final(self)@, inv: final(inv)@ },
                    dirty: r,
                }) == #[trigger] (Sync {
                    up: Update { tree: old(self)@, inv: old(inv)@ },
                    dirty,
                }).place(ctx@, dir, want, name@),
    {
        if self.lookup_ino(dir, name).is_some() {
            return dirty;
        }
        let home = match self.docs.get(ctx, w.doc) {
            Some(i) => if self.nodes.contains_key(&i) {
                Some(i)
            } else {
                None
            },
            None => None,
        };
        let ino = match home {
            Some(i) => {
                self.drop_node(i, inv);
                i
            },
            None => self.take_ino(),
        };
        let ghost t1 = self@;
        self.docs.insert(ctx, w.doc, ino);
        assert(self@ =~= t1.bind(ctx@, w.doc, ino));
        self.insert_node(
            Node {
                ino,
                parent: dir,
                name: copy_text(name),
                mtime: w.mtime,
                content: w.content.copy(),
            },
        );
        true
    }

    /// Makes the files of a directory those that it is to hold.
    pub(crate) fn sync_dir(
        &mut self,
        ctx: &str,
        dir: u64,
        want: &StrMap<WantedFile>,
        now: SystemTime,
        inv: &mut Invalidation,
    )
        requires
            old(self)@.room(want.keys().len() as int),
        ensures
            (Update { tree: final(self)@, inv: final(inv)@ }) == (Update {
                tree: old(self)@,
                inv: old(inv)@,
            }).sync_dir(ctx@, dir, files_view(*want), now),
            final(self)@.next_ino <= old(self)@.next_ino + want.keys().len(),
    {
        let ghost u0 = Update { tree: self@, inv: inv@ };
        let ghost s0 = Sync { up: u0, dirty: false };
        let ghost have = self@.entries(dir);
        let ghost files = files_view(*want);
        let names = self.entry_names(dir);
        let inos = self.entry_inos(dir);
        let ghost old_names = strmap::ordered(have.dom());
        let mut dirty = false;

        let n = names.len();
        let mut i: usize = 0;
        assert(old_names.take(0) =~= Seq::empty());
        while i < n
            invariant
                n == names@.len(),
                n == inos@.len(),
                i <= n,
                old_names == api::texts(names@),
                files == files_view(*want),
                forall|j: int| 0 <= j < n ==> #[trigger] inos@[j] == have[old_names[j]],
                (Sync { up: Update { tree: self@, inv: inv@ }, dirty }) == s0.visit_all(
                    ctx@,
                    dir,
                    have,
                    files,
                    old_names.take(i as int),
                ),
            decreases n - i,
        {
            proof {
                assert(old_names.take(i + 1).drop_last() =~= old_names.take(i as int));
            }
            dirty = self.visit(ctx, dir, want, names[i].as_str(), inos[i], dirty, inv);
            i = i + 1;
        }
        assert(old_names.take(n as int) =~= old_names);

        let ghost s1 = Sync { up: Update { tree: self@, inv: inv@ }, dirty };
        proof {
            model::lemma_visit_all_next(s0, ctx@, dir, have, files, old_names);
        }
        let ghost new_names = want.keys();
        assert(files.dom() =~= want@.dom());
        let m = want.len();
        let mut k: usize = 0;
        assert(new_names.take(0) =~= Seq::empty());
        while k < m
            invariant
                m == new_names.len(),
                k <= m,
                new_names == want.keys(),
                files == files_view(*want),
                s1.up.tree.room(m as int),
                (Sync { up: Update { tree: self@, inv: inv@ }, dirty }) == s1.place_all(
                    ctx@,
                    dir,
                    files,
                    new_names.take(k as int),
                ),
            decreases m - k,
        {
            proof {
                assert(new_names.take(k + 1).drop_last() =~= new_names.take(k as int));
                model::lemma_place_all_next(s1, ctx@, dir, files, new_names.take(k as int));
            }
            let name = want.key_at(k);
            let w = want.value_at(k);
            assert(files[name@] == w@);
            dirty = self.place(ctx, dir, w, name.as_str(), dirty, inv);
            k = k + 1;
        }
        assert(new_names.take(m as int) =~= new_names);
        proof {
            model::lemma_place_all_next(s1, ctx@, dir, files, new_names);
        }

        if dirty {
            inv.dirty(dir);
            self.touch(dir, now);
        }
    }

    /// The names in a directory, in order.
    pub(crate) fn entry_names(&self, ino: u64) -> (r: Vec<String>)
        ensures
            api::texts(r@) == self@.entry_names(ino),
            self@.entry_names(ino).to_set() == self@.entries(ino).dom(),
    {
        let mut out: Vec<String> = Vec::new();
        match self.children.get(&ino) {
            Some(kids) => {
                let n = kids.len();
                let mut i: usize = 0;
                while i < n
                    invariant
                        n == kids.keys().len(),
                        i <= n,
                        kids@ == self@.entries(ino),
                        out@.len() == i,
                        forall|j: int| 0 <= j < i ==> (#[trigger] out@[j])@ == self@.entry_names(
                            ino,
                        )[j],
                    decreases n - i,
                {
                    out.push(copy_text(kids.key_at(i).as_str()));
                    i = i + 1;
                }
                assert(api::texts(out@) =~= self@.entry_names(ino));
            },
            None => {
                proof {
                    assert(self@.entries(ino).dom() =~= Set::empty());
                    strmap::lemma_ordered(self@.entries(ino).dom());
                    assert(api::texts(out@) =~= self@.entry_names(ino));
                }
            },
        }
        out
    }

    /// Makes the files of a context those of a list of documents. Names that documents were given
    /// before stay, and documents that stay keep their inodes.
    pub fn apply_documents(
        &mut self,
        ctx_id: &str,
        docs: &[Document],
        names: &mut NameStore,
    ) -> (r: Invalidation)
        requires
            old(self)@.contexts.contains_key(ctx_id@) ==> old(self)@.room(docs@.len() as int),
        ensures
            !old(self)@.contexts.contains_key(ctx_id@) ==> {
                &&& final(self)@ == old(self)@
                &&& r@ == model::no_invalidation()
                &&& *final(names) == *old(names)
            },
            old(self)@.contexts.contains_key(ctx_id@) ==> {
                let p = model::plan(
                    old(self)@,
                    ctx_id@,
                    api::document_views(docs@),
                    old(names)@,
                    old(names).unsaved(),
                );
                &&& final(names)@ == p.names
                &&& final(names).unsaved() == p.unsaved
                &&& exists|now: SystemTime|
                    (Update { tree: final(self)@, inv: r@ }) == #[trigger] model::apply_documents(
                        old(self)@,
                        ctx_id@,
                        p,
                        now,
                    )
            },
            old(self)@.wf() ==> final(self)@.wf(),
    {
        let mut inv = Invalidation::new();
        let ctx_ino = match self.context_ino(ctx_id) {
            Some(i) => i,
            None => {
                return inv;
            },
        };
        let now = time_now();
        let ghost t0 = self@;
        let ghost docs_v = api::document_views(docs@);
        let ghost p = model::plan(t0, ctx_id@, docs_v, names@, names.unsaved());
        let want = self.plan(ctx_id, ctx_ino, docs, names);
        let ghost u0 = Update { tree: t0, inv: model::no_invalidation() };
        let ghost dirs = model::context_dirs(t0, ctx_id@);

        let mut found: Vec<Option<u64>> = Vec::new();
        let mut k: usize = 0;
        while k < SCHEMA_DIRS.len()
            invariant
                k <= SCHEMA_DIRS@.len(),
                self@ == t0,
                t0.contexts[ctx_id@] == ctx_ino,
                found@.len() == k,
                dirs == model::context_dirs(t0, ctx_id@),
                forall|j: int| 0 <= j < k ==> #[trigger] found@[j] == dirs[j],
            decreases SCHEMA_DIRS@.len() - k,
        {
            found.push(self.lookup_ino(ctx_ino, SCHEMA_DIRS[k]));
            k = k + 1;
        }
        assert(found@ =~= dirs);

        let empty: StrMap<WantedFile> = StrMap::new();
        assert(files_view(empty) =~= Map::<Seq<char>, Wanted>::empty());
        k = 0;
        assert(dirs.take(0) =~= Seq::empty());
        proof {
            wellformed::lemma_plan_fits(t0, ctx_id@, docs_v, old(names)@, old(names).unsaved());
        }
        while k < SCHEMA_DIRS.len()
            invariant
                k <= SCHEMA_DIRS@.len(),
                SCHEMA_DIRS@.len() == 7,
                dirs.len() == 7,
                found@ == dirs,
                p.want == want_view(want),
                files_view(empty) == Map::<Seq<char>, Wanted>::empty(),
                docs_v.len() == docs@.len(),
                p == model::plan(t0, ctx_id@, docs_v, old(names)@, old(names).unsaved()),
                t0.room(docs@.len() as int),
                wellformed::plan_fits(p),
                p.total(SCHEMA_DIRS@.len()) <= docs@.len(),
                self@.next_ino <= t0.next_ino + p.total(k as nat),
                (Update { tree: self@, inv: inv@ }) == u0.sync_dirs(
                    dirs.take(k as int),
                    ctx_id@,
                    p,
                    now,
                ),
            decreases SCHEMA_DIRS@.len() - k,
        {
            proof {
                assert(dirs.take(k + 1).drop_last() =~= dirs.take(k as int));
                wellformed::lemma_total_grows(p, (k + 1) as nat, SCHEMA_DIRS@.len());
            }
            if let Some(dir) = found[k] {
                let files = match want.get(SCHEMA_DIRS[k]) {
                    Some(f) => f,
                    None => &empty,
                };
                let ghost l = model::label(k as int);
                proof {
                    assert(files_view(*files) =~= p.wants(l));
                    assert(files@.dom() =~= p.wants(l).dom());
                    strmap::lemma_ordered(p.wants(l).dom());
                }
                self.sync_dir(ctx_id, dir, files, now, &mut inv);
            }
            k = k + 1;
        }
        assert(dirs.take(7) =~= dirs);
        proof {
            assert((Update { tree: self@, inv: inv@ }) == model::apply_documents(
                t0,
                ctx_id@,
                p,
                now,
            ));
            if t0.wf() {
                wellformed::law_documents_keep_directories(
                    t0,
                    ctx_id@,
                    docs_v,
                    old(names)@,
                    old(names).unsaved(),
                    now,
                );
            }
        }
        inv
    }
}

impl Tree {
    /// Drops bindings.
    pub(crate) fn forget(&mut self, rule: &Forget)
        ensures
            final(self)@ == old(self)@.forget(rule@),
    {
        self.docs.forget(rule);
        assert(self@ =~= old(self)@.forget(rule@));
    }

    /// Whether the trees of a workspace are shown.
    pub fn is_workspace(&self) -> (r: bool)
        ensures
            r == (self@.layout is Workspace),
    {
        matches!(self.layout, Layout::Workspace { .. })
    }

    /// The workspace whose trees are shown.
    pub fn ws_id(&self) -> (r: Option<String>)
        ensures
            api::option_text(r) == (match self@.layout {
                LayoutView::Workspace { id, .. } => Some(id),
                _ => None,
            }),
    {
        match &self.layout {
            Layout::Workspace { id, .. } => Some(copy_text(id.as_str())),
            _ => None,
        }
    }

    /// The identifier and the type of a tree of the workspace.
    pub fn ws_tree_meta(&self, name: &str) -> (r: Option<(String, String)>)
        ensures
            (match r {
                Some(p) => self@.trees.contains_key(name@) && self@.trees[name@] == (p.0@, p.1@),
                None => !self@.trees.contains_key(name@),
            }),
    {
        match self.trees.get(name) {
            Some(p) => Some((copy_text(p.0.as_str()), copy_text(p.1.as_str()))),
            None => None,
        }
    }

    /// The names of the trees of the workspace, in order.
    pub(crate) fn tree_names(&self) -> (r: Vec<String>)
        ensures
            api::texts(r@) == strmap::ordered(self@.trees.dom()),
    {
        let n = self.trees.len();
        let mut out: Vec<String> = Vec::new();
        let mut i: usize = 0;
        while i < n
            invariant
                n == self.trees.keys().len(),
                i <= n,
                out@.len() == i,
                forall|j: int| 0 <= j < i ==> (#[trigger] out@[j])@ == self.trees.keys()[j],
            decreases n - i,
        {
            out.push(copy_text(self.trees.key_at(i).as_str()));
            i = i + 1;
        }
        assert(self.trees@.dom() =~= self@.trees.dom());
        assert(api::texts(out@) =~= strmap::ordered(self@.trees.dom()));
        out
    }

    /// Notes the identifier and the type of a tree of the workspace.
    pub(crate) fn note_tree(&mut self, info: &TreeInfo)
        ensures
            final(self)@ == (TreeView {
                trees: old(self)@.trees.insert(info@.name, (info@.id, info@.tree_type)),
                ..old(self)@
            }),
    {
        let ghost t0 = self@;
        self.trees.insert(
            copy_text(info.name.as_str()),
            (copy_text(info.id.as_str()), copy_text(info.tree_type.as_str())),
        );
        assert(self@ =~= TreeView {
            trees: t0.trees.insert(info@.name, (info@.id, info@.tree_type)),
            ..t0
        });
    }

    /// Forgets a tree of the workspace.
    pub(crate) fn forget_tree(&mut self, name: &str)
        ensures
            final(self)@ == (TreeView { trees: old(self)@.trees.remove(name@), ..old(self)@ }),
    {
        let ghost t0 = self@;
        self.trees.remove(name);
        assert(self@ =~= TreeView { trees: t0.trees.remove(name@), ..t0 });
    }
}

/// Whether a context is in a list.
fn has_context(contexts: &[ContextInfo], id: &str) -> (r: bool)
    ensures
        r == model::context_ids(api::context_views(contexts@)).contains(id@),
{
    let ghost ctxs = api::context_views(contexts@);
    let mut i: usize = 0;
    while i < contexts.len()
        invariant
            i <= contexts@.len(),
            ctxs == api::context_views(contexts@),
            forall|j: int| 0 <= j < i ==> (#[trigger] ctxs[j]).id != id@,
        decreases contexts@.len() - i,
    {
        if same_text(contexts[i].id.as_str(), id) {
            assert(ctxs[i as int].id == id@);
            return true;
        }
        i = i + 1;
    }
    false
}

/// The content of a context's meta file.
fn render_context_meta(ctx: &ContextInfo) -> (r: NodeContent)
    ensures
        r@ == model::meta_content(ctx@),
{
    NodeContent::Inline(Arc::new(ctx.raw.pretty()))
}

impl Default for Tree {
    fn default() -> (r: Self)
        ensures
            exists|now: SystemTime| r@ == #[trigger] TreeView::fresh(now),
            r@.wf(),
    {
        Tree::new()
    }
}

/// The nodes of a listing.
pub open spec fn node_views(v: Seq<&Node>) -> Seq<NodeView> {
    Seq::new(v.len(), |i: int| v[i]@)
}

/// Whether a name is that of one of the directories that every context has.
pub fn is_schema_dir(name: &str) -> (r: bool)
    ensures
        r == model::is_label(name@),
{
    let mut k: usize = 0;
    while k < SCHEMA_DIRS.len()
        invariant
            k <= SCHEMA_DIRS@.len(),
            forall|j: int| 0 <= j < k ==> #[trigger] model::label(j) != name@,
        decreases SCHEMA_DIRS@.len() - k,
    {
        if same_text(SCHEMA_DIRS[k], name) {
            assert(model::label(k as int) == name@);
            return true;
        }
        k = k + 1;
    }
    false
}

} // verus!
