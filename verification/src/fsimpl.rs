//! What the kernel is answered.

use crate::blobs;
use crate::blobs::cache_key;
use crate::model;
use crate::model::{ContentView, NodeView, TreeView};
use crate::posix::{eisdir, enoent, enotdir};
use crate::state;
use crate::state::{Node, NodeContent, Tree};
use crate::strmap;
use crate::text::{copy_text, same_text};
use crate::whole;
use crate::writes;
use crate::writes::{part_of, WriteError, WriteStore, WriteView};
use std::time::SystemTime;
use vstd::prelude::*;
use vstd::string::*;

verus! {

/// How long the kernel may keep an answer, in seconds. What changed is told, so this only bounds
/// how long a change goes unseen where telling failed.
pub const TTL_SECS: u64 = 1;

/// What is told of a file or a directory.
#[derive(Debug)]
pub struct Attr {
    pub ino: u64,
    pub size: u64,
    pub blocks: u64,
    pub mtime: SystemTime,
    pub is_dir: bool,
    pub perm: u16,
    pub nlink: u32,
    pub blksize: u32,
}

/// The number of blocks of 512 bytes that a size takes.
pub open spec fn blocks(size: u64) -> int {
    (size + 511) / 512
}

impl Attr {
    /// Whether this is what is told of something.
    pub open spec fn tells(&self, ino: u64, size: nat, mtime: SystemTime, is_dir: bool) -> bool {
        &&& self.ino == ino
        &&& self.size == size
        &&& self.blocks == blocks(self.size)
        &&& self.mtime == mtime
        &&& self.is_dir == is_dir
        &&& self.perm == (if is_dir {
            0o755u16
        } else {
            0o644u16
        })
        &&& self.nlink == 1
        &&& self.blksize == 4096
    }
}

/// Makes what is told of a file or a directory.
pub fn file_attr(ino: u64, size: u64, mtime: SystemTime, is_dir: bool) -> (r: Attr)
    ensures
        r.tells(ino, size as nat, mtime, is_dir),
{
    let whole = size / 512;
    let blocks = if size % 512 == 0 {
        whole
    } else {
        whole + 1
    };
    Attr {
        ino,
        size,
        blocks,
        mtime,
        is_dir,
        perm: if is_dir {
            0o755
        } else {
            0o644
        },
        nlink: 1,
        blksize: 4096,
    }
}

/// The size that is told of a node: that of its buffer while it is written.
pub open spec fn shown_size(w: WriteView, node: NodeView) -> nat {
    if w.states.contains_key(node.ino) {
        w.states[node.ino].buffer.len()
    } else {
        node.size()
    }
}

/// Makes what is told of a node.
pub fn attr(writes: &WriteStore, node: &Node) -> (r: Attr)
    ensures
        r.tells(node.ino, shown_size(writes@, node@), node.mtime, node@.is_dir()),
{
    let size = match writes.size_override(node.ino) {
        Some(n) => n,
        None => node.size(),
    };
    file_attr(node.ino, size, node.mtime, node.is_dir())
}

/// Makes what is told of an inode, in the tree or without a document yet.
pub fn attr_for_ino(tree: &Tree, writes: &WriteStore, ino: u64) -> (r: Option<Attr>)
    ensures
        (match r {
            Some(a) => if tree@.nodes.contains_key(ino) {
                let node = tree@.nodes[ino];
                a.tells(node.ino, shown_size(writes@, node), node.mtime, node.is_dir())
            } else {
                writes@.overlay.contains_key(ino) && a.tells(
                    ino,
                    writes@.buffer_len(ino),
                    writes@.overlay[ino].mtime,
                    false,
                )
            },
            None => !tree@.nodes.contains_key(ino) && !writes@.overlay.contains_key(ino),
        }),
{
    if let Some(node) = tree.get(ino) {
        return Some(attr(writes, node));
    }
    match writes.overlay_attr(ino) {
        Some(e) => Some(file_attr(e.ino, e.size, e.mtime, false)),
        None => None,
    }
}

/// Looks a name up in a directory: in the tree, or else among the files that have no document yet.
pub fn lookup(tree: &Tree, writes: &WriteStore, parent: u64, name: &str) -> (r: Result<Attr, i32>)
    ensures
        (match r {
            Ok(a) => match tree@.lookup(parent, name@) {
                Some(i) => {
                    let node = tree@.nodes[i];
                    a.tells(node.ino, shown_size(writes@, node), node.mtime, node.is_dir())
                },
                None => match writes@.pending(parent, name@) {
                    Some(i) => writes@.overlay.contains_key(i) && a.tells(
                        i,
                        writes@.buffer_len(i),
                        writes@.overlay[i].mtime,
                        false,
                    ),
                    None => false,
                },
            },
            Err(e) => e == 2 && tree@.lookup(parent, name@) is None && !(writes@.pending(
                parent,
                name@,
            ) is Some && writes@.overlay.contains_key(writes@.pending(parent, name@)->0)),
        }),
{
    if let Some(node) = tree.lookup(parent, name) {
        return Ok(attr(writes, node));
    }
    match writes.lookup_overlay(parent, name) {
        Some(e) => Ok(file_attr(e.ino, e.size, e.mtime, false)),
        None => Err(enoent()),
    }
}

/// Whether the flags of an open ask for writing, given the bits that say so and their value where
/// it only reads.
pub fn wants_write(flags: i32, accmode: i32, rdonly: i32) -> (r: bool)
    ensures
        r == (flags & accmode != rdonly),
{
    (flags & accmode) != rdonly
}

/// Whether the flags of an open ask for an empty file, given the bit that says so.
pub fn wants_truncate(flags: i32, trunc: i32) -> (r: bool)
    ensures
        r == (flags & trunc != 0),
{
    (flags & trunc) != 0
}

/// Whether one more handle can be counted, where a file is opened for writing.
pub fn can_open(tree: &Tree, writes: &WriteStore, ino: u64, write: bool) -> (r: bool)
    ensures
        r == (write ==> if writes@.overlay.contains_key(ino) {
            writes@.can_open(ino)
        } else {
            writes@.can_open_existing(tree@, ino)
        }),
{
    if !write {
        true
    } else if writes.overlay_attr(ino).is_some() {
        writes.can_open(ino)
    } else {
        writes.can_open_existing(tree, ino)
    }
}

/// Opens a file. The handle of one that is only read is 0, that of one that is written its inode.
pub fn open(
    tree: &Tree,
    writes: &mut WriteStore,
    ino: u64,
    write: bool,
    truncate: bool,
) -> (r: Result<u64, WriteError>)
    requires
        write && old(writes)@.overlay.contains_key(ino) ==> old(writes)@.can_open(ino),
        write && !old(writes)@.overlay.contains_key(ino) ==> old(writes)@.can_open_existing(
            tree@,
            ino,
        ),
    ensures
        !write ==> r == Ok::<u64, WriteError>(0) && final(writes)@ == old(writes)@,
        write && old(writes)@.overlay.contains_key(ino) ==> (match r {
            Ok(h) => h == ino && old(writes)@.states.contains_key(ino) && final(writes)@ == old(
                writes,
            )@.open(ino, old(writes)@.states[ino], truncate),
            Err(e) => e@ == writes::WriteErrorView::NotFound && !old(writes)@.states.contains_key(
                ino,
            ) && final(writes)@ == old(writes)@,
        }),
        write && !old(writes)@.overlay.contains_key(ino) ==> (match r {
            Ok(h) => h == ino && writes::writable_content(tree@, ino) is Some
                && writes::is_opened(
                old(writes)@,
                final(writes)@,
                tree@,
                ino,
                truncate,
            ),
            Err(e) => final(writes)@ == old(writes)@ && e@ == (if tree@.nodes.contains_key(ino) {
                writes::WriteErrorView::NotPermitted
            } else {
                writes::WriteErrorView::NotFound
            }) && writes::writable_content(tree@, ino) is None,
        }),
{
    if !write {
        return Ok(0);
    }
    let pending = writes.overlay_attr(ino).is_some();
    let result = if pending {
        writes.open_overlay(ino, truncate)
    } else {
        writes.open_existing(tree, ino, truncate)
    };
    match result {
        Ok(_) => Ok(ino),
        Err(e) => Err(e),
    }
}

/// What a read comes to.
pub enum ReadAnswer {
    /// The bytes are there
    Data(Vec<u8>),
    /// The read fails with an error number
    Error(i32),
    /// The bytes are those of a blob
    Blob { key: String, workspace_id: String, doc_id: u64 },
}

/// Whether an answer is what a read of a node that is not written comes to.
pub open spec fn answers_read(
    a: ReadAnswer,
    content: ContentView,
    offset: i64,
    size: u32,
) -> bool {
    match content {
        ContentView::Dir => a == ReadAnswer::Error(21),
        ContentView::Inline(b) => match a {
            ReadAnswer::Data(d) => d@ == writes::part(b, offset, size),
            _ => false,
        },
        ContentView::Remote { workspace_id, doc_id, checksum, .. } => match a {
            ReadAnswer::Blob { key, workspace_id: w, doc_id: d } => key@ == blobs::blob_key(
                workspace_id,
                doc_id,
                checksum,
            ) && w@ == workspace_id && d == doc_id,
            _ => false,
        },
    }
}

/// Reads a file. What is being written is read from its buffer.
pub fn read(tree: &Tree, writes: &WriteStore, ino: u64, offset: i64, size: u32) -> (r: ReadAnswer)
    ensures
        writes@.states.contains_key(ino) ==> (match r {
            ReadAnswer::Data(d) => d@ == writes::part(writes@.states[ino].buffer, offset, size),
            _ => false,
        }),
        !writes@.states.contains_key(ino) && tree@.nodes.contains_key(ino) ==> answers_read(
            r,
            tree@.nodes[ino].content,
            offset,
            size,
        ),
        !writes@.states.contains_key(ino) && !tree@.nodes.contains_key(ino) ==> r
            == ReadAnswer::Error(2),
{
    if let Some(d) = writes.read_buffer(ino, offset, size) {
        return ReadAnswer::Data(d);
    }
    match tree.get(ino) {
        None => ReadAnswer::Error(enoent()),
        Some(node) => match &node.content {
            NodeContent::Dir => ReadAnswer::Error(eisdir()),
            NodeContent::Inline(b) => ReadAnswer::Data(part_of(&**b, offset, size)),
            NodeContent::Remote { workspace_id, doc_id, checksum, .. } => ReadAnswer::Blob {
                key: cache_key(workspace_id.as_str(), *doc_id, checksum),
                workspace_id: copy_text(workspace_id.as_str()),
                doc_id: *doc_id,
            },
        },
    }
}

/// An entry of a listing.
pub struct Entry {
    pub ino: u64,
    pub is_dir: bool,
    pub name: String,
}

/// An entry of a listing.
pub ghost struct EntryView {
    pub ino: u64,
    pub is_dir: bool,
    pub name: Seq<char>,
}

impl View for Entry {
    type V = EntryView;

    open spec fn view(&self) -> EntryView {
        EntryView { ino: self.ino, is_dir: self.is_dir, name: self.name@ }
    }
}

/// What each of some entries is.
pub open spec fn entry_views(s: Seq<Entry>) -> Seq<EntryView> {
    Seq::new(s.len(), |i: int| s[i]@)
}

/// The entries of some nodes.
pub open spec fn node_entries(nodes: Seq<NodeView>) -> Seq<EntryView> {
    Seq::new(
        nodes.len(),
        |i: int| EntryView { ino: nodes[i].ino, is_dir: nodes[i].is_dir(), name: nodes[i].name },
    )
}

/// The entries that a directory has in the tree, after those for itself and for the one above.
pub open spec fn tree_entries(t: TreeView, ino: u64) -> Seq<EntryView> {
    seq![
        EntryView { ino, is_dir: true, name: "."@ },
        EntryView { ino: t.nodes[ino].parent, is_dir: true, name: ".."@ },
    ] + node_entries(
        if t.children.contains_key(ino) {
            t.nodes_of(t.entry_inos(ino))
        } else {
            Seq::empty()
        },
    )
}

/// Whether some entries have a name.
pub open spec fn has_name(s: Seq<EntryView>, name: Seq<char>) -> bool {
    exists|i: int| 0 <= i < s.len() && (#[trigger] s[i]).name == name
}

/// Entries with those of files that have no document yet, as far as their names are not there.
pub open spec fn with_pending(s: Seq<EntryView>, pending: Seq<(u64, Seq<char>)>) -> Seq<EntryView>
    decreases pending.len(),
{
    if pending.len() == 0 {
        s
    } else {
        let r = with_pending(s, pending.drop_last());
        let (ino, name) = pending.last();
        if has_name(r, name) {
            r
        } else {
            r.push(EntryView { ino, is_dir: false, name })
        }
    }
}

/// Whether some files are those of a directory that have no document yet, each once, in any order.
pub open spec fn lists_pending(w: WriteView, dir_ino: u64, pending: Seq<(u64, Seq<char>)>) -> bool {
    &&& forall|i: int, j: int|
        0 <= i < j < pending.len() ==> (#[trigger] pending[i]).0 != (#[trigger] pending[j]).0
    &&& forall|i: int|
        0 <= i < pending.len() ==> {
            let e = #[trigger] pending[i];
            w.overlay.contains_key(e.0) && w.overlay[e.0].dir_ino == dir_ino && w.overlay[e.0].name
                == e.1
        }
    &&& forall|k: u64| #[trigger]
        w.overlay.contains_key(k) && w.overlay[k].dir_ino == dir_ino ==> exists|i: int|
            0 <= i < pending.len() && (#[trigger] pending[i]).0 == k
}

fn name_taken(entries: &Vec<Entry>, name: &str) -> (r: bool)
    ensures
        r == has_name(entry_views(entries@), name@),
{
    let ghost s = entry_views(entries@);
    let mut i: usize = 0;
    while i < entries.len()
        invariant
            i <= entries@.len(),
            s == entry_views(entries@),
            forall|j: int| 0 <= j < i ==> (#[trigger] s[j]).name != name@,
        decreases entries@.len() - i,
    {
        if same_text(entries[i].name.as_str(), name) {
            assert(s[i as int].name == name@);
            return true;
        }
        i = i + 1;
    }
    false
}

/// Whether a listing is one that a directory may have.
pub open spec fn is_listing(t: TreeView, w: WriteView, ino: u64, s: Seq<EntryView>) -> bool {
    exists|pending: Seq<(u64, Seq<char>)>| #[trigger]
        lists_pending(w, ino, pending) && s == with_pending(tree_entries(t, ino), pending)
}

/// Lists a directory: itself, the one above, what the tree has, and the files that have no
/// document yet.
pub fn list_dir(tree: &Tree, writes: &WriteStore, ino: u64) -> (r: Result<Vec<Entry>, i32>)
    ensures
        (match r {
            Ok(v) => tree@.is_dir(ino) && is_listing(tree@, writes@, ino, entry_views(v@)),
            Err(e) => if tree@.nodes.contains_key(ino) {
                !tree@.nodes[ino].is_dir() && e == 20
            } else {
                e == 2
            },
        }),
{
    let dir = match tree.get(ino) {
        Some(d) => d,
        None => {
            return Err(enoent());
        },
    };
    if !dir.is_dir() {
        return Err(enotdir());
    }
    let mut out: Vec<Entry> = Vec::new();
    out.push(Entry { ino, is_dir: true, name: copy_text(".") });
    out.push(Entry { ino: dir.parent, is_dir: true, name: copy_text("..") });
    let ghost start = seq![
        EntryView { ino, is_dir: true, name: "."@ },
        EntryView { ino: tree@.nodes[ino].parent, is_dir: true, name: ".."@ },
    ];
    assert(entry_views(out@) =~= start);
    let ghost nodes = if tree@.children.contains_key(ino) {
        tree@.nodes_of(tree@.entry_inos(ino))
    } else {
        Seq::empty()
    };
    match tree.list(ino) {
        Some(children) => {
            let n = children.len();
            let mut i: usize = 0;
            assert(start + node_entries(nodes.take(0)) =~= start);
            while i < n
                invariant
                    n == children@.len(),
                    i <= n,
                    nodes == state::node_views(children@),
                    entry_views(out@) == start + node_entries(nodes.take(i as int)),
                decreases n - i,
            {
                let ghost o = entry_views(out@);
                let c = children[i];
                out.push(Entry { ino: c.ino, is_dir: c.is_dir(), name: copy_text(c.name.as_str()) });
                proof {
                    let e = EntryView { ino: c.ino, is_dir: c@.is_dir(), name: c.name@ };
                    assert(entry_views(out@) =~= o.push(e));
                    assert(nodes[i as int] == c@);
                    assert(start + node_entries(nodes.take(i + 1)) =~= (start + node_entries(
                        nodes.take(i as int),
                    )).push(e));
                }
                i = i + 1;
            }
            assert(nodes.take(n as int) =~= nodes);
        },
        None => {
            assert(start + node_entries(nodes) =~= start);
        },
    }
    assert(entry_views(out@) == tree_entries(tree@, ino));
    let pending = writes.overlay_entries(ino);
    let ghost all = Seq::new(pending@.len(), |i: int| (pending@[i].0, pending@[i].1@));
    let n = pending.len();
    let mut i: usize = 0;
    assert(all.take(0) =~= Seq::empty());
    while i < n
        invariant
            n == pending@.len(),
            i <= n,
            all == Seq::new(pending@.len(), |i: int| (pending@[i].0, pending@[i].1@)),
            entry_views(out@) == with_pending(tree_entries(tree@, ino), all.take(i as int)),
        decreases n - i,
    {
        let ghost o = entry_views(out@);
        proof {
            assert(all.take(i + 1).drop_last() =~= all.take(i as int));
        }
        let e = &pending[i];
        if !name_taken(&out, e.1.as_str()) {
            out.push(Entry { ino: e.0, is_dir: false, name: copy_text(e.1.as_str()) });
            assert(entry_views(out@) =~= o.push(
                EntryView { ino: e.0, is_dir: false, name: e.1@ },
            ));
        }
        i = i + 1;
    }
    proof {
        assert(all.take(n as int) =~= all);
        assert forall|k: u64| #[trigger]
            writes@.overlay.contains_key(k) && writes@.overlay[k].dir_ino == ino implies exists|
            i: int,
        |
            0 <= i < all.len() && (#[trigger] all[i]).0 == k by {
            let j = choose|j: int| 0 <= j < pending@.len() && (#[trigger] pending@[j]).0 == k;
            assert(all[j].0 == k);
        }
        assert(lists_pending(writes@, ino, all));
    }
    Ok(out)
}

/// The entry at which a listing goes on.
pub open spec fn resumes_at(offset: i64, len: nat) -> int {
    if 0 <= offset < len {
        offset as int
    } else {
        len as int
    }
}

/// Where a listing goes on after some entries were taken: a negative offset is beyond its end.
pub fn resume_at(offset: i64, len: usize) -> (r: usize)
    ensures
        r == resumes_at(offset, len as nat),
        r == (if 0 <= offset < len {
            offset as int
        } else {
            len as int
        }),
{
    if offset < 0 || offset as u64 >= len as u64 {
        len
    } else {
        offset as usize
    }
}

// ── listings and lookups ─────────────────────────────────────────────────────

/// The inode that a lookup of a name finds.
pub open spec fn found(t: TreeView, w: WriteView, parent: u64, name: Seq<char>) -> Option<u64> {
    match t.lookup(parent, name) {
        Some(i) => Some(i),
        None => match w.pending(parent, name) {
            Some(i) => if w.overlay.contains_key(i) {
                Some(i)
            } else {
                None
            },
            None => None,
        },
    }
}

/// The entries that a directory has in the tree are those of its names, in order.
proof fn lemma_tree_entries(t: TreeView, ino: u64)
    requires
        t.wf(),
        t.is_dir(ino),
    ensures
        t.entry_names(ino).no_duplicates(),
        tree_entries(t, ino).len() == t.entry_names(ino).len() + 2,
        forall|i: int|
            2 <= i < tree_entries(t, ino).len() ==> {
                let e = #[trigger] tree_entries(t, ino)[i];
                e.name == t.entry_names(ino)[i - 2] && t.lookup(ino, e.name) == Some(e.ino)
                    && e.is_dir == t.is_dir(e.ino)
            },
        forall|n: Seq<char>| #[trigger]
            t.lookup(ino, n) is Some ==> t.entry_names(ino).contains(n),
{
    let names = t.entry_names(ino);
    let inos = t.entry_inos(ino);
    assert(t.children.contains_key(ino));
    strmap::lemma_ordered(t.entries(ino).dom());
    strmap::lemma_ascending_no_duplicates(names);
    assert forall|i: int| 0 <= i < names.len() implies t.entries(ino).contains_key(
        #[trigger] names[i],
    ) by {
        assert(names.to_set().contains(names[i]));
    }
    assert forall|i: int| 0 <= i < inos.len() implies t.nodes.contains_key(#[trigger] inos[i]) by {
        assert(t.entries(ino).contains_key(names[i]));
    }
    whole::lemma_nodes_of(t, inos);
    assert forall|i: int| 2 <= i < tree_entries(t, ino).len() implies {
        let e = #[trigger] tree_entries(t, ino)[i];
        e.name == names[i - 2] && t.lookup(ino, e.name) == Some(e.ino) && e.is_dir == t.is_dir(
            e.ino,
        )
    } by {
        assert(t.entries(ino).contains_key(names[i - 2]));
        assert(t.nodes.contains_key(inos[i - 2]));
    }
    assert forall|n: Seq<char>| #[trigger] t.lookup(ino, n) is Some implies names.contains(n) by {
        assert(names.to_set().contains(n));
    }
}

/// What files that have no document yet add to a listing.
proof fn lemma_with_pending(s: Seq<EntryView>, pending: Seq<(u64, Seq<char>)>)
    ensures
        ({
            let r = with_pending(s, pending);
            &&& r.len() >= s.len()
            &&& forall|i: int| 0 <= i < s.len() ==> #[trigger] r[i] == s[i]
            &&& forall|i: int|
                s.len() <= i < r.len() ==> {
                    &&& pending.contains(((#[trigger] r[i]).ino, r[i].name))
                    &&& !r[i].is_dir
                    &&& forall|j: int| 0 <= j < i ==> (#[trigger] r[j]).name != r[i].name
                }
            &&& forall|j: int|
                0 <= j < pending.len() ==> has_name(r, (#[trigger] pending[j]).1)
        }),
    decreases pending.len(),
{
    if pending.len() > 0 {
        let before = pending.drop_last();
        lemma_with_pending(s, before);
        let q = with_pending(s, before);
        let r = with_pending(s, pending);
        let (ino, name) = pending.last();
        assert forall|i: int| s.len() <= i < r.len() implies {
            &&& pending.contains(((#[trigger] r[i]).ino, r[i].name))
            &&& !r[i].is_dir
            &&& forall|j: int| 0 <= j < i ==> (#[trigger] r[j]).name != r[i].name
        } by {
            if i < q.len() {
                assert(r[i] == q[i]);
                let k = choose|k: int|
                    0 <= k < before.len() && before[k] == (q[i].ino, q[i].name);
                assert(pending[k] == (r[i].ino, r[i].name));
                assert forall|j: int| 0 <= j < i implies (#[trigger] r[j]).name != r[i].name by {
                    assert(r[j] == q[j]);
                }
            } else {
                assert(pending[pending.len() - 1] == (r[i].ino, r[i].name));
                assert forall|j: int| 0 <= j < i implies (#[trigger] r[j]).name != r[i].name by {
                    assert(r[j] == q[j]);
                }
            }
        }
        assert forall|j: int| 0 <= j < pending.len() implies has_name(
            r,
            (#[trigger] pending[j]).1,
        ) by {
            if j < before.len() {
                assert(before[j] == pending[j]);
                assert(has_name(q, before[j].1));
            }
            if has_name(q, pending[j].1) {
                let i = choose|i: int| 0 <= i < q.len() && (#[trigger] q[i]).name == pending[j].1;
                assert(r[i].name == pending[j].1);
            } else {
                assert(r[r.len() - 1].name == pending[j].1);
            }
        }
    }
}

/// A directory lists itself, the one above, and then each name once that a lookup finds, with the
/// inode that the lookup finds, as the directory or the file that it is, and no other. This speaks of directories whose new files go by
/// their own names: one that was renamed over a document's file gives its name up to that file,
/// and is listed without it once the document is gone.
pub proof fn law_listings_are_what_lookups_find(
    t: TreeView,
    w: WriteView,
    ino: u64,
    s: Seq<EntryView>,
)
    requires
        t.wf(),
        w.wf(),
        t.is_dir(ino),
        is_listing(t, w, ino, s),
        forall|k: u64| #[trigger]
            w.overlay.contains_key(k) && w.overlay[k].dir_ino == ino ==> t.lookup(
                ino,
                w.overlay[k].name,
            ) is Some || w.pending(ino, w.overlay[k].name) == Some(k),
    ensures
        s.len() >= 2,
        s[0] == (EntryView { ino, is_dir: true, name: "."@ }),
        s[1] == (EntryView { ino: t.nodes[ino].parent, is_dir: true, name: ".."@ }),
        forall|i: int|
            2 <= i < s.len() ==> found(t, w, ino, (#[trigger] s[i]).name) == Some(s[i].ino)
                && s[i].is_dir == (t.lookup(ino, s[i].name) is Some && t.is_dir(s[i].ino)),
        forall|i: int, j: int|
            2 <= i < j < s.len() ==> (#[trigger] s[i]).name != (#[trigger] s[j]).name,
        forall|n: Seq<char>| #[trigger]
            found(t, w, ino, n) is Some && n != "."@ && n != ".."@ ==> exists|i: int|
                2 <= i < s.len() && (#[trigger] s[i]).name == n,
{
    let pending = choose|pending: Seq<(u64, Seq<char>)>| #[trigger]
        lists_pending(w, ino, pending) && s == with_pending(tree_entries(t, ino), pending);
    let e = tree_entries(t, ino);
    let names = t.entry_names(ino);
    lemma_tree_entries(t, ino);
    lemma_with_pending(e, pending);
    assert(e[0] == (EntryView { ino, is_dir: true, name: "."@ }));
    assert(s[0] == e[0] && s[1] == e[1]);
    assert forall|i: int| 2 <= i < s.len() implies found(t, w, ino, (#[trigger] s[i]).name) == Some(
        s[i].ino,
    ) && s[i].is_dir == (t.lookup(ino, s[i].name) is Some && t.is_dir(s[i].ino)) by {
        if i < e.len() {
            assert(s[i] == e[i]);
        } else {
            let n = s[i].name;
            let k = choose|k: int| 0 <= k < pending.len() && pending[k] == (s[i].ino, n);
            assert(pending[k].0 == s[i].ino);
            assert(w.overlay.contains_key(s[i].ino));
            if t.lookup(ino, n) is Some {
                let m = choose|m: int| 0 <= m < names.len() && names[m] == n;
                assert(e[m + 2].name == n);
                assert(s[m + 2].name == n);
            }
        }
    }
    assert forall|i: int, j: int| 2 <= i < j < s.len() implies (#[trigger] s[i]).name != (
    #[trigger] s[j]).name by {
        if j < e.len() {
            assert(s[i] == e[i] && s[j] == e[j]);
            assert(names[i - 2] != names[j - 2]);
        }
    }
    assert forall|n: Seq<char>| #[trigger]
        found(t, w, ino, n) is Some && n != "."@ && n != ".."@ implies exists|i: int|
        2 <= i < s.len() && (#[trigger] s[i]).name == n by {
        if t.lookup(ino, n) is Some {
            let m = choose|m: int| 0 <= m < names.len() && names[m] == n;
            assert(e[m + 2].name == n);
            assert(s[m + 2].name == n);
        } else {
            let k = w.pending(ino, n)->0;
            assert(w.names.contains_key((n, ino)));
            let j = choose|j: int| 0 <= j < pending.len() && (#[trigger] pending[j]).0 == k;
            assert(pending[j].1 == n);
            assert(has_name(s, n));
            let i = choose|i: int| 0 <= i < s.len() && (#[trigger] s[i]).name == n;
            assert(i != 0 && i != 1);
        }
    }
}

/// What is told of something is what it is: its inode, its size, when it changed and whether it is
/// a directory. Anyone may read it and only its owner write it; it takes as many blocks of 512
/// bytes as its size needs.
pub proof fn law_attributes(a: Attr, ino: u64, size: nat, mtime: SystemTime, is_dir: bool)
    requires
        a.tells(ino, size, mtime, is_dir),
    ensures
        a.ino == ino,
        a.size == size,
        a.mtime == mtime,
        a.is_dir == is_dir,
        size <= 512 * a.blocks < size + 512,
        is_dir ==> a.perm == 7 * 64 + 5 * 8 + 5,
        !is_dir ==> a.perm == 6 * 64 + 4 * 8 + 4,
        a.nlink == 1,
        a.blksize == 4096,
{
}

/// The size that is told is the number of bytes that can be read: those of the buffer while a file
/// is written, else those of its content, or the size of its blob.
pub proof fn law_sizes(w: WriteView, node: NodeView)
    ensures
        w.states.contains_key(node.ino) ==> shown_size(w, node) == w.states[node.ino].buffer.len(),
        !w.states.contains_key(node.ino) ==> (match node.content {
            ContentView::Dir => shown_size(w, node) == 0,
            ContentView::Inline(b) => shown_size(w, node) == b.len(),
            ContentView::Remote { size, .. } => shown_size(w, node) == size,
        }),
{
}

/// A read of a file gives the bytes of its content, from the offset on, as many as are asked for
/// and there are; one of a blob is for the document's blob in its workspace; and a directory
/// cannot be read.
pub proof fn law_reads(a: ReadAnswer, content: ContentView, offset: i64, size: u32)
    requires
        answers_read(a, content, offset, size),
    ensures
        content is Dir ==> a == ReadAnswer::Error(21),
        content matches ContentView::Inline(b) ==> {
            let from = if offset > 0 {
                offset as int
            } else {
                0
            };
            &&& a is Data
            &&& from <= b.len() && from + size <= b.len() ==> a->Data_0@ == b.subrange(
                from,
                from + size,
            )
            &&& from <= b.len() < from + size ==> a->Data_0@ == b.subrange(from, b.len() as int)
            &&& from > b.len() ==> a->Data_0@ == Seq::<u8>::empty()
        },
        content matches ContentView::Remote { workspace_id, doc_id, checksum, .. } ==> {
            &&& a is Blob
            &&& a->workspace_id@ == workspace_id
            &&& a->doc_id == doc_id
            &&& checksum is Some ==> a->key@ == checksum->0
            &&& checksum is None ==> a->key@ == workspace_id + seq!['/'] + crate::text::decimal(
                doc_id as nat,
            )
        },
{
    reveal_strlit("/");
    assert("/"@ =~= seq!['/']);
    if let ContentView::Inline(b) = content {
        assert(writes::part(b, offset, size) =~= a->Data_0@);
    }
}

/// A lookup finds what stands in the tree under the name, and else a file that has no document
/// yet; a name that neither has is not found.
pub proof fn law_lookups(t: TreeView, w: WriteView, parent: u64, name: Seq<char>)
    requires
        t.wf(),
        w.wf(),
    ensures
        ({
            let here = t.entries(parent).contains_key(name);
            let new = w.names.contains_key((name, parent));
            &&& here ==> found(t, w, parent, name) == Some(t.entries(parent)[name])
            &&& !here && new ==> found(t, w, parent, name) == Some(w.names[(name, parent)])
            &&& !here && !new ==> found(t, w, parent, name) is None
        }),
{
}

/// A listing that is read in parts is read whole: where one part ends, the next goes on, and behind
/// the last entry there is nothing.
pub proof fn law_listings_go_on(s: Seq<EntryView>, at: i64)
    requires
        s.len() <= i64::MAX,
    ensures
        s.skip(resumes_at(0, s.len())) == s,
        0 <= at <= s.len() ==> s.take(at as int) + s.skip(resumes_at(at, s.len())) == s,
        at < 0 || at >= s.len() ==> s.skip(resumes_at(at, s.len())).len() == 0,
{
    assert(s.skip(0) =~= s);
    if 0 <= at <= s.len() {
        assert(resumes_at(at, s.len()) == at);
        assert(s.take(at as int) + s.skip(at as int) =~= s);
    }
}

} // verus!
