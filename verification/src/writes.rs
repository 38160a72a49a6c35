//! Writing: buffers of open files, files that have no document yet, and what a save, a removal
//! or a rename does.

use crate::api;
use crate::api::{ApiClient, Method, Request};
use crate::docmap;
use crate::docmap::{DocMap, Forget, ForgetView};
use crate::json;
use crate::json::{Json, JsonView};
use crate::markdown;
use crate::markdown::apply_buffer_to_data;
use crate::model;
use crate::model::{ContentView, TreeView};
use crate::names;
use crate::names::NameStore;
use crate::overlay::{Overlay, Pending, PendingView};
use crate::posix::{eacces, eexist, eio, enoent, exdev};
use crate::state::{NodeContent, Tree, FIRST_OVERLAY_INO};
use crate::text::{copy_bytes, copy_text, same_text};
use crate::time::time_now;
use std::collections::{HashMap, HashSet};
use std::sync::Arc;
use std::time::SystemTime;
use vstd::prelude::*;
use vstd::string::*;

pub use crate::markdown::{build_new_document, first_markdown_h1, parse_todo_markdown};

verus! {

broadcast use vstd::std_specs::hash::group_hash_axioms;

/// The directories that take writes. Notes and todos are documents whose identifier stays when
/// their content changes, so that a save is a plain update.
pub const WRITABLE_DIRS: [&'static str; 2] = ["Notes", "Todos"];

/// What a buffer is saved to.
enum FlushTarget {
    /// A document that exists
    Existing { ctx: String, dir: String, doc_id: u64 },
    /// A document that the first save makes
    Create { ctx: String, dir: String, dir_ino: u64, name: String },
}

/// An open file.
struct OpenWrite {
    buffer: Vec<u8>,
    dirty: bool,
    refs: u32,
    target: FlushTarget,
}

/// A file that was created and has no document yet.
pub struct OverlayEntry {
    pub ino: u64,
    pub dir_ino: u64,
    pub name: String,
    pub size: u64,
    pub mtime: SystemTime,
}

/// Why a write was refused.
#[derive(Debug)]
pub enum WriteError {
    NotPermitted,
    NotFound,
    Exists,
    CrossDir,
    Io(String),
}

/// What has to be sent to save a file.
pub enum FlushJob {
    /// Nothing
    Done,
    /// An update of a document
    Update { ctx: String, dir: String, doc_id: u64, buffer: Vec<u8> },
    /// A new document
    Create { ctx: String, dir: String, dir_ino: u64, name: String, buffer: Vec<u8> },
}

/// What has to be sent to remove a file.
pub enum UnlinkJob {
    /// Nothing: it existed only locally
    Done,
    /// The document leaves the context, or is destroyed where this mount made it
    Remove { ino: u64, ctx: String, doc_id: u64, own: bool },
}

/// What has to be done to rename a file.
pub enum RenameJob {
    /// Nothing more
    Done,
    /// The document gets another name
    Name { ino: u64, ctx: String, dir: String, doc_id: u64 },
    /// The content of the source becomes that of the destination's document; then the source's
    /// document leaves the context, or is destroyed where this mount made it
    Replace {
        src_ino: u64,
        dst_ino: u64,
        ctx: String,
        dir: String,
        src_doc: u64,
        dst_doc: u64,
        content: Vec<u8>,
        own: bool,
    },
}

/// The files that are written to.
pub struct WriteStore {
    /// At most one state for a file, however often it is open
    states: HashMap<u64, OpenWrite>,
    overlay: Overlay,
    /// The inode of a name in a directory, for files that have no document yet
    overlay_names: DocMap,
    next_overlay_ino: u64,
    /// The documents that this mount made: they may be destroyed when an editor replaces them
    own_docs: HashSet<u64>,
}

// ── what these are ───────────────────────────────────────────────────────────

/// What a buffer is saved to.
pub ghost enum TargetView {
    Existing { ctx: Seq<char>, dir: Seq<char>, doc_id: u64 },
    Create { ctx: Seq<char>, dir: Seq<char>, dir_ino: u64, name: Seq<char> },
}

/// An open file.
pub ghost struct StateView {
    pub buffer: Seq<u8>,
    pub dirty: bool,
    pub refs: u32,
    pub target: TargetView,
}

/// The files that are written to.
#[verifier::ext_equal]
pub ghost struct WriteView {
    pub states: Map<u64, StateView>,
    pub overlay: Map<u64, PendingView>,
    pub names: Map<(Seq<char>, u64), u64>,
    pub next_ino: u64,
    pub own: Set<u64>,
}

/// Why a write was refused.
pub ghost enum WriteErrorView {
    NotPermitted,
    NotFound,
    Exists,
    CrossDir,
    Io(Seq<char>),
}

/// What has to be sent to save a file.
pub ghost enum FlushJobView {
    Done,
    Update { ctx: Seq<char>, dir: Seq<char>, doc_id: u64, buffer: Seq<u8> },
    Create { ctx: Seq<char>, dir: Seq<char>, dir_ino: u64, name: Seq<char>, buffer: Seq<u8> },
}

impl View for FlushTarget {
    type V = TargetView;

    closed spec fn view(&self) -> TargetView {
        match *self {
            FlushTarget::Existing { ctx, dir, doc_id } => TargetView::Existing {
                ctx: ctx@,
                dir: dir@,
                doc_id,
            },
            FlushTarget::Create { ctx, dir, dir_ino, name } => TargetView::Create {
                ctx: ctx@,
                dir: dir@,
                dir_ino,
                name: name@,
            },
        }
    }
}

impl View for OpenWrite {
    type V = StateView;

    closed spec fn view(&self) -> StateView {
        StateView {
            buffer: self.buffer@,
            dirty: self.dirty,
            refs: self.refs,
            target: self.target@,
        }
    }
}

impl View for WriteStore {
    type V = WriteView;

    closed spec fn view(&self) -> WriteView {
        WriteView {
            states: self.states@.map_values(|s: OpenWrite| s@),
            overlay: self.overlay@,
            names: self.overlay_names@,
            next_ino: self.next_overlay_ino,
            own: self.own_docs@,
        }
    }
}

impl View for WriteError {
    type V = WriteErrorView;

    open spec fn view(&self) -> WriteErrorView {
        match *self {
            WriteError::NotPermitted => WriteErrorView::NotPermitted,
            WriteError::NotFound => WriteErrorView::NotFound,
            WriteError::Exists => WriteErrorView::Exists,
            WriteError::CrossDir => WriteErrorView::CrossDir,
            WriteError::Io(s) => WriteErrorView::Io(s@),
        }
    }
}

impl View for FlushJob {
    type V = FlushJobView;

    open spec fn view(&self) -> FlushJobView {
        match *self {
            FlushJob::Done => FlushJobView::Done,
            FlushJob::Update { ctx, dir, doc_id, buffer } => FlushJobView::Update {
                ctx: ctx@,
                dir: dir@,
                doc_id,
                buffer: buffer@,
            },
            FlushJob::Create { ctx, dir, dir_ino, name, buffer } => FlushJobView::Create {
                ctx: ctx@,
                dir: dir@,
                dir_ino,
                name: name@,
                buffer: buffer@,
            },
        }
    }
}

/// Whether a directory takes writes.
pub open spec fn is_writable(dir: Seq<char>) -> bool {
    dir == "Notes"@ || dir == "Todos"@
}

/// The context and the label of a directory that takes writes.
pub open spec fn writable_dir(t: TreeView, ino: u64) -> Option<(Seq<char>, Seq<char>)> {
    match t.schema_dir(ino) {
        Some((ctx, dir)) => if is_writable(dir) {
            Some((ctx, dir))
        } else {
            None
        },
        None => None,
    }
}

/// Whether an inode shows a document.
pub open spec fn has_doc(t: TreeView, ino: u64) -> bool {
    exists|ctx: Seq<char>, doc: u64| #[trigger] t.bound(ctx, doc, ino)
}

/// Whether an inode shows a given document of some context.
pub open spec fn is_doc(t: TreeView, ino: u64, doc: u64) -> bool {
    exists|ctx: Seq<char>| #[trigger] t.bound(ctx, doc, ino)
}

/// A part of a buffer, as far as the buffer goes.
pub open spec fn part(buffer: Seq<u8>, offset: i64, size: u32) -> Seq<u8> {
    let n = buffer.len() as int;
    let from = if offset <= 0 {
        0int
    } else {
        offset as int
    };
    let start = if from < n {
        from
    } else {
        n
    };
    let end = if start + size < n {
        start + size
    } else {
        n
    };
    buffer.subrange(start, end)
}

/// A buffer with some bytes written at an offset; what lies between its end and the offset is
/// filled with zeros.
pub open spec fn overwritten(buffer: Seq<u8>, at: nat, data: Seq<u8>) -> Seq<u8> {
    let end = at + data.len();
    Seq::new(
        if buffer.len() < end {
            end
        } else {
            buffer.len()
        },
        |i: int|
            if at <= i < end {
                data[i - at]
            } else if i < buffer.len() {
                buffer[i]
            } else {
                0
            },
    )
}

/// A buffer cut or filled with zeros to a size.
pub open spec fn resized(buffer: Seq<u8>, size: nat) -> Seq<u8> {
    Seq::new(
        size,
        |i: int|
            if i < buffer.len() {
                buffer[i]
            } else {
                0
            },
    )
}

impl WriteError {
    /// The error number that the kernel gets.
    pub fn errno(&self) -> (r: i32)
        ensures
            r == (match *self {
                WriteError::NotPermitted => 13i32,
                WriteError::NotFound => 2i32,
                WriteError::Exists => 17i32,
                WriteError::CrossDir => 18i32,
                WriteError::Io(_) => 5i32,
            }),
    {
        match self {
            WriteError::NotPermitted => eacces(),
            WriteError::NotFound => enoent(),
            WriteError::Exists => eexist(),
            WriteError::CrossDir => exdev(),
            WriteError::Io(_) => eio(),
        }
    }
}

/// Finds the context and the label of a directory that takes writes.
fn find_writable_dir(tree: &Tree, dir_ino: u64) -> (r: Option<(String, String)>)
    ensures
        (match r {
            Some(p) => writable_dir(tree@, dir_ino) == Some((p.0@, p.1@)),
            None => writable_dir(tree@, dir_ino) is None,
        }),
{
    match tree.locate_schema_dir(dir_ino) {
        Some((ctx, dir)) => {
            assert(WRITABLE_DIRS@[0]@ == "Notes"@ && WRITABLE_DIRS@[1]@ == "Todos"@);
            if same_text(dir.as_str(), WRITABLE_DIRS[0]) || same_text(
                dir.as_str(),
                WRITABLE_DIRS[1],
            ) {
                Some((ctx, dir))
            } else {
                None
            }
        },
        None => None,
    }
}

/// Cuts a part out of a buffer.
pub fn part_of(buffer: &Vec<u8>, offset: i64, size: u32) -> (r: Vec<u8>)
    ensures
        r@ == part(buffer@, offset, size),
{
    let n: u64 = buffer.len() as u64;
    let from: u64 = if offset <= 0 {
        0
    } else {
        offset as u64
    };
    let start = if from < n {
        from
    } else {
        n
    };
    let end = if n - start < size as u64 {
        n
    } else {
        start + size as u64
    };
    copy_bytes(buffer.as_slice(), start as usize, end as usize)
}

// ── files that have no document yet ──────────────────────────────────────────

impl WriteView {
    /// The size of the buffer of a file, where it has one.
    pub open spec fn buffer_len(self, ino: u64) -> nat {
        if self.states.contains_key(ino) {
            self.states[ino].buffer.len()
        } else {
            0
        }
    }
}

impl OverlayEntry {
    /// Whether this is what is known of a file that has no document yet.
    pub open spec fn is_pending(&self, w: WriteView, ino: u64) -> bool {
        &&& w.overlay.contains_key(ino)
        &&& self.ino == ino
        &&& self.dir_ino == w.overlay[ino].dir_ino
        &&& self.name@ == w.overlay[ino].name
        &&& self.mtime == w.overlay[ino].mtime
        &&& self.size == w.buffer_len(ino)
    }
}

impl WriteStore {
    /// Nothing is written to.
    pub fn new() -> (r: Self)
        ensures
            r@ == (WriteView {
                states: Map::empty(),
                overlay: Map::empty(),
                names: Map::empty(),
                next_ino: FIRST_OVERLAY_INO,
                own: Set::empty(),
            }),
    {
        let r = WriteStore {
            states: HashMap::new(),
            overlay: Overlay::new(),
            overlay_names: DocMap::new(),
            next_overlay_ino: FIRST_OVERLAY_INO,
            own_docs: HashSet::new(),
        };
        assert(r@ =~= WriteView {
            states: Map::empty(),
            overlay: Map::empty(),
            names: Map::empty(),
            next_ino: FIRST_OVERLAY_INO,
            own: Set::empty(),
        });
        r
    }

    fn buffer_len(&self, ino: u64) -> (r: u64)
        ensures
            r == self@.buffer_len(ino),
    {
        match self.states.get(&ino) {
            Some(s) => s.buffer.len() as u64,
            None => 0,
        }
    }

    /// The file of a name in a directory, where it has no document yet.
    pub fn lookup_overlay(&self, dir_ino: u64, name: &str) -> (r: Option<OverlayEntry>)
        ensures
            (match r {
                Some(e) => {
                    let i = self@.names[(name@, dir_ino)];
                    &&& self@.names.contains_key((name@, dir_ino))
                    &&& self@.overlay.contains_key(i)
                    &&& e.ino == i
                    &&& e.dir_ino == dir_ino
                    &&& e.name@ == name@
                    &&& e.mtime == self@.overlay[i].mtime
                    &&& e.size == self@.buffer_len(i)
                },
                None => !(self@.names.contains_key((name@, dir_ino)) && self@.overlay.contains_key(
                    self@.names[(name@, dir_ino)],
                )),
            }),
    {
        match self.overlay_names.get(name, dir_ino) {
            Some(ino) => match self.overlay.get(ino) {
                Some(p) => Some(
                    OverlayEntry {
                        ino,
                        dir_ino,
                        name: copy_text(name),
                        size: self.buffer_len(ino),
                        mtime: p.mtime,
                    },
                ),
                None => None,
            },
            None => None,
        }
    }

    /// The files in a directory that have no document yet.
    pub fn overlay_entries(&self, dir_ino: u64) -> (r: Vec<(u64, String)>)
        ensures
            forall|i: int, j: int|
                0 <= i < j < r@.len() ==> (#[trigger] r@[i]).0 != (#[trigger] r@[j]).0,
            forall|i: int|
                0 <= i < r@.len() ==> {
                    let e = #[trigger] r@[i];
                    self@.overlay.contains_key(e.0) && self@.overlay[e.0].dir_ino == dir_ino
                        && self@.overlay[e.0].name == e.1@
                },
            forall|k: u64| #[trigger]
                self@.overlay.contains_key(k) && self@.overlay[k].dir_ino == dir_ino
                    ==> exists|i: int| 0 <= i < r@.len() && (#[trigger] r@[i]).0 == k,
    {
        self.overlay.list(dir_ino)
    }

    /// The file of an inode, where it has no document yet.
    pub fn overlay_attr(&self, ino: u64) -> (r: Option<OverlayEntry>)
        ensures
            (match r {
                Some(e) => e.is_pending(self@, ino),
                None => !self@.overlay.contains_key(ino),
            }),
    {
        match self.overlay.get(ino) {
            Some(p) => Some(
                OverlayEntry {
                    ino,
                    dir_ino: p.dir_ino,
                    name: copy_text(p.name.as_str()),
                    size: self.buffer_len(ino),
                    mtime: p.mtime,
                },
            ),
            None => None,
        }
    }

    /// The size of an open file: editors ask for it between a write and the close.
    pub fn size_override(&self, ino: u64) -> (r: Option<u64>)
        ensures
            (match r {
                Some(n) => self@.states.contains_key(ino) && n == self@.states[ino].buffer.len(),
                None => !self@.states.contains_key(ino),
            }),
    {
        match self.states.get(&ino) {
            Some(s) => Some(s.buffer.len() as u64),
            None => None,
        }
    }

    /// A part of the buffer of an open file.
    pub fn read_buffer(&self, ino: u64, offset: i64, size: u32) -> (r: Option<Vec<u8>>)
        ensures
            (match r {
                Some(b) => self@.states.contains_key(ino) && b@ == part(
                    self@.states[ino].buffer,
                    offset,
                    size,
                ),
                None => !self@.states.contains_key(ino),
            }),
    {
        match self.states.get(&ino) {
            Some(s) => Some(part_of(&s.buffer, offset, size)),
            None => None,
        }
    }

    /// Whether a file is open for writing.
    pub fn has_state(&self, ino: u64) -> (r: bool)
        ensures
            r == self@.states.contains_key(ino),
    {
        self.states.contains_key(&ino)
    }
}

// ── open, create, write, truncate ────────────────────────────────────────────

/// What the buffer of a file starts with, where the file can be written.
pub open spec fn writable_content(t: TreeView, ino: u64) -> Option<Seq<u8>> {
    if t.nodes.contains_key(ino) && writable_dir(t, t.nodes[ino].parent) is Some && has_doc(t, ino) {
        match t.nodes[ino].content {
            ContentView::Inline(b) => Some(b),
            _ => None,
        }
    } else {
        None
    }
}

impl WriteView {
    /// With another state of a file.
    pub open spec fn with_state(self, ino: u64, s: StateView) -> WriteView {
        WriteView { states: self.states.insert(ino, s), ..self }
    }

    /// Whether one more handle of a file can be counted.
    pub open spec fn can_open(self, ino: u64) -> bool {
        self.states.contains_key(ino) ==> self.states[ino].refs < u32::MAX
    }

    /// Whether one more handle of a document's file can be counted, where it can be written.
    pub open spec fn can_open_existing(self, t: TreeView, ino: u64) -> bool {
        writable_content(t, ino) is Some ==> self.can_open(ino)
    }

    /// Whether a file of a name can come into a directory.
    pub open spec fn takes_name(self, t: TreeView, dir_ino: u64, name: Seq<char>) -> bool {
        &&& writable_dir(t, dir_ino) is Some
        &&& t.lookup(dir_ino, name) is None
        &&& !self.names.contains_key((name, dir_ino))
    }

    /// Whether a file has a size that can be set.
    pub open spec fn takes_size(self, t: TreeView, ino: u64) -> bool {
        self.states.contains_key(ino) || writable_content(t, ino) is Some
    }

    /// One more handle on a file that has a state, or else on one in a given state.
    pub open spec fn open(self, ino: u64, fresh: StateView, truncate: bool) -> WriteView {
        let s = if self.states.contains_key(ino) {
            self.states[ino]
        } else {
            fresh
        };
        self.with_state(
            ino,
            StateView {
                buffer: if truncate {
                    Seq::empty()
                } else {
                    s.buffer
                },
                dirty: s.dirty || truncate,
                refs: (s.refs + 1) as u32,
                target: s.target,
            },
        )
    }

    /// One more handle on a document's file.
    pub open spec fn open_doc(self, t: TreeView, ino: u64, doc_id: u64, truncate: bool) -> WriteView {
        let (ctx, dir) = writable_dir(t, t.nodes[ino].parent)->0;
        self.open(
            ino,
            StateView {
                buffer: writable_content(t, ino)->0,
                dirty: false,
                refs: 0,
                target: TargetView::Existing { ctx, dir, doc_id },
            },
            truncate,
        )
    }

    /// A new file that has no document yet.
    pub open spec fn create(
        self,
        dir_ino: u64,
        name: Seq<char>,
        ctx: Seq<char>,
        dir: Seq<char>,
        now: SystemTime,
    ) -> WriteView {
        let ino = self.next_ino;
        WriteView {
            states: self.states.insert(
                ino,
                StateView {
                    buffer: Seq::empty(),
                    dirty: true,
                    refs: 1,
                    target: TargetView::Create { ctx, dir, dir_ino, name },
                },
            ),
            overlay: self.overlay.insert(ino, PendingView { dir_ino, name, mtime: now }),
            names: self.names.insert((name, dir_ino), ino),
            next_ino: (ino + 1) as u64,
            own: self.own,
        }
    }

    /// With another buffer of an open file, to be saved.
    pub open spec fn edit(self, ino: u64, buffer: Seq<u8>) -> WriteView {
        self.with_state(ino, StateView { buffer, dirty: true, ..self.states[ino] })
    }
}

/// Whether a document's file was opened once more.
pub open spec fn is_opened(
    w: WriteView,
    v: WriteView,
    t: TreeView,
    ino: u64,
    truncate: bool,
) -> bool {
    exists|doc_id: u64| #[trigger]
        is_doc(t, ino, doc_id) && v == w.open_doc(t, ino, doc_id, truncate)
}

/// Where a write starts.
pub open spec fn write_at(offset: i64) -> nat {
    if offset <= 0 {
        0
    } else {
        offset as nat
    }
}

/// Writes bytes into a buffer.
fn write_bytes(buffer: &mut Vec<u8>, at: usize, data: &[u8])
    requires
        at + data@.len() <= isize::MAX,
    ensures
        final(buffer)@ == overwritten(old(buffer)@, at as nat, data@),
{
    let ghost b0 = buffer@;
    let n = data.len();
    let end: usize = at + n;
    if buffer.len() < end {
        resize_buffer(buffer, end);
    }
    let ghost b1 = buffer@;
    let mut i: usize = 0;
    while i < n
        invariant
            n == data@.len(),
            i <= n,
            at + n <= buffer@.len(),
            at + n <= isize::MAX,
            buffer@.len() == b1.len(),
            forall|k: int|
                0 <= k < b1.len() ==> #[trigger] buffer@[k] == (if at <= k < at + i {
                    data@[k - at]
                } else {
                    b1[k]
                }),
        decreases n - i,
    {
        buffer.set(at + i, data[i]);
        i = i + 1;
    }
    assert(buffer@ =~= overwritten(b0, at as nat, data@));
}

/// Cuts a buffer or fills it with zeros to a size.
fn resize_buffer(buffer: &mut Vec<u8>, size: usize)
    ensures
        final(buffer)@ == resized(old(buffer)@, size as nat),
{
    let ghost b0 = buffer@;
    buffer.resize(size, 0u8);
    proof {
        if size > b0.len() {
            assert forall|i: int| 0 <= i < size implies #[trigger] buffer@[i] == resized(
                b0,
                size as nat,
            )[i] by {
                if i < b0.len() {
                    assert(buffer@.subrange(0, b0.len() as int)[i] == b0[i]);
                }
            }
        }
        assert(buffer@ =~= resized(b0, size as nat));
    }
}

/// Finds what it takes to write a document's file: its content, the context and the directory that
/// it stands in, and the document.
fn find_writable(tree: &Tree, ino: u64) -> (r: Result<
    (Arc<Vec<u8>>, String, String, u64),
    WriteError,
>)
    ensures
        (match r {
            Ok((content, ctx, dir, doc_id)) => {
                &&& writable_content(tree@, ino) == Some(content@)
                &&& writable_dir(tree@, tree@.nodes[ino].parent) == Some((ctx@, dir@))
                &&& is_doc(tree@, ino, doc_id)
            },
            Err(WriteError::NotFound) => !tree@.nodes.contains_key(ino),
            Err(WriteError::NotPermitted) => tree@.nodes.contains_key(ino) && writable_content(
                tree@,
                ino,
            ) is None,
            Err(_) => false,
        }),
{
    let node = match tree.get(ino) {
        Some(n) => n,
        None => {
            return Err(WriteError::NotFound);
        },
    };
    let content = match &node.content {
        NodeContent::Inline(bytes) => bytes.clone(),
        _ => {
            return Err(WriteError::NotPermitted);
        },
    };
    let (ctx, dir) = match find_writable_dir(tree, node.parent) {
        Some(p) => p,
        None => {
            return Err(WriteError::NotPermitted);
        },
    };
    match tree.doc_for_ino(ino) {
        Some((c, d)) => {
            assert(tree@.bound(c@, d, ino));
            assert(is_doc(tree@, ino, d));
            Ok((content, ctx, dir, d))
        },
        None => Err(WriteError::NotPermitted),
    }
}

impl WriteStore {
    /// Whether one more handle of a file can be counted.
    pub fn can_open(&self, ino: u64) -> (r: bool)
        ensures
            r == self@.can_open(ino),
    {
        match self.states.get(&ino) {
            Some(s) => s.refs < u32::MAX,
            None => true,
        }
    }

    /// Whether one more handle of a document's file can be counted, where it can be written.
    pub fn can_open_existing(&self, tree: &Tree, ino: u64) -> (r: bool)
        ensures
            r == self@.can_open_existing(tree@, ino),
    {
        self.can_open(ino) || find_writable(tree, ino).is_err()
    }

    /// Whether there is an inode for a file, where it can be created.
    pub fn can_create(&self, tree: &Tree, dir_ino: u64, name: &str) -> (r: bool)
        ensures
            r == (self@.takes_name(tree@, dir_ino, name@) ==> self@.next_ino < u64::MAX),
    {
        self.next_overlay_ino < u64::MAX || find_writable_dir(tree, dir_ino).is_none()
            || tree.lookup(dir_ino, name).is_some() || self.overlay_names.get(
            name,
            dir_ino,
        ).is_some()
    }

    /// Whether a buffer can have a size, where the file has one that can be set.
    pub fn can_truncate(&self, tree: &Tree, ino: u64, size: u64) -> (r: bool)
        ensures
            r == (self@.takes_size(tree@, ino) ==> size <= isize::MAX),
    {
        size <= isize::MAX as u64 || !(self.has_state(ino) || find_writable(tree, ino).is_ok())
    }

    /// Counts one more handle on a state.
    fn add_handle(&mut self, ino: u64, mut state: OpenWrite, truncate: bool)
        requires
            state.refs < u32::MAX,
        ensures
            final(self)@ == old(self)@.with_state(
                ino,
                StateView {
                    buffer: if truncate {
                        Seq::empty()
                    } else {
                        state@.buffer
                    },
                    dirty: state@.dirty || truncate,
                    refs: (state@.refs + 1) as u32,
                    target: state@.target,
                },
            ),
    {
        let ghost w0 = self@;
        let ghost s0 = state@;
        state.refs = state.refs + 1;
        if truncate {
            state.buffer.clear();
            state.dirty = true;
        }
        let ghost s1 = state@;
        self.states.insert(ino, state);
        proof {
            assert(s1.buffer =~= (if truncate {
                Seq::empty()
            } else {
                s0.buffer
            }));
            assert(self@.states =~= w0.states.insert(ino, s1));
            assert(self@ =~= w0.with_state(ino, s1));
        }
    }

    /// Takes the state of a file out.
    fn take_state(&mut self, ino: u64) -> (r: Option<OpenWrite>)
        ensures
            (match r {
                Some(s) => old(self)@.states.contains_key(ino) && s@ == old(self)@.states[ino],
                None => !old(self)@.states.contains_key(ino),
            }),
            final(self)@ == (WriteView { states: old(self)@.states.remove(ino), ..old(self)@ }),
    {
        let r = self.states.remove(&ino);
        proof {
            assert(self@.states =~= old(self)@.states.remove(ino));
            assert(self@ =~= WriteView { states: old(self)@.states.remove(ino), ..old(self)@ });
        }
        r
    }

    /// Puts the state of a file in.
    fn put_state(&mut self, ino: u64, state: OpenWrite)
        ensures
            final(self)@ == old(self)@.with_state(ino, state@),
    {
        let ghost s = state@;
        self.states.insert(ino, state);
        proof {
            assert(self@.states =~= old(self)@.states.insert(ino, s));
            assert(self@ =~= old(self)@.with_state(ino, s));
        }
    }

    /// Opens a document's file for writing. Blobs, and files that show no document, cannot be
    /// written.
    pub fn open_existing(&mut self, tree: &Tree, ino: u64, truncate: bool) -> (r: Result<
        (),
        WriteError,
    >)
        requires
            old(self)@.can_open_existing(tree@, ino),
        ensures
            (match r {
                Ok(_) => writable_content(tree@, ino) is Some && is_opened(
                    old(self)@,
                    final(self)@,
                    tree@,
                    ino,
                    truncate,
                ),
                Err(WriteError::NotFound) => !tree@.nodes.contains_key(ino),
                Err(WriteError::NotPermitted) => tree@.nodes.contains_key(ino) && writable_content(
                    tree@,
                    ino,
                ) is None,
                Err(_) => false,
            }),
            r is Err ==> final(self)@ == old(self)@,
    {
        let (content, ctx, dir, doc_id) = match find_writable(tree, ino) {
            Ok(p) => p,
            Err(e) => {
                return Err(e);
            },
        };
        let ghost w0 = self@;
        assert(is_doc(tree@, ino, doc_id));
        let state = match self.take_state(ino) {
            Some(s) => s,
            None => {
                let buffer = copy_bytes((&*content).as_slice(), 0, content.len());
                assert(buffer@ =~= content@);
                OpenWrite {
                    buffer,
                    dirty: false,
                    refs: 0,
                    target: FlushTarget::Existing { ctx, dir, doc_id },
                }
            },
        };
        self.add_handle(ino, state, truncate);
        assert(self@ =~= w0.open_doc(tree@, ino, doc_id, truncate));
        Ok(())
    }

    /// Opens a file that has no document yet.
    pub fn open_overlay(&mut self, ino: u64, truncate: bool) -> (r: Result<(), WriteError>)
        requires
            old(self)@.can_open(ino),
        ensures
            (match r {
                Ok(_) => old(self)@.states.contains_key(ino) && final(self)@ == old(self)@.open(
                    ino,
                    old(self)@.states[ino],
                    truncate,
                ),
                Err(WriteError::NotFound) => !old(self)@.states.contains_key(ino) && final(self)@
                    == old(self)@,
                Err(_) => false,
            }),
    {
        let ghost w0 = self@;
        match self.take_state(ino) {
            Some(state) => {
                self.add_handle(ino, state, truncate);
                assert(self@ =~= w0.open(ino, w0.states[ino], truncate));
                Ok(())
            },
            None => {
                assert(self@ =~= w0);
                Err(WriteError::NotFound)
            },
        }
    }

    /// Creates a file. It has no document until it is saved.
    pub fn create(&mut self, tree: &Tree, dir_ino: u64, name: &str) -> (r: Result<
        OverlayEntry,
        WriteError,
    >)
        requires
            old(self)@.takes_name(tree@, dir_ino, name@) ==> old(self)@.next_ino < u64::MAX,
        ensures
            (match r {
                Ok(e) => {
                    &&& old(self)@.takes_name(tree@, dir_ino, name@)
                    &&& final(self)@ == old(self)@.create(
                        dir_ino,
                        name@,
                        (writable_dir(tree@, dir_ino)->0).0,
                        (writable_dir(tree@, dir_ino)->0).1,
                        e.mtime,
                    )
                    &&& e.is_pending(final(self)@, old(self)@.next_ino)
                },
                Err(WriteError::NotPermitted) => writable_dir(tree@, dir_ino) is None,
                Err(WriteError::Exists) => writable_dir(tree@, dir_ino) is Some && (tree@.lookup(
                    dir_ino,
                    name@,
                ) is Some || old(self)@.names.contains_key((name@, dir_ino))),
                Err(_) => false,
            }),
            r is Err ==> final(self)@ == old(self)@,
    {
        let (ctx, dir) = match find_writable_dir(tree, dir_ino) {
            Some(p) => p,
            None => {
                return Err(WriteError::NotPermitted);
            },
        };
        if tree.lookup(dir_ino, name).is_some() {
            return Err(WriteError::Exists);
        }
        if self.overlay_names.get(name, dir_ino).is_some() {
            return Err(WriteError::Exists);
        }
        let ghost w0 = self@;
        let ghost c = ctx@;
        let ghost d = dir@;
        let ino = self.next_overlay_ino;
        self.next_overlay_ino = ino + 1;
        let now = time_now();
        self.overlay.insert(ino, Pending { dir_ino, name: copy_text(name), mtime: now });
        self.overlay_names.insert(name, dir_ino, ino);
        let buffer: Vec<u8> = Vec::new();
        let state = OpenWrite {
            buffer,
            dirty: true,
            refs: 1,
            target: FlushTarget::Create { ctx, dir, dir_ino, name: copy_text(name) },
        };
        let ghost s = state@;
        assert(s.buffer =~= Seq::empty());
        self.states.insert(ino, state);
        proof {
            assert(self@.states =~= w0.states.insert(ino, s));
            assert(self@ =~= w0.create(dir_ino, name@, c, d, now));
        }
        Ok(OverlayEntry { ino, dir_ino, name: copy_text(name), size: 0, mtime: now })
    }

    /// Writes to an open file. Hands back how many bytes were written, as the kernel counts them.
    pub fn write(&mut self, ino: u64, offset: i64, data: &[u8]) -> (r: Result<u32, WriteError>)
        requires
            old(self)@.states.contains_key(ino) ==> write_at(offset) + data@.len() <= isize::MAX,
        ensures
            (match r {
                Ok(n) => {
                    &&& old(self)@.states.contains_key(ino)
                    &&& n == data@.len() % 0x1_0000_0000
                    &&& final(self)@ == old(self)@.edit(
                        ino,
                        overwritten(old(self)@.states[ino].buffer, write_at(offset), data@),
                    )
                },
                Err(WriteError::NotPermitted) => !old(self)@.states.contains_key(ino)
                    && final(self)@ == old(self)@,
                Err(_) => false,
            }),
    {
        let ghost w0 = self@;
        match self.take_state(ino) {
            Some(mut state) => {
                let at: usize = if offset <= 0 {
                    0
                } else {
                    offset as usize
                };
                write_bytes(&mut state.buffer, at, data);
                state.dirty = true;
                self.put_state(ino, state);
                assert(self@ =~= w0.edit(
                    ino,
                    overwritten(w0.states[ino].buffer, write_at(offset), data@),
                ));
                let n = data.len() as u64 % 0x1_0000_0000u64;
                Ok(n as u32)
            },
            None => {
                assert(self@ =~= w0);
                Err(WriteError::NotPermitted)
            },
        }
    }

    /// Sets the size of a file. Where the file was not open, it is now: nobody will close it, so
    /// it has to be saved and released at once, which the result tells.
    pub fn truncate(&mut self, tree: &Tree, ino: u64, size: u64) -> (r: Result<bool, WriteError>)
        requires
            old(self)@.takes_size(tree@, ino) ==> size <= isize::MAX,
        ensures
            (match r {
                Ok(false) => old(self)@.states.contains_key(ino) && final(self)@ == old(self)@.edit(
                    ino,
                    resized(old(self)@.states[ino].buffer, size as nat),
                ),
                Ok(true) => {
                    &&& !old(self)@.states.contains_key(ino)
                    &&& writable_content(tree@, ino) is Some
                    &&& exists|doc_id: u64| #[trigger]
                        is_doc(tree@, ino, doc_id) && final(self)@ == old(self)@.open_doc(
                            tree@,
                            ino,
                            doc_id,
                            false,
                        ).edit(ino, resized(writable_content(tree@, ino)->0, size as nat))
                },
                Err(WriteError::NotFound) => !old(self)@.states.contains_key(ino)
                    && !tree@.nodes.contains_key(ino),
                Err(WriteError::NotPermitted) => !old(self)@.states.contains_key(ino)
                    && tree@.nodes.contains_key(ino) && writable_content(tree@, ino) is None,
                Err(_) => false,
            }),
            r is Err ==> final(self)@ == old(self)@,
    {
        let ghost w0 = self@;
        let was_open = self.has_state(ino);
        if !was_open {
            match self.open_existing(tree, ino, false) {
                Ok(_) => {},
                Err(e) => {
                    return Err(e);
                },
            }
        }
        let ghost w1 = self@;
        let ghost doc = choose|doc_id: u64| #[trigger]
            is_doc(tree@, ino, doc_id) && w1 == w0.open_doc(tree@, ino, doc_id, false);
        if let Some(mut state) = self.take_state(ino) {
            resize_buffer(&mut state.buffer, size as usize);
            state.dirty = true;
            self.put_state(ino, state);
            assert(self@ =~= w1.edit(ino, resized(w1.states[ino].buffer, size as nat)));
        }
        assert(!was_open ==> is_doc(tree@, ino, doc));
        Ok(!was_open)
    }
}

// ── save, release ────────────────────────────────────────────────────────────

impl WriteView {
    /// Whether a file has to be saved now. Shells flush right after they create a file, before
    /// anything is written: an empty new file waits for the last flush.
    pub open spec fn saves(self, ino: u64, last: bool) -> bool {
        &&& self.states.contains_key(ino)
        &&& self.states[ino].dirty
        &&& last || self.states[ino].buffer.len() > 0 || self.states[ino].target is Existing
    }

    /// What has to be sent to save a file.
    pub open spec fn flush_job(self, ino: u64, last: bool) -> FlushJobView {
        if self.saves(ino, last) {
            let s = self.states[ino];
            match s.target {
                TargetView::Existing { ctx, dir, doc_id } => FlushJobView::Update {
                    ctx,
                    dir,
                    doc_id,
                    buffer: s.buffer,
                },
                TargetView::Create { ctx, dir, dir_ino, name } => FlushJobView::Create {
                    ctx,
                    dir,
                    dir_ino,
                    name,
                    buffer: s.buffer,
                },
            }
        } else {
            FlushJobView::Done
        }
    }

    /// With a file marked as to be saved, or as saved.
    pub open spec fn mark(self, ino: u64, dirty: bool) -> WriteView {
        if self.states.contains_key(ino) {
            self.with_state(ino, StateView { dirty, ..self.states[ino] })
        } else {
            self
        }
    }

    /// With a file saved to another document.
    pub open spec fn retarget(self, ino: u64, target: TargetView) -> WriteView {
        if self.states.contains_key(ino) {
            self.with_state(ino, StateView { target, ..self.states[ino] })
        } else {
            self
        }
    }

    /// After a save began.
    pub open spec fn flushing(self, ino: u64, last: bool) -> WriteView {
        if self.saves(ino, last) {
            self.mark(ino, false)
        } else {
            self
        }
    }

    /// After the document of a new file was made: further saves update it, and it is one that
    /// this mount made.
    pub open spec fn adopted(
        self,
        ino: u64,
        ctx: Seq<char>,
        dir: Seq<char>,
        dir_ino: u64,
        name: Seq<char>,
        doc_id: u64,
    ) -> WriteView {
        let w = self.retarget(ino, TargetView::Existing { ctx, dir, doc_id });
        WriteView {
            overlay: w.overlay.remove(ino),
            names: docmap::forgotten(w.names, ForgetView::Doc(name, dir_ino)),
            own: w.own.insert(doc_id),
            ..w
        }
    }

    /// One handle less on a file. With the last one the state goes, and with it what is left of
    /// a file that got no document.
    pub open spec fn release(self, ino: u64) -> WriteView {
        if self.states.contains_key(ino) {
            let refs = self.states[ino].refs;
            if refs <= 1 {
                WriteView {
                    states: self.states.remove(ino),
                    overlay: self.overlay.remove(ino),
                    names: docmap::forgotten(self.names, ForgetView::Ino(ino)),
                    ..self
                }
            } else {
                self.with_state(ino, StateView { refs: (refs - 1) as u32, ..self.states[ino] })
            }
        } else {
            self
        }
    }
}

/// The tree after a document was saved: its file, where it has one, shows what was saved.
pub open spec fn saved_tree(
    t: TreeView,
    ctx: Seq<char>,
    doc_id: u64,
    buffer: Seq<u8>,
    now: SystemTime,
) -> TreeView {
    if t.docs.contains_key((ctx, doc_id)) {
        t.set_content(t.docs[(ctx, doc_id)], ContentView::Inline(buffer), now)
    } else {
        t
    }
}

/// Whether a tree is another one after a document was saved, at some time.
pub open spec fn is_saved(
    t: TreeView,
    u: TreeView,
    ctx: Seq<char>,
    doc_id: u64,
    buffer: Seq<u8>,
) -> bool {
    exists|now: SystemTime| u == #[trigger] saved_tree(t, ctx, doc_id, buffer, now)
}

/// Whether a tree is another one after a document's file was put in place, at some time.
pub open spec fn is_adopted(
    t: TreeView,
    u: TreeView,
    dir_ino: u64,
    name: Seq<char>,
    ctx: Seq<char>,
    doc: u64,
    ino: u64,
    content: Seq<u8>,
) -> bool {
    exists|now: SystemTime|
        u == #[trigger] t.adopt(dir_ino, name, ctx, doc, ino, content, now)
}

/// Shows what was saved, before the next refresh confirms it.
pub fn show_saved(tree: &mut Tree, ctx: &str, doc_id: u64, buffer: Vec<u8>)
    ensures
        is_saved(old(tree)@, final(tree)@, ctx@, doc_id, buffer@),
{
    let ghost t0 = tree@;
    match tree.ino_for_doc(ctx, doc_id) {
        Some(ino) => {
            tree.set_inline_content(ino, Arc::new(buffer));
            proof {
                let now = choose|now: SystemTime|
                    tree@ == #[trigger] t0.set_content(ino, ContentView::Inline(buffer@), now);
                assert(tree@ == saved_tree(t0, ctx@, doc_id, buffer@, now));
            }
        },
        None => {
            let now = time_now();
            assert(tree@ == saved_tree(t0, ctx@, doc_id, buffer@, now));
        },
    }
}

/// The data of a document, or an empty object where it has none.
pub open spec fn data_of(existing: JsonView) -> JsonView {
    match existing.member("data"@) {
        Some(d) => d,
        None => markdown::empty_object(),
    }
}

/// The schema of a document, or that of a note where it has none.
pub open spec fn schema_of(existing: JsonView) -> Seq<char> {
    match existing.member_text("schema"@) {
        Some(s) => s,
        None => "data/abstraction/note"@,
    }
}

/// What is sent to save a buffer to a document that exists: what the buffer does not carry stays.
pub open spec fn update_document(
    existing: JsonView,
    dir: Seq<char>,
    doc_id: u64,
    buffer: Seq<u8>,
) -> JsonView {
    markdown::empty_object().with_member(
        "id"@,
        JsonView::Number(json::number_from(doc_id)),
    ).with_member("schema"@, JsonView::Text(schema_of(existing))).with_member(
        "data"@,
        markdown::saved_data(dir, data_of(existing), buffer),
    )
}

/// Makes what is sent to save a buffer to a document that exists.
pub fn build_update(existing: &Json, dir: &str, doc_id: u64, buffer: &[u8]) -> (r: Json)
    requires
        data_of(existing@).takes_members(),
    ensures
        r@ == update_document(existing@, dir@, doc_id, buffer@),
{
    let schema = match existing.get_str("schema") {
        Some(s) => copy_text(s.as_str()),
        None => copy_text("data/abstraction/note"),
    };
    let mut data = match existing.get("data") {
        Some(d) => d.copy(),
        None => Json::object(),
    };
    apply_buffer_to_data(dir, &mut data, buffer);
    Json::object().with("id", Json::uint(doc_id)).with("schema", Json::Text(schema)).with(
        "data",
        data,
    )
}

/// Whether a buffer can be saved to a document: its data is an object, or there is none yet.
pub fn can_update(existing: &Json) -> (r: bool)
    ensures
        r == data_of(existing@).takes_members(),
{
    match existing.get("data") {
        Some(d) => matches!(d, Json::Null | Json::Object(_)),
        None => true,
    }
}

/// The document that a save made: the first of those that the server tells of.
pub fn created_id(ids: &Vec<u64>) -> (r: Result<u64, WriteError>)
    ensures
        (match r {
            Ok(id) => ids@.len() > 0 && id == ids@[0],
            Err(e) => ids@.len() == 0 && e@ == WriteErrorView::Io(
                "create returned no document id"@,
            ),
        }),
{
    if ids.len() > 0 {
        Ok(ids[0])
    } else {
        Err(WriteError::Io(copy_text("create returned no document id")))
    }
}

fn copy_target(t: &FlushTarget, buffer: &Vec<u8>) -> (r: FlushJob)
    ensures
        r@ == (match t@ {
            TargetView::Existing { ctx, dir, doc_id } => FlushJobView::Update {
                ctx,
                dir,
                doc_id,
                buffer: buffer@,
            },
            TargetView::Create { ctx, dir, dir_ino, name } => FlushJobView::Create {
                ctx,
                dir,
                dir_ino,
                name,
                buffer: buffer@,
            },
        }),
{
    let b = copy_bytes(buffer.as_slice(), 0, buffer.len());
    assert(b@ =~= buffer@);
    match t {
        FlushTarget::Existing { ctx, dir, doc_id } => FlushJob::Update {
            ctx: copy_text(ctx.as_str()),
            dir: copy_text(dir.as_str()),
            doc_id: *doc_id,
            buffer: b,
        },
        FlushTarget::Create { ctx, dir, dir_ino, name } => FlushJob::Create {
            ctx: copy_text(ctx.as_str()),
            dir: copy_text(dir.as_str()),
            dir_ino: *dir_ino,
            name: copy_text(name.as_str()),
            buffer: b,
        },
    }
}

impl WriteStore {
    /// Begins to save a file, at any flush but the last.
    pub fn flush(&mut self, ino: u64) -> (r: FlushJob)
        ensures
            r@ == old(self)@.flush_job(ino, false),
            final(self)@ == old(self)@.flushing(ino, false),
    {
        self.flush_inner(ino, false)
    }

    /// Begins to save a file at its last flush: an empty new file is saved too.
    pub fn flush_final(&mut self, ino: u64) -> (r: FlushJob)
        ensures
            r@ == old(self)@.flush_job(ino, true),
            final(self)@ == old(self)@.flushing(ino, true),
    {
        self.flush_inner(ino, true)
    }

    fn flush_inner(&mut self, ino: u64, last: bool) -> (r: FlushJob)
        ensures
            r@ == old(self)@.flush_job(ino, last),
            final(self)@ == old(self)@.flushing(ino, last),
    {
        let job = match self.states.get(&ino) {
            Some(s) => if s.dirty && (last || s.buffer.len() > 0 || matches!(s.target, FlushTarget::Existing {
                ..
            })) {
                copy_target(&s.target, &s.buffer)
            } else {
                FlushJob::Done
            },
            None => FlushJob::Done,
        };
        if !matches!(job, FlushJob::Done) {
            self.mark(ino, false);
        }
        job
    }

    /// Marks a file as to be saved, or as saved.
    fn mark(&mut self, ino: u64, dirty: bool)
        ensures
            final(self)@ == old(self)@.mark(ino, dirty),
    {
        let ghost w0 = self@;
        match self.take_state(ino) {
            Some(mut s) => {
                s.dirty = dirty;
                self.put_state(ino, s);
                assert(self@ =~= w0.mark(ino, dirty));
            },
            None => {
                assert(self@ =~= w0);
            },
        }
    }

    /// Lets a file be saved to another document.
    fn retarget(&mut self, ino: u64, target: FlushTarget)
        ensures
            final(self)@ == old(self)@.retarget(ino, target@),
    {
        let ghost w0 = self@;
        let ghost t = target@;
        match self.take_state(ino) {
            Some(mut s) => {
                s.target = target;
                self.put_state(ino, s);
                assert(self@ =~= w0.retarget(ino, t));
            },
            None => {
                assert(self@ =~= w0);
            },
        }
    }

    /// Ends a save with what came of it: for a new file, the document that was made, whose name
    /// is on disk by now. Where it failed, the data is kept, so that the user can save again.
    pub fn finish_flush(
        &mut self,
        tree: &mut Tree,
        names: &mut NameStore,
        ino: u64,
        job: FlushJob,
        outcome: Result<u64, WriteError>,
    ) -> (r: Result<(), WriteError>)
        ensures
            (match (job@, outcome) {
                (FlushJobView::Done, _) => r is Ok && final(self)@ == old(self)@ && final(tree)@
                    == old(tree)@ && final(names)@ == old(names)@,
                (_, Err(e)) => r == Err::<(), WriteError>(e) && final(self)@ == old(self)@.mark(
                    ino,
                    true,
                ) && final(tree)@ == old(tree)@ && final(names)@ == old(names)@,
                (FlushJobView::Update { ctx, doc_id, buffer, .. }, Ok(_)) => {
                    &&& r is Ok
                    &&& final(self)@ == old(self)@
                    &&& final(names)@ == old(names)@
                    &&& is_saved(old(tree)@, final(tree)@, ctx, doc_id, buffer)
                },
                (FlushJobView::Create { ctx, dir, dir_ino, name, buffer }, Ok(doc)) => {
                    &&& r is Ok
                    &&& final(self)@ == old(self)@.adopted(ino, ctx, dir, dir_ino, name, doc)
                    &&& final(names)@ == old(names)@.insert(names::name_key(ctx, dir, doc), name)
                    &&& is_adopted(
                        old(tree)@,
                        final(tree)@,
                        dir_ino,
                        name,
                        ctx,
                        doc,
                        ino,
                        buffer,
                    )
                },
            }),
            final(names).unsaved() == old(names).unsaved(),
    {
        if matches!(job, FlushJob::Done) {
            return Ok(());
        }
        match outcome {
            Err(e) => {
                self.mark(ino, true);
                Err(e)
            },
            Ok(doc) => {
                match job {
                    FlushJob::Done => {},
                    FlushJob::Update { ctx, dir, doc_id, buffer } => {
                        show_saved(tree, ctx.as_str(), doc_id, buffer);
                    },
                    FlushJob::Create { ctx, dir, dir_ino, name, buffer } => {
                        let ghost w0 = self@;
                        let ghost c = ctx@;
                        let ghost d = dir@;
                        let ghost n = name@;
                        let ghost b = buffer@;
                        names.load(
                            names::key(ctx.as_str(), dir.as_str(), doc),
                            copy_text(name.as_str()),
                        );
                        tree.adopt_document(
                            dir_ino,
                            name.as_str(),
                            ctx.as_str(),
                            doc,
                            ino,
                            Arc::new(buffer),
                        );
                        assert(is_adopted(old(tree)@, tree@, dir_ino, n, c, doc, ino, b));
                        self.retarget(ino, FlushTarget::Existing { ctx, dir, doc_id: doc });
                        let ghost w1 = self@;
                        self.overlay.remove(ino);
                        self.overlay_names.forget(&Forget::Doc(name, dir_ino));
                        self.own_docs.insert(doc);
                        assert(self@ =~= w0.adopted(ino, c, d, dir_ino, n, doc));
                    },
                }
                Ok(())
            },
        }
    }

    /// Counts one handle less on a file.
    pub fn release(&mut self, ino: u64)
        ensures
            final(self)@ == old(self)@.release(ino),
    {
        let ghost w0 = self@;
        match self.take_state(ino) {
            Some(mut s) => {
                if s.refs <= 1 {
                    self.overlay.remove(ino);
                    self.overlay_names.forget(&Forget::Ino(ino));
                    assert(self@ =~= w0.release(ino));
                } else {
                    s.refs = s.refs - 1;
                    self.put_state(ino, s);
                    assert(self@ =~= w0.release(ino));
                }
            },
            None => {
                assert(self@ =~= w0);
            },
        }
    }
}

// ── remove, rename ───────────────────────────────────────────────────────────

impl WriteView {
    /// The inode of a name in a directory, where the file has no document yet.
    pub open spec fn pending(self, dir_ino: u64, name: Seq<char>) -> Option<u64> {
        if self.names.contains_key((name, dir_ino)) {
            Some(self.names[(name, dir_ino)])
        } else {
            None
        }
    }

    /// Without a name of a file that has no document yet.
    pub open spec fn forget_name(self, dir_ino: u64, name: Seq<char>) -> WriteView {
        WriteView {
            names: docmap::forgotten(self.names, ForgetView::Doc(name, dir_ino)),
            ..self
        }
    }

    /// Without a file that has no document yet.
    pub open spec fn drop_pending(self, dir_ino: u64, name: Seq<char>, ino: u64) -> WriteView {
        let w = self.forget_name(dir_ino, name);
        WriteView { states: w.states.remove(ino), overlay: w.overlay.remove(ino), ..w }
    }

    /// With another name of a file that has no document yet.
    pub open spec fn name_pending(self, ino: u64, name: Seq<char>) -> WriteView {
        if self.overlay.contains_key(ino) {
            WriteView {
                overlay: self.overlay.insert(ino, PendingView { name, ..self.overlay[ino] }),
                ..self
            }
        } else {
            self
        }
    }

    /// With a file that has no document yet renamed to a name that no document has.
    pub open spec fn rename_pending(
        self,
        ino: u64,
        dir_ino: u64,
        src_name: Seq<char>,
        dst_name: Seq<char>,
    ) -> WriteView {
        let w = self.forget_name(dir_ino, src_name).name_pending(ino, dst_name);
        let v = WriteView { names: w.names.insert((dst_name, dir_ino), ino), ..w };
        if v.states.contains_key(ino) {
            match v.states[ino].target {
                TargetView::Create { ctx, dir, dir_ino: d, .. } => v.retarget(
                    ino,
                    TargetView::Create { ctx, dir, dir_ino: d, name: dst_name },
                ),
                _ => v,
            }
        } else {
            v
        }
    }

    /// With a file that has no document yet renamed over one that has: saves go to that document.
    /// The entry stays until the handle closes, since the kernel still looks the file up by it.
    pub open spec fn replace_pending(
        self,
        ino: u64,
        dir_ino: u64,
        src_name: Seq<char>,
        dst_name: Seq<char>,
        ctx: Seq<char>,
        dir: Seq<char>,
        doc_id: u64,
    ) -> WriteView {
        self.forget_name(dir_ino, src_name).retarget(
            ino,
            TargetView::Existing { ctx, dir, doc_id },
        ).mark(ino, true).name_pending(ino, dst_name)
    }

    /// What a removal does at once.
    pub open spec fn unlink(self, dir_ino: u64, name: Seq<char>) -> WriteView {
        match self.pending(dir_ino, name) {
            Some(ino) => self.drop_pending(dir_ino, name, ino),
            None => self,
        }
    }
}

/// The tree after one document's file was renamed over another's: the name carries the inode of
/// the source, as the kernel expects, and shows the document of the destination.
pub open spec fn replaced_tree(
    t: TreeView,
    ctx: Seq<char>,
    src_ino: u64,
    dst_ino: u64,
    src_doc: u64,
    dst_doc: u64,
    dst_name: Seq<char>,
    content: Seq<u8>,
    now: SystemTime,
) -> TreeView {
    t.remove_doc(dst_ino).forget(ForgetView::Doc(ctx, src_doc)).rename_entry(
        src_ino,
        dst_name,
    ).bind(ctx, dst_doc, src_ino).set_content(src_ino, ContentView::Inline(content), now)
}

/// Whether a removal is one of a document's file, and what it takes.
pub open spec fn is_removal(
    w: WriteView,
    t: TreeView,
    dir_ino: u64,
    name: Seq<char>,
    ino: u64,
    ctx: Seq<char>,
    doc_id: u64,
    own: bool,
) -> bool {
    &&& w.pending(dir_ino, name) is None
    &&& writable_dir(t, dir_ino) is Some
    &&& ctx == (writable_dir(t, dir_ino)->0).0
    &&& t.lookup(dir_ino, name) == Some(ino)
    &&& is_doc(t, ino, doc_id)
    &&& own == w.own.contains(doc_id)
}

/// Whether a rename gives a document's file a name that is free, and what it takes.
pub open spec fn is_naming(
    w: WriteView,
    t: TreeView,
    dir_ino: u64,
    src: Seq<char>,
    dst: Seq<char>,
    ino: u64,
    ctx: Seq<char>,
    dir: Seq<char>,
    doc_id: u64,
) -> bool {
    &&& w.pending(dir_ino, src) is None
    &&& writable_dir(t, dir_ino) == Some((ctx, dir))
    &&& t.lookup(dir_ino, src) == Some(ino)
    &&& is_doc(t, ino, doc_id)
    &&& t.lookup(dir_ino, dst) is None
}

/// Whether a rename puts one document's file in place of another's, and what it takes.
pub open spec fn is_replacing(
    w: WriteView,
    t: TreeView,
    dir_ino: u64,
    src: Seq<char>,
    dst: Seq<char>,
    src_ino: u64,
    dst_ino: u64,
    ctx: Seq<char>,
    dir: Seq<char>,
    src_doc: u64,
    dst_doc: u64,
    content: Seq<u8>,
    own: bool,
) -> bool {
    &&& w.pending(dir_ino, src) is None
    &&& writable_dir(t, dir_ino) == Some((ctx, dir))
    &&& t.lookup(dir_ino, src) == Some(src_ino)
    &&& is_doc(t, src_ino, src_doc)
    &&& t.lookup(dir_ino, dst) == Some(dst_ino)
    &&& is_doc(t, dst_ino, dst_doc)
    &&& t.nodes[src_ino].content == ContentView::Inline(content)
    &&& own == w.own.contains(src_doc)
}

/// What is left of a rename of a file that has no document yet.
pub open spec fn is_pending_rename(
    w: WriteView,
    v: WriteView,
    t: TreeView,
    dir_ino: u64,
    src: Seq<char>,
    dst: Seq<char>,
) -> bool {
    let ino = w.pending(dir_ino, src)->0;
    let (ctx, dir) = writable_dir(t, dir_ino)->0;
    &&& writable_dir(t, dir_ino) is Some
    &&& w.pending(dir_ino, src) is Some
    &&& if t.lookup(dir_ino, dst) is Some && has_doc(t, t.lookup(dir_ino, dst)->0) {
        exists|doc_id: u64| #[trigger]
            is_doc(t, t.lookup(dir_ino, dst)->0, doc_id) && v == w.replace_pending(
                ino,
                dir_ino,
                src,
                dst,
                ctx,
                dir,
                doc_id,
            )
    } else {
        v == w.rename_pending(ino, dir_ino, src, dst)
    }
}

/// Finds the inode of a name in a directory.
fn ino_of(tree: &Tree, dir_ino: u64, name: &str) -> (r: Option<u64>)
    ensures
        r == tree@.lookup(dir_ino, name@),
{
    tree.lookup_ino(dir_ino, name)
}

/// Finds a document that an inode shows.
fn doc_of(tree: &Tree, ino: u64) -> (r: Option<u64>)
    ensures
        (match r {
            Some(d) => is_doc(tree@, ino, d) && has_doc(tree@, ino),
            None => !has_doc(tree@, ino),
        }),
{
    match tree.doc_for_ino(ino) {
        Some((c, d)) => {
            assert(tree@.bound(c@, d, ino));
            Some(d)
        },
        None => None,
    }
}

/// Makes the request that takes a document away: it leaves the context, and is destroyed only
/// where this mount made it.
pub fn removal_request(client: &ApiClient, ctx: &str, doc_id: u64, own: bool) -> (r: Request)
    ensures
        r.sends(
            Method::Delete,
            client.spec_base(),
            api::context_path(
                ctx@,
                if own {
                    "/documents"@
                } else {
                    "/documents/remove"@
                },
            ),
            api::id_array(seq![doc_id]),
        ),
{
    let ids = [doc_id];
    assert(ids@ =~= seq![doc_id]);
    if own {
        client.delete_documents(ctx, &ids)
    } else {
        client.remove_documents(ctx, &ids)
    }
}

impl WriteStore {
    /// Removes a file. One that has no document yet goes at once; a document leaves the context,
    /// and is destroyed only where this mount made it.
    pub fn unlink(&mut self, tree: &Tree, dir_ino: u64, name: &str) -> (r: Result<
        UnlinkJob,
        WriteError,
    >)
        ensures
            (match r {
                Ok(UnlinkJob::Done) => writable_dir(tree@, dir_ino) is Some && old(self)@.pending(
                    dir_ino,
                    name@,
                ) is Some && final(self)@ == old(self)@.unlink(dir_ino, name@),
                Ok(UnlinkJob::Remove { ino, ctx, doc_id, own }) => final(self)@ == old(self)@
                    && is_removal(old(self)@, tree@, dir_ino, name@, ino, ctx@, doc_id, own),
                Err(WriteError::NotPermitted) => final(self)@ == old(self)@ && (writable_dir(
                    tree@,
                    dir_ino,
                ) is None || (old(self)@.pending(dir_ino, name@) is None && tree@.lookup(
                    dir_ino,
                    name@,
                ) is Some && !has_doc(tree@, tree@.lookup(dir_ino, name@)->0))),
                Err(WriteError::NotFound) => final(self)@ == old(self)@ && writable_dir(
                    tree@,
                    dir_ino,
                ) is Some && old(self)@.pending(dir_ino, name@) is None && tree@.lookup(
                    dir_ino,
                    name@,
                ) is None,
                Err(_) => false,
            }),
    {
        let (ctx, dir) = match find_writable_dir(tree, dir_ino) {
            Some(p) => p,
            None => {
                return Err(WriteError::NotPermitted);
            },
        };
        if let Some(ino) = self.overlay_names.get(name, dir_ino) {
            let ghost w0 = self@;
            self.overlay_names.forget(&Forget::Doc(copy_text(name), dir_ino));
            self.overlay.remove(ino);
            self.take_state(ino);
            assert(self@ =~= w0.drop_pending(dir_ino, name@, ino));
            return Ok(UnlinkJob::Done);
        }
        let ino = match ino_of(tree, dir_ino, name) {
            Some(i) => i,
            None => {
                return Err(WriteError::NotFound);
            },
        };
        match doc_of(tree, ino) {
            Some(doc_id) => Ok(
                UnlinkJob::Remove { ino, ctx, doc_id, own: self.own_docs.contains(&doc_id) },
            ),
            None => Err(WriteError::NotPermitted),
        }
    }

    /// Ends the removal of a document's file with what came of it.
    pub fn finish_unlink(
        &mut self,
        tree: &mut Tree,
        ino: u64,
        outcome: Result<(), WriteError>,
    ) -> (r: Result<(), WriteError>)
        ensures
            r == outcome,
            (match outcome {
                Ok(_) => final(tree)@ == old(tree)@.remove_doc(ino) && final(self)@ == (WriteView {
                    states: old(self)@.states.remove(ino),
                    ..old(self)@
                }),
                Err(_) => final(tree)@ == old(tree)@ && final(self)@ == old(self)@,
            }),
    {
        if outcome.is_ok() {
            tree.remove_doc_node(ino);
            self.take_state(ino);
        }
        outcome
    }

    /// Gives a file that has no document yet another name.
    fn name_pending(&mut self, ino: u64, name: &str)
        ensures
            final(self)@ == old(self)@.name_pending(ino, name@),
    {
        let ghost w0 = self@;
        match self.overlay.remove(ino) {
            Some(mut p) => {
                p.name = copy_text(name);
                self.overlay.insert(ino, p);
                assert(self@.overlay =~= w0.name_pending(ino, name@).overlay);
                assert(self@ =~= w0.name_pending(ino, name@));
            },
            None => {
                assert(self@.overlay =~= w0.overlay);
                assert(self@ =~= w0);
            },
        }
    }

    /// Renames a file that has no document yet.
    fn rename_overlay(
        &mut self,
        tree: &Tree,
        ino: u64,
        dir_ino: u64,
        src_name: &str,
        dst_name: &str,
        ctx: String,
        dir: String,
    )
        requires
            old(self)@.pending(dir_ino, src_name@) == Some(ino),
            writable_dir(tree@, dir_ino) == Some((ctx@, dir@)),
        ensures
            is_pending_rename(old(self)@, final(self)@, tree@, dir_ino, src_name@, dst_name@),
    {
        let ghost w0 = self@;
        let ghost c = ctx@;
        let ghost d = dir@;
        self.overlay_names.forget(&Forget::Doc(copy_text(src_name), dir_ino));
        let ghost w1 = w0.forget_name(dir_ino, src_name@);
        assert(self@ =~= w1);
        let doc = match ino_of(tree, dir_ino, dst_name) {
            Some(i) => doc_of(tree, i),
            None => None,
        };
        match doc {
            Some(doc_id) => {
                self.retarget(ino, FlushTarget::Existing { ctx, dir, doc_id });
                self.mark(ino, true);
                self.name_pending(ino, dst_name);
                assert(self@ == w0.replace_pending(
                    ino,
                    dir_ino,
                    src_name@,
                    dst_name@,
                    c,
                    d,
                    doc_id,
                ));
            },
            None => {
                self.name_pending(ino, dst_name);
                let ghost w2 = self@;
                self.overlay_names.insert(dst_name, dir_ino, ino);
                let ghost w3 = WriteView { names: w2.names.insert((dst_name@, dir_ino), ino), ..w2 };
                assert(self@ =~= w3);
                let target = match self.states.get(&ino) {
                    Some(s) => match &s.target {
                        FlushTarget::Create { ctx: c2, dir: d2, dir_ino: i2, .. } => Some(
                            FlushTarget::Create {
                                ctx: copy_text(c2.as_str()),
                                dir: copy_text(d2.as_str()),
                                dir_ino: *i2,
                                name: copy_text(dst_name),
                            },
                        ),
                        _ => None,
                    },
                    None => None,
                };
                if let Some(t) = target {
                    self.retarget(ino, t);
                }
                assert(self@ =~= w0.rename_pending(ino, dir_ino, src_name@, dst_name@));
            },
        }
    }

    /// Renames a file within its directory. A rename across directories is refused in the way
    /// that makes programs fall back to copying and removing.
    pub fn rename(
        &mut self,
        tree: &Tree,
        src_dir: u64,
        src_name: &str,
        dst_dir: u64,
        dst_name: &str,
    ) -> (r: Result<RenameJob, WriteError>)
        ensures
            (match r {
                Ok(RenameJob::Done) => src_dir == dst_dir && is_pending_rename(
                    old(self)@,
                    final(self)@,
                    tree@,
                    src_dir,
                    src_name@,
                    dst_name@,
                ),
                Ok(RenameJob::Name { ino, ctx, dir, doc_id }) => src_dir == dst_dir && is_naming(
                    old(self)@,
                    tree@,
                    src_dir,
                    src_name@,
                    dst_name@,
                    ino,
                    ctx@,
                    dir@,
                    doc_id,
                ),
                Ok(
                    RenameJob::Replace {
                        src_ino,
                        dst_ino,
                        ctx,
                        dir,
                        src_doc,
                        dst_doc,
                        content,
                        own,
                    },
                ) => src_dir == dst_dir && is_replacing(
                    old(self)@,
                    tree@,
                    src_dir,
                    src_name@,
                    dst_name@,
                    src_ino,
                    dst_ino,
                    ctx@,
                    dir@,
                    src_doc,
                    dst_doc,
                    content@,
                    own,
                ),
                Err(WriteError::CrossDir) => src_dir != dst_dir,
                Err(WriteError::NotFound) => src_dir == dst_dir && writable_dir(
                    tree@,
                    src_dir,
                ) is Some && old(self)@.pending(src_dir, src_name@) is None && tree@.lookup(
                    src_dir,
                    src_name@,
                ) is None,
                Err(WriteError::NotPermitted) => src_dir == dst_dir && (writable_dir(
                    tree@,
                    src_dir,
                ) is None || (old(self)@.pending(src_dir, src_name@) is None
                    && cannot_rename(tree@, src_dir, src_name@, dst_name@))),
                Err(_) => false,
            }),
            !(r matches Ok(RenameJob::Done)) ==> final(self)@ == old(self)@,
    {
        if src_dir != dst_dir {
            return Err(WriteError::CrossDir);
        }
        let (ctx, dir) = match find_writable_dir(tree, src_dir) {
            Some(p) => p,
            None => {
                return Err(WriteError::NotPermitted);
            },
        };
        if let Some(ino) = self.overlay_names.get(src_name, src_dir) {
            self.rename_overlay(tree, ino, src_dir, src_name, dst_name, ctx, dir);
            return Ok(RenameJob::Done);
        }
        let src_ino = match ino_of(tree, src_dir, src_name) {
            Some(i) => i,
            None => {
                return Err(WriteError::NotFound);
            },
        };
        let src_doc = match doc_of(tree, src_ino) {
            Some(d) => d,
            None => {
                return Err(WriteError::NotPermitted);
            },
        };
        let dst_ino = match ino_of(tree, dst_dir, dst_name) {
            Some(i) => i,
            None => {
                return Ok(RenameJob::Name { ino: src_ino, ctx, dir, doc_id: src_doc });
            },
        };
        let dst_doc = match doc_of(tree, dst_ino) {
            Some(d) => d,
            None => {
                return Err(WriteError::NotPermitted);
            },
        };
        let content = match tree.get(src_ino) {
            Some(node) => match &node.content {
                NodeContent::Inline(b) => copy_bytes((&**b).as_slice(), 0, b.len()),
                _ => {
                    return Err(WriteError::NotPermitted);
                },
            },
            None => {
                return Err(WriteError::NotPermitted);
            },
        };
        proof {
            assert(tree@.nodes[src_ino].content matches ContentView::Inline(b) && b =~= content@);
        }
        Ok(
            RenameJob::Replace {
                src_ino,
                dst_ino,
                ctx,
                dir,
                src_doc,
                dst_doc,
                content,
                own: self.own_docs.contains(&src_doc),
            },
        )
    }

    /// Ends a rename to a free name. The name is on disk by now.
    pub fn finish_name(
        &mut self,
        tree: &mut Tree,
        names: &mut NameStore,
        ino: u64,
        ctx: &str,
        dir: &str,
        doc_id: u64,
        dst_name: &str,
    )
        ensures
            final(self)@ == old(self)@,
            final(tree)@ == old(tree)@.rename_entry(ino, dst_name@),
            final(names)@ == old(names)@.insert(names::name_key(ctx@, dir@, doc_id), dst_name@),
            final(names).unsaved() == old(names).unsaved(),
    {
        names.load(names::key(ctx, dir, doc_id), copy_text(dst_name));
        tree.rename_entry(ino, dst_name);
    }

    /// Ends a rename of one document's file over another's. A handle that is open on the source
    /// now writes the destination's document.
    pub fn finish_replace(
        &mut self,
        tree: &mut Tree,
        src_ino: u64,
        dst_ino: u64,
        ctx: &str,
        dir: &str,
        src_doc: u64,
        dst_doc: u64,
        dst_name: &str,
        content: Vec<u8>,
    )
        ensures
            final(self)@ == old(self)@.retarget(
                src_ino,
                TargetView::Existing { ctx: ctx@, dir: dir@, doc_id: dst_doc },
            ),
            exists|now: SystemTime|
                final(tree)@ == #[trigger] replaced_tree(
                    old(tree)@,
                    ctx@,
                    src_ino,
                    dst_ino,
                    src_doc,
                    dst_doc,
                    dst_name@,
                    content@,
                    now,
                ),
    {
        let ghost t0 = tree@;
        let ghost b = content@;
        tree.remove_doc_node(dst_ino);
        tree.unbind_doc(ctx, src_doc);
        tree.rename_entry(src_ino, dst_name);
        tree.bind_doc(ctx, dst_doc, src_ino);
        let ghost t1 = tree@;
        tree.set_inline_content(src_ino, Arc::new(content));
        proof {
            let now = choose|now: SystemTime|
                tree@ == #[trigger] t1.set_content(src_ino, ContentView::Inline(b), now);
            assert(tree@ == replaced_tree(
                t0,
                ctx@,
                src_ino,
                dst_ino,
                src_doc,
                dst_doc,
                dst_name@,
                b,
                now,
            ));
        }
        self.retarget(
            src_ino,
            FlushTarget::Existing { ctx: copy_text(ctx), dir: copy_text(dir), doc_id: dst_doc },
        );
    }
}

/// Whether a document's file cannot be renamed: it shows no document, or it would replace a file
/// that shows none, or one by a blob.
pub open spec fn cannot_rename(
    t: TreeView,
    dir_ino: u64,
    src: Seq<char>,
    dst: Seq<char>,
) -> bool {
    let s = t.lookup(dir_ino, src);
    let d = t.lookup(dir_ino, dst);
    s is Some && (!has_doc(t, s->0) || (d is Some && (!has_doc(t, d->0)
        || !(t.nodes[s->0].content is Inline))))
}

} // verus!
