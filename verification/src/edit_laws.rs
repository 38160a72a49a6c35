//! What opening, writing, saving and closing does to a file, and that it does nothing else.

use crate::model::{ContentView, LayoutView, TreeView};
use crate::state::{CONTEXTS_INO, ROOT_INO};
use crate::writes;
use crate::writes::{FlushJobView, StateView, TargetView, WriteView};
use std::time::SystemTime;
use vstd::prelude::*;

verus! {

// ── buffers ──────────────────────────────────────────────────────────────────

/// A read gives the bytes from an offset on, as many as are asked for and as many as there are; a
/// negative offset is the start.
pub proof fn law_part(b: Seq<u8>, offset: i64, size: u32)
    ensures
        ({
            let from = if offset > 0 {
                offset as int
            } else {
                0
            };
            let r = writes::part(b, offset, size);
            &&& from >= b.len() ==> r.len() == 0
            &&& from < b.len() && from + size <= b.len() ==> r.len() == size
            &&& from < b.len() && from + size > b.len() ==> r.len() == b.len() - from
            &&& forall|i: int| 0 <= i < r.len() ==> #[trigger] r[i] == b[from + i]
        }),
{
}

/// Two reads, one after the other, give what one longer read gives.
pub proof fn law_reads_join(b: Seq<u8>, offset: i64, n: u32, m: u32)
    requires
        offset >= 0,
        offset + n <= i64::MAX,
        n + m <= u32::MAX,
    ensures
        writes::part(b, offset, n) + writes::part(b, (offset + n) as i64, m) == writes::part(
            b,
            offset,
            (n + m) as u32,
        ),
{
    assert(writes::part(b, offset, n) + writes::part(b, (offset + n) as i64, m) =~= writes::part(
        b,
        offset,
        (n + m) as u32,
    ));
}

/// A write makes a file as long as it takes, puts the data in place, and fills what was not there
/// with zeros. Everything else stays.
pub proof fn law_overwritten(b: Seq<u8>, at: nat, data: Seq<u8>)
    ensures
        ({
            let r = writes::overwritten(b, at, data);
            &&& r.len() >= b.len() && r.len() >= at + data.len()
            &&& r.len() == b.len() || r.len() == at + data.len()
            &&& forall|i: int| 0 <= i < data.len() ==> #[trigger] r[at + i] == data[i]
            &&& forall|i: int|
                0 <= i < b.len() && (i < at || i >= at + data.len()) ==> #[trigger] r[i] == b[i]
            &&& forall|i: int| b.len() <= i < at && i < r.len() ==> #[trigger] r[i] == 0
        }),
{
    let r = writes::overwritten(b, at, data);
    assert forall|i: int| 0 <= i < data.len() implies #[trigger] r[at + i] == data[i] by {}
}

/// A write starts where it is asked to; a negative offset is the start.
pub proof fn law_write_at(offset: i64)
    ensures
        offset >= 0 ==> writes::write_at(offset) == offset,
        offset < 0 ==> writes::write_at(offset) == 0,
{
}

/// A file that is given a size has it: it is cut, or filled with zeros.
pub proof fn law_resized(b: Seq<u8>, size: nat)
    ensures
        ({
            let r = writes::resized(b, size);
            &&& r.len() == size
            &&& forall|i: int| 0 <= i < size && i < b.len() ==> #[trigger] r[i] == b[i]
            &&& forall|i: int| b.len() <= i < size ==> #[trigger] r[i] == 0
        }),
{
}

// ── which files can be written ───────────────────────────────────────────────

/// Whether a directory of a context is one of those that every context has, by a label.
pub open spec fn stands_in_context(t: TreeView, ino: u64, ctx: Seq<char>, label: Seq<char>) -> bool {
    &&& t.nodes.contains_key(ino)
    &&& t.nodes[ino].content is Dir
    &&& t.nodes[ino].name == label
    &&& match t.layout {
        LayoutView::Contexts => {
            let home = t.nodes[ino].parent;
            t.nodes.contains_key(home) && t.nodes[home].parent == CONTEXTS_INO && t.nodes[home].name
                == ctx
        },
        LayoutView::Context(own) => t.nodes[ino].parent == ROOT_INO && ctx == own,
        LayoutView::Workspace { .. } => false,
    }
}

/// The directories that take writes are the notes and the todos of contexts, and no others.
pub proof fn law_notes_and_todos_take_writes(t: TreeView, ino: u64)
    ensures
        forall|ctx: Seq<char>, dir: Seq<char>|
            writes::writable_dir(t, ino) == Some((ctx, dir)) <==> (dir == "Notes"@ || dir
                == "Todos"@) && #[trigger] stands_in_context(t, ino, ctx, dir),
{
    assert(crate::model::label(1) == "Notes"@);
    assert(crate::model::label(2) == "Todos"@);
    assert(crate::model::is_label("Notes"@));
    assert(crate::model::is_label("Todos"@));
}

/// A document's file can be written where its bytes are its own and it stands in the notes or the
/// todos of a context; its buffer starts with those bytes.
pub proof fn law_writable_files(t: TreeView, ino: u64)
    ensures
        (match writes::writable_content(t, ino) {
            Some(b) => t.nodes.contains_key(ino) && t.nodes[ino].content == ContentView::Inline(b)
                && writes::writable_dir(t, t.nodes[ino].parent) is Some && writes::has_doc(t, ino),
            None => t.nodes.contains_key(ino) ==> !(t.nodes[ino].content is Inline)
                || writes::writable_dir(t, t.nodes[ino].parent) is None || !writes::has_doc(t, ino),
        }),
{
}

// ── what changes, and what does not ──────────────────────────────────────────

/// Whether two stores differ in the state of one file at most.
pub open spec fn same_but_state(w: WriteView, v: WriteView, ino: u64) -> bool {
    &&& v.overlay == w.overlay
    &&& v.names == w.names
    &&& v.next_ino == w.next_ino
    &&& v.own == w.own
    &&& forall|i: u64| i != ino ==> (#[trigger] v.states.contains_key(i) <==> w.states.contains_key(i))
    &&& forall|i: u64| i != ino && #[trigger] v.states.contains_key(i) ==> v.states[i] == w.states[i]
}

/// Opening a file once more counts a handle and keeps what was written; opening it empty empties
/// it, which is then to be saved.
pub proof fn law_open(w: WriteView, ino: u64, fresh: StateView, truncate: bool)
    requires
        w.states.contains_key(ino) ==> w.states[ino].refs < u32::MAX,
        fresh.refs < u32::MAX,
    ensures
        ({
            let v = w.open(ino, fresh, truncate);
            let before = if w.states.contains_key(ino) {
                w.states[ino]
            } else {
                fresh
            };
            let after = v.states[ino];
            &&& same_but_state(w, v, ino)
            &&& v.states.contains_key(ino)
            &&& after.refs == before.refs + 1
            &&& after.target == before.target
            &&& truncate ==> after.buffer.len() == 0 && after.dirty
            &&& !truncate ==> after.buffer == before.buffer && after.dirty == before.dirty
        }),
{
}

/// The first opening of a document's file starts with what the file shows, with nothing to save,
/// and saves to that document.
pub proof fn law_first_open(w: WriteView, t: TreeView, ino: u64, doc_id: u64, b: Seq<u8>)
    requires
        !w.states.contains_key(ino),
        writes::writable_content(t, ino) == Some(b),
    ensures
        ({
            let v = w.open_doc(t, ino, doc_id, false);
            let (ctx, dir) = writes::writable_dir(t, t.nodes[ino].parent)->0;
            &&& same_but_state(w, v, ino)
            &&& v.states.contains_key(ino)
            &&& v.states[ino].buffer == b
            &&& !v.states[ino].dirty
            &&& v.states[ino].refs == 1
            &&& v.states[ino].target == (TargetView::Existing { ctx, dir, doc_id })
        }),
{
}

/// A new file is empty, is to be saved as a new document under its name in its directory, has one
/// handle and an inode of its own, and is found by its name. Nothing else changes.
pub proof fn law_create(
    w: WriteView,
    dir_ino: u64,
    name: Seq<char>,
    ctx: Seq<char>,
    dir: Seq<char>,
    now: SystemTime,
)
    requires
        w.next_ino < u64::MAX,
    ensures
        ({
            let v = w.create(dir_ino, name, ctx, dir, now);
            let ino = w.next_ino;
            &&& v.next_ino == w.next_ino + 1
            &&& v.own == w.own
            &&& v.states.contains_key(ino)
            &&& v.states[ino].buffer.len() == 0 && v.states[ino].dirty && v.states[ino].refs == 1
            &&& v.states[ino].target == (TargetView::Create { ctx, dir, dir_ino, name })
            &&& v.overlay.contains_key(ino)
            &&& v.overlay[ino].dir_ino == dir_ino && v.overlay[ino].name == name
                && v.overlay[ino].mtime == now
            &&& v.names.contains_key((name, dir_ino)) && v.names[(name, dir_ino)] == ino
            &&& forall|i: u64| i != ino ==> (#[trigger] v.states.contains_key(i) <==> w.states.contains_key(i))
            &&& forall|i: u64|
                i != ino && #[trigger] v.states.contains_key(i) ==> v.states[i] == w.states[i]
            &&& forall|i: u64|
                i != ino ==> (#[trigger] v.overlay.contains_key(i) <==> w.overlay.contains_key(i))
            &&& forall|i: u64|
                i != ino && #[trigger] v.overlay.contains_key(i) ==> v.overlay[i] == w.overlay[i]
            &&& forall|k: (Seq<char>, u64)|
                k != (name, dir_ino) ==> (#[trigger] v.names.contains_key(k) <==> w.names.contains_key(k))
            &&& forall|k: (Seq<char>, u64)|
                k != (name, dir_ino) && #[trigger] v.names.contains_key(k) ==> v.names[k]
                    == w.names[k]
        }),
{
}

/// An edit changes the buffer, which is then to be saved, and nothing else.
pub proof fn law_edit(w: WriteView, ino: u64, buffer: Seq<u8>)
    requires
        w.states.contains_key(ino),
    ensures
        ({
            let v = w.edit(ino, buffer);
            &&& same_but_state(w, v, ino)
            &&& v.states.contains_key(ino)
            &&& v.states[ino].buffer == buffer
            &&& v.states[ino].dirty
            &&& v.states[ino].refs == w.states[ino].refs
            &&& v.states[ino].target == w.states[ino].target
        }),
{
}

/// What a flush sends is the whole buffer, to the document that the file shows, or as a new
/// document under its name. It sends nothing where nothing was written, and an empty new file
/// waits for the last flush.
pub proof fn law_flush_sends_the_buffer(w: WriteView, ino: u64, last: bool)
    ensures
        ({
            let s = w.states[ino];
            let job = w.flush_job(ino, last);
            &&& !w.states.contains_key(ino) || !s.dirty ==> job is Done
            &&& w.states.contains_key(ino) && s.dirty ==> (match s.target {
                TargetView::Existing { ctx, dir, doc_id } => job == (FlushJobView::Update {
                    ctx,
                    dir,
                    doc_id,
                    buffer: s.buffer,
                }),
                TargetView::Create { ctx, dir, dir_ino, name } => if s.buffer.len() > 0 || last {
                    job == (FlushJobView::Create { ctx, dir, dir_ino, name, buffer: s.buffer })
                } else {
                    job is Done
                },
            })
        }),
{
}

/// A save that begins marks the file as saved and changes nothing else; a file with nothing to
/// send is left as it is.
pub proof fn law_flushing(w: WriteView, ino: u64, last: bool)
    ensures
        ({
            let v = w.flushing(ino, last);
            &&& same_but_state(w, v, ino)
            &&& v.states.contains_key(ino) <==> w.states.contains_key(ino)
            &&& w.states.contains_key(ino) ==> {
                &&& v.states[ino].buffer == w.states[ino].buffer
                &&& v.states[ino].refs == w.states[ino].refs
                &&& v.states[ino].target == w.states[ino].target
                &&& v.states[ino].dirty <==> w.states[ino].dirty && w.flush_job(ino, last) is Done
            }
        }),
{
    assert(w.states.contains_key(ino) ==> w.states.insert(ino, w.states[ino]) =~= w.states);
}

/// The first save of a new file lets further saves go to the document that was made, which this
/// mount may destroy; the file is then no longer one without a document. Nothing else changes.
pub proof fn law_adopted(
    w: WriteView,
    ino: u64,
    ctx: Seq<char>,
    dir: Seq<char>,
    dir_ino: u64,
    name: Seq<char>,
    doc_id: u64,
)
    ensures
        ({
            let v = w.adopted(ino, ctx, dir, dir_ino, name, doc_id);
            &&& v.next_ino == w.next_ino
            &&& forall|d: u64| #[trigger] v.own.contains(d) <==> w.own.contains(d) || d == doc_id
            &&& !v.overlay.contains_key(ino)
            &&& forall|i: u64|
                i != ino ==> (#[trigger] v.overlay.contains_key(i) <==> w.overlay.contains_key(i))
            &&& forall|i: u64|
                i != ino && #[trigger] v.overlay.contains_key(i) ==> v.overlay[i] == w.overlay[i]
            &&& !v.names.contains_key((name, dir_ino))
            &&& forall|k: (Seq<char>, u64)|
                k != (name, dir_ino) ==> (#[trigger] v.names.contains_key(k) <==> w.names.contains_key(k))
            &&& forall|k: (Seq<char>, u64)| #[trigger]
                v.names.contains_key(k) ==> v.names[k] == w.names[k]
            &&& forall|i: u64| #[trigger] v.states.contains_key(i) <==> w.states.contains_key(i)
            &&& forall|i: u64|
                i != ino && #[trigger] v.states.contains_key(i) ==> v.states[i] == w.states[i]
            &&& w.states.contains_key(ino) ==> v.states[ino] == (StateView {
                target: TargetView::Existing { ctx, dir, doc_id },
                ..w.states[ino]
            })
        }),
{
}

/// Closing a handle counts it. With the last handle the buffer goes, and with it what is left of a
/// file that got no document; other files are left alone.
pub proof fn law_release(w: WriteView, ino: u64)
    ensures
        ({
            let v = w.release(ino);
            let refs = w.states[ino].refs;
            &&& v.next_ino == w.next_ino && v.own == w.own
            &&& forall|i: u64| i != ino ==> (#[trigger] v.states.contains_key(i) <==> w.states.contains_key(i))
            &&& forall|i: u64|
                i != ino && #[trigger] v.states.contains_key(i) ==> v.states[i] == w.states[i]
            &&& forall|i: u64|
                i != ino ==> (#[trigger] v.overlay.contains_key(i) <==> w.overlay.contains_key(i))
            &&& forall|i: u64| #[trigger] v.overlay.contains_key(i) ==> v.overlay[i] == w.overlay[i]
            &&& forall|k: (Seq<char>, u64)| #[trigger]
                v.names.contains_key(k) ==> w.names.contains_key(k) && v.names[k] == w.names[k]
            &&& forall|k: (Seq<char>, u64)| #[trigger]
                w.names.contains_key(k) && w.names[k] != ino ==> v.names.contains_key(k)
            &&& w.states.contains_key(ino) && refs > 1 ==> {
                &&& v.states.contains_key(ino)
                &&& v.states[ino] == (StateView { refs: (refs - 1) as u32, ..w.states[ino] })
                &&& v.overlay == w.overlay && v.names == w.names
            }
            &&& w.states.contains_key(ino) && refs <= 1 ==> {
                &&& !v.states.contains_key(ino)
                &&& !v.overlay.contains_key(ino)
                &&& forall|k: (Seq<char>, u64)| #[trigger] v.names.contains_key(k) ==> v.names[k] != ino
            }
            &&& !w.states.contains_key(ino) ==> v == w
        }),
{
}

// ── removing and renaming ────────────────────────────────────────────────────

/// Whether names other than one lead where they led.
pub open spec fn same_other_names(w: WriteView, v: WriteView, name: Seq<char>, dir_ino: u64) -> bool {
    &&& forall|k: (Seq<char>, u64)|
        k != (name, dir_ino) ==> (#[trigger] v.names.contains_key(k) <==> w.names.contains_key(k))
    &&& forall|k: (Seq<char>, u64)|
        k != (name, dir_ino) && #[trigger] v.names.contains_key(k) ==> v.names[k] == w.names[k]
}

/// Removing a file that has no document yet takes it away with its buffer, and nothing else.
pub proof fn law_unlink_pending(w: WriteView, dir_ino: u64, name: Seq<char>)
    ensures
        ({
            let v = w.unlink(dir_ino, name);
            let ino = w.names[(name, dir_ino)];
            &&& v.next_ino == w.next_ino && v.own == w.own
            &&& same_other_names(w, v, name, dir_ino)
            &&& !v.names.contains_key((name, dir_ino))
            &&& w.names.contains_key((name, dir_ino)) ==> v.states == w.states.remove(ino)
                && v.overlay == w.overlay.remove(ino)
            &&& !w.names.contains_key((name, dir_ino)) ==> v == w
        }),
{
}

/// Renaming a file that has no document yet to a name that no document has: it is found by the
/// new name and no longer by the old one, is saved under the new name, and keeps its buffer.
pub proof fn law_rename_pending(
    w: WriteView,
    ino: u64,
    dir_ino: u64,
    src: Seq<char>,
    dst: Seq<char>,
)
    requires
        src != dst,
        w.overlay.contains_key(ino),
        w.states.contains_key(ino),
    ensures
        ({
            let v = w.rename_pending(ino, dir_ino, src, dst);
            let a = w.states[ino];
            let b = v.states[ino];
            &&& v.next_ino == w.next_ino && v.own == w.own
            &&& !v.names.contains_key((src, dir_ino))
            &&& v.names.contains_key((dst, dir_ino)) && v.names[(dst, dir_ino)] == ino
            &&& forall|k: (Seq<char>, u64)|
                k != (src, dir_ino) && k != (dst, dir_ino) ==> (#[trigger] v.names.contains_key(k)
                    <==> w.names.contains_key(k))
            &&& forall|k: (Seq<char>, u64)|
                k != (dst, dir_ino) && #[trigger] v.names.contains_key(k) ==> v.names[k] == w.names[k]
            &&& v.overlay[ino].name == dst && v.overlay[ino].dir_ino == w.overlay[ino].dir_ino
                && v.overlay[ino].mtime == w.overlay[ino].mtime
            &&& v.overlay.remove(ino) == w.overlay.remove(ino)
            &&& v.states.contains_key(ino)
            &&& v.states.remove(ino) == w.states.remove(ino)
            &&& b.buffer == a.buffer && b.dirty == a.dirty && b.refs == a.refs
            &&& (match a.target {
                TargetView::Create { ctx, dir, dir_ino: d, .. } => b.target == (TargetView::Create {
                    ctx,
                    dir,
                    dir_ino: d,
                    name: dst,
                }),
                _ => b.target == a.target,
            })
        }),
{
    let v = w.rename_pending(ino, dir_ino, src, dst);
    assert(v.overlay.remove(ino) =~= w.overlay.remove(ino));
    assert(v.states.remove(ino) =~= w.states.remove(ino));
}

/// Renaming a file that has no document yet over a document's file: what is in its buffer is then
/// to be saved to that document, and it is no longer found by its old name.
pub proof fn law_replace_pending(
    w: WriteView,
    ino: u64,
    dir_ino: u64,
    src: Seq<char>,
    dst: Seq<char>,
    ctx: Seq<char>,
    dir: Seq<char>,
    doc_id: u64,
)
    requires
        w.overlay.contains_key(ino),
        w.states.contains_key(ino),
    ensures
        ({
            let v = w.replace_pending(ino, dir_ino, src, dst, ctx, dir, doc_id);
            let a = w.states[ino];
            let b = v.states[ino];
            &&& v.next_ino == w.next_ino && v.own == w.own
            &&& same_other_names(w, v, src, dir_ino)
            &&& !v.names.contains_key((src, dir_ino))
            &&& v.overlay[ino].name == dst && v.overlay[ino].dir_ino == w.overlay[ino].dir_ino
            &&& v.overlay.remove(ino) == w.overlay.remove(ino)
            &&& v.states.contains_key(ino)
            &&& v.states.remove(ino) == w.states.remove(ino)
            &&& b.buffer == a.buffer && b.dirty && b.refs == a.refs
            &&& b.target == (TargetView::Existing { ctx, dir, doc_id })
        }),
{
    let v = w.replace_pending(ino, dir_ino, src, dst, ctx, dir, doc_id);
    assert(v.overlay.remove(ino) =~= w.overlay.remove(ino));
    assert(v.states.remove(ino) =~= w.states.remove(ino));
}

/// A rename of a document's file leaves its buffer, its handles and what is to be saved alone; a
/// handle on a file that replaced another writes the document that was replaced.
pub proof fn law_retarget(w: WriteView, ino: u64, target: TargetView)
    ensures
        ({
            let v = w.retarget(ino, target);
            &&& same_but_state(w, v, ino)
            &&& v.states.contains_key(ino) <==> w.states.contains_key(ino)
            &&& w.states.contains_key(ino) ==> v.states[ino] == (StateView {
                target,
                ..w.states[ino]
            })
        }),
{
}

/// A document that leaves is destroyed only where this mount made it.
pub proof fn law_only_own_documents_are_destroyed(
    w: WriteView,
    t: TreeView,
    dir_ino: u64,
    name: Seq<char>,
    ino: u64,
    ctx: Seq<char>,
    doc_id: u64,
    own: bool,
)
    requires
        writes::is_removal(w, t, dir_ino, name, ino, ctx, doc_id, own),
    ensures
        own <==> w.own.contains(doc_id),
        t.entries(dir_ino).contains_key(name) && t.entries(dir_ino)[name] == ino,
        exists|c: Seq<char>| t.docs.contains_key((c, doc_id)) && #[trigger] t.docs[(c, doc_id)] == ino,
        exists|dir: Seq<char>|
            (dir == "Notes"@ || dir == "Todos"@) && #[trigger] stands_in_context(
                t,
                dir_ino,
                ctx,
                dir,
            ),
{
    law_notes_and_todos_take_writes(t, dir_ino);
    let (c, d) = writes::writable_dir(t, dir_ino)->0;
    assert(stands_in_context(t, dir_ino, c, d));
    let x = choose|x: Seq<char>| #[trigger] t.bound(x, doc_id, ino);
    assert(t.docs[(x, doc_id)] == ino);
}

/// A new file needs a directory that takes writes and a name that nothing has there, be it shown
/// already or still to be saved. A name that was taken for a new file is not taken again; the other
/// names stay as free as they were.
pub proof fn law_new_files_need_free_names(
    w: WriteView,
    t: TreeView,
    dir_ino: u64,
    name: Seq<char>,
    ctx: Seq<char>,
    dir: Seq<char>,
    now: SystemTime,
    other: Seq<char>,
)
    ensures
        w.takes_name(t, dir_ino, name) ==> w.pending(dir_ino, name) is None && t.lookup(
            dir_ino,
            name,
        ) is None && t.is_dir(dir_ino) && (t.nodes[dir_ino].name == "Notes"@
            || t.nodes[dir_ino].name == "Todos"@),
        writes::writable_dir(t, dir_ino) is Some && t.lookup(dir_ino, name) is None && w.pending(
            dir_ino,
            name,
        ) is None ==> w.takes_name(t, dir_ino, name),
        !w.create(dir_ino, name, ctx, dir, now).takes_name(t, dir_ino, name),
        other != name ==> w.create(dir_ino, name, ctx, dir, now).takes_name(t, dir_ino, other)
            == w.takes_name(t, dir_ino, other),
{
    let v = w.create(dir_ino, name, ctx, dir, now);
    assert(v.names.contains_key((name, dir_ino)));
}

/// What is no document cannot be renamed, nor take the name of what is none; and a document that is
/// not edited as text cannot take another's name. Everything else that is there can be renamed.
pub proof fn law_what_cannot_be_renamed(
    t: TreeView,
    dir_ino: u64,
    src: Seq<char>,
    dst: Seq<char>,
    i: u64,
)
    requires
        t.lookup(dir_ino, src) == Some(i),
    ensures
        !writes::has_doc(t, i) ==> writes::cannot_rename(t, dir_ino, src, dst),
        writes::has_doc(t, i) && t.lookup(dir_ino, dst) is None ==> !writes::cannot_rename(
            t,
            dir_ino,
            src,
            dst,
        ),
        writes::has_doc(t, i) ==> forall|j: u64|
            t.lookup(dir_ino, dst) == Some(j) ==> (writes::cannot_rename(t, dir_ino, src, dst)
                <==> !(#[trigger] writes::has_doc(t, j)) || !(t.nodes[i].content is Inline)),
{
}

} // verus!
