//! What writing promises as a whole.

use crate::docmap;
use crate::docmap::ForgetView;
use crate::listing;
use crate::model::{ContentView, TreeView};
use crate::state::{FIRST_OVERLAY_INO, ROOT_INO};
use crate::wellformed;
use crate::writes;
use crate::writes::{StateView, TargetView, WriteView};
use std::time::SystemTime;
use vstd::prelude::*;

verus! {

// ── buffers ──────────────────────────────────────────────────────────────────

/// What was written at an offset is what is then read there.
pub proof fn law_read_after_write(buffer: Seq<u8>, offset: i64, data: Seq<u8>)
    requires
        data.len() <= u32::MAX,
    ensures
        writes::part(
            writes::overwritten(buffer, writes::write_at(offset), data),
            offset,
            data.len() as u32,
        ) == data,
{
    let at = writes::write_at(offset);
    let b = writes::overwritten(buffer, at, data);
    assert(writes::part(b, offset, data.len() as u32) =~= data);
}

/// A write changes nothing before and nothing behind what is written.
pub proof fn law_write_keeps_the_rest(buffer: Seq<u8>, at: nat, data: Seq<u8>, i: int)
    requires
        0 <= i < buffer.len(),
        i < at || i >= at + data.len(),
    ensures
        writes::overwritten(buffer, at, data).len() >= buffer.len(),
        writes::overwritten(buffer, at, data)[i] == buffer[i],
{
}

// ── the invariant ────────────────────────────────────────────────────────────

impl WriteView {
    /// What holds of every store: names lead to files that know their names, a file that has no
    /// document yet is one of these, and each state counts a handle.
    pub open spec fn wf(self) -> bool {
        &&& self.next_ino >= FIRST_OVERLAY_INO
        &&& forall|i: u64| #[trigger]
            self.overlay.contains_key(i) ==> FIRST_OVERLAY_INO <= i < self.next_ino
        &&& forall|k: (Seq<char>, u64)| #[trigger]
            self.names.contains_key(k) ==> {
                let i = self.names[k];
                &&& self.overlay.contains_key(i)
                &&& self.overlay[i].name == k.0
                &&& self.overlay[i].dir_ino == k.1
            }
        &&& forall|i: u64| #[trigger]
            self.states.contains_key(i) ==> {
                &&& i < self.next_ino
                &&& self.states[i].refs >= 1
                &&& self.states[i].target is Create ==> {
                    &&& self.overlay.contains_key(i)
                    &&& self.overlay[i].name == self.states[i].target->name
                    &&& self.overlay[i].dir_ino == self.states[i].target->dir_ino
                }
            }
    }
}

/// Whether a directory is one that a document's file can be put in, or is gone.
pub open spec fn may_take_files(t: TreeView, dir: u64) -> bool {
    &&& dir < t.next_ino
    &&& !t.is_file(dir)
    &&& !t.is_home(dir)
    &&& forall|id: Seq<char>| #[trigger] t.contexts.contains_key(id) ==> t.contexts[id] != dir
}

/// Whether a store fits a tree: no file of the tree has an inode that the store has yet to hand
/// out, and a file that has no document yet is not in the tree.
pub open spec fn fits(w: WriteView, t: TreeView) -> bool {
    &&& forall|i: u64| #[trigger] t.nodes.contains_key(i) ==> i < w.next_ino
    &&& forall|i: u64| #[trigger] t.children.contains_key(i) ==> i < w.next_ino
    &&& forall|i: u64| #[trigger]
        w.states.contains_key(i) && w.states[i].target is Create ==> {
            &&& !t.nodes.contains_key(i)
            &&& !t.children.contains_key(i)
            &&& may_take_files(t, w.states[i].target->dir_ino)
            &&& forall|k: (Seq<char>, u64)| #[trigger] t.docs.contains_key(k) ==> t.docs[k] != i
        }
    &&& forall|k: (Seq<char>, u64)| #[trigger] t.docs.contains_key(k) ==> t.docs[k] < w.next_ino
}

/// A store that nothing is written to is well-formed, and fits a tree with no other files.
pub proof fn law_new_store_fits(t: TreeView)
    requires
        t.wf(),
        forall|i: u64| #[trigger] t.nodes.contains_key(i) ==> i < FIRST_OVERLAY_INO,
        forall|i: u64| #[trigger] t.children.contains_key(i) ==> i < FIRST_OVERLAY_INO,
        forall|k: (Seq<char>, u64)| #[trigger]
            t.docs.contains_key(k) ==> t.docs[k] < FIRST_OVERLAY_INO,
    ensures
        ({
            let w = WriteView {
                states: Map::empty(),
                overlay: Map::empty(),
                names: Map::empty(),
                next_ino: FIRST_OVERLAY_INO,
                own: Set::empty(),
            };
            w.wf() && fits(w, t)
        }),
{
}

/// A directory that takes writes is one that documents' files stand in.
pub proof fn lemma_writable_dir(t: TreeView, ino: u64)
    requires
        t.wf(),
        writes::writable_dir(t, ino) is Some,
    ensures
        may_take_files(t, ino),
        wellformed::takes_files(t, ino),
{
    assert(t.is_dir(ino));
    wellformed::lemma_labels_differ();
    assert(ino != ROOT_INO);
    let p = t.nodes[ino].parent;
    assert forall|id: Seq<char>| #[trigger] t.contexts.contains_key(id) implies t.contexts[id]
        != ino by {
        assert(t.is_dir(t.contexts[id]));
    }
}

/// Opening keeps a store well-formed and in step with the tree.
pub proof fn law_open_keeps_wf(
    w: WriteView,
    t: TreeView,
    ino: u64,
    fresh: StateView,
    truncate: bool,
)
    requires
        w.wf(),
        fits(w, t),
        w.can_open(ino),
        w.states.contains_key(ino) || (t.nodes.contains_key(ino) && fresh.target is Existing
            && fresh.refs == 0),
    ensures
        w.open(ino, fresh, truncate).wf(),
        fits(w.open(ino, fresh, truncate), t),
{
}

/// Creating a file keeps a store well-formed and in step with the tree.
pub proof fn law_create_keeps_wf(
    w: WriteView,
    t: TreeView,
    dir_ino: u64,
    name: Seq<char>,
    now: SystemTime,
)
    requires
        w.wf(),
        t.wf(),
        fits(w, t),
        w.next_ino < u64::MAX,
        writes::writable_dir(t, dir_ino) is Some,
        !w.names.contains_key((name, dir_ino)),
    ensures
        ({
            let (ctx, dir) = writes::writable_dir(t, dir_ino)->0;
            let v = w.create(dir_ino, name, ctx, dir, now);
            v.wf() && fits(v, t)
        }),
{
    lemma_writable_dir(t, dir_ino);
    let (ctx, dir) = writes::writable_dir(t, dir_ino)->0;
    let v = w.create(dir_ino, name, ctx, dir, now);
    assert forall|k: (Seq<char>, u64)| #[trigger] v.names.contains_key(k) implies {
        let i = v.names[k];
        &&& v.overlay.contains_key(i)
        &&& v.overlay[i].name == k.0
        &&& v.overlay[i].dir_ino == k.1
    } by {
        if k != (name, dir_ino) {
            assert(w.names.contains_key(k));
        }
    }
}

/// Writing, and marking a file as saved or not, keeps a store well-formed and in step with the
/// tree.
pub proof fn law_edit_keeps_wf(
    w: WriteView,
    t: TreeView,
    ino: u64,
    buffer: Seq<u8>,
    dirty: bool,
)
    requires
        w.wf(),
        fits(w, t),
    ensures
        w.states.contains_key(ino) ==> w.edit(ino, buffer).wf() && fits(w.edit(ino, buffer), t),
        w.mark(ino, dirty).wf(),
        fits(w.mark(ino, dirty), t),
{
}

/// Releasing a handle keeps a store well-formed and in step with the tree.
pub proof fn law_release_keeps_wf(w: WriteView, t: TreeView, ino: u64)
    requires
        w.wf(),
        fits(w, t),
    ensures
        w.release(ino).wf(),
        fits(w.release(ino), t),
{
    let v = w.release(ino);
    assert forall|k: (Seq<char>, u64)| #[trigger] v.names.contains_key(k) implies {
        let i = v.names[k];
        &&& v.overlay.contains_key(i)
        &&& v.overlay[i].name == k.0
        &&& v.overlay[i].dir_ino == k.1
    } by {
        assert(w.names.contains_key(k));
    }
}

/// Renaming a file that has no document yet keeps a store well-formed and in step with the tree.
pub proof fn law_pending_rename_keeps_wf(
    w: WriteView,
    v: WriteView,
    t: TreeView,
    dir_ino: u64,
    src: Seq<char>,
    dst: Seq<char>,
)
    requires
        w.wf(),
        fits(w, t),
        writes::is_pending_rename(w, v, t, dir_ino, src, dst),
    ensures
        v.wf(),
        fits(v, t),
{
    let ino = w.pending(dir_ino, src)->0;
    assert(w.names.contains_key((src, dir_ino)));
    assert forall|k: (Seq<char>, u64)| #[trigger] v.names.contains_key(k) implies {
        let i = v.names[k];
        &&& v.overlay.contains_key(i)
        &&& v.overlay[i].name == k.0
        &&& v.overlay[i].dir_ino == k.1
    } by {
        if v.names[k] == ino && k != (dst, dir_ino) {
            assert(w.names.contains_key(k));
        } else if k != (dst, dir_ino) {
            assert(w.names.contains_key(k));
        } else if v.names[k] != ino {
            assert(w.names.contains_key(k));
        } else {
            assert(w.names.contains_key((src, dir_ino)));
        }
    }
}

/// Removing a file that has no document yet keeps a store well-formed and in step with the tree.
pub proof fn law_pending_removal_keeps_wf(
    w: WriteView,
    t: TreeView,
    dir_ino: u64,
    name: Seq<char>,
)
    requires
        w.wf(),
        fits(w, t),
    ensures
        w.unlink(dir_ino, name).wf(),
        fits(w.unlink(dir_ino, name), t),
        w.unlink(dir_ino, name).pending(dir_ino, name) is None,
{
    let v = w.unlink(dir_ino, name);
    assert forall|k: (Seq<char>, u64)| #[trigger] v.names.contains_key(k) implies {
        let i = v.names[k];
        &&& v.overlay.contains_key(i)
        &&& v.overlay[i].name == k.0
        &&& v.overlay[i].dir_ino == k.1
    } by {
        assert(w.names.contains_key(k));
    }
}

// ── saving ───────────────────────────────────────────────────────────────────

/// A save that failed leaves a file as it was: the data is still there, and still to be saved.
pub proof fn law_failed_save_keeps_data(w: WriteView, ino: u64, last: bool)
    requires
        w.saves(ino, last),
    ensures
        w.flushing(ino, last).mark(ino, true) == w,
{
    assert(w.flushing(ino, last).mark(ino, true).states =~= w.states);
}

/// A file that was saved has nothing to save until it is written again.
pub proof fn law_saved_once(w: WriteView, ino: u64, last: bool, last_again: bool)
    requires
        w.saves(ino, last),
    ensures
        w.flushing(ino, last).flush_job(ino, last_again) is Done,
{
}

/// At the last flush everything that was written is saved.
pub proof fn law_last_flush_saves(w: WriteView, ino: u64)
    requires
        w.states.contains_key(ino),
        w.states[ino].dirty,
    ensures
        !(w.flush_job(ino, true) is Done),
{
}

/// A save of a document shows its file as it was saved, and keeps the tree well-formed.
pub proof fn law_save_shows_the_buffer(
    w: WriteView,
    t: TreeView,
    ctx: Seq<char>,
    doc_id: u64,
    buffer: Seq<u8>,
    now: SystemTime,
)
    requires
        t.wf(),
        fits(w, t),
    ensures
        ({
            let u = writes::saved_tree(t, ctx, doc_id, buffer, now);
            &&& u.wf()
            &&& fits(w, u)
            &&& t.docs.contains_key((ctx, doc_id)) && t.nodes.contains_key(
                t.docs[(ctx, doc_id)],
            ) ==> u.nodes[t.docs[(ctx, doc_id)]].content == ContentView::Inline(buffer)
        }),
{
    if t.docs.contains_key((ctx, doc_id)) {
        wellformed::lemma_set_content_wf(
            t,
            t.docs[(ctx, doc_id)],
            ContentView::Inline(buffer),
            now,
        );
    }
}

/// The first save of a new file keeps the store and the tree well-formed and in step; the file is
/// then found in the tree under its name, with its inode, and shows the document that was made.
pub proof fn law_first_save_adopts(
    w: WriteView,
    t: TreeView,
    ino: u64,
    ctx: Seq<char>,
    dir: Seq<char>,
    dir_ino: u64,
    name: Seq<char>,
    buffer: Seq<u8>,
    doc_id: u64,
    now: SystemTime,
)
    requires
        w.wf(),
        t.wf(),
        fits(w, t),
        w.states.contains_key(ino),
        w.states[ino].target == (TargetView::Create { ctx, dir, dir_ino, name }),
    ensures
        ({
            let v = w.adopted(ino, ctx, dir, dir_ino, name, doc_id);
            let u = t.adopt(dir_ino, name, ctx, doc_id, ino, buffer, now);
            &&& v.wf()
            &&& u.wf()
            &&& fits(v, u)
            &&& u.lookup(dir_ino, name) == Some(ino)
            &&& u.bound(ctx, doc_id, ino)
            &&& u.nodes[ino].content == ContentView::Inline(buffer)
            &&& v.states[ino].target == (TargetView::Existing { ctx, dir, doc_id })
            &&& v.own.contains(doc_id)
            &&& v.pending(dir_ino, name) is None
        }),
{
    let v = w.adopted(ino, ctx, dir, dir_ino, name, doc_id);
    let u = t.adopt(dir_ino, name, ctx, doc_id, ino, buffer, now);
    let node = crate::model::NodeView {
        ino,
        parent: dir_ino,
        name,
        mtime: now,
        content: ContentView::Inline(buffer),
    };
    wellformed::lemma_bind_wf(t, ctx, doc_id, ino);
    let t1 = t.bind(ctx, doc_id, ino);
    wellformed::lemma_insert_wf(t1, node);
    assert forall|k: (Seq<char>, u64)| #[trigger] v.names.contains_key(k) implies {
        let i = v.names[k];
        &&& v.overlay.contains_key(i)
        &&& v.overlay[i].name == k.0
        &&& v.overlay[i].dir_ino == k.1
    } by {
        assert(w.names.contains_key(k));
    }
    assert forall|i: u64| #[trigger]
        v.states.contains_key(i) && v.states[i].target is Create implies !u.children.contains_key(i)
        && may_take_files(u, v.states[i].target->dir_ino) by {
        assert(w.states.contains_key(i) && w.states[i].target is Create);
        let d = w.states[i].target->dir_ino;
        assert(may_take_files(t, d));
        assert(may_take_files(t, dir_ino));
    }
}

// ── handles ──────────────────────────────────────────────────────────────────

/// Releasing the handle of a second opening leaves a file as it was.
pub proof fn law_release_undoes_open(w: WriteView, ino: u64)
    requires
        w.wf(),
        w.can_open(ino),
        w.states.contains_key(ino),
    ensures
        w.open(ino, w.states[ino], false).release(ino) == w,
{
    assert(w.open(ino, w.states[ino], false).release(ino).states =~= w.states);
}

/// A file that was created and never saved vanishes with its last handle.
pub proof fn law_abandoned_file_vanishes(
    w: WriteView,
    dir_ino: u64,
    name: Seq<char>,
    ctx: Seq<char>,
    dir: Seq<char>,
    now: SystemTime,
)
    requires
        w.wf(),
        w.next_ino < u64::MAX,
        !w.names.contains_key((name, dir_ino)),
    ensures
        ({
            let v = w.create(dir_ino, name, ctx, dir, now);
            &&& v.pending(dir_ino, name) == Some(w.next_ino)
            &&& v.release(w.next_ino) == (WriteView { next_ino: (w.next_ino + 1) as u64, ..w })
        }),
{
    let v = w.create(dir_ino, name, ctx, dir, now);
    let r = v.release(w.next_ino);
    assert(!w.states.contains_key(w.next_ino));
    assert(!w.overlay.contains_key(w.next_ino));
    assert(r.states =~= w.states);
    assert(r.overlay =~= w.overlay);
    assert(r.names =~= w.names) by {
        assert forall|k: (Seq<char>, u64)| #[trigger] r.names.contains_key(k)
            <==> w.names.contains_key(k) by {
            if w.names.contains_key(k) {
                assert(w.overlay.contains_key(w.names[k]));
            }
        }
    }
}

// ── removals and renames of documents' files ─────────────────────────────────

/// Removing a document's file keeps the tree well-formed and in step with the store; the name and
/// the document are gone.
pub proof fn law_removal_removes(
    w: WriteView,
    t: TreeView,
    dir_ino: u64,
    name: Seq<char>,
    ino: u64,
    ctx: Seq<char>,
    doc_id: u64,
    own: bool,
)
    requires
        w.wf(),
        t.wf(),
        fits(w, t),
        writes::is_removal(w, t, dir_ino, name, ino, ctx, doc_id, own),
    ensures
        ({
            let u = t.remove_doc(ino);
            let v = WriteView { states: w.states.remove(ino), ..w };
            &&& v.wf()
            &&& u.wf()
            &&& fits(v, u)
            &&& u.lookup(dir_ino, name) is None
            &&& !writes::has_doc(u, ino)
        }),
{
    lemma_doc_removal_wf(w, t, dir_ino, name, ino, doc_id);
}

proof fn lemma_doc_removal_wf(
    w: WriteView,
    t: TreeView,
    dir_ino: u64,
    name: Seq<char>,
    ino: u64,
    doc_id: u64,
)
    requires
        w.wf(),
        t.wf(),
        fits(w, t),
        writes::writable_dir(t, dir_ino) is Some,
        t.lookup(dir_ino, name) == Some(ino),
        writes::is_doc(t, ino, doc_id),
    ensures
        ({
            let u = t.remove_doc(ino);
            let v = WriteView { states: w.states.remove(ino), ..w };
            &&& v.wf()
            &&& u.wf()
            &&& fits(w, u)
            &&& fits(v, u)
            &&& u.lookup(dir_ino, name) is None
            &&& !writes::has_doc(u, ino)
        }),
{
    lemma_writable_dir(t, dir_ino);
    let c = choose|c: Seq<char>| #[trigger] t.bound(c, doc_id, ino);
    assert(t.docs.contains_key((c, doc_id)));
    assert(t.entries(dir_ino).contains_key(name));
    assert(t.nodes[ino].parent == dir_ino && t.nodes[ino].name == name);
    assert(!t.nodes[ino].is_dir());
    wellformed::lemma_remove_wf(t, ino);
    wellformed::lemma_forget_wf(t.remove_node(ino), ForgetView::Ino(ino));
    let u = t.remove_doc(ino);
    assert forall|i: u64| #[trigger]
        w.states.contains_key(i) && w.states[i].target is Create implies may_take_files(
        u,
        w.states[i].target->dir_ino,
    ) by {
        assert(may_take_files(t, w.states[i].target->dir_ino));
    }
    assert forall|x: Seq<char>, d: u64| !u.bound(x, d, ino) by {}
}

/// Renaming a document's file to a name that is free keeps the tree well-formed and in step with
/// the store; the file has its inode under the new name.
pub proof fn law_naming_renames(
    w: WriteView,
    t: TreeView,
    dir_ino: u64,
    src: Seq<char>,
    dst: Seq<char>,
    ino: u64,
    ctx: Seq<char>,
    dir: Seq<char>,
    doc_id: u64,
)
    requires
        w.wf(),
        t.wf(),
        fits(w, t),
        writes::is_naming(w, t, dir_ino, src, dst, ino, ctx, dir, doc_id),
    ensures
        ({
            let u = t.rename_entry(ino, dst);
            &&& u.wf()
            &&& fits(w, u)
            &&& u.lookup(dir_ino, dst) == Some(ino)
            &&& u.lookup(dir_ino, src) is None
            &&& u.nodes[ino].content == t.nodes[ino].content
            &&& u.docs == t.docs
        }),
{
    lemma_writable_dir(t, dir_ino);
    let c = choose|c: Seq<char>| #[trigger] t.bound(c, doc_id, ino);
    assert(t.docs.contains_key((c, doc_id)));
    assert(t.entries(dir_ino).contains_key(src));
    assert(t.nodes[ino].parent == dir_ino && t.nodes[ino].name == src);
    lemma_rename_in_place(w, t, dir_ino, ino, dst);
}

proof fn lemma_rename_in_place(w: WriteView, t: TreeView, dir_ino: u64, ino: u64, dst: Seq<char>)
    requires
        t.wf(),
        fits(w, t),
        wellformed::takes_files(t, dir_ino),
        t.nodes.contains_key(ino),
        !t.nodes[ino].is_dir(),
        t.nodes[ino].parent == dir_ino,
        t.lookup(dir_ino, t.nodes[ino].name) == Some(ino),
    ensures
        t.rename_entry(ino, dst).wf(),
        fits(w, t.rename_entry(ino, dst)),
        t.rename_entry(ino, dst).lookup(dir_ino, dst) == Some(ino),
        wellformed::takes_files(t.rename_entry(ino, dst), dir_ino),
{
    wellformed::lemma_rename_wf(t, ino, dst);
    let u = t.rename_entry(ino, dst);
    assert forall|i: u64| #[trigger]
        w.states.contains_key(i) && w.states[i].target is Create implies may_take_files(
        u,
        w.states[i].target->dir_ino,
    ) by {
        assert(may_take_files(t, w.states[i].target->dir_ino));
    }
}

/// Renaming one document's file over another's keeps the tree and the store well-formed and in
/// step: the name then has the inode of the source and the content of the source, and shows the
/// document of the destination, whose identifier stays; the old name is gone.
pub proof fn law_replacing_replaces(
    w: WriteView,
    t: TreeView,
    dir_ino: u64,
    src: Seq<char>,
    dst: Seq<char>,
    src_ino: u64,
    dst_ino: u64,
    ctx: Seq<char>,
    dir: Seq<char>,
    src_doc: u64,
    dst_doc: u64,
    content: Seq<u8>,
    own: bool,
    now: SystemTime,
)
    requires
        w.wf(),
        t.wf(),
        fits(w, t),
        src != dst,
        writes::is_replacing(
            w,
            t,
            dir_ino,
            src,
            dst,
            src_ino,
            dst_ino,
            ctx,
            dir,
            src_doc,
            dst_doc,
            content,
            own,
        ),
    ensures
        ({
            let u = writes::replaced_tree(
                t,
                ctx,
                src_ino,
                dst_ino,
                src_doc,
                dst_doc,
                dst,
                content,
                now,
            );
            let v = w.retarget(src_ino, TargetView::Existing { ctx, dir, doc_id: dst_doc });
            &&& v.wf()
            &&& u.wf()
            &&& fits(v, u)
            &&& u.lookup(dir_ino, dst) == Some(src_ino)
            &&& u.lookup(dir_ino, src) is None
            &&& u.nodes[src_ino].content == ContentView::Inline(content)
            &&& u.bound(ctx, dst_doc, src_ino)
        }),
{
    let v = w.retarget(src_ino, TargetView::Existing { ctx, dir, doc_id: dst_doc });
    assert(v.wf());
    assert(fits(v, t));
    lemma_writable_dir(t, dir_ino);
    let c = choose|c: Seq<char>| #[trigger] t.bound(c, src_doc, src_ino);
    assert(t.docs.contains_key((c, src_doc)));
    assert(t.entries(dir_ino).contains_key(src));
    assert(t.entries(dir_ino).contains_key(dst));
    assert(src_ino != dst_ino);
    lemma_doc_removal_wf(v, t, dir_ino, dst, dst_ino, dst_doc);
    let t1 = t.remove_doc(dst_ino);
    let t2 = t1.forget(ForgetView::Doc(ctx, src_doc));
    wellformed::lemma_forget_wf(t1, ForgetView::Doc(ctx, src_doc));
    assert(fits(v, t2)) by {
        assert forall|i: u64| #[trigger]
            v.states.contains_key(i) && v.states[i].target is Create implies may_take_files(
            t2,
            v.states[i].target->dir_ino,
        ) by {
            assert(may_take_files(t1, v.states[i].target->dir_ino));
        }
    }
    assert(t2.lookup(dir_ino, src) == Some(src_ino));
    assert(wellformed::takes_files(t2, dir_ino));
    lemma_rename_in_place(v, t2, dir_ino, src_ino, dst);
    let t3 = t2.rename_entry(src_ino, dst);
    wellformed::lemma_bind_wf(t3, ctx, dst_doc, src_ino);
    let t4 = t3.bind(ctx, dst_doc, src_ino);
    assert(fits(v, t4)) by {
        assert forall|i: u64| #[trigger]
            v.states.contains_key(i) && v.states[i].target is Create implies may_take_files(
            t4,
            v.states[i].target->dir_ino,
        ) by {
            assert(may_take_files(t3, v.states[i].target->dir_ino));
        }
    }
    wellformed::lemma_set_content_wf(t4, src_ino, ContentView::Inline(content), now);
    let u = t4.set_content(src_ino, ContentView::Inline(content), now);
    assert forall|i: u64| #[trigger]
        v.states.contains_key(i) && v.states[i].target is Create implies may_take_files(
        u,
        v.states[i].target->dir_ino,
    ) by {
        assert(may_take_files(t4, v.states[i].target->dir_ino));
    }
}

// ── what a refresh starts from ───────────────────────────────────────────────

/// Saving a document keeps its context tidy.
pub proof fn law_save_keeps_tidy(
    t: TreeView,
    ctx: Seq<char>,
    doc_id: u64,
    buffer: Seq<u8>,
    now: SystemTime,
    own: Set<u64>,
)
    requires
        t.wf(),
        listing::tidy(t, ctx, own),
    ensures
        listing::tidy(writes::saved_tree(t, ctx, doc_id, buffer, now), ctx, own),
{
    let u = writes::saved_tree(t, ctx, doc_id, buffer, now);
    assert forall|e: u64| #[trigger] u.entries(e) == t.entries(e) by {}
}

/// The first save of a new file keeps its context tidy, where its name is free.
pub proof fn law_first_save_keeps_tidy(
    w: WriteView,
    t: TreeView,
    ino: u64,
    ctx: Seq<char>,
    dir: Seq<char>,
    dir_ino: u64,
    name: Seq<char>,
    buffer: Seq<u8>,
    doc_id: u64,
    now: SystemTime,
    own: Set<u64>,
)
    requires
        w.wf(),
        t.wf(),
        fits(w, t),
        w.states.contains_key(ino),
        w.states[ino].target == (TargetView::Create { ctx, dir, dir_ino, name }),
        listing::tidy(t, ctx, own),
        own.contains(dir_ino),
        !t.entries(dir_ino).contains_key(name),
    ensures
        listing::tidy(t.adopt(dir_ino, name, ctx, doc_id, ino, buffer, now), ctx, own),
{
    let u = t.adopt(dir_ino, name, ctx, doc_id, ino, buffer, now);
    assert(w.overlay.contains_key(ino));
    assert forall|i: u64| #[trigger]
        u.nodes.contains_key(i) && own.contains(u.nodes[i].parent) implies {
        &&& !u.nodes[i].is_dir()
        &&& u.entries(u.nodes[i].parent).contains_key(u.nodes[i].name)
        &&& u.entries(u.nodes[i].parent)[u.nodes[i].name] == i
    } by {
        if i != ino {
            assert(t.nodes.contains_key(i));
        }
    }
    assert forall|d: u64| #[trigger]
        u.docs.contains_key((ctx, d)) && u.nodes.contains_key(u.docs[(ctx, d)]) implies own.contains(
        u.nodes[u.docs[(ctx, d)]].parent,
    ) by {
        if d != doc_id {
            assert(t.docs.contains_key((ctx, d)));
        }
    }
    assert forall|d: u64, e: u64|
        #![trigger u.docs.contains_key((ctx, d)), u.docs.contains_key((ctx, e))]
        u.docs.contains_key((ctx, d)) && u.docs.contains_key((ctx, e)) && u.docs[(ctx, d)]
            == u.docs[(ctx, e)] && u.nodes.contains_key(u.docs[(ctx, d)]) implies d == e by {
        if d != doc_id {
            assert(t.docs.contains_key((ctx, d)));
        }
        if e != doc_id {
            assert(t.docs.contains_key((ctx, e)));
        }
    }
}

/// Removing a document's file keeps its context tidy.
pub proof fn law_removal_keeps_tidy(t: TreeView, ctx: Seq<char>, ino: u64, own: Set<u64>)
    requires
        t.wf(),
        listing::tidy(t, ctx, own),
        t.nodes.contains_key(ino) ==> own.contains(t.nodes[ino].parent),
        !own.contains(ino),
    ensures
        listing::tidy(t.remove_doc(ino), ctx, own),
{
    let u = t.remove_doc(ino);
    assert forall|i: u64| #[trigger]
        u.nodes.contains_key(i) && own.contains(u.nodes[i].parent) implies {
        &&& !u.nodes[i].is_dir()
        &&& u.entries(u.nodes[i].parent).contains_key(u.nodes[i].name)
        &&& u.entries(u.nodes[i].parent)[u.nodes[i].name] == i
    } by {
        assert(t.nodes.contains_key(i));
        if t.nodes.contains_key(ino) {
            assert(t.entries(t.nodes[ino].parent)[t.nodes[ino].name] == ino);
        }
    }
    assert forall|d: u64| #[trigger]
        u.docs.contains_key((ctx, d)) && u.nodes.contains_key(u.docs[(ctx, d)]) implies own.contains(
        u.nodes[u.docs[(ctx, d)]].parent,
    ) by {
        assert(t.docs.contains_key((ctx, d)));
    }
    assert forall|d: u64, e: u64|
        #![trigger u.docs.contains_key((ctx, d)), u.docs.contains_key((ctx, e))]
        u.docs.contains_key((ctx, d)) && u.docs.contains_key((ctx, e)) && u.docs[(ctx, d)]
            == u.docs[(ctx, e)] && u.nodes.contains_key(u.docs[(ctx, d)]) implies d == e by {
        assert(t.docs.contains_key((ctx, d)) && t.docs.contains_key((ctx, e)));
    }
}

/// Renaming a file to a name that is free keeps its context tidy.
pub proof fn law_naming_keeps_tidy(
    t: TreeView,
    ctx: Seq<char>,
    ino: u64,
    dst: Seq<char>,
    own: Set<u64>,
)
    requires
        t.wf(),
        listing::tidy(t, ctx, own),
        t.nodes.contains_key(ino),
        own.contains(t.nodes[ino].parent),
        !own.contains(ino),
        !t.entries(t.nodes[ino].parent).contains_key(dst),
    ensures
        listing::tidy(t.rename_entry(ino, dst), ctx, own),
{
    let u = t.rename_entry(ino, dst);
    assert forall|i: u64| #[trigger]
        u.nodes.contains_key(i) && own.contains(u.nodes[i].parent) implies {
        &&& !u.nodes[i].is_dir()
        &&& u.entries(u.nodes[i].parent).contains_key(u.nodes[i].name)
        &&& u.entries(u.nodes[i].parent)[u.nodes[i].name] == i
    } by {
        assert(t.nodes.contains_key(i));
        assert(t.entries(t.nodes[ino].parent)[t.nodes[ino].name] == ino);
    }
}

/// Renaming one document's file over another's keeps their context tidy, where each file shows
/// one document.
pub proof fn law_replacing_keeps_tidy(
    w: WriteView,
    t: TreeView,
    dir_ino: u64,
    src: Seq<char>,
    dst: Seq<char>,
    src_ino: u64,
    dst_ino: u64,
    ctx: Seq<char>,
    dir: Seq<char>,
    src_doc: u64,
    dst_doc: u64,
    content: Seq<u8>,
    own_doc: bool,
    now: SystemTime,
    own: Set<u64>,
)
    requires
        w.wf(),
        t.wf(),
        src != dst,
        writes::is_replacing(
            w,
            t,
            dir_ino,
            src,
            dst,
            src_ino,
            dst_ino,
            ctx,
            dir,
            src_doc,
            dst_doc,
            content,
            own_doc,
        ),
        t.bound(ctx, src_doc, src_ino),
        listing::tidy(t, ctx, own),
        own.contains(dir_ino),
        !own.contains(src_ino),
        !own.contains(dst_ino),
    ensures
        listing::tidy(
            writes::replaced_tree(
                t,
                ctx,
                src_ino,
                dst_ino,
                src_doc,
                dst_doc,
                dst,
                content,
                now,
            ),
            ctx,
            own,
        ),
{
    assert(t.entries(dir_ino).contains_key(src));
    assert(t.entries(dir_ino).contains_key(dst));
    assert(src_ino != dst_ino);
    law_removal_keeps_tidy(t, ctx, dst_ino, own);
    lemma_doc_gone(t, dir_ino, dst, dst_ino, dst_doc);
    let t1 = t.remove_doc(dst_ino);
    let t2 = t1.forget(ForgetView::Doc(ctx, src_doc));
    wellformed::lemma_forget_wf(t1, ForgetView::Doc(ctx, src_doc));
    assert(listing::tidy(t2, ctx, own)) by {
        assert forall|e: u64| #[trigger] t2.entries(e) == t1.entries(e) by {}
        assert forall|d: u64| #[trigger]
            t2.docs.contains_key((ctx, d)) && t2.nodes.contains_key(
                t2.docs[(ctx, d)],
            ) implies own.contains(t2.nodes[t2.docs[(ctx, d)]].parent) by {
            assert(t1.docs.contains_key((ctx, d)));
        }
        assert forall|d: u64, e: u64|
            #![trigger t2.docs.contains_key((ctx, d)), t2.docs.contains_key((ctx, e))]
            t2.docs.contains_key((ctx, d)) && t2.docs.contains_key((ctx, e)) && t2.docs[(ctx, d)]
                == t2.docs[(ctx, e)] && t2.nodes.contains_key(t2.docs[(ctx, d)]) implies d == e by {
            assert(t1.docs.contains_key((ctx, d)) && t1.docs.contains_key((ctx, e)));
        }
    }
    assert(!t2.entries(dir_ino).contains_key(dst));
    law_naming_keeps_tidy(t2, ctx, src_ino, dst, own);
    let t3 = t2.rename_entry(src_ino, dst);
    let t4 = t3.bind(ctx, dst_doc, src_ino);
    // nothing else shows the source's file any more
    assert forall|d: u64| #[trigger] t3.docs.contains_key((ctx, d)) implies t3.docs[(ctx, d)]
        != src_ino by {
        assert(t.docs.contains_key((ctx, d)));
        assert(t.docs.contains_key((ctx, src_doc)));
    }
    assert(listing::tidy(t4, ctx, own)) by {
        assert forall|e: u64| #[trigger] t4.entries(e) == t3.entries(e) by {}
        assert forall|d: u64| #[trigger]
            t4.docs.contains_key((ctx, d)) && t4.nodes.contains_key(
                t4.docs[(ctx, d)],
            ) implies own.contains(t4.nodes[t4.docs[(ctx, d)]].parent) by {
            if d != dst_doc {
                assert(t3.docs.contains_key((ctx, d)));
            }
        }
        assert forall|d: u64, e: u64|
            #![trigger t4.docs.contains_key((ctx, d)), t4.docs.contains_key((ctx, e))]
            t4.docs.contains_key((ctx, d)) && t4.docs.contains_key((ctx, e)) && t4.docs[(ctx, d)]
                == t4.docs[(ctx, e)] && t4.nodes.contains_key(t4.docs[(ctx, d)]) implies d == e by {
            if d != dst_doc {
                assert(t3.docs.contains_key((ctx, d)));
            }
            if e != dst_doc {
                assert(t3.docs.contains_key((ctx, e)));
            }
        }
    }
    let u = t4.set_content(src_ino, ContentView::Inline(content), now);
    assert forall|e: u64| #[trigger] u.entries(e) == t4.entries(e) by {}
}

/// Where a document's file was removed, the tree is well-formed and the name is free.
proof fn lemma_doc_gone(t: TreeView, dir_ino: u64, name: Seq<char>, ino: u64, doc_id: u64)
    requires
        t.wf(),
        writes::writable_dir(t, dir_ino) is Some,
        t.lookup(dir_ino, name) == Some(ino),
        writes::is_doc(t, ino, doc_id),
    ensures
        t.remove_doc(ino).wf(),
        !t.remove_doc(ino).entries(dir_ino).contains_key(name),
{
    lemma_writable_dir(t, dir_ino);
    let c = choose|c: Seq<char>| #[trigger] t.bound(c, doc_id, ino);
    assert(t.docs.contains_key((c, doc_id)));
    assert(t.entries(dir_ino).contains_key(name));
    wellformed::lemma_remove_wf(t, ino);
    wellformed::lemma_forget_wf(t.remove_node(ino), ForgetView::Ino(ino));
}

} // verus!
