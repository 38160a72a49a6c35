//! The dates and sizes that the files of a context show.

use crate::api::DocumentView;
use crate::json;
use crate::laws;
use crate::listing;
use crate::model;
use crate::model::{ContentView, Plan, Sync, TreeView, Update, Wanted};
use crate::naming;
use crate::notices;
use crate::render;
use crate::render::{RenderedContent, SCHEMA_DIRS};
use crate::showing;
use crate::strmap;
use crate::wellformed;
use std::time::SystemTime;
use vstd::prelude::*;

verus! {

/// Whether a file is left as it was, shown for no other document.
pub open spec fn left_alone(t: TreeView, u: TreeView, ctx: Seq<char>, ino: u64) -> bool {
    &&& t.nodes.contains_key(ino)
    &&& u.nodes[ino] == t.nodes[ino]
    &&& forall|d: u64| #[trigger] u.bound(ctx, d, ino) ==> t.bound(ctx, d, ino)
}

/// Whether a file has the content and the date of one that some directory is to hold.
pub open spec fn as_wanted(u: TreeView, ctx: Seq<char>, p: Plan, ino: u64) -> bool {
    exists|l: Seq<char>, n: Seq<char>| #[trigger]
        p.wants(l).contains_key(n) && u.bound(ctx, p.wants(l)[n].doc, ino)
            && u.nodes[ino].content == p.wants(l)[n].content && u.nodes[ino].mtime
            == p.wants(l)[n].mtime
}

/// Whether each file is left alone or is as wanted.
spec fn dated(t: TreeView, u: TreeView, ctx: Seq<char>, p: Plan, own: Set<u64>) -> bool {
    forall|i: u64| #[trigger]
        u.nodes.contains_key(i) && !own.contains(i) ==> left_alone(t, u, ctx, i) || as_wanted(
            u,
            ctx,
            p,
            i,
        )
}

proof fn lemma_dated_step(
    t: TreeView,
    u: TreeView,
    v: TreeView,
    ctx: Seq<char>,
    p: Plan,
    own: Set<u64>,
    ino: u64,
)
    requires
        dated(t, u, ctx, p, own),
        forall|i: u64| #[trigger]
            v.nodes.contains_key(i) && i != ino && !own.contains(i) ==> u.nodes.contains_key(i)
                && v.nodes[i] == u.nodes[i],
        forall|i: u64, d: u64|
            i != ino && v.nodes.contains_key(i) ==> (#[trigger] v.bound(ctx, d, i) <==> u.bound(
                ctx,
                d,
                i,
            )),
        v.nodes.contains_key(ino) ==> as_wanted(v, ctx, p, ino),
    ensures
        dated(t, v, ctx, p, own),
{
    assert forall|i: u64| #[trigger] v.nodes.contains_key(i) && !own.contains(i) implies left_alone(
        t,
        v,
        ctx,
        i,
    ) || as_wanted(v, ctx, p, i) by {
        if i != ino {
            assert(u.nodes.contains_key(i));
            if left_alone(t, u, ctx, i) {
                assert forall|d: u64| #[trigger] v.bound(ctx, d, i) implies t.bound(ctx, d, i) by {
                    assert(u.bound(ctx, d, i));
                }
            } else {
                let (l, n) = choose|l: Seq<char>, n: Seq<char>| #[trigger]
                    p.wants(l).contains_key(n) && u.bound(ctx, p.wants(l)[n].doc, i)
                        && u.nodes[i].content == p.wants(l)[n].content && u.nodes[i].mtime
                        == p.wants(l)[n].mtime;
                assert(v.bound(ctx, p.wants(l)[n].doc, i));
            }
        }
    }
}

proof fn lemma_visit_dated(
    t: TreeView,
    s: Sync,
    ctx: Seq<char>,
    dir: u64,
    p: Plan,
    l: Seq<char>,
    name: Seq<char>,
    ino: u64,
    own: Set<u64>,
)
    requires
        dated(t, s.up.tree, ctx, p, own),
    ensures
        dated(t, s.visit(ctx, dir, p.wants(l), name, ino).up.tree, ctx, p, own),
{
    let u = s.up.tree;
    let v = s.visit(ctx, dir, p.wants(l), name, ino).up.tree;
    if v != u {
        if v.nodes.contains_key(ino) {
            assert(p.wants(l).contains_key(name));
            assert(v.bound(ctx, p.wants(l)[name].doc, ino));
        }
        lemma_dated_step(t, u, v, ctx, p, own, ino);
    }
}

proof fn lemma_visit_all_dated(
    t: TreeView,
    s: Sync,
    ctx: Seq<char>,
    dir: u64,
    have: Map<Seq<char>, u64>,
    p: Plan,
    l: Seq<char>,
    names: Seq<Seq<char>>,
    own: Set<u64>,
)
    requires
        dated(t, s.up.tree, ctx, p, own),
    ensures
        dated(t, s.visit_all(ctx, dir, have, p.wants(l), names).up.tree, ctx, p, own),
    decreases names.len(),
{
    if names.len() > 0 {
        lemma_visit_all_dated(t, s, ctx, dir, have, p, l, names.drop_last(), own);
        lemma_visit_dated(
            t,
            s.visit_all(ctx, dir, have, p.wants(l), names.drop_last()),
            ctx,
            dir,
            p,
            l,
            names.last(),
            have[names.last()],
            own,
        );
    }
}

proof fn lemma_place_dated(
    t: TreeView,
    s: Sync,
    ctx: Seq<char>,
    dir: u64,
    p: Plan,
    l: Seq<char>,
    name: Seq<char>,
    own: Set<u64>,
)
    requires
        dated(t, s.up.tree, ctx, p, own),
        p.wants(l).contains_key(name),
    ensures
        dated(t, s.place(ctx, dir, p.wants(l), name).up.tree, ctx, p, own),
{
    let u = s.up.tree;
    let v = s.place(ctx, dir, p.wants(l), name).up.tree;
    if u.lookup(dir, name) is None {
        let w = p.wants(l)[name];
        let key = (ctx, w.doc);
        let moves = u.docs.contains_key(key) && u.nodes.contains_key(u.docs[key]);
        let ino = if moves {
            u.docs[key]
        } else {
            u.next_ino
        };
        assert(v.bound(ctx, w.doc, ino));
        assert(as_wanted(v, ctx, p, ino));
        lemma_dated_step(t, u, v, ctx, p, own, ino);
    }
}

proof fn lemma_place_all_dated(
    t: TreeView,
    s: Sync,
    ctx: Seq<char>,
    dir: u64,
    p: Plan,
    l: Seq<char>,
    names: Seq<Seq<char>>,
    own: Set<u64>,
)
    requires
        dated(t, s.up.tree, ctx, p, own),
        forall|i: int| 0 <= i < names.len() ==> p.wants(l).contains_key(#[trigger] names[i]),
    ensures
        dated(t, s.place_all(ctx, dir, p.wants(l), names).up.tree, ctx, p, own),
    decreases names.len(),
{
    if names.len() > 0 {
        let f = names.drop_last();
        assert(forall|i: int| 0 <= i < f.len() ==> f[i] == names[i]);
        lemma_place_all_dated(t, s, ctx, dir, p, l, f, own);
        assert(p.wants(l).contains_key(names[names.len() - 1]));
        lemma_place_dated(
            t,
            s.place_all(ctx, dir, p.wants(l), f),
            ctx,
            dir,
            p,
            l,
            names.last(),
            own,
        );
    }
}

proof fn lemma_sync_dirs_dated(
    u: Update,
    dirs: Seq<Option<u64>>,
    ctx: Seq<char>,
    p: Plan,
    now: SystemTime,
    own: Set<u64>,
)
    requires
        forall|k: int|
            0 <= k < dirs.len() && dirs[k] is Some ==> own.contains((#[trigger] dirs[k])->0),
        forall|l: Seq<char>| (#[trigger] p.wants(l)).dom().finite(),
    ensures
        dated(u.tree, u.sync_dirs(dirs, ctx, p, now).tree, ctx, p, own),
    decreases dirs.len(),
{
    let t = u.tree;
    if dirs.len() > 0 {
        let rest = dirs.drop_last();
        assert(forall|k: int| 0 <= k < rest.len() ==> rest[k] == dirs[k]);
        lemma_sync_dirs_dated(u, rest, ctx, p, now, own);
        let v = u.sync_dirs(rest, ctx, p, now);
        if let Some(dir) = dirs.last() {
            assert(dirs[dirs.len() - 1] == dirs.last());
            let l = model::label(dirs.len() - 1);
            let have = v.tree.entries(dir);
            let s0 = Sync { up: v, dirty: false };
            let old_names = strmap::ordered(have.dom());
            let new_names = strmap::ordered(p.wants(l).dom());
            lemma_visit_all_dated(t, s0, ctx, dir, have, p, l, old_names, own);
            let s1 = s0.visit_all(ctx, dir, have, p.wants(l), old_names);
            strmap::lemma_ordered(p.wants(l).dom());
            assert forall|i: int| 0 <= i < new_names.len() implies p.wants(l).contains_key(
                #[trigger] new_names[i],
            ) by {
                assert(new_names.contains(new_names[i]));
            }
            lemma_place_all_dated(t, s1, ctx, dir, p, l, new_names, own);
            let s2 = s1.place_all(ctx, dir, p.wants(l), new_names);
            let a = s2.up.tree;
            let b = s2.finish(dir, now).tree;
            assert forall|i: u64| #[trigger] b.nodes.contains_key(i) && !own.contains(
                i,
            ) implies left_alone(t, b, ctx, i) || as_wanted(b, ctx, p, i) by {
                assert(a.nodes.contains_key(i) && b.nodes[i] == a.nodes[i]);
                assert(forall|d: u64| #[trigger] b.bound(ctx, d, i) == a.bound(ctx, d, i));
                if left_alone(t, a, ctx, i) {
                } else {
                    let (l, n) = choose|l: Seq<char>, n: Seq<char>| #[trigger]
                        p.wants(l).contains_key(n) && a.bound(ctx, p.wants(l)[n].doc, i)
                            && a.nodes[i].content == p.wants(l)[n].content && a.nodes[i].mtime
                            == p.wants(l)[n].mtime;
                    assert(b.bound(ctx, p.wants(l)[n].doc, i));
                }
            }
        }
    } else {
        assert(forall|i: u64| #[trigger]
            t.nodes.contains_key(i) ==> left_alone(t, t, ctx, i));
    }
}

/// Making the files of a directory those that it is to hold leaves each file alone or makes it as
/// wanted.
pub proof fn lemma_sync_dir_dated(
    u: Update,
    key: Seq<char>,
    dir: u64,
    want: Map<Seq<char>, Wanted>,
    now: SystemTime,
)
    requires
        want.dom().finite(),
    ensures
        ({
            let v = u.sync_dir(key, dir, want, now).tree;
            forall|i: u64| #[trigger]
                v.nodes.contains_key(i) && i != dir ==> left_alone(u.tree, v, key, i) || (exists|
                    n: Seq<char>,
                | #[trigger]
                    want.contains_key(n) && v.bound(key, want[n].doc, i) && v.nodes[i].content
                        == want[n].content && v.nodes[i].mtime == want[n].mtime)
        }),
{
    let p = Plan {
        names: Map::empty(),
        unsaved: Seq::empty(),
        want: Map::empty().insert(model::label(0), want),
    };
    let dirs = seq![Some(dir)];
    let v = u.sync_dir(key, dir, want, now).tree;
    assert(dirs.drop_last() =~= Seq::empty());
    assert(u.sync_dirs(Seq::empty(), key, p, now) == u);
    assert(u.sync_dirs(dirs, key, p, now).tree == v);
    assert forall|l: Seq<char>| (#[trigger] p.wants(l)).dom().finite() by {
        if l != model::label(0) {
            assert(p.wants(l).dom() =~= Set::empty());
        }
    }
    lemma_sync_dirs_dated(u, dirs, key, p, now, set![dir]);
    assert forall|i: u64| #[trigger] v.nodes.contains_key(i) && i != dir && !left_alone(
        u.tree,
        v,
        key,
        i,
    ) implies exists|n: Seq<char>| #[trigger]
        want.contains_key(n) && v.bound(key, want[n].doc, i) && v.nodes[i].content
            == want[n].content && v.nodes[i].mtime == want[n].mtime by {
        let (l, n) = choose|l: Seq<char>, n: Seq<char>| #[trigger]
            p.wants(l).contains_key(n) && v.bound(key, p.wants(l)[n].doc, i) && v.nodes[i].content
                == p.wants(l)[n].content && v.nodes[i].mtime == p.wants(l)[n].mtime;
        assert(l == model::label(0));
        assert(want.contains_key(n));
    }
}

/// The content of a document's file: bytes of its own, or the blob that the workspace of the
/// context keeps for the document.
pub open spec fn is_content_of(
    c: ContentView,
    doc: DocumentView,
    workspace: Option<Seq<char>>,
) -> bool {
    match render::rendered_content(doc) {
        RenderedContent::Inline(b) => c == ContentView::Inline(b),
        RenderedContent::Remote(n) => if workspace is Some {
            c == (ContentView::Remote {
                workspace_id: workspace->0,
                doc_id: doc.id,
                size: n,
                checksum: doc.checksum,
            })
        } else {
            c == ContentView::Inline(json::pretty_bytes(doc.data))
        },
    }
}

/// After the documents of a context were brought up to date, each document of the list has a file
/// in the directory of its schema, under the name that it is then given. That file shows the
/// document's content, and it shows the time of the document's last change, unless it is the file
/// that showed this document with this content before: that one is left alone.
pub proof fn law_files_show_contents_and_dates(
    t: TreeView,
    ctx: Seq<char>,
    docs: Seq<DocumentView>,
    names: Map<Seq<char>, Seq<char>>,
    unsaved: Seq<(Seq<char>, Seq<char>)>,
    now: SystemTime,
    doc: DocumentView,
)
    requires
        t.wf(),
        t.contexts.contains_key(ctx),
        listing::tidy(t, ctx, listing::own_dirs(t, ctx)),
        naming::distinct_ids(docs),
        t.room(docs.len() as int),
        docs.contains(doc),
    ensures
        ({
            let p = model::plan(t, ctx, docs, names, unsaved);
            let u = model::apply_documents(t, ctx, p, now).tree;
            let dir = t.lookup(t.contexts[ctx], render::schema_dir(doc.schema))->0;
            let name = naming::given(p.names, ctx, doc)->0;
            let i = u.entries(dir)[name];
            &&& t.is_dir(dir)
            &&& naming::given(p.names, ctx, doc) is Some
            &&& u.entries(dir).contains_key(name)
            &&& u.docs.contains_key((ctx, doc.id)) && u.docs[(ctx, doc.id)] == i
            &&& u.nodes.contains_key(i)
            &&& u.nodes[i].ino == i && u.nodes[i].parent == dir && u.nodes[i].name == name
            &&& is_content_of(u.nodes[i].content, doc, model::workspace_of(t, ctx))
            &&& u.nodes[i].mtime == doc.updated_at || (t.nodes.contains_key(i) && t.nodes[i]
                == u.nodes[i] && t.docs.contains_key((ctx, doc.id)) && t.docs[(ctx, doc.id)] == i)
        }),
{
    let p = model::plan(t, ctx, docs, names, unsaved);
    let u = model::apply_documents(t, ctx, p, now).tree;
    let workspace = model::workspace_of(t, ctx);
    let own = listing::own_dirs(t, ctx);
    let dirs = model::context_dirs(t, ctx);
    let name = naming::given(p.names, ctx, doc)->0;
    let dir = laws::dir_for(t, ctx, doc);
    showing::law_each_document_is_shown(t, ctx, docs, names, unsaved, now, doc);
    laws::law_context_shows_its_documents(t, ctx, docs, names, unsaved, now);
    wellformed::law_documents_keep_directories(t, ctx, docs, names, unsaved, now);
    wellformed::lemma_plan_fits(t, ctx, docs, names, unsaved);
    naming::law_plan_is_for_its_documents(t, ctx, docs, names, unsaved);
    laws::lemma_own_dirs(t, ctx);
    naming::lemma_schema_dir_is_label(doc.schema);
    let k = choose|k: int|
        0 <= k < SCHEMA_DIRS@.len() && #[trigger] model::label(k) == render::schema_dir(doc.schema);
    assert(dirs[k] == t.context_dir(t.contexts[ctx], model::label(k)));
    assert(own.contains(dir));
    let i = u.entries(dir)[name];
    assert(u.bound(ctx, doc.id, i));
    assert forall|k: int| 0 <= k < dirs.len() && dirs[k] is Some implies own.contains(
        (#[trigger] dirs[k])->0,
    ) by {
        assert(dirs[k] == t.context_dir(t.contexts[ctx], model::label(k)));
    }
    lemma_sync_dirs_dated(
        Update { tree: t, inv: model::no_invalidation() },
        dirs,
        ctx,
        p,
        now,
        own,
    );
    assert(u.nodes.contains_key(i));
    assert(u.nodes[i].parent == dir);
    assert(!own.contains(i)) by {
        if own.contains(i) {
            assert(t.is_dir(i));
            assert(u.is_dir(i));
            assert(own.contains(u.nodes[i].parent));
        }
    }
    if !left_alone(t, u, ctx, i) {
        let (l, n) = choose|l: Seq<char>, n: Seq<char>| #[trigger]
            p.wants(l).contains_key(n) && u.bound(ctx, p.wants(l)[n].doc, i) && u.nodes[i].content
                == p.wants(l)[n].content && u.nodes[i].mtime == p.wants(l)[n].mtime;
        let d = p.wants(l)[n].doc;
        assert(u.docs.contains_key((ctx, d)) && u.docs.contains_key((ctx, doc.id)));
        assert(d == doc.id);
        assert(naming::is_given_to_one(p, ctx, docs, l, n));
        let o = choose|o: DocumentView| #[trigger]
            docs.contains(o) && render::schema_dir(o.schema) == l && naming::given(p.names, ctx, o)
                == Some(n);
        assert(naming::is_placed(p, ctx, workspace, o));
        assert(p.wants(l)[n] == naming::wanted_for(o, workspace));
        let a = choose|a: int| 0 <= a < docs.len() && docs[a] == o;
        let b = choose|b: int| 0 <= b < docs.len() && docs[b] == doc;
        assert(docs[a].id == docs[b].id);
    } else {
        assert(t.bound(ctx, doc.id, i));
    }
}

/// Whether each directory that the kernel is told of shows a time.
spec fn touched(u: Update, now: SystemTime) -> bool {
    forall|d: u64| #[trigger]
        u.inv.dirty_dirs.contains(d) && u.tree.is_dir(d) ==> u.tree.nodes[d].mtime == now
}

proof fn lemma_visit_all_touched(
    s: Sync,
    ctx: Seq<char>,
    dir: u64,
    have: Map<Seq<char>, u64>,
    want: Map<Seq<char>, Wanted>,
    names: Seq<Seq<char>>,
    now: SystemTime,
)
    requires
        touched(s.up, now),
        wellformed::files_only(want),
    ensures
        touched(s.visit_all(ctx, dir, have, want, names).up, now),
    decreases names.len(),
{
    if names.len() > 0 {
        lemma_visit_all_touched(s, ctx, dir, have, want, names.drop_last(), now);
        let a = s.visit_all(ctx, dir, have, want, names.drop_last());
        let b = a.visit(ctx, dir, want, names.last(), have[names.last()]);
        assert(b.up.inv.dirty_dirs == a.up.inv.dirty_dirs);
        assert(forall|d: u64| #[trigger]
            b.up.tree.is_dir(d) ==> a.up.tree.is_dir(d) && b.up.tree.nodes[d].mtime
                == a.up.tree.nodes[d].mtime);
    }
}

proof fn lemma_place_all_touched(
    s: Sync,
    ctx: Seq<char>,
    dir: u64,
    want: Map<Seq<char>, Wanted>,
    names: Seq<Seq<char>>,
    now: SystemTime,
)
    requires
        touched(s.up, now),
        wellformed::files_only(want),
        forall|i: int| 0 <= i < names.len() ==> want.contains_key(#[trigger] names[i]),
    ensures
        touched(s.place_all(ctx, dir, want, names).up, now),
    decreases names.len(),
{
    if names.len() > 0 {
        let f = names.drop_last();
        assert(forall|i: int| 0 <= i < f.len() ==> f[i] == names[i]);
        lemma_place_all_touched(s, ctx, dir, want, f, now);
        assert(want.contains_key(names[names.len() - 1]));
        let a = s.place_all(ctx, dir, want, f);
        let b = a.place(ctx, dir, want, names.last());
        assert(b.up.inv.dirty_dirs == a.up.inv.dirty_dirs);
        assert(forall|d: u64| #[trigger]
            b.up.tree.is_dir(d) ==> a.up.tree.is_dir(d) && b.up.tree.nodes[d].mtime
                == a.up.tree.nodes[d].mtime);
    }
}

proof fn lemma_sync_dir_touched(
    u: Update,
    ctx: Seq<char>,
    dir: u64,
    want: Map<Seq<char>, Wanted>,
    now: SystemTime,
)
    requires
        touched(u, now),
        wellformed::files_only(want),
        want.dom().finite(),
    ensures
        touched(u.sync_dir(ctx, dir, want, now), now),
{
    let have = u.tree.entries(dir);
    let olds = strmap::ordered(have.dom());
    let news = strmap::ordered(want.dom());
    let s = Sync { up: u, dirty: false };
    lemma_visit_all_touched(s, ctx, dir, have, want, olds, now);
    strmap::lemma_ordered(want.dom());
    assert forall|i: int| 0 <= i < news.len() implies want.contains_key(#[trigger] news[i]) by {
        assert(news.contains(news[i]));
    }
    let v = s.visit_all(ctx, dir, have, want, olds);
    lemma_place_all_touched(v, ctx, dir, want, news, now);
    let w = v.place_all(ctx, dir, want, news);
    let r = w.finish(dir, now);
    assert forall|d: u64| #[trigger] r.inv.dirty_dirs.contains(d) && r.tree.is_dir(d) implies
        r.tree.nodes[d].mtime == now by {
        if d != dir && w.dirty {
            wellformed::lemma_push_contains(w.up.inv.dirty_dirs, dir, d);
            assert(w.up.inv.dirty_dirs.contains(d));
        }
    }
}

proof fn lemma_sync_dirs_touched(
    u: Update,
    dirs: Seq<Option<u64>>,
    ctx: Seq<char>,
    p: Plan,
    now: SystemTime,
)
    requires
        touched(u, now),
        wellformed::plan_fits(p),
    ensures
        touched(u.sync_dirs(dirs, ctx, p, now), now),
    decreases dirs.len(),
{
    if dirs.len() > 0 {
        lemma_sync_dirs_touched(u, dirs.drop_last(), ctx, p, now);
        if let Some(dir) = dirs.last() {
            let l = model::label(dirs.len() - 1);
            assert(wellformed::files_only(p.wants(l)));
            lemma_sync_dir_touched(
                u.sync_dirs(dirs.drop_last(), ctx, p, now),
                ctx,
                dir,
                p.wants(l),
                now,
            );
        }
    }
}

/// A directory of a context that a file comes into shows the time at which it came.
pub proof fn law_directories_show_when_they_changed(
    t: TreeView,
    ctx: Seq<char>,
    docs: Seq<DocumentView>,
    names: Map<Seq<char>, Seq<char>>,
    unsaved: Seq<(Seq<char>, Seq<char>)>,
    now: SystemTime,
    dir: u64,
    n: Seq<char>,
)
    requires
        t.wf(),
        t.contexts.contains_key(ctx),
        t.room(docs.len() as int),
        t.is_dir(dir),
    ensures
        ({
            let p = model::plan(t, ctx, docs, names, unsaved);
            let u = model::apply_documents(t, ctx, p, now);
            let i = u.tree.entries(dir)[n];
            u.tree.is_dir(dir) && u.tree.entries(dir).contains_key(n) && !(t.entries(
                dir,
            ).contains_key(n) && t.entries(dir)[n] == i) ==> u.tree.nodes[dir].mtime == now
                && u.inv.dirty_dirs.contains(dir)
        }),
{
    let p = model::plan(t, ctx, docs, names, unsaved);
    let u = Update { tree: t, inv: model::no_invalidation() };
    wellformed::lemma_plan_fits(t, ctx, docs, names, unsaved);
    lemma_sync_dirs_touched(u, model::context_dirs(t, ctx), ctx, p, now);
    notices::law_documents_told(t, ctx, docs, names, unsaved, now);
}

} // verus!
