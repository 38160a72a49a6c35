//! Every document of a list is shown, and nothing else.

use crate::api::{ContextView, DocumentView};
use crate::inodes;
use crate::laws;
use crate::listing;
use crate::model;
use crate::model::{Plan, Sync, TreeView, Update, Wanted};
use crate::naming;
use crate::naming::wanted_for;
use crate::render;
use crate::render::SCHEMA_DIRS;
use crate::state::FIRST_OVERLAY_INO;
use crate::strmap;
use crate::wellformed;
use std::time::SystemTime;
use vstd::prelude::*;

verus! {

/// After the documents of a context were brought up to date, each document of the list is shown in
/// its directory, with its content, under the name that it is then given.
pub proof fn law_each_document_is_shown(
    t: TreeView,
    ctx: Seq<char>,
    docs: Seq<DocumentView>,
    names: Map<Seq<char>, Seq<char>>,
    unsaved: Seq<(Seq<char>, Seq<char>)>,
    now: SystemTime,
    doc: DocumentView,
)
    requires
        t.wf(),
        t.contexts.contains_key(ctx),
        listing::tidy(t, ctx, listing::own_dirs(t, ctx)),
        naming::distinct_ids(docs),
        t.room(docs.len() as int),
        docs.contains(doc),
    ensures
        ({
            let p = model::plan(t, ctx, docs, names, unsaved);
            let u = model::apply_documents(t, ctx, p, now).tree;
            &&& naming::given(p.names, ctx, doc) is Some
            &&& listing::shows_wanted(
                u,
                ctx,
                laws::dir_for(t, ctx, doc),
                naming::given(p.names, ctx, doc)->0,
                wanted_for(doc, model::workspace_of(t, ctx)),
            )
        }),
{
    let p = model::plan(t, ctx, docs, names, unsaved);
    let workspace = model::workspace_of(t, ctx);
    naming::law_plan_is_for_its_documents(t, ctx, docs, names, unsaved);
    laws::law_context_shows_its_documents(t, ctx, docs, names, unsaved, now);
    naming::lemma_schema_dir_is_label(doc.schema);
    let k = choose|k: int|
        0 <= k < SCHEMA_DIRS@.len() && #[trigger] model::label(k) == render::schema_dir(doc.schema);
    assert(naming::is_placed(p, ctx, workspace, doc));
    assert(p.wants(model::label(k)).contains_key(naming::given(p.names, ctx, doc)->0));
}

/// Whether what is shown under a name in a directory is a document of a list.
pub open spec fn shows_one_of(
    u: TreeView,
    ctx: Seq<char>,
    dir: u64,
    name: Seq<char>,
    label: Seq<char>,
    docs: Seq<DocumentView>,
    workspace: Option<Seq<char>>,
) -> bool {
    exists|o: DocumentView| #[trigger]
        docs.contains(o) && render::schema_dir(o.schema) == label && listing::shows_wanted(
            u,
            ctx,
            dir,
            name,
            wanted_for(o, workspace),
        )
}

/// After the documents of a context were brought up to date, each file in one of its directories
/// is that of a document of the list, with its content.
pub proof fn law_nothing_else_is_shown(
    t: TreeView,
    ctx: Seq<char>,
    docs: Seq<DocumentView>,
    names: Map<Seq<char>, Seq<char>>,
    unsaved: Seq<(Seq<char>, Seq<char>)>,
    now: SystemTime,
    k: int,
    name: Seq<char>,
)
    requires
        t.wf(),
        t.contexts.contains_key(ctx),
        listing::tidy(t, ctx, listing::own_dirs(t, ctx)),
        naming::distinct_ids(docs),
        t.room(docs.len() as int),
        0 <= k < SCHEMA_DIRS@.len(),
    ensures
        ({
            let p = model::plan(t, ctx, docs, names, unsaved);
            let u = model::apply_documents(t, ctx, p, now).tree;
            let dir = t.context_dir(t.contexts[ctx], model::label(k))->0;
            u.entries(dir).contains_key(name) ==> shows_one_of(
                u,
                ctx,
                dir,
                name,
                model::label(k),
                docs,
                model::workspace_of(t, ctx),
            )
        }),
{
    let p = model::plan(t, ctx, docs, names, unsaved);
    let u = model::apply_documents(t, ctx, p, now).tree;
    let workspace = model::workspace_of(t, ctx);
    let dir = t.context_dir(t.contexts[ctx], model::label(k))->0;
    naming::law_plan_is_for_its_documents(t, ctx, docs, names, unsaved);
    laws::law_context_shows_its_documents(t, ctx, docs, names, unsaved, now);
    if u.entries(dir).contains_key(name) {
        let l = model::label(k);
        assert(u.entries(dir).dom().contains(name));
        assert(p.wants(l).contains_key(name));
        let o = choose|o: DocumentView| #[trigger]
            docs.contains(o) && render::schema_dir(o.schema) == l && naming::given(
                p.names,
                ctx,
                o,
            ) == Some(name);
        assert(naming::is_placed(p, ctx, workspace, o));
        assert(listing::shows_wanted(u, ctx, dir, name, wanted_for(o, workspace)));
    }
}

/// Bringing the documents of a context up to date leaves the context where it is.
proof fn lemma_context_stays(
    t: TreeView,
    ctx: Seq<char>,
    docs: Seq<DocumentView>,
    names: Map<Seq<char>, Seq<char>>,
    unsaved: Seq<(Seq<char>, Seq<char>)>,
    now: SystemTime,
)
    requires
        t.wf(),
        t.contexts.contains_key(ctx),
        listing::tidy(t, ctx, listing::own_dirs(t, ctx)),
        naming::distinct_ids(docs),
        t.room(docs.len() as int),
    ensures
        ({
            let p = model::plan(t, ctx, docs, names, unsaved);
            let u = model::apply_documents(t, ctx, p, now).tree;
            &&& u.wf()
            &&& u.contexts == t.contexts
            &&& model::workspace_of(u, ctx) == model::workspace_of(t, ctx)
            &&& forall|k: int|
                0 <= k < SCHEMA_DIRS@.len() ==> u.context_dir(
                    u.contexts[ctx],
                    #[trigger] model::label(k),
                ) == t.context_dir(t.contexts[ctx], model::label(k))
            &&& listing::own_dirs(u, ctx) == listing::own_dirs(t, ctx)
            &&& listing::tidy(u, ctx, listing::own_dirs(u, ctx))
        }),
{
    let p = model::plan(t, ctx, docs, names, unsaved);
    let u = model::apply_documents(t, ctx, p, now).tree;
    wellformed::law_documents_keep_directories(t, ctx, docs, names, unsaved, now);
    laws::law_context_shows_its_documents(t, ctx, docs, names, unsaved, now);
    let own = listing::own_dirs(t, ctx);
    let home = t.contexts[ctx];
    assert(!own.contains(home)) by {
        if own.contains(home) {
            let k = choose|k: int|
                0 <= k < SCHEMA_DIRS@.len() && t.context_dir(
                    t.contexts[ctx],
                    #[trigger] model::label(k),
                ) == Some(home);
            wellformed::lemma_context_dir_takes_files(t, ctx, model::label(k));
        }
    }
    assert(u.entries(home) == t.entries(home));
    assert(t.has_skeleton(home));
    assert forall|k: int| 0 <= k < SCHEMA_DIRS@.len() implies u.context_dir(
        u.contexts[ctx],
        #[trigger] model::label(k),
    ) == t.context_dir(t.contexts[ctx], model::label(k)) by {
        let n = model::label(k);
        assert(t.context_dir(home, n) is Some);
        assert(t.is_dir(t.context_dir(home, n)->0));
        assert(u.is_dir(t.context_dir(home, n)->0));
    }
    assert forall|d: u64| listing::own_dirs(u, ctx).contains(d) <==> own.contains(d) by {
        if listing::own_dirs(u, ctx).contains(d) {
            let k = choose|k: int|
                0 <= k < SCHEMA_DIRS@.len() && u.context_dir(
                    u.contexts[ctx],
                    #[trigger] model::label(k),
                ) == Some(d);
            assert(t.context_dir(t.contexts[ctx], model::label(k)) == Some(d));
        }
        if own.contains(d) {
            let k = choose|k: int|
                0 <= k < SCHEMA_DIRS@.len() && t.context_dir(
                    t.contexts[ctx],
                    #[trigger] model::label(k),
                ) == Some(d);
            assert(u.context_dir(u.contexts[ctx], model::label(k)) == Some(d));
        }
    }
    assert(listing::own_dirs(u, ctx) =~= own);
}

/// Bringing the documents of a context up to date a second time, with the same list, gives no
/// name, changes nothing and tells the kernel nothing.
pub proof fn law_refresh_twice(
    t: TreeView,
    ctx: Seq<char>,
    docs: Seq<DocumentView>,
    names: Map<Seq<char>, Seq<char>>,
    unsaved: Seq<(Seq<char>, Seq<char>)>,
    now: SystemTime,
    now2: SystemTime,
)
    requires
        t.wf(),
        t.contexts.contains_key(ctx),
        listing::tidy(t, ctx, listing::own_dirs(t, ctx)),
        naming::distinct_ids(docs),
        t.room(docs.len() as int),
    ensures
        ({
            let p = model::plan(t, ctx, docs, names, unsaved);
            let u = model::apply_documents(t, ctx, p, now).tree;
            let q = model::plan(u, ctx, docs, p.names, p.unsaved);
            &&& q.names == p.names
            &&& q.unsaved == p.unsaved
            &&& model::apply_documents(u, ctx, q, now2) == (Update {
                tree: u,
                inv: model::no_invalidation(),
            })
        }),
{
    let p = model::plan(t, ctx, docs, names, unsaved);
    let u = model::apply_documents(t, ctx, p, now).tree;
    let q = model::plan(u, ctx, docs, p.names, p.unsaved);
    lemma_context_stays(t, ctx, docs, names, unsaved, now);
    laws::law_context_shows_its_documents(t, ctx, docs, names, unsaved, now);
    naming::law_plans_repeat(t, u, ctx, docs, names, unsaved);
    assert forall|k: int| 0 <= k < SCHEMA_DIRS@.len() implies listing::holds_exactly(
        u,
        ctx,
        u.context_dir(u.contexts[ctx], #[trigger] model::label(k))->0,
        q.wants(model::label(k)),
    ) by {
        assert(q.wants(model::label(k)) == p.wants(model::label(k)));
    }
    laws::law_no_change_tells_nothing(u, ctx, q, now2);
}

/// A document that is in two lists that follow each other, in the same directory, keeps its name
/// and its inode, whatever else of it or of the lists changed. What this leaves out: a document of
/// the second list with a smaller identifier that was given the same name.
pub proof fn law_documents_stay(
    t: TreeView,
    ctx: Seq<char>,
    docs: Seq<DocumentView>,
    more: Seq<DocumentView>,
    names: Map<Seq<char>, Seq<char>>,
    unsaved: Seq<(Seq<char>, Seq<char>)>,
    now: SystemTime,
    now2: SystemTime,
    doc: DocumentView,
    again: DocumentView,
)
    requires
        t.wf(),
        t.contexts.contains_key(ctx),
        listing::tidy(t, ctx, listing::own_dirs(t, ctx)),
        naming::distinct_ids(docs),
        naming::distinct_ids(more),
        t.room((docs.len() + more.len()) as int),
        docs.contains(doc),
        more.contains(again),
        again.id == doc.id,
        render::schema_dir(again.schema) == render::schema_dir(doc.schema),
        naming::comes_first(
            model::plan(t, ctx, docs, names, unsaved).names,
            ctx,
            again,
            more,
        ),
    ensures
        ({
            let p = model::plan(t, ctx, docs, names, unsaved);
            let u = model::apply_documents(t, ctx, p, now).tree;
            let q = model::plan(u, ctx, more, p.names, p.unsaved);
            let v = model::apply_documents(u, ctx, q, now2).tree;
            let dir = laws::dir_for(t, ctx, doc);
            let name = naming::given(p.names, ctx, doc)->0;
            &&& naming::given(q.names, ctx, again) == naming::given(p.names, ctx, doc)
            &&& listing::shown(u, ctx, dir, name, doc.id)
            &&& listing::shown(v, ctx, dir, name, doc.id)
            &&& v.entries(dir)[name] == u.entries(dir)[name]
        }),
{
    let p = model::plan(t, ctx, docs, names, unsaved);
    let u = model::apply_documents(t, ctx, p, now).tree;
    law_each_document_is_shown(t, ctx, docs, names, unsaved, now, doc);
    lemma_context_stays(t, ctx, docs, names, unsaved, now);
    laws::lemma_apply_documents_next(t, ctx, docs, names, unsaved, now);
    naming::lemma_schema_dir_is_label(doc.schema);
    let k = choose|k: int|
        0 <= k < SCHEMA_DIRS@.len() && #[trigger] model::label(k) == render::schema_dir(doc.schema);
    assert(u.context_dir(u.contexts[ctx], model::label(k)) == t.context_dir(
        t.contexts[ctx],
        model::label(k),
    ));
    assert(naming::given(p.names, ctx, again) == naming::given(p.names, ctx, doc));
    let name = naming::given(p.names, ctx, doc)->0;
    naming::law_names_stick(u, ctx, more, p.names, p.unsaved, again);
    laws::law_inodes_stay(u, ctx, more, p.names, p.unsaved, now2, again, name);
}

// ── other contexts ───────────────────────────────────────────────────────────

/// Whether two trees have the same bindings but for those of a context.
pub open spec fn same_other_docs(t: TreeView, u: TreeView, ctx: Seq<char>) -> bool {
    forall|k: (Seq<char>, u64)|
        k.0 != ctx ==> (#[trigger] u.docs.contains_key(k) <==> t.docs.contains_key(k)) && (
        t.docs.contains_key(k) ==> u.docs[k] == t.docs[k])
}

proof fn lemma_same_other_docs_trans(a: TreeView, b: TreeView, c: TreeView, ctx: Seq<char>)
    requires
        same_other_docs(a, b, ctx),
        same_other_docs(b, c, ctx),
    ensures
        same_other_docs(a, c, ctx),
{
    assert forall|k: (Seq<char>, u64)| k.0 != ctx implies (#[trigger] c.docs.contains_key(k)
        <==> a.docs.contains_key(k)) && (a.docs.contains_key(k) ==> c.docs[k] == a.docs[k]) by {
        assert(b.docs.contains_key(k) <==> a.docs.contains_key(k));
    }
}

proof fn lemma_visit_all_docs(
    s: Sync,
    ctx: Seq<char>,
    dir: u64,
    have: Map<Seq<char>, u64>,
    want: Map<Seq<char>, Wanted>,
    names: Seq<Seq<char>>,
)
    ensures
        same_other_docs(
            s.up.tree,
            s.visit_all(ctx, dir, have, want, names).up.tree,
            ctx,
        ),
    decreases names.len(),
{
    if names.len() > 0 {
        let f = names.drop_last();
        lemma_visit_all_docs(s, ctx, dir, have, want, f);
        let v = s.visit_all(ctx, dir, have, want, f);
        let w = v.visit(ctx, dir, want, names.last(), have[names.last()]);
        assert(same_other_docs(v.up.tree, w.up.tree, ctx));
        lemma_same_other_docs_trans(s.up.tree, v.up.tree, w.up.tree, ctx);
    }
}

proof fn lemma_place_all_docs(
    s: Sync,
    ctx: Seq<char>,
    dir: u64,
    want: Map<Seq<char>, Wanted>,
    names: Seq<Seq<char>>,
)
    ensures
        same_other_docs(s.up.tree, s.place_all(ctx, dir, want, names).up.tree, ctx),
    decreases names.len(),
{
    if names.len() > 0 {
        let f = names.drop_last();
        lemma_place_all_docs(s, ctx, dir, want, f);
        let v = s.place_all(ctx, dir, want, f);
        let w = v.place(ctx, dir, want, names.last());
        assert(same_other_docs(v.up.tree, w.up.tree, ctx));
        lemma_same_other_docs_trans(s.up.tree, v.up.tree, w.up.tree, ctx);
    }
}

/// Making the files of a directory those that it is to hold binds documents of one context only.
pub proof fn lemma_sync_dir_docs(
    u: Update,
    dir: u64,
    ctx: Seq<char>,
    want: Map<Seq<char>, Wanted>,
    now: SystemTime,
)
    ensures
        same_other_docs(u.tree, u.sync_dir(ctx, dir, want, now).tree, ctx),
{
    let have = u.tree.entries(dir);
    let olds = strmap::ordered(have.dom());
    let news = strmap::ordered(want.dom());
    let s = Sync { up: u, dirty: false };
    lemma_visit_all_docs(s, ctx, dir, have, want, olds);
    let s1 = s.visit_all(ctx, dir, have, want, olds);
    lemma_place_all_docs(s1, ctx, dir, want, news);
    let s2 = s1.place_all(ctx, dir, want, news);
    lemma_same_other_docs_trans(u.tree, s1.up.tree, s2.up.tree, ctx);
    let r = u.sync_dir(ctx, dir, want, now).tree;
    assert(same_other_docs(s2.up.tree, r, ctx));
    lemma_same_other_docs_trans(u.tree, s2.up.tree, r, ctx);
}

proof fn lemma_sync_dirs_docs(
    u: Update,
    dirs: Seq<Option<u64>>,
    ctx: Seq<char>,
    p: Plan,
    now: SystemTime,
)
    ensures
        same_other_docs(u.tree, u.sync_dirs(dirs, ctx, p, now).tree, ctx),
    decreases dirs.len(),
{
    if dirs.len() > 0 {
        lemma_sync_dirs_docs(u, dirs.drop_last(), ctx, p, now);
        let v = u.sync_dirs(dirs.drop_last(), ctx, p, now);
        if let Some(dir) = dirs.last() {
            let want = p.wants(model::label(dirs.len() - 1));
            lemma_sync_dir_docs(v, dir, ctx, want, now);
            let r = v.sync_dir(ctx, dir, want, now).tree;
            lemma_same_other_docs_trans(u.tree, v.tree, r, ctx);
        }
    }
}

/// The directories of two contexts are apart, and neither are the contexts among them.
proof fn lemma_dirs_apart(t: TreeView, ctx: Seq<char>, other: Seq<char>)
    requires
        t.wf(),
        t.contexts.contains_key(ctx),
        t.contexts.contains_key(other),
        other != ctx,
    ensures
        forall|d: u64| #[trigger]
            listing::own_dirs(t, ctx).contains(d) ==> t.is_dir(d) && !listing::own_dirs(
                t,
                other,
            ).contains(d) && d != t.contexts[other],
{
    assert(t.admits(ctx) && t.admits(other));
    assert(t.nodes[t.contexts[ctx]].name == ctx && t.nodes[t.contexts[other]].name == other);
    assert forall|d: u64| #[trigger] listing::own_dirs(t, ctx).contains(d) implies t.is_dir(d)
        && !listing::own_dirs(t, other).contains(d) && d != t.contexts[other] by {
        let k = choose|k: int|
            0 <= k < SCHEMA_DIRS@.len() && t.context_dir(
                t.contexts[ctx],
                #[trigger] model::label(k),
            ) == Some(d);
        wellformed::lemma_context_dir_takes_files(t, ctx, model::label(k));
        if listing::own_dirs(t, other).contains(d) {
            let j = choose|j: int|
                0 <= j < SCHEMA_DIRS@.len() && t.context_dir(
                    t.contexts[other],
                    #[trigger] model::label(j),
                ) == Some(d);
            wellformed::lemma_context_dir_takes_files(t, other, model::label(j));
        }
    }
}

/// A file of another context stays as it was.
proof fn lemma_other_file(t: TreeView, u: TreeView, ctx: Seq<char>, other: Seq<char>, d: u64)
    requires
        t.wf(),
        t.contexts.contains_key(ctx),
        t.contexts.contains_key(other),
        other != ctx,
        inodes::steady(t, u),
        listing::same_outside(t, u, listing::own_dirs(t, ctx)),
        listing::tidy(t, other, listing::own_dirs(t, other)),
        t.docs.contains_key((other, d)),
        u.nodes.contains_key(t.docs[(other, d)]),
    ensures
        t.nodes.contains_key(t.docs[(other, d)]),
        u.nodes[t.docs[(other, d)]] == t.nodes[t.docs[(other, d)]],
        listing::own_dirs(t, other).contains(t.nodes[t.docs[(other, d)]].parent),
{
    let i = t.docs[(other, d)];
    assert(i < t.next_ino || i >= FIRST_OVERLAY_INO);
    assert(t.nodes.contains_key(i));
    lemma_dirs_apart(t, ctx, other);
    let p = t.nodes[i].parent;
    assert(listing::own_dirs(t, other).contains(p));
    if listing::own_dirs(t, ctx).contains(p) {
        assert(!listing::own_dirs(t, other).contains(p));
    }
    if listing::own_dirs(t, ctx).contains(i) {
        assert(t.is_dir(i));
    }
}

/// Bringing the documents of a context up to date leaves every other context as tidy as it was,
/// with the same directories.
pub proof fn law_other_contexts_stay_tidy(
    t: TreeView,
    ctx: Seq<char>,
    docs: Seq<DocumentView>,
    names: Map<Seq<char>, Seq<char>>,
    unsaved: Seq<(Seq<char>, Seq<char>)>,
    now: SystemTime,
    other: Seq<char>,
)
    requires
        t.wf(),
        t.contexts.contains_key(ctx),
        t.contexts.contains_key(other),
        other != ctx,
        listing::tidy(t, ctx, listing::own_dirs(t, ctx)),
        listing::tidy(t, other, listing::own_dirs(t, other)),
        naming::distinct_ids(docs),
        t.room(docs.len() as int),
    ensures
        ({
            let p = model::plan(t, ctx, docs, names, unsaved);
            let u = model::apply_documents(t, ctx, p, now).tree;
            &&& listing::own_dirs(u, other) == listing::own_dirs(t, other)
            &&& listing::tidy(u, other, listing::own_dirs(u, other))
        }),
{
    let p = model::plan(t, ctx, docs, names, unsaved);
    let u = model::apply_documents(t, ctx, p, now).tree;
    let own = listing::own_dirs(t, ctx);
    let theirs = listing::own_dirs(t, other);
    let home = t.contexts[other];
    wellformed::law_documents_keep_directories(t, ctx, docs, names, unsaved, now);
    laws::law_context_shows_its_documents(t, ctx, docs, names, unsaved, now);
    let up = Update { tree: t, inv: model::no_invalidation() };
    lemma_sync_dirs_docs(up, model::context_dirs(t, ctx), ctx, p, now);
    assert(home != t.contexts[ctx]) by {
        assert(t.admits(ctx) && t.admits(other));
    }
    lemma_dirs_apart(t, ctx, other);
    inodes::law_documents_reuse_no_inode(t, ctx, docs, names, unsaved, now);
    assert(!own.contains(home));
    assert(u.entries(home) == t.entries(home));
    assert(t.has_skeleton(home));
    assert forall|k: int| 0 <= k < SCHEMA_DIRS@.len() implies u.context_dir(
        home,
        #[trigger] model::label(k),
    ) == t.context_dir(home, model::label(k)) by {
        let n = model::label(k);
        assert(t.context_dir(home, n) is Some);
        assert(t.is_dir(t.context_dir(home, n)->0));
        assert(u.is_dir(t.context_dir(home, n)->0));
    }
    assert forall|d: u64| listing::own_dirs(u, other).contains(d) <==> theirs.contains(d) by {
        if listing::own_dirs(u, other).contains(d) {
            let k = choose|k: int|
                0 <= k < SCHEMA_DIRS@.len() && u.context_dir(
                    u.contexts[other],
                    #[trigger] model::label(k),
                ) == Some(d);
            assert(t.context_dir(home, model::label(k)) == Some(d));
        }
        if theirs.contains(d) {
            let k = choose|k: int|
                0 <= k < SCHEMA_DIRS@.len() && t.context_dir(
                    t.contexts[other],
                    #[trigger] model::label(k),
                ) == Some(d);
            assert(u.context_dir(u.contexts[other], model::label(k)) == Some(d));
        }
    }
    assert(listing::own_dirs(u, other) =~= theirs);
    assert forall|i: u64| #[trigger]
        u.nodes.contains_key(i) && theirs.contains(u.nodes[i].parent) implies t.nodes.contains_key(
        i,
    ) && u.nodes[i] == t.nodes[i] && !own.contains(i) by {
        let q = u.nodes[i].parent;
        if own.contains(q) {
            assert(!theirs.contains(q));
        }
        assert(t.nodes.contains_key(i));
        if own.contains(i) {
            assert(t.is_dir(i));
            assert(u.is_dir(i));
            assert(t.nodes[i].parent == u.nodes[i].parent);
            assert(!t.nodes[i].is_dir());
        }
    }
    assert forall|d: u64| #[trigger]
        u.docs.contains_key((other, d)) && u.nodes.contains_key(
            u.docs[(other, d)],
        ) implies theirs.contains(u.nodes[u.docs[(other, d)]].parent) by {
        let i = u.docs[(other, d)];
        assert(t.docs.contains_key((other, d)) && t.docs[(other, d)] == i);
        lemma_other_file(t, u, ctx, other, d);
    }
    assert forall|d: u64, e: u64|
        #![trigger u.docs.contains_key((other, d)), u.docs.contains_key((other, e))]
        u.docs.contains_key((other, d)) && u.docs.contains_key((other, e)) && u.docs[(other, d)]
            == u.docs[(other, e)] && u.nodes.contains_key(u.docs[(other, d)]) implies d == e by {
        assert(t.docs.contains_key((other, d)) && t.docs.contains_key((other, e)));
        lemma_other_file(t, u, ctx, other, d);
    }
}

/// Bringing the meta file of a context up to date leaves every context as tidy as it was, with the
/// same directories.
pub proof fn law_meta_keeps_tidy(t: TreeView, info: ContextView, now: SystemTime, ctx: Seq<char>)
    requires
        t.wf(),
        t.contexts.contains_key(ctx),
        listing::tidy(t, ctx, listing::own_dirs(t, ctx)),
    ensures
        ({
            let u = model::update_context_meta(t, info, now).tree;
            &&& listing::own_dirs(u, ctx) == listing::own_dirs(t, ctx)
            &&& listing::tidy(u, ctx, listing::own_dirs(u, ctx))
        }),
{
    if t.contexts.contains_key(info.id) {
        let up = Update { tree: t, inv: model::no_invalidation() };
        laws::lemma_refresh_meta_tidy(up, info, now, ctx);
    }
}

} // verus!
