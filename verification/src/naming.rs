//! Which document gets which name.

use crate::api::DocumentView;
use crate::listing;
use crate::model;
use crate::model::{Plan, TreeView, Wanted};
use crate::names;
use crate::render;
use crate::render::SCHEMA_DIRS;
use crate::wellformed;
use vstd::prelude::*;
use vstd::string::*;

verus! {

/// Whether no two documents of a list have the same identifier.
pub open spec fn distinct_ids(docs: Seq<DocumentView>) -> bool {
    forall|i: int, j: int|
        0 <= i < j < docs.len() ==> (#[trigger] docs[i]).id != (#[trigger] docs[j]).id
}

/// Whether a list holds a document with an identifier.
pub open spec fn has_id(docs: Seq<DocumentView>, id: u64) -> bool {
    exists|i: int| 0 <= i < docs.len() && (#[trigger] docs[i]).id == id
}

proof fn lemma_insert_by_id_holds(s: Seq<DocumentView>, d: DocumentView, x: DocumentView)
    ensures
        model::insert_by_id(s, d).contains(x) <==> s.contains(x) || x == d,
    decreases s.len(),
{
    if s.len() == 0 || s.last().id <= d.id {
        wellformed::lemma_push_contains(s, d, x);
    } else {
        let f = s.drop_last();
        lemma_insert_by_id_holds(f, d, x);
        assert(s == f.push(s.last()));
        wellformed::lemma_push_contains(f, s.last(), x);
        wellformed::lemma_push_contains(model::insert_by_id(f, d), s.last(), x);
    }
}

proof fn lemma_insert_by_id_distinct(s: Seq<DocumentView>, d: DocumentView)
    requires
        distinct_ids(s),
        !has_id(s, d.id),
    ensures
        distinct_ids(model::insert_by_id(s, d)),
    decreases s.len(),
{
    if s.len() == 0 || s.last().id <= d.id {
        let r = s.push(d);
        assert forall|i: int, j: int| 0 <= i < j < r.len() implies (#[trigger] r[i]).id != (
        #[trigger] r[j]).id by {
            assert(r[i] == s[i]);
            if j < s.len() {
                assert(r[j] == s[j]);
            }
        }
    } else {
        let f = s.drop_last();
        assert(forall|i: int| 0 <= i < f.len() ==> f[i] == s[i]);
        assert(!has_id(f, d.id)) by {
            if has_id(f, d.id) {
                let i = choose|i: int| 0 <= i < f.len() && (#[trigger] f[i]).id == d.id;
                assert(s[i].id == d.id);
            }
        }
        assert(distinct_ids(f));
        lemma_insert_by_id_distinct(f, d);
        let g = model::insert_by_id(f, d);
        let r = g.push(s.last());
        assert forall|i: int, j: int| 0 <= i < j < r.len() implies (#[trigger] r[i]).id != (
        #[trigger] r[j]).id by {
            assert(r[i] == g[i]);
            if j < g.len() {
                assert(r[j] == g[j]);
            } else {
                assert(g.contains(g[i]));
                lemma_insert_by_id_holds(f, d, g[i]);
                if f.contains(g[i]) {
                    let k = choose|k: int| 0 <= k < f.len() && f[k] == g[i];
                    assert(s[k].id != s[s.len() - 1].id);
                } else {
                    assert(s[s.len() - 1].id != d.id);
                }
            }
        }
    }
}

/// Ordering documents keeps which there are.
pub proof fn lemma_by_id(docs: Seq<DocumentView>)
    ensures
        forall|x: DocumentView| #[trigger] model::by_id(docs).contains(x) <==> docs.contains(x),
        distinct_ids(docs) ==> distinct_ids(model::by_id(docs)),
    decreases docs.len(),
{
    if docs.len() > 0 {
        let f = docs.drop_last();
        lemma_by_id(f);
        assert(docs == f.push(docs.last()));
        assert forall|x: DocumentView| #[trigger] model::by_id(docs).contains(x) <==> docs.contains(
            x,
        ) by {
            lemma_insert_by_id_holds(model::by_id(f), docs.last(), x);
            wellformed::lemma_push_contains(f, docs.last(), x);
            assert(model::by_id(f).contains(x) <==> f.contains(x));
        }
        if distinct_ids(docs) {
            assert(forall|i: int| 0 <= i < f.len() ==> f[i] == docs[i]);
            assert(distinct_ids(f));
            let g = model::by_id(f);
            assert(!has_id(g, docs.last().id)) by {
                if has_id(g, docs.last().id) {
                    let i = choose|i: int| 0 <= i < g.len() && (#[trigger] g[i]).id
                        == docs.last().id;
                    assert(g.contains(g[i]));
                    let k = choose|k: int| 0 <= k < f.len() && f[k] == g[i];
                    assert(docs[k].id != docs[docs.len() - 1].id);
                }
            }
            lemma_insert_by_id_distinct(g, docs.last());
        }
    }
}

/// Whether everything that is wanted is for one of some documents.
spec fn wants_of(p: Plan, docs: Seq<DocumentView>) -> bool {
    forall|l: Seq<char>, n: Seq<char>| #[trigger]
        p.wants(l).contains_key(n) ==> has_id(docs, p.wants(l)[n].doc)
}

proof fn lemma_add_doc_one_place(
    p: Plan,
    ctx: Seq<char>,
    doc: DocumentView,
    workspace: Option<Seq<char>>,
    docs: Seq<DocumentView>,
)
    requires
        listing::one_place_each(p),
        wants_of(p, docs),
        !has_id(docs, doc.id),
    ensures
        listing::one_place_each(p.add_doc(ctx, doc, workspace)),
        wants_of(p.add_doc(ctx, doc, workspace), docs.push(doc)),
{
    let q = p.add_doc(ctx, doc, workspace);
    let dir = render::schema_dir(doc.schema);
    let name = p.name_for(ctx, doc);
    let more = docs.push(doc);
    assert forall|l: Seq<char>, n: Seq<char>| #[trigger] q.wants(l).contains_key(n) implies (if l
        == dir && n == name {
        q.wants(l)[n].doc == doc.id
    } else {
        p.wants(l).contains_key(n) && q.wants(l)[n] == p.wants(l)[n]
    }) by {}
    assert forall|l: Seq<char>, n: Seq<char>| #[trigger] q.wants(l).contains_key(n) implies has_id(
        more,
        q.wants(l)[n].doc,
    ) by {
        if l == dir && n == name {
            assert(more[docs.len() as int].id == doc.id);
        } else {
            assert(p.wants(l).contains_key(n));
            let i = choose|i: int| 0 <= i < docs.len() && (#[trigger] docs[i]).id == p.wants(
                l,
            )[n].doc;
            assert(more[i].id == p.wants(l)[n].doc);
        }
    }
    assert forall|k: Seq<char>, m: Seq<char>, l: Seq<char>, n: Seq<char>|
        #![trigger q.wants(k).contains_key(m), q.wants(l).contains_key(n)]
        q.wants(k).contains_key(m) && q.wants(l).contains_key(n) && q.wants(k)[m].doc == q.wants(
            l,
        )[n].doc implies k == l && m == n by {
        let a = k == dir && m == name;
        let b = l == dir && n == name;
        if !a {
            assert(p.wants(k).contains_key(m));
            assert(has_id(docs, p.wants(k)[m].doc));
        }
        if !b {
            assert(p.wants(l).contains_key(n));
            assert(has_id(docs, p.wants(l)[n].doc));
        }
    }
}

proof fn lemma_has_id_push(docs: Seq<DocumentView>, d: DocumentView, id: u64)
    ensures
        has_id(docs.push(d), id) <==> has_id(docs, id) || d.id == id,
{
    let more = docs.push(d);
    if has_id(docs, id) {
        let i = choose|i: int| 0 <= i < docs.len() && (#[trigger] docs[i]).id == id;
        assert(more[i].id == id);
    }
    if d.id == id {
        assert(more[docs.len() as int].id == id);
    }
    if has_id(more, id) {
        let i = choose|i: int| 0 <= i < more.len() && (#[trigger] more[i]).id == id;
        if i < docs.len() {
            assert(docs[i].id == id);
        }
    }
}

/// The documents that are claimed, those that are left, and that they are apart.
proof fn lemma_claim_one_place(
    p: Plan,
    t: TreeView,
    ctx: Seq<char>,
    docs: Seq<DocumentView>,
    workspace: Option<Seq<char>>,
) -> (claimed: Seq<DocumentView>)
    requires
        p.want == Map::<Seq<char>, Map<Seq<char>, Wanted>>::empty(),
        distinct_ids(docs),
    ensures
        ({
            let (q, rest) = p.claim(t, ctx, docs, workspace);
            &&& listing::one_place_each(q)
            &&& wants_of(q, claimed)
            &&& distinct_ids(rest)
            &&& forall|id: u64| has_id(rest, id) ==> !has_id(claimed, id)
            &&& forall|id: u64| has_id(rest, id) || has_id(claimed, id) ==> has_id(docs, id)
        }),
    decreases docs.len(),
{
    if docs.len() == 0 {
        Seq::empty()
    } else {
        let f = docs.drop_last();
        let doc = docs.last();
        assert(forall|i: int| 0 <= i < f.len() ==> f[i] == docs[i]);
        assert(distinct_ids(f));
        let c = lemma_claim_one_place(p, t, ctx, f, workspace);
        let (q, rest) = p.claim(t, ctx, f, workspace);
        assert(docs == f.push(doc));
        assert(!has_id(f, doc.id)) by {
            if has_id(f, doc.id) {
                let i = choose|i: int| 0 <= i < f.len() && (#[trigger] f[i]).id == doc.id;
                assert(docs[i].id != docs[docs.len() - 1].id);
            }
        }
        assert forall|id: u64| has_id(docs, id) <==> has_id(f, id) || doc.id == id by {
            lemma_has_id_push(f, doc, id);
        }
        if t.lookup(t.contexts[ctx], render::schema_dir(doc.schema)) is None {
            c
        } else if q.keeps(ctx, doc) {
            lemma_add_doc_one_place(q, ctx, doc, workspace, c);
            assert forall|id: u64| has_id(c.push(doc), id) <==> has_id(c, id) || doc.id == id by {
                lemma_has_id_push(c, doc, id);
            }
            c.push(doc)
        } else {
            let more = rest.push(doc);
            assert forall|id: u64| has_id(more, id) <==> has_id(rest, id) || doc.id == id by {
                lemma_has_id_push(rest, doc, id);
            }
            assert forall|i: int, j: int| 0 <= i < j < more.len() implies (#[trigger] more[i]).id
                != (#[trigger] more[j]).id by {
                assert(more[i] == rest[i]);
                if j < rest.len() {
                    assert(more[j] == rest[j]);
                } else {
                    assert(has_id(rest, rest[i].id));
                }
            }
            c
        }
    }
}

proof fn lemma_add_docs_one_place(
    p: Plan,
    ctx: Seq<char>,
    docs: Seq<DocumentView>,
    workspace: Option<Seq<char>>,
    before: Seq<DocumentView>,
)
    requires
        listing::one_place_each(p),
        wants_of(p, before),
        distinct_ids(docs),
        forall|id: u64| has_id(docs, id) ==> !has_id(before, id),
    ensures
        listing::one_place_each(p.add_docs(ctx, docs, workspace)),
        wants_of(p.add_docs(ctx, docs, workspace), before + docs),
    decreases docs.len(),
{
    if docs.len() == 0 {
        assert(before + docs =~= before);
    } else {
        let f = docs.drop_last();
        let doc = docs.last();
        assert(docs == f.push(doc));
        assert(forall|i: int| 0 <= i < f.len() ==> f[i] == docs[i]);
        assert forall|id: u64| has_id(docs, id) <==> has_id(f, id) || doc.id == id by {
            lemma_has_id_push(f, doc, id);
        }
        lemma_add_docs_one_place(p, ctx, f, workspace, before);
        let q = p.add_docs(ctx, f, workspace);
        assert(!has_id(before + f, doc.id)) by {
            if has_id(before + f, doc.id) {
                let i = choose|i: int| 0 <= i < (before + f).len() && (#[trigger] (before + f)[i]).id
                    == doc.id;
                if i < before.len() {
                    assert(before[i].id == doc.id);
                    assert(has_id(before, doc.id));
                } else {
                    assert(f[i - before.len()].id == doc.id);
                    assert(docs[i - before.len()].id != docs[docs.len() - 1].id);
                }
            }
        }
        lemma_add_doc_one_place(q, ctx, doc, workspace, before + f);
        assert((before + f).push(doc) =~= before + docs);
    }
}

/// In a plan for documents with different identifiers, each document is wanted in at most one
/// directory, under at most one name.
pub proof fn law_each_document_has_one_place(
    t: TreeView,
    ctx: Seq<char>,
    docs: Seq<DocumentView>,
    names: Map<Seq<char>, Seq<char>>,
    unsaved: Seq<(Seq<char>, Seq<char>)>,
)
    requires
        distinct_ids(docs),
    ensures
        listing::one_place_each(model::plan(t, ctx, docs, names, unsaved)),
{
    let workspace = model::workspace_of(t, ctx);
    let p0 = model::no_plan(names, unsaved);
    lemma_by_id(docs);
    let c = lemma_claim_one_place(p0, t, ctx, model::by_id(docs), workspace);
    let (p, rest) = p0.claim(t, ctx, model::by_id(docs), workspace);
    lemma_add_docs_one_place(p, ctx, rest, workspace, c);
}

/// The directory of a document is one that every context has.
pub proof fn lemma_schema_dir_is_label(schema: Seq<char>)
    ensures
        model::is_label(render::schema_dir(schema)),
        names::plain(render::schema_dir(schema)),
{
    reveal_strlit("Tabs");
    reveal_strlit("Links");
    reveal_strlit("Notes");
    reveal_strlit("Todos");
    reveal_strlit("Files");
    reveal_strlit("Emails");
    reveal_strlit("Other");
    assert(model::label(0) == "Tabs"@);
    assert(model::label(1) == "Notes"@);
    assert(model::label(2) == "Todos"@);
    assert(model::label(3) == "Files"@);
    assert(model::label(4) == "Emails"@);
    assert(model::label(5) == "Links"@);
    assert(model::label(6) == "Other"@);
}

/// The name that a document was given before.
pub open spec fn given(
    names: Map<Seq<char>, Seq<char>>,
    ctx: Seq<char>,
    doc: DocumentView,
) -> Option<Seq<char>> {
    let key = names::name_key(ctx, render::schema_dir(doc.schema), doc.id);
    if names.contains_key(key) {
        Some(names[key])
    } else {
        None
    }
}

/// The file that a document is to have.
pub open spec fn wanted_for(doc: DocumentView, workspace: Option<Seq<char>>) -> Wanted {
    Wanted {
        doc: doc.id,
        content: model::file_content(render::rendered_content(doc), doc, workspace),
        mtime: doc.updated_at,
    }
}

/// Whether a plan holds the file of a document under a name.
pub open spec fn is_planned(
    p: Plan,
    doc: DocumentView,
    workspace: Option<Seq<char>>,
    name: Seq<char>,
) -> bool {
    let files = p.wants(render::schema_dir(doc.schema));
    files.contains_key(name) && files[name] == wanted_for(doc, workspace)
}

/// Whether a plan holds the file of a document under the name that the document was given.
pub open spec fn is_placed(
    p: Plan,
    ctx: Seq<char>,
    workspace: Option<Seq<char>>,
    doc: DocumentView,
) -> bool {
    given(p.names, ctx, doc) is Some && is_planned(p, doc, workspace, given(p.names, ctx, doc)->0)
}

/// Whether a name in a directory is the one that one of some documents was given.
pub open spec fn is_given_to_one(
    p: Plan,
    ctx: Seq<char>,
    docs: Seq<DocumentView>,
    dir: Seq<char>,
    name: Seq<char>,
) -> bool {
    exists|o: DocumentView| #[trigger]
        docs.contains(o) && render::schema_dir(o.schema) == dir && given(p.names, ctx, o) == Some(
            name,
        )
}

/// Whether a plan is for some documents: it holds the file of each under the name that it was
/// given, and nothing else.
pub open spec fn is_for(
    p: Plan,
    ctx: Seq<char>,
    workspace: Option<Seq<char>>,
    docs: Seq<DocumentView>,
) -> bool {
    &&& forall|o: DocumentView| #[trigger] docs.contains(o) ==> is_placed(p, ctx, workspace, o)
    &&& forall|l: Seq<char>, n: Seq<char>| #[trigger]
        p.wants(l).contains_key(n) ==> is_given_to_one(p, ctx, docs, l, n)
    &&& forall|l: Seq<char>| #[trigger] p.wants(l).dom().finite()
}

/// Whether no document of a list has an identifier.
pub open spec fn lacks_id(docs: Seq<DocumentView>, id: u64) -> bool {
    forall|o: DocumentView| #[trigger] docs.contains(o) ==> o.id != id
}

/// One more document in a plan: it is in its place, and nothing else changes.
proof fn lemma_add_doc_is_for(
    p: Plan,
    ctx: Seq<char>,
    workspace: Option<Seq<char>>,
    docs: Seq<DocumentView>,
    doc: DocumentView,
)
    requires
        is_for(p, ctx, workspace, docs),
        lacks_id(docs, doc.id),
    ensures
        ({
            let q = p.add_doc(ctx, doc, workspace);
            &&& is_for(q, ctx, workspace, docs.push(doc))
            &&& given(q.names, ctx, doc) == Some(p.name_for(ctx, doc))
            &&& forall|o: DocumentView|
                o.id != doc.id ==> #[trigger] given(q.names, ctx, o) == given(p.names, ctx, o)
            &&& p.keeps(ctx, doc) ==> q.names == p.names && q.unsaved == p.unsaved
        }),
{
    let q = p.add_doc(ctx, doc, workspace);
    let dir = render::schema_dir(doc.schema);
    let name = p.name_for(ctx, doc);
    let more = docs.push(doc);
    assert(p.kept(ctx, doc) == given(p.names, ctx, doc));
    assert(p.wants(dir).dom().finite());
    model::lemma_pick_name(
        p.kept(ctx, doc),
        render::rendered_name(doc),
        doc.id,
        p.wants(dir).dom(),
    );
    assert(!p.wants(dir).contains_key(name));
    assert forall|o: DocumentView| o.id != doc.id implies #[trigger] given(q.names, ctx, o)
        == given(p.names, ctx, o) by {
        lemma_schema_dir_is_label(doc.schema);
        lemma_schema_dir_is_label(o.schema);
        names::law_get_after_put(
            p.names,
            ctx,
            dir,
            doc.id,
            name,
            render::schema_dir(o.schema),
            o.id,
        );
    }
    assert(given(q.names, ctx, doc) == Some(name));
    assert(q.wants(dir) == p.wants(dir).insert(name, wanted_for(doc, workspace)));
    assert forall|l: Seq<char>| l != dir implies q.wants(l) == p.wants(l) by {}
    assert forall|o: DocumentView| #[trigger] more.contains(o) implies is_placed(
        q,
        ctx,
        workspace,
        o,
    ) by {
        wellformed::lemma_push_contains(docs, doc, o);
        if o != doc {
            assert(docs.contains(o));
            assert(is_placed(p, ctx, workspace, o));
            assert(given(q.names, ctx, o) == given(p.names, ctx, o));
        }
    }
    assert forall|l: Seq<char>, n: Seq<char>| #[trigger] q.wants(l).contains_key(n) implies
        is_given_to_one(q, ctx, more, l, n) by {
        if l == dir && n == name {
            wellformed::lemma_push_contains(docs, doc, doc);
        } else {
            assert(p.wants(l).contains_key(n));
            let o = choose|o: DocumentView| #[trigger]
                docs.contains(o) && render::schema_dir(o.schema) == l && given(p.names, ctx, o)
                    == Some(n);
            wellformed::lemma_push_contains(docs, doc, o);
            assert(given(q.names, ctx, o) == given(p.names, ctx, o));
        }
    }
    assert forall|l: Seq<char>| #[trigger] q.wants(l).dom().finite() by {
        assert(p.wants(l).dom().finite());
    }
}

/// Whether an earlier document of a list, in the same directory, was given the same name.
pub open spec fn has_forerunner(
    names: Map<Seq<char>, Seq<char>>,
    ctx: Seq<char>,
    docs: Seq<DocumentView>,
    i: int,
) -> bool {
    exists|j: int|
        0 <= j < i && render::schema_dir((#[trigger] docs[j]).schema) == render::schema_dir(
            docs[i].schema,
        ) && given(names, ctx, docs[j]) == given(names, ctx, docs[i])
}

/// The documents that have a name that is free get their places, and are handed back here; the
/// others are left. A document that was given a name is left only where one before it was given
/// the same.
proof fn lemma_claim_is_for(
    p: Plan,
    t: TreeView,
    ctx: Seq<char>,
    docs: Seq<DocumentView>,
    workspace: Option<Seq<char>>,
) -> (claimed: Seq<DocumentView>)
    requires
        p.want == Map::<Seq<char>, Map<Seq<char>, Wanted>>::empty(),
        t.wf(),
        t.contexts.contains_key(ctx),
        distinct_ids(docs),
    ensures
        ({
            let (q, rest) = p.claim(t, ctx, docs, workspace);
            &&& q.names == p.names
            &&& q.unsaved == p.unsaved
            &&& is_for(q, ctx, workspace, claimed)
            &&& forall|d: DocumentView| #[trigger] claimed.contains(d) ==> docs.contains(d)
            &&& forall|d: DocumentView| #[trigger]
                docs.contains(d) ==> rest.contains(d) || claimed.contains(d)
            &&& forall|d: DocumentView| #[trigger] rest.contains(d) ==> docs.contains(d)
            &&& forall|d: DocumentView| #[trigger] rest.contains(d) ==> lacks_id(claimed, d.id)
            &&& distinct_ids(rest)
            &&& forall|i: int|
                0 <= i < docs.len() && given(p.names, ctx, #[trigger] docs[i]) is Some
                    && !has_forerunner(p.names, ctx, docs, i) ==> claimed.contains(docs[i])
        }),
    decreases docs.len(),
{
    if docs.len() == 0 {
        Seq::empty()
    } else {
        let f = docs.drop_last();
        let last = docs.last();
        assert(docs == f.push(last));
        assert(forall|i: int| 0 <= i < f.len() ==> f[i] == docs[i]);
        assert(docs[docs.len() - 1] == last);
        assert(distinct_ids(f));
        let c = lemma_claim_is_for(p, t, ctx, f, workspace);
        let (q, rest) = p.claim(t, ctx, f, workspace);
        let (r, left) = p.claim(t, ctx, docs, workspace);
        lemma_has_dir(t, ctx, last);
        assert forall|d: DocumentView| #[trigger] f.contains(d) implies d.id != last.id by {
            let i = choose|i: int| 0 <= i < f.len() && f[i] == d;
            assert(docs[i].id != docs[docs.len() - 1].id);
        }
        assert forall|d: DocumentView| docs.contains(d) <==> f.contains(d) || d == last by {
            wellformed::lemma_push_contains(f, last, d);
        }
        assert(q.kept(ctx, last) == given(q.names, ctx, last));
        assert forall|i: int| 0 <= i < f.len() && !has_forerunner(p.names, ctx, docs, i) implies
            !has_forerunner(p.names, ctx, f, i) by {
            if has_forerunner(p.names, ctx, f, i) {
                let j = choose|j: int|
                    0 <= j < i && render::schema_dir((#[trigger] f[j]).schema)
                        == render::schema_dir(f[i].schema) && given(p.names, ctx, f[j]) == given(
                        p.names,
                        ctx,
                        f[i],
                    );
                assert(docs[j] == f[j]);
            }
        }
        if q.keeps(ctx, last) {
            let claimed = c.push(last);
            lemma_add_doc_is_for(q, ctx, workspace, c, last);
            assert forall|d: DocumentView| claimed.contains(d) <==> c.contains(d) || d == last by {
                wellformed::lemma_push_contains(c, last, d);
            }
            assert forall|d: DocumentView| #[trigger] left.contains(d) implies lacks_id(
                claimed,
                d.id,
            ) by {
                assert(f.contains(d));
                assert(lacks_id(c, d.id));
            }
            claimed
        } else {
            assert forall|d: DocumentView| left.contains(d) <==> rest.contains(d) || d == last by {
                wellformed::lemma_push_contains(rest, last, d);
            }
            assert forall|d: DocumentView| #[trigger] left.contains(d) implies lacks_id(c, d.id) by {
                if d == last {
                    assert forall|o: DocumentView| #[trigger] c.contains(o) implies o.id != d.id by {
                        assert(f.contains(o));
                    }
                } else {
                    assert(rest.contains(d));
                }
            }
            assert forall|i: int, j: int| 0 <= i < j < left.len() implies (#[trigger] left[i]).id
                != (#[trigger] left[j]).id by {
                assert(left[i] == rest[i]);
                if j < rest.len() {
                    assert(left[j] == rest[j]);
                } else {
                    assert(rest.contains(rest[i]));
                    assert(f.contains(rest[i]));
                }
            }
            let i = docs.len() - 1;
            if given(p.names, ctx, last) is Some && !has_forerunner(p.names, ctx, docs, i) {
                let n = given(p.names, ctx, last)->0;
                let dir = render::schema_dir(last.schema);
                assert(q.wants(dir).contains_key(n));
                let o = choose|o: DocumentView| #[trigger]
                    c.contains(o) && render::schema_dir(o.schema) == dir && given(q.names, ctx, o)
                        == Some(n);
                assert(f.contains(o));
                let j = choose|j: int| 0 <= j < f.len() && f[j] == o;
                assert(render::schema_dir(docs[j].schema) == dir);
            }
            c
        }
    }
}

/// A context has the directory of every document.
pub proof fn lemma_has_dir(t: TreeView, ctx: Seq<char>, doc: DocumentView)
    requires
        t.wf(),
        t.contexts.contains_key(ctx),
    ensures
        t.context_dir(t.contexts[ctx], render::schema_dir(doc.schema)) is Some,
{
    lemma_schema_dir_is_label(doc.schema);
    let k = choose|k: int|
        0 <= k < SCHEMA_DIRS@.len() && #[trigger] model::label(k) == render::schema_dir(doc.schema);
    assert(t.has_skeleton(t.contexts[ctx]));
    assert(t.context_dir(t.contexts[ctx], model::label(k)) is Some);
}

proof fn lemma_add_docs_is_for(
    p: Plan,
    ctx: Seq<char>,
    workspace: Option<Seq<char>>,
    before: Seq<DocumentView>,
    docs: Seq<DocumentView>,
)
    requires
        is_for(p, ctx, workspace, before),
        distinct_ids(docs),
        forall|d: DocumentView| #[trigger] docs.contains(d) ==> lacks_id(before, d.id),
    ensures
        ({
            let q = p.add_docs(ctx, docs, workspace);
            &&& is_for(q, ctx, workspace, before + docs)
            &&& forall|o: DocumentView|
                lacks_id(docs, o.id) ==> #[trigger] given(q.names, ctx, o) == given(
                    p.names,
                    ctx,
                    o,
                )
        }),
    decreases docs.len(),
{
    if docs.len() == 0 {
        assert(before + docs =~= before);
    } else {
        let f = docs.drop_last();
        let last = docs.last();
        assert(docs == f.push(last));
        assert(forall|i: int| 0 <= i < f.len() ==> f[i] == docs[i]);
        assert(docs[docs.len() - 1] == last);
        assert(docs.contains(last));
        assert forall|d: DocumentView| docs.contains(d) <==> f.contains(d) || d == last by {
            wellformed::lemma_push_contains(f, last, d);
        }
        lemma_add_docs_is_for(p, ctx, workspace, before, f);
        let q = p.add_docs(ctx, f, workspace);
        let done = before + f;
        assert forall|o: DocumentView| #[trigger] done.contains(o) implies o.id != last.id by {
            let i = choose|i: int| 0 <= i < done.len() && done[i] == o;
            if i < before.len() {
                assert(before[i] == o);
                assert(before.contains(o));
                assert(lacks_id(before, last.id));
            } else {
                assert(f[i - before.len()] == o);
                assert(docs[i - before.len()].id != docs[docs.len() - 1].id);
            }
        }
        lemma_add_doc_is_for(q, ctx, workspace, done, last);
        assert(done.push(last) =~= before + docs);
        assert forall|o: DocumentView| lacks_id(docs, o.id) implies #[trigger] given(
            p.add_docs(ctx, docs, workspace).names,
            ctx,
            o,
        ) == given(p.names, ctx, o) by {
            assert(last.id != o.id);
            assert(lacks_id(f, o.id));
            assert(given(q.names, ctx, o) == given(p.names, ctx, o));
        }
    }
}

/// Documents stand in the order of their identifiers.
pub proof fn lemma_by_id_ascends(docs: Seq<DocumentView>)
    ensures
        forall|i: int, j: int|
            0 <= i < j < model::by_id(docs).len() ==> (#[trigger] model::by_id(docs)[i]).id <= (
            #[trigger] model::by_id(docs)[j]).id,
    decreases docs.len(),
{
    if docs.len() > 0 {
        lemma_by_id_ascends(docs.drop_last());
        lemma_insert_ascends(model::by_id(docs.drop_last()), docs.last());
    }
}

proof fn lemma_insert_ascends(s: Seq<DocumentView>, d: DocumentView)
    requires
        forall|i: int, j: int|
            0 <= i < j < s.len() ==> (#[trigger] s[i]).id <= (#[trigger] s[j]).id,
    ensures
        forall|i: int, j: int|
            0 <= i < j < model::insert_by_id(s, d).len() ==> (#[trigger] model::insert_by_id(
                s,
                d,
            )[i]).id <= (#[trigger] model::insert_by_id(s, d)[j]).id,
    decreases s.len(),
{
    if s.len() == 0 || s.last().id <= d.id {
        let r = s.push(d);
        assert forall|i: int, j: int| 0 <= i < j < r.len() implies (#[trigger] r[i]).id <= (
        #[trigger] r[j]).id by {
            assert(r[i] == s[i]);
            if j < s.len() {
                assert(r[j] == s[j]);
            } else if i < s.len() - 1 {
                assert(s[i].id <= s[s.len() - 1].id);
            }
        }
    } else {
        let f = s.drop_last();
        assert(forall|i: int| 0 <= i < f.len() ==> f[i] == s[i]);
        lemma_insert_ascends(f, d);
        let g = model::insert_by_id(f, d);
        let r = g.push(s.last());
        assert forall|i: int, j: int| 0 <= i < j < r.len() implies (#[trigger] r[i]).id <= (
        #[trigger] r[j]).id by {
            assert(r[i] == g[i]);
            if j < g.len() {
                assert(r[j] == g[j]);
            } else {
                assert(g.contains(g[i]));
                lemma_insert_by_id_holds(f, d, g[i]);
                if f.contains(g[i]) {
                    let k = choose|k: int| 0 <= k < f.len() && f[k] == g[i];
                    assert(s[k].id <= s[s.len() - 1].id);
                }
            }
        }
    }
}

/// Whether no document of a list with a smaller identifier, in the same directory, was given the
/// same name.
pub open spec fn comes_first(
    names: Map<Seq<char>, Seq<char>>,
    ctx: Seq<char>,
    doc: DocumentView,
    docs: Seq<DocumentView>,
) -> bool {
    forall|o: DocumentView| #[trigger]
        docs.contains(o) && o.id < doc.id && render::schema_dir(o.schema) == render::schema_dir(
            doc.schema,
        ) ==> given(names, ctx, o) != given(names, ctx, doc)
}

/// The plan for documents with different identifiers holds each of them, in its directory, with
/// its content, under the name that it is then given; and it holds nothing else.
pub proof fn law_plan_is_for_its_documents(
    t: TreeView,
    ctx: Seq<char>,
    docs: Seq<DocumentView>,
    names: Map<Seq<char>, Seq<char>>,
    unsaved: Seq<(Seq<char>, Seq<char>)>,
)
    requires
        t.wf(),
        t.contexts.contains_key(ctx),
        distinct_ids(docs),
    ensures
        is_for(
            model::plan(t, ctx, docs, names, unsaved),
            ctx,
            model::workspace_of(t, ctx),
            docs,
        ),
{
    let workspace = model::workspace_of(t, ctx);
    let p0 = model::no_plan(names, unsaved);
    let sorted = model::by_id(docs);
    lemma_by_id(docs);
    let c = lemma_claim_is_for(p0, t, ctx, sorted, workspace);
    let (p, rest) = p0.claim(t, ctx, sorted, workspace);
    lemma_add_docs_is_for(p, ctx, workspace, c, rest);
    let q = p.add_docs(ctx, rest, workspace);
    let all = c + rest;
    assert forall|o: DocumentView| all.contains(o) <==> docs.contains(o) by {
        assert(sorted.contains(o) <==> docs.contains(o));
        if all.contains(o) {
            let i = choose|i: int| 0 <= i < all.len() && all[i] == o;
            if i < c.len() {
                assert(c.contains(c[i]));
            } else {
                assert(rest.contains(rest[i - c.len()]));
            }
        }
        if docs.contains(o) {
            if c.contains(o) {
                let i = choose|i: int| 0 <= i < c.len() && c[i] == o;
                assert(all[i] == o);
            } else {
                let i = choose|i: int| 0 <= i < rest.len() && rest[i] == o;
                assert(all[i + c.len()] == o);
            }
        }
    }
    assert forall|l: Seq<char>, n: Seq<char>| #[trigger] q.wants(l).contains_key(n) implies
        is_given_to_one(q, ctx, docs, l, n) by {
        let o = choose|o: DocumentView| #[trigger]
            all.contains(o) && render::schema_dir(o.schema) == l && given(q.names, ctx, o) == Some(
                n,
            );
        assert(docs.contains(o));
    }
}

/// A document that was given a name keeps it, whichever other documents come, go or have the same
/// title. What this leaves out: a document of the list with a smaller identifier that was given
/// the same name.
pub proof fn law_names_stick(
    t: TreeView,
    ctx: Seq<char>,
    docs: Seq<DocumentView>,
    names: Map<Seq<char>, Seq<char>>,
    unsaved: Seq<(Seq<char>, Seq<char>)>,
    doc: DocumentView,
)
    requires
        t.wf(),
        t.contexts.contains_key(ctx),
        distinct_ids(docs),
        docs.contains(doc),
        given(names, ctx, doc) is Some,
        comes_first(names, ctx, doc, docs),
    ensures
        ({
            let p = model::plan(t, ctx, docs, names, unsaved);
            let name = given(names, ctx, doc)->0;
            is_planned(p, doc, model::workspace_of(t, ctx), name) && given(p.names, ctx, doc)
                == Some(name)
        }),
{
    let workspace = model::workspace_of(t, ctx);
    let p0 = model::no_plan(names, unsaved);
    let sorted = model::by_id(docs);
    lemma_by_id(docs);
    lemma_by_id_ascends(docs);
    let c = lemma_claim_is_for(p0, t, ctx, sorted, workspace);
    let (p, rest) = p0.claim(t, ctx, sorted, workspace);
    assert(sorted.contains(doc));
    let at = choose|i: int| 0 <= i < sorted.len() && sorted[i] == doc;
    assert(given(p0.names, ctx, sorted[at]) is Some);
    assert(!has_forerunner(names, ctx, sorted, at)) by {
        if has_forerunner(names, ctx, sorted, at) {
            let j = choose|j: int|
                0 <= j < at && render::schema_dir((#[trigger] sorted[j]).schema)
                    == render::schema_dir(sorted[at].schema) && given(names, ctx, sorted[j])
                    == given(names, ctx, sorted[at]);
            assert(sorted[j].id <= sorted[at].id && sorted[j].id != sorted[at].id);
            assert(sorted.contains(sorted[j]));
            assert(docs.contains(sorted[j]));
        }
    }
    assert(c.contains(doc));
    lemma_add_docs_is_for(p, ctx, workspace, c, rest);
    let q = p.add_docs(ctx, rest, workspace);
    assert(lacks_id(rest, doc.id)) by {
        assert forall|o: DocumentView| #[trigger] rest.contains(o) implies o.id != doc.id by {
            assert(lacks_id(c, o.id));
        }
    }
    assert(given(q.names, ctx, doc) == given(names, ctx, doc));
    let all = c + rest;
    let i = choose|i: int| 0 <= i < c.len() && c[i] == doc;
    assert(all[i] == doc);
    assert(all.contains(doc));
    assert(is_placed(q, ctx, workspace, doc));
}

/// A plan made again for the same documents, with the names that they were given, is the same
/// plan, and gives no name.
pub proof fn law_plans_repeat(
    t: TreeView,
    u: TreeView,
    ctx: Seq<char>,
    docs: Seq<DocumentView>,
    names: Map<Seq<char>, Seq<char>>,
    unsaved: Seq<(Seq<char>, Seq<char>)>,
)
    requires
        t.wf(),
        t.contexts.contains_key(ctx),
        u.wf(),
        u.contexts.contains_key(ctx),
        model::workspace_of(u, ctx) == model::workspace_of(t, ctx),
        distinct_ids(docs),
    ensures
        ({
            let p = model::plan(t, ctx, docs, names, unsaved);
            let q = model::plan(u, ctx, docs, p.names, p.unsaved);
            &&& q.names == p.names
            &&& q.unsaved == p.unsaved
            &&& forall|l: Seq<char>| #[trigger] q.wants(l) == p.wants(l)
        }),
{
    let workspace = model::workspace_of(t, ctx);
    let p = model::plan(t, ctx, docs, names, unsaved);
    let q = model::plan(u, ctx, docs, p.names, p.unsaved);
    law_plan_is_for_its_documents(t, ctx, docs, names, unsaved);
    let p0 = model::no_plan(p.names, p.unsaved);
    let sorted = model::by_id(docs);
    lemma_by_id(docs);
    let c = lemma_claim_is_for(p0, u, ctx, sorted, workspace);
    let (r, rest) = p0.claim(u, ctx, sorted, workspace);
    assert forall|i: int| 0 <= i < sorted.len() implies c.contains(#[trigger] sorted[i]) by {
        let d = sorted[i];
        assert(sorted.contains(d));
        assert(is_placed(p, ctx, workspace, d));
        if has_forerunner(p.names, ctx, sorted, i) {
            let j = choose|j: int|
                0 <= j < i && render::schema_dir((#[trigger] sorted[j]).schema)
                    == render::schema_dir(d.schema) && given(p.names, ctx, sorted[j]) == given(
                    p.names,
                    ctx,
                    d,
                );
            assert(sorted.contains(sorted[j]));
            assert(is_placed(p, ctx, workspace, sorted[j]));
            assert(sorted[j].id != sorted[i].id);
        }
        assert(given(p0.names, ctx, sorted[i]) is Some);
    }
    assert(rest =~= Seq::empty()) by {
        if rest.len() > 0 {
            let d = rest[0];
            assert(rest.contains(d));
            assert(sorted.contains(d));
            let i = choose|i: int| 0 <= i < sorted.len() && sorted[i] == d;
            assert(c.contains(sorted[i]));
            assert(lacks_id(c, d.id));
        }
    }
    assert(q == r);
    law_plan_is_for_its_documents(u, ctx, docs, p.names, p.unsaved);
    assert forall|l: Seq<char>| #[trigger] q.wants(l) == p.wants(l) by {
        assert forall|n: Seq<char>| q.wants(l).contains_key(n) <==> p.wants(l).contains_key(n) by {
            if q.wants(l).contains_key(n) {
                let o = choose|o: DocumentView| #[trigger]
                    docs.contains(o) && render::schema_dir(o.schema) == l && given(q.names, ctx, o)
                        == Some(n);
                assert(is_placed(p, ctx, workspace, o));
            }
            if p.wants(l).contains_key(n) {
                let o = choose|o: DocumentView| #[trigger]
                    docs.contains(o) && render::schema_dir(o.schema) == l && given(p.names, ctx, o)
                        == Some(n);
                assert(is_placed(q, ctx, workspace, o));
            }
        }
        assert forall|n: Seq<char>| #[trigger] q.wants(l).contains_key(n) implies q.wants(l)[n]
            == p.wants(l)[n] by {
            let o = choose|o: DocumentView| #[trigger]
                docs.contains(o) && render::schema_dir(o.schema) == l && given(q.names, ctx, o)
                    == Some(n);
            assert(is_placed(q, ctx, workspace, o));
            assert(is_placed(p, ctx, workspace, o));
        }
        assert(q.wants(l) =~= p.wants(l));
    }
}

// ── new names ────────────────────────────────────────────────────────────────

/// Whether a document has its own name, or that name with its identifier where another file has
/// its own, or a longer one where another file has that too.
pub open spec fn is_own_name(p: Plan, doc: DocumentView, name: Seq<char>) -> bool {
    let files = p.wants(render::schema_dir(doc.schema));
    let own = render::rendered_name(doc);
    let numbered = render::suffixed(own, doc.id);
    &&& files.contains_key(name)
    &&& name != own ==> files.contains_key(own)
    &&& name != own && name != numbered ==> files.contains_key(numbered)
}

/// Whether a document has such a name.
spec fn has_own_name(p: Plan, ctx: Seq<char>, doc: DocumentView) -> bool {
    given(p.names, ctx, doc) is Some && is_own_name(p, doc, given(p.names, ctx, doc)->0)
}

/// Whether what was given to a document anew is to be saved.
spec fn is_noted(p: Plan, q: Plan, ctx: Seq<char>, doc: DocumentView) -> bool {
    given(q.names, ctx, doc) != given(p.names, ctx, doc) ==> given(q.names, ctx, doc) is Some
        && q.unsaved.contains(
        (
            names::name_key(ctx, render::schema_dir(doc.schema), doc.id),
            given(q.names, ctx, doc)->0,
        ),
    )
}

/// Whether a list goes on where another one ends.
pub open spec fn extends(
    a: Seq<(Seq<char>, Seq<char>)>,
    b: Seq<(Seq<char>, Seq<char>)>,
) -> bool {
    a.len() <= b.len() && b.take(a.len() as int) == a
}

proof fn lemma_add_docs_named(
    p: Plan,
    ctx: Seq<char>,
    workspace: Option<Seq<char>>,
    before: Seq<DocumentView>,
    docs: Seq<DocumentView>,
    doc: DocumentView,
    o: DocumentView,
)
    requires
        is_for(p, ctx, workspace, before),
        distinct_ids(docs),
        forall|d: DocumentView| #[trigger] docs.contains(d) ==> lacks_id(before, d.id),
    ensures
        ({
            let q = p.add_docs(ctx, docs, workspace);
            &&& extends(p.unsaved, q.unsaved)
            &&& docs.contains(doc) ==> is_noted(p, q, ctx, doc)
            &&& docs.contains(doc) && given(p.names, ctx, doc) is None ==> has_own_name(q, ctx, doc)
            &&& docs.contains(doc) && docs.contains(o) && given(p.names, ctx, doc) is None && given(
                p.names,
                ctx,
                o,
            ) is None && ascend(docs) && o.id < doc.id && render::schema_dir(o.schema)
                == render::schema_dir(doc.schema) && render::rendered_name(o)
                == render::rendered_name(doc) ==> given(q.names, ctx, doc) != Some(
                render::rendered_name(doc),
            )
        }),
    decreases docs.len(),
{
    if docs.len() == 0 {
        assert(p.unsaved.take(p.unsaved.len() as int) =~= p.unsaved);
    } else {
        let f = docs.drop_last();
        let last = docs.last();
        assert(docs == f.push(last));
        assert(forall|i: int| 0 <= i < f.len() ==> f[i] == docs[i]);
        assert(docs[docs.len() - 1] == last);
        assert(docs.contains(last));
        assert forall|d: DocumentView| docs.contains(d) <==> f.contains(d) || d == last by {
            wellformed::lemma_push_contains(f, last, d);
        }
        lemma_add_docs_named(p, ctx, workspace, before, f, doc, o);
        lemma_add_docs_is_for(p, ctx, workspace, before, f);
        let q = p.add_docs(ctx, f, workspace);
        let r = p.add_docs(ctx, docs, workspace);
        let done = before + f;
        assert(lacks_id(f, last.id)) by {
            assert forall|d: DocumentView| #[trigger] f.contains(d) implies d.id != last.id by {
                let i = choose|i: int| 0 <= i < f.len() && f[i] == d;
                assert(docs[i].id != docs[docs.len() - 1].id);
            }
        }
        assert(lacks_id(done, last.id)) by {
            assert forall|d: DocumentView| #[trigger] done.contains(d) implies d.id != last.id by {
                let i = choose|i: int| 0 <= i < done.len() && done[i] == d;
                if i < before.len() {
                    assert(before[i] == d);
                    assert(lacks_id(before, last.id));
                    assert(before.contains(d));
                } else {
                    assert(f[i - before.len()] == d);
                    assert(f.contains(d));
                }
            }
        }
        lemma_add_doc_is_for(q, ctx, workspace, done, last);
        let dir = render::schema_dir(last.schema);
        let name = q.name_for(ctx, last);
        let taken = q.wants(dir).dom();
        let base = render::rendered_name(last);
        assert(q.kept(ctx, last) == given(q.names, ctx, last));
        assert(given(q.names, ctx, last) == given(p.names, ctx, last));
        assert(taken.finite());
        assert(r.unsaved.take(p.unsaved.len() as int) =~= q.unsaved.take(p.unsaved.len() as int));
        if !q.keeps(ctx, last) {
            assert(r.unsaved[r.unsaved.len() - 1] == (names::name_key(ctx, dir, last.id), name));
        }
        if given(p.names, ctx, last) is None {
            model::lemma_free_name(base, last.id, taken);
            if taken.contains(base) {
                model::lemma_free_name_step(base, last.id, taken);
            }
            assert(has_own_name(r, ctx, last));
        }
        if f.contains(doc) {
            assert(doc.id != last.id);
            assert(given(r.names, ctx, doc) == given(q.names, ctx, doc));
            let key = names::name_key(ctx, render::schema_dir(doc.schema), doc.id);
            if q.unsaved.contains((key, given(q.names, ctx, doc)->0)) {
                let j = choose|j: int|
                    0 <= j < q.unsaved.len() && q.unsaved[j] == (key, given(q.names, ctx, doc)->0);
                assert(r.unsaved[j] == q.unsaved[j]);
            }
            if docs.contains(o) && ascend(docs) && o.id < doc.id {
                assert(ascend(f));
                if o == last {
                    let i = choose|i: int| 0 <= i < f.len() && f[i] == doc;
                    assert(docs[i].id <= docs[docs.len() - 1].id);
                }
                assert(f.contains(o));
            }
        } else if docs.contains(doc) && docs.contains(o) && given(p.names, ctx, doc) is None
            && given(p.names, ctx, o) is None && o.id < doc.id && render::schema_dir(o.schema)
            == dir && render::rendered_name(o) == base {
            assert(f.contains(o));
            lemma_add_docs_named(p, ctx, workspace, before, f, o, o);
            assert(has_own_name(q, ctx, o));
            assert(taken.contains(base));
        }
    }
}

/// Whether documents stand by identifier.
pub open spec fn ascend(docs: Seq<DocumentView>) -> bool {
    forall|i: int, j: int|
        0 <= i <= j < docs.len() ==> (#[trigger] docs[i]).id <= (#[trigger] docs[j]).id
}

proof fn lemma_claim_ascends(
    p: Plan,
    t: TreeView,
    ctx: Seq<char>,
    docs: Seq<DocumentView>,
    workspace: Option<Seq<char>>,
)
    requires
        ascend(docs),
    ensures
        ascend(p.claim(t, ctx, docs, workspace).1),
        forall|i: int|
            0 <= i < p.claim(t, ctx, docs, workspace).1.len() && docs.len() > 0 ==> (
            #[trigger] p.claim(t, ctx, docs, workspace).1[i]).id <= docs.last().id,
        docs.len() == 0 ==> p.claim(t, ctx, docs, workspace).1.len() == 0,
    decreases docs.len(),
{
    if docs.len() > 0 {
        let f = docs.drop_last();
        assert(forall|i: int| 0 <= i < f.len() ==> f[i] == docs[i]);
        assert(ascend(f));
        lemma_claim_ascends(p, t, ctx, f, workspace);
        let rest = p.claim(t, ctx, f, workspace).1;
        let left = p.claim(t, ctx, docs, workspace).1;
        if f.len() > 0 {
            assert(docs[f.len() - 1].id <= docs[docs.len() - 1].id);
        }
        assert forall|i: int| 0 <= i < left.len() implies (#[trigger] left[i]).id
            <= docs.last().id by {
            if i < rest.len() {
                assert(left[i] == rest[i]);
            }
        }
        assert forall|i: int, j: int| 0 <= i <= j < left.len() implies (#[trigger] left[i]).id <= (
        #[trigger] left[j]).id by {
            if j < rest.len() {
                assert(left[i] == rest[i] && left[j] == rest[j]);
            }
        }
    }
}

proof fn lemma_plan_named(
    t: TreeView,
    ctx: Seq<char>,
    docs: Seq<DocumentView>,
    names: Map<Seq<char>, Seq<char>>,
    unsaved: Seq<(Seq<char>, Seq<char>)>,
    doc: DocumentView,
    o: DocumentView,
)
    requires
        t.wf(),
        t.contexts.contains_key(ctx),
        distinct_ids(docs),
    ensures
        ({
            let p0 = model::no_plan(names, unsaved);
            let p = model::plan(t, ctx, docs, names, unsaved);
            &&& extends(unsaved, p.unsaved)
            &&& docs.contains(doc) ==> is_noted(p0, p, ctx, doc)
            &&& docs.contains(doc) && given(names, ctx, doc) is None ==> has_own_name(p, ctx, doc)
            &&& docs.contains(doc) && docs.contains(o) && given(names, ctx, doc) is None && given(
                names,
                ctx,
                o,
            ) is None && o.id < doc.id && render::schema_dir(o.schema) == render::schema_dir(
                doc.schema,
            ) && render::rendered_name(o) == render::rendered_name(doc) ==> given(
                p.names,
                ctx,
                doc,
            ) != Some(render::rendered_name(doc))
            &&& lacks_id(docs, doc.id) ==> given(p.names, ctx, doc) == given(names, ctx, doc)
        }),
{
    let workspace = model::workspace_of(t, ctx);
    let p0 = model::no_plan(names, unsaved);
    let sorted = model::by_id(docs);
    lemma_by_id(docs);
    lemma_by_id_ascends(docs);
    let c = lemma_claim_is_for(p0, t, ctx, sorted, workspace);
    let (p, rest) = p0.claim(t, ctx, sorted, workspace);
    assert(ascend(sorted));
    lemma_claim_ascends(p0, t, ctx, sorted, workspace);
    lemma_add_docs_named(p, ctx, workspace, c, rest, doc, o);
    lemma_add_docs_is_for(p, ctx, workspace, c, rest);
    if docs.contains(doc) {
        assert(sorted.contains(doc));
        if !rest.contains(doc) {
            assert(c.contains(doc));
            assert(is_placed(p, ctx, workspace, doc));
            assert(lacks_id(rest, doc.id)) by {
                assert forall|d: DocumentView| #[trigger] rest.contains(d) implies d.id
                    != doc.id by {
                    assert(lacks_id(c, d.id));
                }
            }
        }
    }
    if docs.contains(o) {
        assert(sorted.contains(o));
        if !rest.contains(o) {
            assert(c.contains(o));
            assert(is_placed(p, ctx, workspace, o));
        }
    }
    if lacks_id(docs, doc.id) {
        assert(lacks_id(rest, doc.id)) by {
            assert forall|d: DocumentView| #[trigger] rest.contains(d) implies d.id != doc.id by {
                assert(sorted.contains(d));
                assert(docs.contains(d));
            }
        }
    }
}

/// A document that has no name yet gets its own, unless another document has that then; then it
/// gets its own with its identifier, unless another has that too.
pub proof fn law_new_documents_get_their_own_names(
    t: TreeView,
    ctx: Seq<char>,
    docs: Seq<DocumentView>,
    names: Map<Seq<char>, Seq<char>>,
    unsaved: Seq<(Seq<char>, Seq<char>)>,
    doc: DocumentView,
)
    requires
        t.wf(),
        t.contexts.contains_key(ctx),
        distinct_ids(docs),
        docs.contains(doc),
        given(names, ctx, doc) is None,
    ensures
        ({
            let p = model::plan(t, ctx, docs, names, unsaved);
            let files = p.wants(render::schema_dir(doc.schema));
            let own = render::rendered_name(doc);
            let numbered = render::suffixed(own, doc.id);
            let name = given(p.names, ctx, doc)->0;
            &&& given(p.names, ctx, doc) is Some
            &&& files.contains_key(name) && files[name].doc == doc.id
            &&& name != own ==> files.contains_key(own) && files[own].doc != doc.id
            &&& name != own && name != numbered ==> files.contains_key(numbered)
                && files[numbered].doc != doc.id
        }),
{
    let p = model::plan(t, ctx, docs, names, unsaved);
    let workspace = model::workspace_of(t, ctx);
    lemma_plan_named(t, ctx, docs, names, unsaved, doc, doc);
    law_plan_is_for_its_documents(t, ctx, docs, names, unsaved);
    law_each_document_has_one_place(t, ctx, docs, names, unsaved);
    assert(is_placed(p, ctx, workspace, doc));
    let label = render::schema_dir(doc.schema);
    lemma_schema_dir_is_label(doc.schema);
    let k = choose|k: int| 0 <= k < SCHEMA_DIRS@.len() && #[trigger] model::label(k) == label;
    let files = p.wants(model::label(k));
    let own = render::rendered_name(doc);
    let numbered = render::suffixed(own, doc.id);
    let name = given(p.names, ctx, doc)->0;
    assert(p.wants(model::label(k)).contains_key(name));
    if files.contains_key(own) && files[own].doc == doc.id {
        assert(p.wants(model::label(k)).contains_key(own));
        assert(own == name);
    }
    if files.contains_key(numbered) && files[numbered].doc == doc.id {
        assert(p.wants(model::label(k)).contains_key(numbered));
        assert(numbered == name);
    }
}

/// Of two new documents that ask for the same name in a directory, the one with the smaller
/// identifier comes first.
pub proof fn law_smaller_identifiers_come_first(
    t: TreeView,
    ctx: Seq<char>,
    docs: Seq<DocumentView>,
    names: Map<Seq<char>, Seq<char>>,
    unsaved: Seq<(Seq<char>, Seq<char>)>,
    first: DocumentView,
    second: DocumentView,
)
    requires
        t.wf(),
        t.contexts.contains_key(ctx),
        distinct_ids(docs),
        docs.contains(first),
        docs.contains(second),
        first.id < second.id,
        given(names, ctx, first) is None,
        given(names, ctx, second) is None,
        render::schema_dir(first.schema) == render::schema_dir(second.schema),
        render::rendered_name(first) == render::rendered_name(second),
    ensures
        given(model::plan(t, ctx, docs, names, unsaved).names, ctx, second) != Some(
            render::rendered_name(second),
        ),
{
    lemma_plan_named(t, ctx, docs, names, unsaved, second, first);
}

/// A name that a document is given anew is to be saved, behind those that were to be saved
/// before; documents that are not in the list keep what they were given.
pub proof fn law_new_names_are_saved(
    t: TreeView,
    ctx: Seq<char>,
    docs: Seq<DocumentView>,
    names: Map<Seq<char>, Seq<char>>,
    unsaved: Seq<(Seq<char>, Seq<char>)>,
    doc: DocumentView,
)
    requires
        t.wf(),
        t.contexts.contains_key(ctx),
        distinct_ids(docs),
    ensures
        ({
            let p = model::plan(t, ctx, docs, names, unsaved);
            let key = names::name_key(ctx, render::schema_dir(doc.schema), doc.id);
            &&& extends(unsaved, p.unsaved)
            &&& docs.contains(doc) ==> p.names.contains_key(key) && ((names.contains_key(key)
                && names[key] == p.names[key]) || p.unsaved.contains((key, p.names[key])))
            &&& lacks_id(docs, doc.id) ==> (p.names.contains_key(key) <==> names.contains_key(key))
                && (names.contains_key(key) ==> p.names[key] == names[key])
        }),
{
    lemma_plan_named(t, ctx, docs, names, unsaved, doc, doc);
    law_plan_is_for_its_documents(t, ctx, docs, names, unsaved);
    let p = model::plan(t, ctx, docs, names, unsaved);
    if docs.contains(doc) {
        assert(is_placed(p, ctx, model::workspace_of(t, ctx), doc));
    }
}

} // verus!
