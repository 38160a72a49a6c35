//! What the trees of a workspace and their paths are for.

use crate::api::{DocumentView, TreeInfoView};
use crate::dates;
use crate::docmap::ForgetView;
use crate::listing;
use crate::model;
use crate::model::{TreeView, Update, Wanted};
use crate::naming;
use crate::render;
use crate::state::ROOT_INO;
use crate::strmap;
use crate::text;
use crate::text::CharClass;
use crate::tree_listing;
use crate::wellformed;
use crate::workspace;
use crate::workspace_laws;
use std::time::SystemTime;
use vstd::prelude::*;
use vstd::string::*;

verus! {

/// A path that says nothing, or only a slash, has no segments; a text without a slash is one
/// segment; and slashes only part segments, so that those of two paths with one between them are
/// those of the one and then those of the other.
pub proof fn law_segments(a: Seq<char>, b: Seq<char>)
    ensures
        workspace::segments(Seq::empty()).len() == 0,
        workspace::segments("/"@).len() == 0,
        a.len() > 0 && !a.contains('/') ==> workspace::segments(a) == seq![a],
        workspace::segments(a + "/"@ + b) == workspace::segments(a) + workspace::segments(b),
    decreases a.len(),
{
    reveal_strlit("/");
    let slash = CharClass::Is('/');
    let none = Seq::<char>::empty();
    text::lemma_find(none, slash, 0);
    assert(workspace::segments(none) =~= Seq::empty());
    text::lemma_find("/"@, slash, 0);
    assert("/"@.skip(1) =~= none);
    assert(workspace::segments("/"@) =~= Seq::empty());
    if a.len() > 0 && !a.contains('/') {
        assert(forall|k: int| 0 <= k < a.len() ==> a.contains(#[trigger] a[k]));
        text::lemma_find(a, slash, a.len() as int);
        assert(a.take(a.len() as int) =~= a);
        assert(workspace::segments(a) =~= seq![a]);
    }
    let c = a + "/"@ + b;
    let i = text::find(a, slash);
    text::lemma_find_props(a, slash);
    text::lemma_find(c, slash, i);
    assert(c.take(i) =~= a.take(i));
    if i < a.len() {
        let rest = a.skip(i + 1);
        law_segments(rest, b);
        assert(c.skip(i + 1) =~= rest + "/"@ + b);
        let tail = workspace::segments(rest) + workspace::segments(b);
        assert(workspace::segments(c.skip(i + 1)) == tail);
        assert(seq![a.take(i)] + tail =~= seq![a.take(i)] + workspace::segments(rest)
            + workspace::segments(b));
    } else {
        assert(c.skip(i + 1) =~= b);
        assert(workspace::segments(a) =~= if i == 0 {
            Seq::empty()
        } else {
            seq![a.take(i)]
        });
        assert(Seq::<Seq<char>>::empty() + workspace::segments(b) =~= workspace::segments(b));
    }
}

/// Whether each of some segments can be one: it says something, and no slash.
pub open spec fn are_segments(segs: Seq<Seq<char>>) -> bool {
    forall|i: int|
        0 <= i < segs.len() ==> (#[trigger] segs[i]).len() > 0 && !segs[i].contains('/')
}

proof fn lemma_path_from(segs: Seq<Seq<char>>)
    requires
        are_segments(segs),
    ensures
        workspace::segments(workspace::path_from(segs)) == segs,
    decreases segs.len(),
{
    law_segments(Seq::empty(), Seq::empty());
    if segs.len() > 0 {
        let f = segs.drop_last();
        assert(forall|i: int| 0 <= i < f.len() ==> f[i] == segs[i]);
        lemma_path_from(f);
        assert(segs[segs.len() - 1] == segs.last());
        law_segments(workspace::path_from(f), segs.last());
        law_segments(segs.last(), Seq::empty());
        assert(f + seq![segs.last()] =~= segs);
    } else {
        assert(segs =~= Seq::empty());
    }
}

/// The path of some segments starts with a slash, ends with none where there is a segment, and is
/// read back as these segments.
pub proof fn law_path_reads_back(segs: Seq<Seq<char>>)
    requires
        are_segments(segs),
    ensures
        workspace::segments(workspace::path_text(segs)) == segs,
        workspace::path_text(segs).len() > 0 && workspace::path_text(segs)[0] == '/',
        segs.len() > 0 ==> workspace::path_text(segs).last() != '/',
        segs.len() == 0 ==> workspace::path_text(segs) == "/"@,
        segs.len() == 1 ==> workspace::path_text(segs) == "/"@ + segs[0],
    decreases segs.len(),
{
    reveal_strlit("/");
    law_segments(Seq::empty(), Seq::empty());
    lemma_path_from(segs);
    if segs.len() == 0 {
        assert(segs =~= Seq::empty());
    } else {
        let f = segs.drop_last();
        assert(forall|i: int| 0 <= i < f.len() ==> f[i] == segs[i]);
        let last = segs.last();
        assert(segs[segs.len() - 1] == last);
        assert(last.contains(last[last.len() - 1]));
        assert(workspace::path_text(segs).last() == last[last.len() - 1]);
        if f.len() > 0 {
            law_path_reads_back(f);
        } else {
            assert(workspace::path_from(f) =~= Seq::empty());
            assert(workspace::path_text(segs) =~= "/"@ + last);
        }
    }
}

proof fn lemma_walk_path(t: TreeView, top: u64, tree: Seq<char>, segs: Seq<Seq<char>>)
    requires
        t.wf(),
        t.layout is Workspace,
        top != ROOT_INO,
        t.dir_path(top) == Some((tree, Seq::<Seq<char>>::empty())),
        t.walk(top, segs) is Some,
    ensures
        t.dir_path(t.walk(top, segs)->0) == Some((tree, segs)),
        t.walk(top, segs)->0 != ROOT_INO,
    decreases segs.len(),
{
    if segs.len() > 0 {
        let f = segs.drop_last();
        lemma_walk_path(t, top, tree, f);
        let i = t.walk(top, f)->0;
        let c = t.walk(top, segs)->0;
        assert(t.entries(i).contains_key(segs.last()) && t.entries(i)[segs.last()] == c);
        assert(t.nodes[c].parent == i && t.nodes[c].name == segs.last());
        assert(i < c);
        assert(f.push(segs.last()) =~= segs);
    } else {
        assert(segs =~= Seq::empty());
    }
}

/// A directory that a path of a tree leads to is told by that tree and the segments of the path,
/// and the path that is told leads to it.
pub proof fn law_directories_are_told_by_their_paths(
    t: TreeView,
    tree: Seq<char>,
    path: Seq<char>,
)
    requires
        t.wf(),
        t.layout is Workspace,
        t.tree_dir(tree, path) is Some,
    ensures
        ({
            let dir = t.tree_dir(tree, path)->0;
            let told = workspace::path_text(workspace::segments(path));
            &&& t.is_dir(dir)
            &&& t.dir_path(dir) == Some((tree, workspace::segments(path)))
            &&& t.tree_dir(tree, told) == Some(dir)
        }),
{
    let top = t.context_dir(ROOT_INO, tree)->0;
    assert(t.entries(ROOT_INO).contains_key(tree) && t.entries(ROOT_INO)[tree] == top);
    assert(t.nodes[top].parent == ROOT_INO && t.nodes[top].name == tree);
    assert(top != ROOT_INO);
    lemma_walk_path(t, top, tree, workspace::segments(path));
    workspace_laws::lemma_walk_is_dir(t, top, workspace::segments(path));
    lemma_are_segments(path);
    law_path_reads_back(workspace::segments(path));
}

proof fn lemma_are_segments(path: Seq<char>)
    ensures
        are_segments(workspace::segments(path)),
    decreases path.len(),
{
    let slash = CharClass::Is('/');
    let i = text::find(path, slash);
    text::lemma_find_props(path, slash);
    let rest = if i < path.len() {
        workspace::segments(path.skip(i + 1))
    } else {
        Seq::empty()
    };
    if i < path.len() {
        lemma_are_segments(path.skip(i + 1));
    }
    let s = workspace::segments(path);
    if i > 0 {
        assert(s =~= seq![path.take(i)] + rest);
        assert(!path.take(i).contains('/')) by {
            if path.take(i).contains('/') {
                let k = choose|k: int| 0 <= k < i && path.take(i)[k] == '/';
                assert(path[k] == '/');
            }
        }
        assert forall|k: int| 0 <= k < s.len() implies (#[trigger] s[k]).len() > 0
            && !s[k].contains('/') by {
            if k > 0 {
                assert(s[k] == rest[k - 1]);
            }
        }
    } else {
        assert(s =~= rest);
    }
}

/// Whether a tree is told of last in a list, and not again.
pub open spec fn is_last_of_its_name(infos: Seq<TreeInfoView>, at: int) -> bool {
    &&& 0 <= at < infos.len()
    &&& forall|j: int| at < j < infos.len() ==> (#[trigger] infos[j]).name != infos[at].name
}

proof fn lemma_apply_tree_says(v: Update, info: TreeInfoView, now: SystemTime, name: Seq<char>)
    requires
        v.tree.wf(),
        v.tree.layout is Workspace,
        v.tree.room(1),
    ensures
        ({
            let r = v.apply_tree(info, now).tree;
            &&& r.trees == v.tree.trees.insert(info.name, (info.id, info.tree_type))
            &&& v.tree.context_dir(ROOT_INO, name) is Some && (info.name != name
                || v.tree.trees.contains_key(name)) ==> r.context_dir(ROOT_INO, name)
                == v.tree.context_dir(ROOT_INO, name)
            &&& info.name == name && !v.tree.trees.contains_key(name) ==> r.context_dir(
                ROOT_INO,
                name,
            ) is Some
        }),
{
    let r = v.apply_tree(info, now).tree;
    if !v.tree.trees.contains_key(info.name) {
        assert(!v.tree.nodes.contains_key(v.tree.next_ino));
        assert(r.nodes == v.tree.nodes.insert(
            v.tree.next_ino,
            model::dir_node(v.tree.next_ino, ROOT_INO, info.name, now),
        ));
        assert(r.entries(ROOT_INO) =~= v.tree.entries(ROOT_INO).insert(
            info.name,
            v.tree.next_ino,
        ));
    }
}

proof fn lemma_trees_say(u: Update, infos: Seq<TreeInfoView>, now: SystemTime, at: int)
    requires
        is_last_of_its_name(infos, at),
    ensures
        ({
            let r = u.apply_each_tree(infos, now).tree;
            &&& r.trees.contains_key(infos[at].name)
            &&& r.trees[infos[at].name] == (infos[at].id, infos[at].tree_type)
        }),
    decreases infos.len(),
{
    let f = infos.drop_last();
    let v = u.apply_each_tree(f, now);
    let r = v.apply_tree(infos.last(), now);
    assert(r.tree.trees == v.tree.trees.insert(
        infos.last().name,
        (infos.last().id, infos.last().tree_type),
    ));
    if at < f.len() {
        assert(infos[infos.len() - 1].name != infos[at].name);
        assert(f[at] == infos[at]);
        assert(forall|j: int| at < j < f.len() ==> f[j] == infos[j]);
        lemma_trees_say(u, f, now, at);
    }
}

proof fn lemma_trees_stand(
    u: Update,
    infos: Seq<TreeInfoView>,
    now: SystemTime,
    name: Seq<char>,
)
    requires
        u.tree.wf(),
        u.tree.layout is Workspace,
        u.tree.room(infos.len() as int),
        !u.tree.trees.contains_key(name),
        workspace_laws::has_tree(infos, name),
    ensures
        u.apply_each_tree(infos, now).tree.context_dir(ROOT_INO, name) is Some,
    decreases infos.len(),
{
    let f = infos.drop_last();
    let last = infos.last();
    workspace_laws::lemma_apply_each_tree_wf(u, f, now);
    let v = u.apply_each_tree(f, now);
    lemma_apply_tree_says(v, last, now, name);
    assert(v.tree.trees.contains_key(name) <==> workspace_laws::has_tree(f, name));
    if workspace_laws::has_tree(f, name) {
        lemma_trees_stand(u, f, now, name);
    } else {
        let i = choose|i: int| 0 <= i < infos.len() && (#[trigger] infos[i]).name == name;
        if i < f.len() {
            assert(f[i].name == name);
        }
    }
}

/// After the trees were made those of a list, each is known by the identifier and the kind that the
/// list gives for its name last, and a tree that comes in has a directory of its name at the top.
pub proof fn law_trees_are_as_told(
    t: TreeView,
    infos: Seq<TreeInfoView>,
    now: SystemTime,
    at: int,
)
    requires
        t.wf(),
        t.layout is Workspace,
        t.room(infos.len() as int),
        is_last_of_its_name(infos, at),
    ensures
        ({
            let u = workspace::apply_trees(t, infos, now).tree;
            let name = infos[at].name;
            &&& u.trees.contains_key(name)
            &&& u.trees[name] == (infos[at].id, infos[at].tree_type)
            &&& !t.trees.contains_key(name) ==> u.entries(ROOT_INO).contains_key(name) && u.is_dir(
                u.entries(ROOT_INO)[name],
            ) && u.tree_dir(name, "/"@) == Some(u.entries(ROOT_INO)[name])
        }),
{
    let names = strmap::ordered(t.trees.dom());
    let gone = workspace::missing_trees(names, infos);
    let u0 = Update { tree: t, inv: model::no_invalidation() };
    let name = infos[at].name;
    workspace_laws::lemma_drop_trees_wf(u0, gone);
    let v = u0.drop_trees(gone);
    let rule = ForgetView::Inos(workspace::removed_inos(v.inv));
    wellformed::lemma_forget_wf(v.tree, rule);
    let w = Update { tree: v.tree.forget(rule), ..v };
    assert(workspace_laws::has_tree(infos, name));
    lemma_trees_say(w, infos, now, at);
    if !t.trees.contains_key(name) {
        lemma_trees_stand(w, infos, now, name);
    }
    law_segments(Seq::empty(), Seq::empty());
}

/// Whether a name is that of a directory, or of the file of a document with a smaller identifier.
spec fn is_gone(m: Map<Seq<char>, Wanted>, taken: Set<Seq<char>>, n: Seq<char>, id: u64) -> bool {
    taken.contains(n) || (m.contains_key(n) && m[n].doc < id)
}

/// Whether a document has the name that it asks for, or the one with its identifier where that is
/// gone.
spec fn is_named(
    m: Map<Seq<char>, Wanted>,
    taken: Set<Seq<char>>,
    n: Seq<char>,
    doc: DocumentView,
    ws: Option<Seq<char>>,
) -> bool {
    let own = render::flat_name(doc);
    let numbered = render::suffixed(own, doc.id);
    &&& m[n] == naming::wanted_for(doc, ws)
    &&& n != own ==> is_gone(m, taken, own, doc.id)
    &&& n != own && n != numbered ==> is_gone(m, taken, numbered, doc.id)
}

proof fn lemma_tree_names(
    docs: Seq<DocumentView>,
    taken: Set<Seq<char>>,
    ws: Option<Seq<char>>,
    doc: DocumentView,
)
    requires
        taken.finite(),
        naming::distinct_ids(docs),
        forall|i: int, j: int|
            0 <= i < j < docs.len() ==> (#[trigger] docs[i]).id <= (#[trigger] docs[j]).id,
    ensures
        ({
            let m = workspace::tree_files(docs, taken, ws);
            &&& m.dom().finite()
            &&& docs.contains(doc) ==> exists|n: Seq<char>| #[trigger]
                m.contains_key(n) && is_named(m, taken, n, doc, ws)
            &&& forall|n: Seq<char>| #[trigger]
                m.contains_key(n) ==> exists|i: int|
                    0 <= i < docs.len() && m[n].doc == (#[trigger] docs[i]).id
        }),
    decreases docs.len(),
{
    if docs.len() > 0 {
        let f = docs.drop_last();
        let last = docs.last();
        assert(docs == f.push(last));
        assert(forall|i: int| 0 <= i < f.len() ==> f[i] == docs[i]);
        assert(docs[docs.len() - 1] == last);
        lemma_tree_names(f, taken, ws, doc);
        let m = workspace::tree_files(f, taken, ws);
        let r = workspace::tree_files(docs, taken, ws);
        let all = m.dom().union(taken);
        let own = render::flat_name(last);
        let numbered = render::suffixed(own, last.id);
        let name = model::pick_name(None, own, last.id, all);
        assert(r == m.insert(name, naming::wanted_for(last, ws)));
        model::lemma_pick_name(None, own, last.id, all);
        assert(!m.contains_key(name));
        assert forall|n: Seq<char>| #[trigger] m.contains_key(n) implies m[n].doc < last.id by {
            let i = choose|i: int| 0 <= i < f.len() && m[n].doc == (#[trigger] f[i]).id;
            assert(docs[i].id <= docs[docs.len() - 1].id && docs[i].id != docs[docs.len()
                - 1].id);
        }
        assert forall|n: Seq<char>| #[trigger] r.contains_key(n) implies exists|i: int|
            0 <= i < docs.len() && r[n].doc == (#[trigger] docs[i]).id by {
            if n == name {
                assert(r[n].doc == docs[docs.len() - 1].id);
            } else {
                let i = choose|i: int| 0 <= i < f.len() && m[n].doc == (#[trigger] f[i]).id;
                assert(r[n].doc == docs[i].id);
            }
        }
        if docs.contains(doc) {
            wellformed::lemma_push_contains(f, last, doc);
            if f.contains(doc) {
                let n = choose|n: Seq<char>| #[trigger]
                    m.contains_key(n) && is_named(m, taken, n, doc, ws);
                assert(r.contains_key(n));
                assert(is_named(r, taken, n, doc, ws));
            } else {
                if all.contains(own) {
                    model::lemma_free_name_step(own, last.id, all);
                }
                assert(name != own ==> all.contains(own));
                assert(name != own && name != numbered ==> all.contains(numbered));
                assert(r.contains_key(name));
                assert(is_named(r, taken, name, last, ws));
            }
        }
    }
}

/// Whether a name in a directory is that of a directory, or of the file of a document with a
/// smaller identifier.
pub open spec fn is_anothers(
    u: TreeView,
    key: Seq<char>,
    dir: u64,
    n: Seq<char>,
    id: u64,
) -> bool {
    let i = u.entries(dir)[n];
    &&& u.entries(dir).contains_key(n)
    &&& u.is_dir(i) || exists|d: u64| d < id && #[trigger] u.bound(key, d, i)
}

/// After the documents of a directory of a tree were brought up to date, each document of the list
/// has a file there, with its content and the time of its last change, unless it is the file that
/// showed this document with this content before: that one is left alone. The file has the name
/// that the document asks for, or the one with the document's identifier where that name is a
/// directory's or that of a document with a smaller identifier.
pub proof fn law_tree_files_show_contents_and_dates(
    t: TreeView,
    tree: Seq<char>,
    path: Seq<char>,
    docs: Seq<DocumentView>,
    now: SystemTime,
    doc: DocumentView,
)
    requires
        t.wf(),
        t.layout is Workspace,
        t.room(docs.len() as int),
        t.tree_dir(tree, path) is Some,
        naming::distinct_ids(docs),
        ({
            let dir = t.tree_dir(tree, path)->0;
            tree_listing::neat(t, workspace::dir_key(dir), dir)
        }),
        docs.contains(doc),
    ensures
        ({
            let dir = t.tree_dir(tree, path)->0;
            let key = workspace::dir_key(dir);
            let u = workspace::apply_tree_documents(t, tree, path, docs, now).tree;
            let i = u.docs[(key, doc.id)];
            let name = u.nodes[i].name;
            let own = render::flat_name(doc);
            let numbered = render::suffixed(own, doc.id);
            &&& u.docs.contains_key((key, doc.id))
            &&& u.nodes.contains_key(i)
            &&& u.nodes[i].ino == i && u.nodes[i].parent == dir
            &&& u.entries(dir).contains_key(name) && u.entries(dir)[name] == i
            &&& dates::is_content_of(
                u.nodes[i].content,
                doc,
                Some(t.layout->Workspace_id),
            )
            &&& u.nodes[i].mtime == doc.updated_at || (t.nodes.contains_key(i) && t.nodes[i]
                == u.nodes[i] && t.docs.contains_key((key, doc.id)) && t.docs[(key, doc.id)] == i)
            &&& name != own ==> is_anothers(u, key, dir, own, doc.id)
            &&& name != own && name != numbered ==> is_anothers(u, key, dir, numbered, doc.id)
        }),
{
    let dir = t.tree_dir(tree, path)->0;
    let key = workspace::dir_key(dir);
    let ws = workspace::shown_workspace(t);
    let taken = t.subdirs(dir);
    let sorted = model::by_id(docs);
    let want = workspace::tree_files(sorted, taken, ws);
    let u = workspace::apply_tree_documents(t, tree, path, docs, now).tree;
    let own = render::flat_name(doc);
    let numbered = render::suffixed(own, doc.id);
    tree_listing::law_tree_directory_shows_its_documents(t, tree, path, docs, now);
    workspace_laws::law_tree_documents_keep_directories(t, tree, path, docs, now);
    naming::lemma_by_id(docs);
    naming::lemma_by_id_ascends(docs);
    tree_listing::lemma_subdirs_finite(t, dir);
    assert(sorted.contains(doc));
    lemma_tree_names(sorted, taken, ws, doc);
    let n = choose|n: Seq<char>| #[trigger]
        want.contains_key(n) && is_named(want, taken, n, doc, ws);
    assert(listing::shows_wanted(u, key, dir, n, want[n]));
    let i = u.entries(dir)[n];
    assert(u.bound(key, doc.id, i));
    assert(u.nodes[i].name == n && u.nodes[i].parent == dir);
    assert(is_gone(want, taken, own, doc.id) ==> is_anothers(u, key, dir, own, doc.id)) by {
        if is_gone(want, taken, own, doc.id) && !taken.contains(own) {
            assert(listing::shows_wanted(u, key, dir, own, want[own]));
        }
    }
    assert(is_gone(want, taken, numbered, doc.id) ==> is_anothers(
        u,
        key,
        dir,
        numbered,
        doc.id,
    )) by {
        if is_gone(want, taken, numbered, doc.id) && !taken.contains(numbered) {
            assert(listing::shows_wanted(u, key, dir, numbered, want[numbered]));
        }
    }
    let up = Update { tree: t, inv: model::no_invalidation() };
    dates::lemma_sync_dir_dated(up, key, dir, want, now);
    assert(i != dir);
    if !dates::left_alone(t, u, key, i) {
        let m = choose|m: Seq<char>| #[trigger]
            want.contains_key(m) && u.bound(key, want[m].doc, i) && u.nodes[i].content
                == want[m].content && u.nodes[i].mtime == want[m].mtime;
        let d = want[m].doc;
        assert(u.docs.contains_key((key, d)) && u.docs.contains_key((key, doc.id)));
        assert(d == doc.id);
        assert(tree_listing::is_one_of(want[m], docs, ws));
        let o = choose|o: DocumentView| #[trigger]
            docs.contains(o) && want[m] == naming::wanted_for(o, ws);
        let a = choose|a: int| 0 <= a < docs.len() && docs[a] == o;
        let b = choose|b: int| 0 <= b < docs.len() && docs[b] == doc;
        assert(docs[a].id == docs[b].id);
    } else {
        assert(t.bound(key, doc.id, i));
    }
}

/// A directory of a tree does not get a name that something else in its place has, a tree's own
/// directory keeps its name, and what stands in another tree is not renamed.
pub proof fn law_renames_that_do_nothing(
    t: TreeView,
    ino: u64,
    new_name: Seq<char>,
    tree: Seq<char>,
)
    ensures
        t.lookup(t.nodes[ino].parent, new_name) is Some ==> t.rename_path(ino, new_name, tree) == t,
        t.nodes[ino].parent == ROOT_INO ==> t.rename_path(ino, new_name, tree) == t,
        (match t.dir_path(ino) {
            Some((own, _)) => own != tree ==> t.rename_path(ino, new_name, tree) == t,
            None => t.rename_path(ino, new_name, tree) == t,
        }),
{
}

} // verus!
