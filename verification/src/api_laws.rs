//! What is read of the server's answers, and how it is asked.

use crate::api;
use crate::api::{ContextView, DocumentView, Method, TreeInfoView};
use crate::json;
use crate::json::JsonView;
use crate::text;
use crate::time;
use crate::workspace;
use std::time::SystemTime;
use vstd::prelude::*;
use vstd::string::*;
use vstd::utf8::*;

verus! {

/// Whether a value is an object with a member.
pub open spec fn has_member(v: JsonView, k: Seq<char>, x: JsonView) -> bool {
    v is Object && v->Object_0.contains_key(k) && v->Object_0[k] == x
}

/// Whether a value is no object with a member of a key.
pub open spec fn has_no_member(v: JsonView, k: Seq<char>) -> bool {
    !(v is Object) || !v->Object_0.contains_key(k)
}

/// Whether a value is an unsigned integer.
pub open spec fn is_uint(v: JsonView, n: u64) -> bool {
    v is Number && json::number_u64(v->Number_0) == Some(n)
}

/// Whether a value is an object with an unsigned integer under a key.
pub open spec fn says_uint(v: JsonView, k: Seq<char>, n: u64) -> bool {
    v is Object && v->Object_0.contains_key(k) && is_uint(v->Object_0[k], n)
}

/// Whether a value is no object with an unsigned integer under a key.
pub open spec fn says_no_uint(v: JsonView, k: Seq<char>) -> bool {
    forall|n: u64| !#[trigger] says_uint(v, k, n)
}

/// Whether a value is an object with a list under a key.
pub open spec fn says_list(v: JsonView, k: Seq<char>, s: Seq<JsonView>) -> bool {
    has_member(v, k, JsonView::Array(s))
}

/// Whether a value is no object with a list under a key.
pub open spec fn says_no_list(v: JsonView, k: Seq<char>) -> bool {
    forall|s: Seq<JsonView>| !#[trigger] says_list(v, k, s)
}

proof fn lemma_reads(v: JsonView, k: Seq<char>)
    ensures
        forall|x: JsonView| #[trigger] has_member(v, k, x) ==> v.member(k) == Some(x),
        has_no_member(v, k) ==> v.member(k) is None,
        forall|s: Seq<char>| #[trigger] v.says(k, s) <==> v.member_text(k) == Some(s),
        v.says_nothing(k) <==> v.member_text(k) is None,
        forall|n: u64| #[trigger] says_uint(v, k, n) <==> v.member_uint(k) == Some(n),
        says_no_uint(v, k) <==> v.member_uint(k) is None,
        forall|s: Seq<JsonView>| #[trigger] says_list(v, k, s) <==> v.member_items(k) == Some(s),
        says_no_list(v, k) <==> v.member_items(k) is None,
{
    match v.member_text(k) {
        Some(s) => {
            assert(v.says(k, s));
        },
        None => {},
    }
    match v.member_uint(k) {
        Some(n) => {
            assert(says_uint(v, k, n));
        },
        None => {},
    }
    match v.member_items(k) {
        Some(s) => {
            assert(says_list(v, k, s));
        },
        None => {},
    }
}

// ── documents ────────────────────────────────────────────────────────────────

/// Whether a time is when a value says that it changed, or else when it was made, or else the
/// epoch.
pub open spec fn is_change_time(v: JsonView, t: SystemTime) -> bool {
    let key = if has_no_member(v, "updatedAt"@) {
        "createdAt"@
    } else {
        "updatedAt"@
    };
    &&& forall|s: Seq<char>| #[trigger]
        v.says(key, s) ==> t == (match time::rfc3339_time(s) {
            Some(x) => x,
            None => time::epoch_plus(0),
        })
    &&& v.says_nothing(key) ==> t == time::epoch_plus(0)
}

/// A document that an answer tells of is read as it is told: its identifier, schema, data, time
/// of change, locations, size and checksum. What has no identifier or no schema is none.
pub proof fn law_document_is_read(v: JsonView)
    ensures
        (match api::document_in(v) {
            Some(d) => {
                &&& says_uint(v, "id"@, d.id)
                &&& v.says("schema"@, d.schema)
                &&& has_member(v, "data"@, d.data) || (has_no_member(v, "data"@) && d.data
                    == JsonView::Null)
                &&& is_change_time(v, d.updated_at)
                &&& forall|s: Seq<JsonView>| #[trigger]
                    says_list(v, "locations"@, s) ==> d.locations == api::urls_in(s)
                &&& says_no_list(v, "locations"@) ==> d.locations == Seq::<Seq<char>>::empty()
                &&& forall|m: JsonView, n: u64| #[trigger]
                    has_member(v, "metadata"@, m) && #[trigger] says_uint(m, "size"@, n) ==> d.size
                        == Some(n)
                &&& d.size is Some ==> has_member(v, "metadata"@, v->Object_0["metadata"@])
                    && says_uint(v->Object_0["metadata"@], "size"@, d.size->0)
                &&& forall|s: Seq<JsonView>| #[trigger]
                    says_list(v, "checksumArray"@, s) ==> (d.checksum is Some <==> s.len() > 0
                        && s[0] is Text) && (d.checksum is Some ==> s[0] == JsonView::Text(
                        d.checksum->0,
                    ))
                &&& says_no_list(v, "checksumArray"@) ==> d.checksum is None
            },
            None => says_no_uint(v, "id"@) || v.says_nothing("schema"@),
        }),
{
    lemma_reads(v, "id"@);
    lemma_reads(v, "schema"@);
    lemma_reads(v, "data"@);
    lemma_reads(v, "updatedAt"@);
    lemma_reads(v, "createdAt"@);
    lemma_reads(v, "locations"@);
    lemma_reads(v, "metadata"@);
    lemma_reads(v, "checksumArray"@);
    match api::document_in(v) {
        Some(d) => {
            assert forall|m: JsonView, n: u64| #[trigger]
                has_member(v, "metadata"@, m) && #[trigger] says_uint(m, "size"@, n) implies d.size
                == Some(n) by {
                lemma_reads(m, "size"@);
            }
            if d.size is Some {
                lemma_reads(v->Object_0["metadata"@], "size"@);
            }
        },
        None => {},
    }
}

/// A list of documents is read one by one, in order, without those that are none.
pub proof fn law_documents_are_read_one_by_one(
    a: Seq<JsonView>,
    b: Seq<JsonView>,
    x: JsonView,
)
    ensures
        api::parsed_documents(a + b) == api::parsed_documents(a) + api::parsed_documents(b),
        api::parsed_documents(seq![x]) == (match api::document_in(x) {
            Some(d) => seq![d],
            None => Seq::empty(),
        }),
    decreases b.len(),
{
    assert(seq![x].drop_last() =~= Seq::empty());
    assert(api::parsed_documents(Seq::empty()) =~= Seq::empty());
    assert(Seq::<DocumentView>::empty().push(api::document_in(x)->0) =~= seq![
        api::document_in(x)->0,
    ]);
    if b.len() == 0 {
        assert(a + b =~= a);
        assert(api::parsed_documents(a) + api::parsed_documents(b) =~= api::parsed_documents(a));
    } else {
        law_documents_are_read_one_by_one(a, b.drop_last(), x);
        assert((a + b).drop_last() =~= a + b.drop_last());
        assert((a + b).last() == b.last());
        match api::document_in(b.last()) {
            Some(d) => {
                assert(api::parsed_documents(a) + api::parsed_documents(b.drop_last()).push(d)
                    =~= (api::parsed_documents(a) + api::parsed_documents(b.drop_last())).push(d));
            },
            None => {},
        }
    }
}

/// The locations of a document are read one by one, in order: the URL of each that has one.
pub proof fn law_locations_are_read_one_by_one(
    a: Seq<JsonView>,
    b: Seq<JsonView>,
    x: JsonView,
)
    ensures
        api::urls_in(a + b) == api::urls_in(a) + api::urls_in(b),
        forall|u: Seq<char>| #[trigger] x.says("url"@, u) ==> api::urls_in(seq![x]) == seq![u],
        x.says_nothing("url"@) ==> api::urls_in(seq![x]) == Seq::<Seq<char>>::empty(),
    decreases b.len(),
{
    lemma_reads(x, "url"@);
    assert(seq![x].drop_last() =~= Seq::empty());
    assert(api::urls_in(Seq::empty()) =~= Seq::empty());
    assert forall|u: Seq<char>| #[trigger] x.says("url"@, u) implies api::urls_in(seq![x])
        == seq![u] by {
        assert(Seq::<Seq<char>>::empty().push(u) =~= seq![u]);
    }
    if b.len() == 0 {
        assert(a + b =~= a);
        assert(api::urls_in(a) + api::urls_in(b) =~= api::urls_in(a));
    } else {
        law_locations_are_read_one_by_one(a, b.drop_last(), x);
        assert((a + b).drop_last() =~= a + b.drop_last());
        assert((a + b).last() == b.last());
        match b.last().member_text("url"@) {
            Some(u) => {
                assert(api::urls_in(a) + api::urls_in(b.drop_last()).push(u) =~= (api::urls_in(a)
                    + api::urls_in(b.drop_last())).push(u));
            },
            None => {},
        }
    }
}

/// The documents that an answer carries are its payload, or what stands there under `data`, or
/// else under `documents`.
pub proof fn law_documents_of_an_answer(p: JsonView, body: JsonView, s: Seq<JsonView>)
    requires
        has_member(body, "payload"@, p),
    ensures
        p == JsonView::Array(s) ==> api::documents_in(body) == s,
        says_list(p, "data"@, s) ==> api::documents_in(body) == s,
        says_no_list(p, "data"@) && says_list(p, "documents"@, s) ==> api::documents_in(body) == s,
        !(p is Array) && says_no_list(p, "data"@) && says_no_list(p, "documents"@)
            ==> api::documents_in(body) == Seq::<JsonView>::empty(),
{
    lemma_reads(body, "payload"@);
    lemma_reads(p, "data"@);
    lemma_reads(p, "documents"@);
}

/// The documents that a write made or changed are those that the answer calls successful, each
/// by its identifier, in order; or else the identifiers that the payload lists.
pub proof fn law_written_documents(p: JsonView, body: JsonView, s: Seq<JsonView>)
    requires
        has_member(body, "payload"@, p),
    ensures
        says_list(p, "successful"@, s) ==> api::result_ids(body) == api::ids_in(s, true),
        p == JsonView::Array(s) ==> api::result_ids(body) == api::ids_in(s, false),
        !(p is Array) && says_no_list(p, "successful"@) ==> api::result_ids(body) == Seq::<
            u64,
        >::empty(),
{
    lemma_reads(body, "payload"@);
    lemma_reads(p, "successful"@);
}

/// Identifiers are read one by one, in order: an entry is an identifier or has one.
pub proof fn law_identifiers_are_read_one_by_one(
    a: Seq<JsonView>,
    b: Seq<JsonView>,
    x: JsonView,
    n: u64,
    first: bool,
)
    ensures
        api::ids_in(a + b, first) == api::ids_in(a, first) + api::ids_in(b, first),
        says_uint(x, "id"@, n) ==> api::ids_in(seq![x], first) == seq![n],
        is_uint(x, n) ==> api::ids_in(seq![x], first) == seq![n],
        says_no_uint(x, "id"@) && !(x is Number) ==> api::ids_in(seq![x], first) == Seq::<
            u64,
        >::empty(),
    decreases b.len(),
{
    lemma_reads(x, "id"@);
    assert(seq![x].drop_last() =~= Seq::empty());
    assert(api::ids_in(Seq::empty(), first) =~= Seq::empty());
    assert(Seq::<u64>::empty().push(n) =~= seq![n]);
    if b.len() == 0 {
        assert(a + b =~= a);
        assert(api::ids_in(a, first) + api::ids_in(b, first) =~= api::ids_in(a, first));
    } else {
        law_identifiers_are_read_one_by_one(a, b.drop_last(), x, n, first);
        assert((a + b).drop_last() =~= a + b.drop_last());
        assert((a + b).last() == b.last());
        match api::entry_id(b.last(), first) {
            Some(i) => {
                assert(api::ids_in(a, first) + api::ids_in(b.drop_last(), first).push(i) =~= (
                api::ids_in(a, first) + api::ids_in(b.drop_last(), first)).push(i));
            },
            None => {},
        }
    }
}

// ── contexts, trees and workspaces ───────────────────────────────────────────

/// Whether what is read of a context is what is told of it.
pub open spec fn is_told_context(v: JsonView, id: Seq<char>, c: ContextView) -> bool {
    &&& v.says("id"@, c.id) || (v.says_nothing("id"@) && c.id == id)
    &&& v.says("url"@, c.url) || (v.says_nothing("url"@) && c.url == "/"@)
    &&& c.workspace_id is Some ==> v.says("workspaceId"@, c.workspace_id->0)
    &&& c.workspace_id is None ==> v.says_nothing("workspaceId"@)
    &&& c.raw == v
}

/// A context is read as it is told, under the identifier that was asked for where it has none.
pub proof fn law_context_is_read(v: JsonView, id: Seq<char>)
    ensures
        is_told_context(v, id, api::context_in(v, id)),
{
    lemma_reads(v, "id"@);
    lemma_reads(v, "url"@);
    lemma_reads(v, "workspaceId"@);
}

/// Contexts are read one by one, in order, without those that have no identifier.
pub proof fn law_contexts_are_read_one_by_one(a: Seq<JsonView>, b: Seq<JsonView>, x: JsonView)
    ensures
        api::contexts_in(a + b) == api::contexts_in(a) + api::contexts_in(b),
        x.says_nothing("id"@) ==> api::contexts_in(seq![x]) == Seq::<ContextView>::empty(),
        forall|id: Seq<char>| #[trigger]
            x.says("id"@, id) ==> api::contexts_in(seq![x]).len() == 1 && is_told_context(
                x,
                id,
                api::contexts_in(seq![x])[0],
            ),
    decreases b.len(),
{
    lemma_reads(x, "id"@);
    assert(seq![x].drop_last() =~= Seq::empty());
    assert(api::contexts_in(Seq::empty()) =~= Seq::empty());
    assert forall|id: Seq<char>| #[trigger] x.says("id"@, id) implies api::contexts_in(
        seq![x],
    ).len() == 1 && is_told_context(x, id, api::contexts_in(seq![x])[0]) by {
        law_context_is_read(x, id);
    }
    if b.len() == 0 {
        assert(a + b =~= a);
        assert(api::contexts_in(a) + api::contexts_in(b) =~= api::contexts_in(a));
    } else {
        law_contexts_are_read_one_by_one(a, b.drop_last(), x);
        assert((a + b).drop_last() =~= a + b.drop_last());
        assert((a + b).last() == b.last());
        match b.last().member_text("id"@) {
            Some(id) => {
                let c = api::context_in(b.last(), id);
                assert(api::contexts_in(a) + api::contexts_in(b.drop_last()).push(c) =~= (
                api::contexts_in(a) + api::contexts_in(b.drop_last())).push(c));
            },
            None => {},
        }
    }
}

/// Whether what is read of a tree is what is told of it.
pub open spec fn is_told_tree(v: JsonView, t: TreeInfoView) -> bool {
    &&& v.says("name"@, t.name)
    &&& v.says("id"@, t.id) || (v.says_nothing("id"@) && t.id == t.name)
    &&& v.says("type"@, t.tree_type) || (v.says_nothing("type"@) && t.tree_type == "context"@)
}

/// Trees are read one by one, in order, without those that have no name.
pub proof fn law_trees_are_read_one_by_one(a: Seq<JsonView>, b: Seq<JsonView>, x: JsonView)
    ensures
        api::trees_in(a + b) == api::trees_in(a) + api::trees_in(b),
        x.says_nothing("name"@) ==> api::trees_in(seq![x]) == Seq::<TreeInfoView>::empty(),
        !x.says_nothing("name"@) ==> api::trees_in(seq![x]).len() == 1 && is_told_tree(
            x,
            api::trees_in(seq![x])[0],
        ),
    decreases b.len(),
{
    lemma_reads(x, "name"@);
    lemma_reads(x, "id"@);
    lemma_reads(x, "type"@);
    assert(seq![x].drop_last() =~= Seq::empty());
    assert(api::trees_in(Seq::empty()) =~= Seq::empty());
    if b.len() == 0 {
        assert(a + b =~= a);
        assert(api::trees_in(a) + api::trees_in(b) =~= api::trees_in(a));
    } else {
        law_trees_are_read_one_by_one(a, b.drop_last(), x);
        assert((a + b).drop_last() =~= a + b.drop_last());
        assert((a + b).last() == b.last());
        match b.last().member_text("name"@) {
            Some(n) => {
                let c = api::tree_in(b.last(), n);
                assert(api::trees_in(a) + api::trees_in(b.drop_last()).push(c) =~= (api::trees_in(a)
                    + api::trees_in(b.drop_last())).push(c));
            },
            None => {},
        }
    }
}

/// Texts are read one by one, in order, without what is none.
pub proof fn law_texts_are_read_one_by_one(a: Seq<JsonView>, b: Seq<JsonView>, x: JsonView)
    ensures
        api::texts_in(a + b) == api::texts_in(a) + api::texts_in(b),
        x matches JsonView::Text(s) ==> api::texts_in(seq![x]) == seq![s],
        !(x is Text) ==> api::texts_in(seq![x]) == Seq::<Seq<char>>::empty(),
    decreases b.len(),
{
    assert(seq![x].drop_last() =~= Seq::empty());
    assert(api::texts_in(Seq::empty()) =~= Seq::empty());
    if x is Text {
        assert(Seq::<Seq<char>>::empty().push(x->Text_0) =~= seq![x->Text_0]);
    }
    if b.len() == 0 {
        assert(a + b =~= a);
        assert(api::texts_in(a) + api::texts_in(b) =~= api::texts_in(a));
    } else {
        law_texts_are_read_one_by_one(a, b.drop_last(), x);
        assert((a + b).drop_last() =~= a + b.drop_last());
        assert((a + b).last() == b.last());
        match b.last().text() {
            Some(s) => {
                assert(api::texts_in(a) + api::texts_in(b.drop_last()).push(s) =~= (api::texts_in(a)
                    + api::texts_in(b.drop_last())).push(s));
            },
            None => {},
        }
    }
}

/// A workspace is read as it is told, under what was asked for where it says nothing.
pub proof fn law_workspace_is_read(v: JsonView, asked: Seq<char>)
    ensures
        ({
            let w = api::workspace_in(v, asked);
            &&& v.says("id"@, w.id) || (v.says_nothing("id"@) && w.id == asked)
            &&& v.says("name"@, w.name) || (v.says_nothing("name"@) && w.name == asked)
        }),
{
    lemma_reads(v, "id"@);
    lemma_reads(v, "name"@);
}

/// What an answer carries is its payload; a value that may be wrapped is what is in the wrapping,
/// or itself; and a failure is reported by its message.
pub proof fn law_payload(body: JsonView, p: JsonView, key: Seq<char>, x: JsonView)
    ensures
        has_member(body, "payload"@, p) ==> api::payload_of(body) == p,
        has_no_member(body, "payload"@) ==> api::payload_of(body) == JsonView::Null,
        has_member(p, key, x) ==> api::unwrapped(p, key) == x,
        has_no_member(p, key) ==> api::unwrapped(p, key) == p,
        forall|s: Seq<JsonView>| #[trigger]
            says_list(body, "payload"@, s) ==> api::payload_items(body) == s,
        says_no_list(body, "payload"@) ==> api::payload_items(body) == Seq::<JsonView>::empty(),
        forall|m: Seq<char>| #[trigger] body.says("message"@, m) ==> api::message_of(body) == m,
        body.says_nothing("message"@) ==> api::message_of(body) == "?"@,
{
    lemma_reads(body, "payload"@);
    lemma_reads(p, key);
    lemma_reads(body, "message"@);
}

// ── requests ─────────────────────────────────────────────────────────────────

/// Whether a character may stand in a URL without being escaped.
pub open spec fn is_plain(c: char) -> bool {
    'a' <= c <= 'z' || 'A' <= c <= 'Z' || '0' <= c <= '9' || c == '-' || c == '_' || c == '.' || c
        == '~'
}

/// A text of plain characters is written as it is in a URL.
pub proof fn law_plain_texts_stay(s: Seq<char>)
    requires
        forall|i: int| 0 <= i < s.len() ==> is_plain(#[trigger] s[i]),
    ensures
        api::segment(s) == s,
    decreases s.len(),
{
    if s.len() == 0 {
        assert(encode_utf8(s) =~= Seq::empty());
        assert(api::encoded(encode_utf8(s), false) =~= s);
    } else {
        let f = s.drop_last();
        let c = s.last();
        assert(is_plain(s[s.len() - 1]));
        assert(forall|i: int| 0 <= i < f.len() ==> f[i] == s[i]);
        law_plain_texts_stay(f);
        assert(s =~= f + seq![c]);
        crate::file_laws::lemma_encode_concat(f, seq![c]);
        crate::file_laws::lemma_encode_ascii(c);
        let b = c as u32 as u8;
        let e = encode_utf8(s);
        assert(e =~= encode_utf8(f).push(b));
        assert(e.drop_last() =~= encode_utf8(f));
        assert(b as char == c);
        assert(api::encoded_byte(b, false) =~= seq![c]);
        assert(f + seq![c] =~= s);
    }
}

/// Everything else is escaped: a URL holds nothing but plain characters and escapes.
pub proof fn law_other_bytes_are_escaped(b: u8)
    ensures
        !is_plain(b as char) || b >= 128 ==> api::encoded_byte(b, false).len() == 3
            && api::encoded_byte(b, false)[0] == '%',
{
}

/// The segments of a path are written one by one, with a slash between each two.
pub proof fn law_paths_are_joined(a: Seq<Seq<char>>, s: Seq<char>)
    ensures
        a.len() > 0 ==> api::joined_segments(a.push(s)) == api::joined_segments(a) + seq!['/']
            + api::segment(s),
        api::joined_segments(seq![s]) == api::segment(s),
        api::joined_segments(Seq::empty()) == Seq::<char>::empty(),
{
    reveal_strlit("/");
    assert("/"@ =~= seq!['/']);
    assert(a.push(s).drop_last() =~= a);
}

/// A page of a listing is asked for by how many documents it takes and where it starts, and a
/// place in a tree by the tree, its type and the path.
pub proof fn law_queries(offset: u64, tree: Seq<char>, tree_type: Seq<char>, path: Seq<char>)
    ensures
        api::page_query(offset) == "limit=500&offset="@ + text::decimal(offset as nat),
        api::tree_query(tree, tree_type, path) == "treeNameOrTreeId="@ + api::segment(tree)
            + "&treeType="@ + api::segment(tree_type) + "&context="@ + api::segment(path),
{
    reveal_strlit("limit=500&offset=");
    reveal_strlit("limit=");
    reveal_strlit("&offset=");
    assert(text::decimal(5) =~= seq!['5']);
    assert(text::decimal(50) =~= seq!['5', '0']);
    assert(text::decimal(500) =~= seq!['5', '0', '0']);
    assert("limit="@ + text::decimal(500) + "&offset="@ =~= "limit=500&offset="@);
}

/// Documents are sent as a list, with the place where they stand in a tree.
pub proof fn law_bodies(docs: Seq<JsonView>, tree: Seq<char>, kind: Seq<char>, path: Seq<char>)
    ensures
        api::documents_body(docs) == JsonView::Object(map!["documents"@ => JsonView::Array(docs)]),
        api::tree_body(docs, tree, kind, path) == JsonView::Object(
            map![
                "documents"@ => JsonView::Array(docs),
                "treeNameOrTreeId"@ => JsonView::Text(tree),
                "treeType"@ => JsonView::Text(kind),
                "context"@ => JsonView::Text(path),
            ],
        ),
{
    assert(api::documents_body(docs)->Object_0 =~= map!["documents"@ => JsonView::Array(docs)]);
    assert(api::tree_body(docs, tree, kind, path)->Object_0 =~= map![
        "documents"@ => JsonView::Array(docs),
        "treeNameOrTreeId"@ => JsonView::Text(tree),
        "treeType"@ => JsonView::Text(kind),
        "context"@ => JsonView::Text(path),
    ]);
}

/// A listing ends with a page that is not full, or where as many documents were read as there are;
/// where neither holds, another page is asked for.
pub proof fn law_listings_end(body: JsonView, offset: nat)
    ensures
        ({
            let n = api::documents_in(body).len();
            &&& n < 500 ==> api::is_last_page(body, offset)
            &&& forall|v: JsonView, total: u64|
                #![trigger has_member(body, "totalCount"@, v), is_uint(v, total)]
                has_member(body, "totalCount"@, v) && is_uint(v, total) && total > 0 && n >= 500
                    ==> (api::is_last_page(body, offset) <==> offset + n >= total)
            &&& has_no_member(body, "totalCount"@) && n >= 500 ==> !api::is_last_page(body, offset)
        }),
{
    lemma_reads(body, "totalCount"@);
    assert forall|v: JsonView, total: u64|
        #![trigger has_member(body, "totalCount"@, v), is_uint(v, total)]
        has_member(body, "totalCount"@, v) && is_uint(v, total) && total > 0
            && api::documents_in(body).len() >= 500 implies (api::is_last_page(body, offset)
        <==> offset + api::documents_in(body).len() >= total) by {
        assert(body.member("totalCount"@) == Some(v));
        assert(body.member_uint("totalCount"@) == Some(total));
    }
}

/// Everything below a context, a workspace and a node of a tree is asked for below its own path.
pub proof fn law_addresses(ctx: Seq<char>, ws: Seq<char>, tree: Seq<char>, path: Seq<char>, rest: Seq<char>)
    ensures
        api::context_path(ctx, rest) == "/rest/v2/contexts/"@ + ctx + rest,
        api::workspace_path(ws, rest) == "/rest/v2/workspaces/"@ + api::segment(ws) + rest,
        api::node_path(ws, tree, path) == "/rest/v2/workspaces/"@ + api::segment(ws) + "/trees/"@
            + api::segment(tree) + "/path/"@ + api::joined_segments(workspace::segments(path)),
{
    assert(api::node_path(ws, tree, path) =~= "/rest/v2/workspaces/"@ + api::segment(ws)
        + "/trees/"@ + api::segment(tree) + "/path/"@ + api::joined_segments(
        workspace::segments(path),
    ));
}

/// A request that fails is told by what was asked, of whom, and what came back.
pub proof fn law_failures_tell_all(url: Seq<char>, status: Seq<char>, message: Seq<char>)
    ensures
        ({
            let rest = url + ": HTTP "@ + status + ": "@ + message;
            &&& api::failure(Method::Get, url, status, message) == "GET "@ + rest
            &&& api::failure(Method::Post, url, status, message) == "POST "@ + rest
            &&& api::failure(Method::Put, url, status, message) == "PUT "@ + rest
            &&& api::failure(Method::Patch, url, status, message) == "PATCH "@ + rest
            &&& api::failure(Method::Delete, url, status, message) == "DELETE "@ + rest
        }),
{
    let rest = url + ": HTTP "@ + status + ": "@ + message;
    reveal_strlit(" ");
    reveal_strlit("GET");
    reveal_strlit("GET ");
    assert("GET"@ + " "@ =~= "GET "@);
    reveal_strlit("POST");
    reveal_strlit("POST ");
    assert("POST"@ + " "@ =~= "POST "@);
    reveal_strlit("PUT");
    reveal_strlit("PUT ");
    assert("PUT"@ + " "@ =~= "PUT "@);
    reveal_strlit("PATCH");
    reveal_strlit("PATCH ");
    assert("PATCH"@ + " "@ =~= "PATCH "@);
    reveal_strlit("DELETE");
    reveal_strlit("DELETE ");
    assert("DELETE"@ + " "@ =~= "DELETE "@);
    assert(api::failure(Method::Get, url, status, message) =~= "GET"@ + " "@ + rest);
    assert(api::failure(Method::Post, url, status, message) =~= "POST"@ + " "@ + rest);
    assert(api::failure(Method::Put, url, status, message) =~= "PUT"@ + " "@ + rest);
    assert(api::failure(Method::Patch, url, status, message) =~= "PATCH"@ + " "@ + rest);
    assert(api::failure(Method::Delete, url, status, message) =~= "DELETE"@ + " "@ + rest);
}

} // verus!
