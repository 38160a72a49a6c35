//! The server's documents, contexts and trees.

use crate::json;
use crate::json::{Json, JsonView};
use crate::text;
use crate::text::{chars_of, copy_text, decimal_text, push_hex_byte, stripped_back, text_of, CharClass};
use crate::time;
use crate::time::{parse_rfc3339, unix_time};
use crate::workspace;
use crate::workspace::path_segments;
use std::time::SystemTime;
use vstd::prelude::*;
use vstd::string::*;
use vstd::utf8::*;

verus! {

/// A context: a named view whose current URL decides which documents it shows.
pub struct ContextInfo {
    pub id: String,
    pub url: String,
    pub workspace_id: Option<String>,
    /// The whole context object, as the server sent it
    pub raw: Json,
}

/// A workspace.
pub struct WorkspaceInfo {
    pub id: String,
    pub name: String,
}

/// A tree of a workspace.
pub struct TreeInfo {
    pub id: String,
    pub name: String,
    /// "context" or "directory"
    pub tree_type: String,
}

/// A document.
pub struct Document {
    pub id: u64,
    pub schema: String,
    pub data: Json,
    pub updated_at: SystemTime,
    /// Where the content is stored; for files the basename is the display name
    pub locations: Vec<String>,
    /// The content's size, where it is known
    pub size: Option<u64>,
    /// The content's first checksum, by which blobs are cached
    pub checksum: Option<String>,
}

/// What a context says.
pub ghost struct ContextView {
    pub id: Seq<char>,
    pub url: Seq<char>,
    pub workspace_id: Option<Seq<char>>,
    pub raw: JsonView,
}

/// What a workspace says.
pub ghost struct WorkspaceView {
    pub id: Seq<char>,
    pub name: Seq<char>,
}

/// What a tree says.
pub ghost struct TreeInfoView {
    pub id: Seq<char>,
    pub name: Seq<char>,
    pub tree_type: Seq<char>,
}

/// What a document says.
pub ghost struct DocumentView {
    pub id: u64,
    pub schema: Seq<char>,
    pub data: JsonView,
    pub updated_at: SystemTime,
    pub locations: Seq<Seq<char>>,
    pub size: Option<u64>,
    pub checksum: Option<Seq<char>>,
}

/// The characters of a text that may be absent.
pub open spec fn option_text(s: Option<String>) -> Option<Seq<char>> {
    match s {
        Some(s) => Some(s@),
        None => None,
    }
}

/// The characters of each of a list of texts.
pub open spec fn texts(s: Seq<String>) -> Seq<Seq<char>> {
    Seq::new(s.len(), |i: int| s[i]@)
}

impl View for ContextInfo {
    type V = ContextView;

    open spec fn view(&self) -> ContextView {
        ContextView {
            id: self.id@,
            url: self.url@,
            workspace_id: option_text(self.workspace_id),
            raw: self.raw@,
        }
    }
}

/// What each of some contexts says.
pub open spec fn context_views(s: Seq<ContextInfo>) -> Seq<ContextView> {
    Seq::new(s.len(), |i: int| s[i]@)
}

/// What each of some trees says.
pub open spec fn tree_views(s: Seq<TreeInfo>) -> Seq<TreeInfoView> {
    Seq::new(s.len(), |i: int| s[i]@)
}

/// What each of some documents says.
pub open spec fn document_views(s: Seq<Document>) -> Seq<DocumentView> {
    Seq::new(s.len(), |i: int| s[i]@)
}

impl View for WorkspaceInfo {
    type V = WorkspaceView;

    open spec fn view(&self) -> WorkspaceView {
        WorkspaceView { id: self.id@, name: self.name@ }
    }
}

impl View for TreeInfo {
    type V = TreeInfoView;

    open spec fn view(&self) -> TreeInfoView {
        TreeInfoView { id: self.id@, name: self.name@, tree_type: self.tree_type@ }
    }
}

impl View for Document {
    type V = DocumentView;

    open spec fn view(&self) -> DocumentView {
        DocumentView {
            id: self.id,
            schema: self.schema@,
            data: self.data@,
            updated_at: self.updated_at,
            locations: texts(self.locations@),
            size: self.size,
            checksum: option_text(self.checksum),
        }
    }
}

// ── percent-encoding ─────────────────────────────────────────────────────────

/// Whether a byte stands for itself in a URL.
pub open spec fn unreserved(b: u8) -> bool {
    65 <= b <= 90 || 97 <= b <= 122 || 48 <= b <= 57 || b == 45 || b == 95 || b == 46 || b == 126
}

/// How a byte is written in a URL: as itself, or as a percent sign and its number in hexadecimal.
pub open spec fn encoded_byte(b: u8, keep_slash: bool) -> Seq<char> {
    if unreserved(b) || (b == 47 && keep_slash) {
        seq![b as char]
    } else {
        seq!['%', text::hex_upper((b / 16) as nat), text::hex_upper((b % 16) as nat)]
    }
}

/// How some bytes are written in a URL.
pub open spec fn encoded(bytes: Seq<u8>, keep_slash: bool) -> Seq<char>
    decreases bytes.len(),
{
    if bytes.len() == 0 {
        Seq::empty()
    } else {
        encoded(bytes.drop_last(), keep_slash) + encoded_byte(bytes.last(), keep_slash)
    }
}

/// A text as one segment of a URL's path, or as the value of a query.
pub open spec fn segment(s: Seq<char>) -> Seq<char> {
    encoded(encode_utf8(s), false)
}

/// Segments joined by slashes.
pub open spec fn joined_segments(segs: Seq<Seq<char>>) -> Seq<char>
    decreases segs.len(),
{
    if segs.len() == 0 {
        Seq::empty()
    } else if segs.len() == 1 {
        segment(segs[0])
    } else {
        joined_segments(segs.drop_last()) + "/"@ + segment(segs.last())
    }
}

/// Writes a text for a URL.
fn encode_with(s: &str, keep_slash: bool) -> (r: String)
    ensures
        r@ == encoded(encode_utf8(s@), keep_slash),
{
    let bytes = s.as_bytes_vec();
    let mut out = String::new();
    let n = bytes.len();
    let mut i: usize = 0;
    assert(out@ =~= encoded(bytes@.take(0), keep_slash));
    while i < n
        invariant
            n == bytes@.len(),
            i <= n,
            out@ == encoded(bytes@.take(i as int), keep_slash),
        decreases n - i,
    {
        let ghost o = out@;
        let b = bytes[i];
        proof {
            assert(bytes@.take(i + 1).drop_last() =~= bytes@.take(i as int));
        }
        if (b >= 65 && b <= 90) || (b >= 97 && b <= 122) || (b >= 48 && b <= 57) || b == 45 || b
            == 95 || b == 46 || b == 126 || (b == 47 && keep_slash) {
            out.push(b as char);
            assert(out@ =~= o + encoded_byte(b, keep_slash));
        } else {
            out.push('%');
            push_hex_byte(&mut out, b);
            assert(out@ =~= o + encoded_byte(b, keep_slash));
        }
        i = i + 1;
    }
    assert(bytes@.take(n as int) =~= bytes@);
    out
}

/// Writes a text as one segment of a URL's path.
pub fn encode_segment(s: &str) -> (r: String)
    ensures
        r@ == segment(s@),
{
    encode_with(s, false)
}

/// Writes a text as the value of a query.
pub fn encode_component(s: &str) -> (r: String)
    ensures
        r@ == segment(s@),
{
    encode_with(s, false)
}

/// Writes a path of a tree: its segments, joined by slashes, without a leading one.
pub fn encode_tree_path(path: &str) -> (r: String)
    ensures
        r@ == joined_segments(workspace::segments(path@)),
{
    let segs = path_segments(path);
    let ghost all = texts(segs@);
    let mut out = String::new();
    let n = segs.len();
    let mut i: usize = 0;
    assert(out@ =~= joined_segments(all.take(0)));
    while i < n
        invariant
            n == segs@.len(),
            i <= n,
            all == texts(segs@),
            out@ == joined_segments(all.take(i as int)),
        decreases n - i,
    {
        let ghost o = out@;
        proof {
            assert(all.take(i + 1).drop_last() =~= all.take(i as int));
        }
        if i > 0 {
            out.append("/");
        }
        out.append(encode_segment(segs[i].as_str()).as_str());
        proof {
            if i == 0 {
                assert(out@ =~= segment(all[0]));
                assert(all.take(1)[0] == all[0]);
            }
        }
        i = i + 1;
    }
    assert(all.take(n as int) =~= all);
    out
}

// ── requests ─────────────────────────────────────────────────────────────────

/// How many documents are asked for at once.
pub const PAGE_SIZE: usize = 500;

/// What is done with what a URL names.
#[derive(Debug, Clone, Copy, PartialEq, Eq, Structural)]
pub enum Method {
    Get,
    Post,
    Put,
    Patch,
    Delete,
}

/// What is sent to the server.
pub struct Request {
    pub method: Method,
    pub url: String,
    pub body: Option<Json>,
}

impl Request {
    /// Whether this asks for what a path names.
    pub open spec fn asks(&self, base: Seq<char>, path: Seq<char>) -> bool {
        self.method is Get && self.url@ == base + path && self.body is None
    }

    /// Whether this sends a value to what a path names.
    pub open spec fn sends(
        &self,
        method: Method,
        base: Seq<char>,
        path: Seq<char>,
        body: JsonView,
    ) -> bool {
        self.method == method && self.url@ == base + path && self.body is Some && (
        self.body->0)@ == body
    }
}

impl Method {
    /// The name of a method.
    pub open spec fn spec_name(self) -> Seq<char> {
        match self {
            Method::Get => "GET"@,
            Method::Post => "POST"@,
            Method::Put => "PUT"@,
            Method::Patch => "PATCH"@,
            Method::Delete => "DELETE"@,
        }
    }

    pub fn name(self) -> (r: &'static str)
        ensures
            r@ == self.spec_name(),
    {
        match self {
            Method::Get => "GET",
            Method::Post => "POST",
            Method::Put => "PUT",
            Method::Patch => "PATCH",
            Method::Delete => "DELETE",
        }
    }
}

/// The message in an answer, or a question mark.
pub open spec fn message_of(body: JsonView) -> Seq<char> {
    match body.member_text("message"@) {
        Some(m) => m,
        None => "?"@,
    }
}

/// What is reported of an answer that tells of a failure.
pub open spec fn failure(
    method: Method,
    url: Seq<char>,
    status: Seq<char>,
    message: Seq<char>,
) -> Seq<char> {
    method.spec_name() + " "@ + url + ": HTTP "@ + status + ": "@ + message
}

/// Looks whether an answer tells of success, and hands back what is reported where it does not.
pub fn check_answer(request: &Request, success: bool, status: &str, body: &Json) -> (r: Result<
    (),
    String,
>)
    ensures
        (match r {
            Ok(_) => success,
            Err(e) => !success && e@ == failure(
                request.method,
                request.url@,
                status@,
                message_of(body@),
            ),
        }),
{
    if success {
        return Ok(());
    }
    let mut out = copy_text(request.method.name());
    out.append(" ");
    out.append(request.url.as_str());
    out.append(": HTTP ");
    out.append(status);
    out.append(": ");
    match body.get_str("message") {
        Some(m) => {
            out.append(m.as_str());
        },
        None => {
            out.append("?");
        },
    }
    Err(out)
}

/// The server, and what it is asked. Each method makes the request; what came back is read by the
/// functions below.
pub struct ApiClient {
    base: String,
    token: String,
}

/// A JSON array of numbers.
pub open spec fn id_array(ids: Seq<u64>) -> JsonView {
    JsonView::Array(Seq::new(ids.len(), |i: int| JsonView::Number(json::number_from(ids[i]))))
}

/// An object with no members.
pub open spec fn no_members() -> JsonView {
    JsonView::Object(Map::empty())
}

/// An object that holds documents.
pub open spec fn documents_body(docs: Seq<JsonView>) -> JsonView {
    no_members().with_member("documents"@, JsonView::Array(docs))
}

/// An object that holds documents and where in a tree they stand.
pub open spec fn tree_body(
    docs: Seq<JsonView>,
    tree: Seq<char>,
    tree_type: Seq<char>,
    path: Seq<char>,
) -> JsonView {
    documents_body(docs).with_member("treeNameOrTreeId"@, JsonView::Text(tree)).with_member(
        "treeType"@,
        JsonView::Text(tree_type),
    ).with_member("context"@, JsonView::Text(path))
}

/// The path of a context, followed by something.
pub open spec fn context_path(ctx: Seq<char>, rest: Seq<char>) -> Seq<char> {
    "/rest/v2/contexts/"@ + ctx + rest
}

/// The path of a workspace, followed by something.
pub open spec fn workspace_path(ws: Seq<char>, rest: Seq<char>) -> Seq<char> {
    "/rest/v2/workspaces/"@ + segment(ws) + rest
}

/// A page of a listing.
pub open spec fn page_query(offset: u64) -> Seq<char> {
    "limit="@ + text::decimal(PAGE_SIZE as nat) + "&offset="@ + text::decimal(offset as nat)
}

/// The query that names a place in a tree.
pub open spec fn tree_query(tree: Seq<char>, tree_type: Seq<char>, path: Seq<char>) -> Seq<char> {
    "treeNameOrTreeId="@ + segment(tree) + "&treeType="@ + segment(tree_type) + "&context="@
        + segment(path)
}

/// The path of a node in a tree.
pub open spec fn node_path(ws: Seq<char>, tree: Seq<char>, path: Seq<char>) -> Seq<char> {
    workspace_path(
        ws,
        "/trees/"@ + segment(tree) + "/path/"@ + joined_segments(workspace::segments(path)),
    )
}

fn id_values(ids: &[u64]) -> (r: Json)
    ensures
        r@ == id_array(ids@),
{
    let mut out: Vec<Json> = Vec::new();
    let mut i: usize = 0;
    while i < ids.len()
        invariant
            i <= ids@.len(),
            out@.len() == i,
            forall|j: int|
                0 <= j < i ==> json::json_view(#[trigger] out@[j]) == JsonView::Number(
                    json::number_from(ids@[j]),
                ),
        decreases ids@.len() - i,
    {
        out.push(Json::uint(ids[i]));
        i = i + 1;
    }
    proof {
        json::lemma_json_views(out@);
        assert(json::json_views(out@) =~= Seq::new(
            ids@.len(),
            |i: int| JsonView::Number(json::number_from(ids@[i])),
        ));
    }
    Json::array(out)
}

impl ApiClient {
    pub closed spec fn spec_base(&self) -> Seq<char> {
        self.base@
    }

    pub closed spec fn spec_token(&self) -> Seq<char> {
        self.token@
    }

    /// The server under a URL, without the slashes at its end.
    pub fn new(server: &str, token: &str) -> (r: Self)
        ensures
            r.spec_base() == text::strip_back(server@, CharClass::Is('/')),
            r.spec_token() == token@,
    {
        let c = stripped_back(&chars_of(server), CharClass::Is('/'));
        ApiClient { base: text_of(&c), token: copy_text(token) }
    }

    pub fn server(&self) -> (r: &str)
        ensures
            r@ == self.spec_base(),
    {
        self.base.as_str()
    }

    pub fn token(&self) -> (r: &str)
        ensures
            r@ == self.spec_token(),
    {
        self.token.as_str()
    }

    fn url(&self, path: &str) -> (r: String)
        ensures
            r@ == self.spec_base() + path@,
    {
        let mut out = copy_text(self.base.as_str());
        out.append(path);
        out
    }

    fn get_json(&self, path: &str) -> (r: Request)
        ensures
            r.asks(self.spec_base(), path@),
    {
        Request { method: Method::Get, url: self.url(path), body: None }
    }

    fn send_json(&self, method: Method, path: &str, body: Json) -> (r: Request)
        ensures
            r.sends(method, self.spec_base(), path@, body@),
    {
        Request { method, url: self.url(path), body: Some(body) }
    }

    /// Asks for the contexts.
    pub fn list_contexts(&self) -> (r: Request)
        ensures
            r.asks(self.spec_base(), "/rest/v2/contexts"@),
    {
        self.get_json("/rest/v2/contexts")
    }

    /// Asks for a document of a context.
    pub fn get_document(&self, context_id: &str, doc_id: u64) -> (r: Request)
        ensures
            r.asks(
                self.spec_base(),
                context_path(context_id@, "/documents/"@ + text::decimal(doc_id as nat)),
            ),
    {
        let mut rest = copy_text("/documents/");
        rest.append(decimal_text(doc_id).as_str());
        self.get_json(under_context(context_id, rest.as_str()).as_str())
    }

    /// Puts new documents into a context.
    pub fn create_documents(&self, context_id: &str, docs: Vec<Json>) -> (r: Request)
        ensures
            r.sends(
                Method::Post,
                self.spec_base(),
                context_path(context_id@, "/documents"@),
                documents_body(json::json_views(docs@)),
            ),
    {
        self.send_json(
            Method::Post,
            under_context(context_id, "/documents").as_str(),
            Json::object().with("documents", Json::array(docs)),
        )
    }

    /// Updates documents, which carry their identifiers.
    pub fn update_documents(&self, context_id: &str, docs: Vec<Json>) -> (r: Request)
        ensures
            r.sends(
                Method::Put,
                self.spec_base(),
                context_path(context_id@, "/documents"@),
                documents_body(json::json_views(docs@)),
            ),
    {
        self.send_json(
            Method::Put,
            under_context(context_id, "/documents").as_str(),
            Json::object().with("documents", Json::array(docs)),
        )
    }

    /// Takes documents out of a context.
    pub fn remove_documents(&self, context_id: &str, ids: &[u64]) -> (r: Request)
        ensures
            r.sends(
                Method::Delete,
                self.spec_base(),
                context_path(context_id@, "/documents/remove"@),
                id_array(ids@),
            ),
    {
        self.send_json(
            Method::Delete,
            under_context(context_id, "/documents/remove").as_str(),
            id_values(ids),
        )
    }

    /// Destroys documents.
    pub fn delete_documents(&self, context_id: &str, ids: &[u64]) -> (r: Request)
        ensures
            r.sends(
                Method::Delete,
                self.spec_base(),
                context_path(context_id@, "/documents"@),
                id_array(ids@),
            ),
    {
        self.send_json(
            Method::Delete,
            under_context(context_id, "/documents").as_str(),
            id_values(ids),
        )
    }

    /// Asks whether the server is there.
    pub fn ping(&self) -> (r: Request)
        ensures
            r.asks(self.spec_base(), "/rest/v2/ping"@),
    {
        self.get_json("/rest/v2/ping")
    }

    /// Asks for a context.
    pub fn get_context(&self, context_id: &str) -> (r: Request)
        ensures
            r.asks(self.spec_base(), context_path(context_id@, Seq::empty())),
    {
        let path = under_context(context_id, "");
        proof {
            reveal_strlit("");
            assert(""@ =~= Seq::empty());
        }
        self.get_json(path.as_str())
    }

    /// Asks for the content of a blob.
    pub fn fetch_content(&self, workspace_id: &str, doc_id: u64) -> (r: Request)
        ensures
            r.asks(
                self.spec_base(),
                "/rest/v2/workspaces/"@ + workspace_id@ + "/documents/"@ + text::decimal(
                    doc_id as nat,
                ) + "/content"@,
            ),
    {
        let mut path = copy_text("/rest/v2/workspaces/");
        path.append(workspace_id);
        path.append("/documents/");
        path.append(decimal_text(doc_id).as_str());
        path.append("/content");
        self.get_json(path.as_str())
    }

    /// Asks for the documents of a context from an offset on.
    pub fn list_documents(&self, context_id: &str, offset: u64) -> (r: Request)
        ensures
            r.asks(
                self.spec_base(),
                context_path(context_id@, "/documents?"@ + page_query(offset)),
            ),
    {
        let mut rest = copy_text("/documents?");
        rest.append(page(offset).as_str());
        self.get_json(under_context(context_id, rest.as_str()).as_str())
    }

    /// Asks for a workspace by name or identifier.
    pub fn get_workspace(&self, name_or_id: &str) -> (r: Request)
        ensures
            r.asks(self.spec_base(), workspace_path(name_or_id@, Seq::empty())),
    {
        let path = under_workspace(name_or_id, "");
        proof {
            reveal_strlit("");
            assert(""@ =~= Seq::empty());
        }
        self.get_json(path.as_str())
    }

    /// Asks for the trees of a workspace.
    pub fn list_trees(&self, ws: &str) -> (r: Request)
        ensures
            r.asks(self.spec_base(), workspace_path(ws@, "/trees"@)),
    {
        self.get_json(under_workspace(ws, "/trees").as_str())
    }

    /// Asks for the paths of a tree.
    pub fn list_tree_paths(&self, ws: &str, tree: &str) -> (r: Request)
        ensures
            r.asks(
                self.spec_base(),
                workspace_path(ws@, "/trees/"@ + segment(tree@) + "/paths"@),
            ),
    {
        let mut rest = copy_text("/trees/");
        rest.append(encode_segment(tree).as_str());
        rest.append("/paths");
        self.get_json(under_workspace(ws, rest.as_str()).as_str())
    }

    /// Asks for the documents at a path of a tree from an offset on.
    pub fn list_tree_documents(
        &self,
        ws: &str,
        tree: &str,
        tree_type: &str,
        path: &str,
        offset: u64,
    ) -> (r: Request)
        ensures
            r.asks(
                self.spec_base(),
                workspace_path(
                    ws@,
                    "/documents?"@ + tree_query(tree@, tree_type@, path@) + "&"@ + page_query(
                        offset,
                    ),
                ),
            ),
    {
        let mut rest = copy_text("/documents?");
        rest.append(place(tree, tree_type, path).as_str());
        rest.append("&");
        rest.append(page(offset).as_str());
        self.get_json(under_workspace(ws, rest.as_str()).as_str())
    }

    /// Makes a path in a tree.
    pub fn insert_tree_path(&self, ws: &str, tree: &str, path: &str) -> (r: Request)
        ensures
            r.sends(
                Method::Put,
                self.spec_base(),
                node_path(ws@, tree@, path@),
                no_members(),
            ),
    {
        self.send_json(Method::Put, node(ws, tree, path).as_str(), Json::object())
    }

    /// Removes a path from a tree.
    pub fn remove_tree_path(&self, ws: &str, tree: &str, path: &str, recursive: bool) -> (r: Request)
        ensures
            r.sends(
                Method::Delete,
                self.spec_base(),
                node_path(ws@, tree@, path@) + "?recursive="@ + (if recursive {
                    "true"@
                } else {
                    "false"@
                }),
                JsonView::Null,
            ),
    {
        let mut p = node(ws, tree, path);
        p.append("?recursive=");
        p.append(
            if recursive {
                "true"
            } else {
                "false"
            },
        );
        self.send_json(Method::Delete, p.as_str(), Json::Null)
    }

    /// Moves a path within a tree.
    pub fn move_tree_path(&self, ws: &str, tree: &str, from: &str, to: &str) -> (r: Request)
        ensures
            r.sends(
                Method::Patch,
                self.spec_base(),
                node_path(ws@, tree@, from@),
                no_members().with_member("to"@, JsonView::Text(to@)).with_member(
                    "recursive"@,
                    JsonView::Bool(true),
                ),
            ),
    {
        self.send_json(
            Method::Patch,
            node(ws, tree, from).as_str(),
            Json::object().with("to", Json::text(to)).with("recursive", Json::Bool(true)),
        )
    }

    /// Puts a document at a path of a tree.
    pub fn put_tree_document(
        &self,
        ws: &str,
        tree: &str,
        tree_type: &str,
        path: &str,
        doc: Json,
    ) -> (r: Request)
        ensures
            r.sends(
                Method::Post,
                self.spec_base(),
                workspace_path(ws@, "/documents"@),
                tree_body(seq![doc@], tree@, tree_type@, path@),
            ),
    {
        let mut docs: Vec<Json> = Vec::new();
        let ghost d = doc@;
        docs.push(doc);
        proof {
            json::lemma_json_views(docs@);
            assert(json::json_views(docs@) =~= seq![d]);
        }
        self.send_json(
            Method::Post,
            under_workspace(ws, "/documents").as_str(),
            placed(docs, tree, tree_type, path),
        )
    }

    /// Updates documents of a workspace, which carry their identifiers.
    pub fn update_workspace_documents(
        &self,
        ws: &str,
        tree: &str,
        tree_type: &str,
        path: &str,
        docs: Vec<Json>,
    ) -> (r: Request)
        ensures
            r.sends(
                Method::Put,
                self.spec_base(),
                workspace_path(ws@, "/documents"@),
                tree_body(json::json_views(docs@), tree@, tree_type@, path@),
            ),
    {
        self.send_json(
            Method::Put,
            under_workspace(ws, "/documents").as_str(),
            placed(docs, tree, tree_type, path),
        )
    }

    /// Asks for a document of a workspace.
    pub fn get_workspace_document(&self, ws: &str, doc_id: u64) -> (r: Request)
        ensures
            r.asks(
                self.spec_base(),
                workspace_path(ws@, "/documents/"@ + text::decimal(doc_id as nat)),
            ),
    {
        let mut rest = copy_text("/documents/");
        rest.append(decimal_text(doc_id).as_str());
        self.get_json(under_workspace(ws, rest.as_str()).as_str())
    }

    /// Takes documents out of a path of a tree.
    pub fn remove_tree_document(
        &self,
        ws: &str,
        tree: &str,
        tree_type: &str,
        path: &str,
        ids: &[u64],
    ) -> (r: Request)
        ensures
            r.sends(
                Method::Delete,
                self.spec_base(),
                workspace_path(
                    ws@,
                    "/documents/remove?"@ + tree_query(tree@, tree_type@, path@),
                ),
                id_array(ids@),
            ),
    {
        let mut rest = copy_text("/documents/remove?");
        rest.append(place(tree, tree_type, path).as_str());
        self.send_json(
            Method::Delete,
            under_workspace(ws, rest.as_str()).as_str(),
            id_values(ids),
        )
    }
}

fn under_context(ctx: &str, rest: &str) -> (r: String)
    ensures
        r@ == context_path(ctx@, rest@),
{
    let mut out = copy_text("/rest/v2/contexts/");
    out.append(ctx);
    out.append(rest);
    out
}

fn under_workspace(ws: &str, rest: &str) -> (r: String)
    ensures
        r@ == workspace_path(ws@, rest@),
{
    let mut out = copy_text("/rest/v2/workspaces/");
    out.append(encode_segment(ws).as_str());
    out.append(rest);
    out
}

fn page(offset: u64) -> (r: String)
    ensures
        r@ == page_query(offset),
{
    let mut out = copy_text("limit=");
    out.append(decimal_text(PAGE_SIZE as u64).as_str());
    out.append("&offset=");
    out.append(decimal_text(offset).as_str());
    out
}

fn place(tree: &str, tree_type: &str, path: &str) -> (r: String)
    ensures
        r@ == tree_query(tree@, tree_type@, path@),
{
    let mut out = copy_text("treeNameOrTreeId=");
    out.append(encode_segment(tree).as_str());
    out.append("&treeType=");
    out.append(encode_segment(tree_type).as_str());
    out.append("&context=");
    out.append(encode_component(path).as_str());
    out
}

fn node(ws: &str, tree: &str, path: &str) -> (r: String)
    ensures
        r@ == node_path(ws@, tree@, path@),
{
    let mut rest = copy_text("/trees/");
    rest.append(encode_segment(tree).as_str());
    rest.append("/path/");
    rest.append(encode_tree_path(path).as_str());
    under_workspace(ws, rest.as_str())
}

fn placed(docs: Vec<Json>, tree: &str, tree_type: &str, path: &str) -> (r: Json)
    ensures
        r@ == tree_body(json::json_views(docs@), tree@, tree_type@, path@),
{
    Json::object().with("documents", Json::array(docs)).with(
        "treeNameOrTreeId",
        Json::text(tree),
    ).with("treeType", Json::text(tree_type)).with("context", Json::text(path))
}

// ── answers ──────────────────────────────────────────────────────────────────

/// What an answer carries, or nothing.
pub open spec fn payload_of(body: JsonView) -> JsonView {
    match body.member("payload"@) {
        Some(p) => p,
        None => JsonView::Null,
    }
}

/// The items that an answer carries.
pub open spec fn payload_items(body: JsonView) -> Seq<JsonView> {
    match body.member_items("payload"@) {
        Some(s) => s,
        None => Seq::empty(),
    }
}

/// A member of an object, or the object itself where it has no such member.
pub open spec fn unwrapped(v: JsonView, key: Seq<char>) -> JsonView {
    match v.member(key) {
        Some(w) => w,
        None => v,
    }
}

/// The text of a member, or another text.
pub open spec fn text_or(v: JsonView, key: Seq<char>, other: Seq<char>) -> Seq<char> {
    match v.member_text(key) {
        Some(s) => s,
        None => other,
    }
}

/// A context that an answer tells of, under a given identifier where it has none.
pub open spec fn context_in(ctx: JsonView, id: Seq<char>) -> ContextView {
    ContextView {
        id: text_or(ctx, "id"@, id),
        url: text_or(ctx, "url"@, "/"@),
        workspace_id: ctx.member_text("workspaceId"@),
        raw: ctx,
    }
}

/// The contexts that a list tells of; what has no identifier is none.
pub open spec fn contexts_in(items: Seq<JsonView>) -> Seq<ContextView>
    decreases items.len(),
{
    if items.len() == 0 {
        Seq::empty()
    } else {
        let s = contexts_in(items.drop_last());
        match items.last().member_text("id"@) {
            Some(id) => s.push(context_in(items.last(), id)),
            None => s,
        }
    }
}

/// A tree that an answer tells of, under a given name.
pub open spec fn tree_in(t: JsonView, name: Seq<char>) -> TreeInfoView {
    TreeInfoView {
        id: text_or(t, "id"@, name),
        name,
        tree_type: text_or(t, "type"@, "context"@),
    }
}

/// The trees that a list tells of; what has no name is none.
pub open spec fn trees_in(items: Seq<JsonView>) -> Seq<TreeInfoView>
    decreases items.len(),
{
    if items.len() == 0 {
        Seq::empty()
    } else {
        let s = trees_in(items.drop_last());
        match items.last().member_text("name"@) {
            Some(name) => s.push(tree_in(items.last(), name)),
            None => s,
        }
    }
}

/// The texts of a list.
pub open spec fn texts_in(items: Seq<JsonView>) -> Seq<Seq<char>>
    decreases items.len(),
{
    if items.len() == 0 {
        Seq::empty()
    } else {
        let s = texts_in(items.drop_last());
        match items.last().text() {
            Some(t) => s.push(t),
            None => s,
        }
    }
}

/// The identifier of an entry: its member, or the entry itself, whichever is asked for first.
pub open spec fn entry_id(e: JsonView, member_first: bool) -> Option<u64> {
    let inner = e.member_uint("id"@);
    let own = e.uint();
    if member_first {
        if inner is Some {
            inner
        } else {
            own
        }
    } else {
        if own is Some {
            own
        } else {
            inner
        }
    }
}

/// The identifiers of a list.
pub open spec fn ids_in(items: Seq<JsonView>, member_first: bool) -> Seq<u64>
    decreases items.len(),
{
    if items.len() == 0 {
        Seq::empty()
    } else {
        let s = ids_in(items.drop_last(), member_first);
        match entry_id(items.last(), member_first) {
            Some(id) => s.push(id),
            None => s,
        }
    }
}

/// The documents that a write made or changed.
pub open spec fn result_ids(body: JsonView) -> Seq<u64> {
    match body.member("payload"@) {
        Some(p) => match p.member_items("successful"@) {
            Some(s) => ids_in(s, true),
            None => match p.items() {
                Some(s) => ids_in(s, false),
                None => Seq::empty(),
            },
        },
        None => Seq::empty(),
    }
}

/// The documents that an answer carries, in any of the forms in which servers send them.
pub open spec fn documents_in(body: JsonView) -> Seq<JsonView> {
    match body.member("payload"@) {
        Some(p) => match p.items() {
            Some(s) => s,
            None => match p.member_items("data"@) {
                Some(s) => s,
                None => match p.member_items("documents"@) {
                    Some(s) => s,
                    None => Seq::empty(),
                },
            },
        },
        None => Seq::empty(),
    }
}

/// The places where a document's content is stored.
pub open spec fn urls_in(items: Seq<JsonView>) -> Seq<Seq<char>>
    decreases items.len(),
{
    if items.len() == 0 {
        Seq::empty()
    } else {
        let s = urls_in(items.drop_last());
        match items.last().member_text("url"@) {
            Some(u) => s.push(u),
            None => s,
        }
    }
}

/// When a document changed, or was made where it does not say; the epoch where it says neither.
pub open spec fn changed_at(doc: JsonView) -> SystemTime {
    let when = match doc.member("updatedAt"@) {
        Some(v) => Some(v),
        None => doc.member("createdAt"@),
    };
    let parsed = match when {
        Some(v) => match v.text() {
            Some(s) => time::rfc3339_time(s),
            None => None,
        },
        None => None,
    };
    match parsed {
        Some(t) => t,
        None => time::epoch_plus(0),
    }
}

/// The first checksum of a document.
pub open spec fn first_checksum(doc: JsonView) -> Option<Seq<char>> {
    match doc.member_items("checksumArray"@) {
        Some(s) => if s.len() > 0 {
            s[0].text()
        } else {
            None
        },
        None => None,
    }
}

/// The document that an answer tells of; what has no identifier or no schema is none.
pub open spec fn document_in(doc: JsonView) -> Option<DocumentView> {
    match (doc.member_uint("id"@), doc.member_text("schema"@)) {
        (Some(id), Some(schema)) => Some(
            DocumentView {
                id,
                schema,
                data: match doc.member("data"@) {
                    Some(d) => d,
                    None => JsonView::Null,
                },
                updated_at: changed_at(doc),
                locations: match doc.member_items("locations"@) {
                    Some(s) => urls_in(s),
                    None => Seq::empty(),
                },
                size: match doc.member("metadata"@) {
                    Some(m) => m.member_uint("size"@),
                    None => None,
                },
                checksum: first_checksum(doc),
            },
        ),
        _ => None,
    }
}

/// The documents that a list tells of.
pub open spec fn parsed_documents(items: Seq<JsonView>) -> Seq<DocumentView>
    decreases items.len(),
{
    if items.len() == 0 {
        Seq::empty()
    } else {
        let s = parsed_documents(items.drop_last());
        match document_in(items.last()) {
            Some(d) => s.push(d),
            None => s,
        }
    }
}

fn copied_text(v: &Json, key: &str, other: &str) -> (r: String)
    ensures
        r@ == text_or(v@, key@, other@),
{
    match v.get_str(key) {
        Some(s) => copy_text(s.as_str()),
        None => copy_text(other),
    }
}

fn copied_option(v: &Json, key: &str) -> (r: Option<String>)
    ensures
        option_text(r) == v@.member_text(key@),
{
    match v.get_str(key) {
        Some(s) => Some(copy_text(s.as_str())),
        None => None,
    }
}

fn context_from(ctx: &Json, id: &str) -> (r: ContextInfo)
    ensures
        r@ == context_in(ctx@, id@),
{
    ContextInfo {
        id: copied_text(ctx, "id", id),
        url: copied_text(ctx, "url", "/"),
        workspace_id: copied_option(ctx, "workspaceId"),
        raw: ctx.copy(),
    }
}

/// Reads what an answer carries.
pub fn read_payload(body: &Json) -> (r: Json)
    ensures
        r@ == payload_of(body@),
{
    match body.get("payload") {
        Some(p) => p.copy(),
        None => Json::Null,
    }
}

/// Reads the contexts that an answer tells of.
pub fn read_contexts(body: &Json) -> (r: Vec<ContextInfo>)
    ensures
        context_views(r@) == contexts_in(payload_items(body@)),
{
    let mut out: Vec<ContextInfo> = Vec::new();
    assert(context_views(out@) =~= contexts_in(Seq::empty()));
    if let Some(v) = body.get_array("payload") {
        let ghost all = json::json_views(v@);
        proof {
            json::lemma_json_views(v@);
        }
        let n = v.len();
        let mut i: usize = 0;
        assert(all.take(0) =~= Seq::empty());
        while i < n
            invariant
                n == v@.len(),
                i <= n,
                all == json::json_views(v@),
                all.len() == n,
                context_views(out@) == contexts_in(all.take(i as int)),
            decreases n - i,
        {
            let ghost o = out@;
            proof {
                json::lemma_json_views(v@);
                assert(all.take(i + 1).drop_last() =~= all.take(i as int));
                assert(all.take(i + 1).last() == v@[i as int]@);
            }
            if let Some(id) = v[i].get_str("id") {
                let c = context_from(&v[i], id.as_str());
                out.push(c);
                assert(context_views(out@) =~= context_views(o).push(c@));
            }
            i = i + 1;
        }
        assert(all.take(n as int) =~= all);
    }
    out
}

/// Reads the context that an answer tells of, wrapped or not. A context without an identifier is
/// the one that was asked for.
pub fn read_context(body: &Json, context_id: &str) -> (r: ContextInfo)
    ensures
        r@ == context_in(unwrapped(payload_of(body@), "context"@), context_id@),
{
    let payload = read_payload(body);
    match payload.get("context") {
        Some(c) => context_from(c, context_id),
        None => context_from(&payload, context_id),
    }
}

/// The workspace that an answer tells of.
pub open spec fn workspace_in(ws: JsonView, name_or_id: Seq<char>) -> WorkspaceView {
    WorkspaceView {
        id: text_or(ws, "id"@, name_or_id),
        name: text_or(ws, "name"@, name_or_id),
    }
}

fn workspace_from(ws: &Json, name_or_id: &str) -> (r: WorkspaceInfo)
    ensures
        r@ == workspace_in(ws@, name_or_id@),
{
    WorkspaceInfo {
        id: copied_text(ws, "id", name_or_id),
        name: copied_text(ws, "name", name_or_id),
    }
}

/// Reads the workspace that an answer tells of, wrapped or not.
pub fn read_workspace(body: &Json, name_or_id: &str) -> (r: WorkspaceInfo)
    ensures
        r@ == workspace_in(unwrapped(payload_of(body@), "workspace"@), name_or_id@),
{
    let payload = read_payload(body);
    match payload.get("workspace") {
        Some(w) => workspace_from(w, name_or_id),
        None => workspace_from(&payload, name_or_id),
    }
}

/// Reads the trees that an answer tells of.
pub fn read_trees(body: &Json) -> (r: Vec<TreeInfo>)
    ensures
        tree_views(r@) == trees_in(payload_items(body@)),
{
    let mut out: Vec<TreeInfo> = Vec::new();
    assert(tree_views(out@) =~= trees_in(Seq::empty()));
    if let Some(v) = body.get_array("payload") {
        let ghost all = json::json_views(v@);
        proof {
            json::lemma_json_views(v@);
        }
        let n = v.len();
        let mut i: usize = 0;
        assert(all.take(0) =~= Seq::empty());
        while i < n
            invariant
                n == v@.len(),
                i <= n,
                all == json::json_views(v@),
                all.len() == n,
                tree_views(out@) == trees_in(all.take(i as int)),
            decreases n - i,
        {
            let ghost o = out@;
            proof {
                json::lemma_json_views(v@);
                assert(all.take(i + 1).drop_last() =~= all.take(i as int));
                assert(all.take(i + 1).last() == v@[i as int]@);
            }
            if let Some(name) = v[i].get_str("name") {
                let t = TreeInfo {
                    id: copied_text(&v[i], "id", name.as_str()),
                    name: copy_text(name.as_str()),
                    tree_type: copied_text(&v[i], "type", "context"),
                };
                out.push(t);
                assert(tree_views(out@) =~= tree_views(o).push(t@));
            }
            i = i + 1;
        }
        assert(all.take(n as int) =~= all);
    }
    out
}

/// Reads the paths that an answer tells of.
pub fn read_paths(body: &Json) -> (r: Vec<String>)
    ensures
        texts(r@) == texts_in(payload_items(body@)),
{
    let mut out: Vec<String> = Vec::new();
    assert(texts(out@) =~= texts_in(Seq::empty()));
    if let Some(v) = body.get_array("payload") {
        let ghost all = json::json_views(v@);
        proof {
            json::lemma_json_views(v@);
        }
        let n = v.len();
        let mut i: usize = 0;
        assert(all.take(0) =~= Seq::empty());
        while i < n
            invariant
                n == v@.len(),
                i <= n,
                all == json::json_views(v@),
                all.len() == n,
                texts(out@) == texts_in(all.take(i as int)),
            decreases n - i,
        {
            let ghost o = out@;
            proof {
                json::lemma_json_views(v@);
                assert(all.take(i + 1).drop_last() =~= all.take(i as int));
                assert(all.take(i + 1).last() == v@[i as int]@);
            }
            if let Some(t) = v[i].as_str() {
                out.push(copy_text(t.as_str()));
                assert(texts(out@) =~= texts(o).push(t@));
            }
            i = i + 1;
        }
        assert(all.take(n as int) =~= all);
    }
    out
}

fn ids_from(v: &Vec<Json>, member_first: bool) -> (r: Vec<u64>)
    ensures
        r@ == ids_in(json::json_views(v@), member_first),
{
    let ghost all = json::json_views(v@);
    proof {
        json::lemma_json_views(v@);
    }
    let mut out: Vec<u64> = Vec::new();
    let n = v.len();
    let mut i: usize = 0;
    assert(all.take(0) =~= Seq::empty());
    while i < n
        invariant
            n == v@.len(),
            i <= n,
            all == json::json_views(v@),
            all.len() == n,
            out@ == ids_in(all.take(i as int), member_first),
        decreases n - i,
    {
        proof {
            json::lemma_json_views(v@);
            assert(all.take(i + 1).drop_last() =~= all.take(i as int));
            assert(all.take(i + 1).last() == v@[i as int]@);
        }
        let inner = v[i].get_u64("id");
        let own = v[i].as_u64();
        let id = if member_first {
            if inner.is_some() {
                inner
            } else {
                own
            }
        } else {
            if own.is_some() {
                own
            } else {
                inner
            }
        };
        if let Some(x) = id {
            out.push(x);
        }
        i = i + 1;
    }
    assert(all.take(n as int) =~= all);
    out
}

/// Reads which documents a write made or changed.
pub fn extract_result_ids(body: &Json) -> (r: Vec<u64>)
    ensures
        r@ == result_ids(body@),
{
    match body.get("payload") {
        Some(p) => match p.get_array("successful") {
            Some(v) => ids_from(v, true),
            None => match p.as_array() {
                Some(v) => ids_from(v, false),
                None => Vec::new(),
            },
        },
        None => Vec::new(),
    }
}

fn urls_from(v: &Vec<Json>) -> (r: Vec<String>)
    ensures
        texts(r@) == urls_in(json::json_views(v@)),
{
    let ghost all = json::json_views(v@);
    proof {
        json::lemma_json_views(v@);
    }
    let mut out: Vec<String> = Vec::new();
    let n = v.len();
    let mut i: usize = 0;
    assert(all.take(0) =~= Seq::empty());
    assert(texts(out@) =~= urls_in(all.take(0)));
    while i < n
        invariant
            n == v@.len(),
            i <= n,
            all == json::json_views(v@),
            all.len() == n,
            texts(out@) == urls_in(all.take(i as int)),
        decreases n - i,
    {
        let ghost o = out@;
        proof {
            json::lemma_json_views(v@);
            assert(all.take(i + 1).drop_last() =~= all.take(i as int));
            assert(all.take(i + 1).last() == v@[i as int]@);
        }
        if let Some(u) = v[i].get_str("url") {
            out.push(copy_text(u.as_str()));
            assert(texts(out@) =~= texts(o).push(u@));
        }
        i = i + 1;
    }
    assert(all.take(n as int) =~= all);
    out
}

fn when_changed(doc: &Json) -> (r: SystemTime)
    ensures
        r == changed_at(doc@),
{
    let when = match doc.get("updatedAt") {
        Some(v) => Some(v),
        None => doc.get("createdAt"),
    };
    let parsed = match when {
        Some(v) => match v.as_str() {
            Some(s) => parse_rfc3339(s.as_str()),
            None => None,
        },
        None => None,
    };
    match parsed {
        Some(t) => t,
        None => unix_time(0),
    }
}

/// Reads the document that an answer tells of.
pub fn parse_document(doc: &Json) -> (r: Option<Document>)
    ensures
        (match r {
            Some(d) => document_in(doc@) == Some(d@),
            None => document_in(doc@) is None,
        }),
{
    let id = match doc.get_u64("id") {
        Some(i) => i,
        None => {
            return None;
        },
    };
    let schema = match doc.get_str("schema") {
        Some(s) => copy_text(s.as_str()),
        None => {
            return None;
        },
    };
    let data = match doc.get("data") {
        Some(d) => d.copy(),
        None => Json::Null,
    };
    let locations = match doc.get_array("locations") {
        Some(v) => urls_from(v),
        None => Vec::new(),
    };
    assert(doc@.member_items("locations"@) is None ==> texts(locations@) =~= Seq::empty());
    let size = match doc.get("metadata") {
        Some(m) => m.get_u64("size"),
        None => None,
    };
    let checksum = match doc.get_array("checksumArray") {
        Some(v) => {
            proof {
                json::lemma_json_views(v@);
            }
            if v.len() > 0 {
                match v[0].as_str() {
                    Some(s) => Some(copy_text(s.as_str())),
                    None => None,
                }
            } else {
                None
            }
        },
        None => None,
    };
    Some(
        Document { id, schema, data, updated_at: when_changed(doc), locations, size, checksum },
    )
}

fn documents_from(body: &Json) -> (r: Option<&Vec<Json>>)
    ensures
        documents_in(body@) == (match r {
            Some(v) => json::json_views(v@),
            None => Seq::empty(),
        }),
{
    match body.get("payload") {
        Some(p) => match p.as_array() {
            Some(v) => Some(v),
            None => match p.get_array("data") {
                Some(v) => Some(v),
                None => p.get_array("documents"),
            },
        },
        None => None,
    }
}

/// A listing that is being read page by page.
pub struct Listing {
    pub docs: Vec<Document>,
    /// Where the next page starts
    pub offset: u64,
    /// Whether the last page was read
    pub done: bool,
}

/// Whether a page is the last one: it is not full, or with it as many documents were read as the
/// server says that there are.
pub open spec fn is_last_page(body: JsonView, offset: nat) -> bool {
    let n = documents_in(body).len();
    let total = match body.member_uint("totalCount"@) {
        Some(t) => t,
        None => 0,
    };
    n < PAGE_SIZE || (total > 0 && offset + n >= total)
}

impl Listing {
    /// Nothing is read yet.
    pub fn new() -> (r: Self)
        ensures
            document_views(r.docs@) == Seq::<DocumentView>::empty(),
            r.offset == 0,
            !r.done,
    {
        let r = Listing { docs: Vec::new(), offset: 0, done: false };
        assert(document_views(r.docs@) =~= Seq::<DocumentView>::empty());
        r
    }

    /// Whether a page can be counted.
    pub fn can_take(&self, body: &Json) -> (r: bool)
        ensures
            r == (self.offset + documents_in(body@).len() <= u64::MAX),
    {
        let n: u64 = match documents_from(body) {
            Some(v) => {
                proof {
                    json::lemma_json_views(v@);
                }
                v.len() as u64
            },
            None => 0,
        };
        self.offset <= u64::MAX - n
    }

    /// Takes a page in.
    pub fn take_page(&mut self, body: &Json)
        requires
            old(self).offset + documents_in(body@).len() <= u64::MAX,
        ensures
            document_views(final(self).docs@) == document_views(old(self).docs@)
                + parsed_documents(documents_in(body@)),
            final(self).offset == old(self).offset + documents_in(body@).len(),
            final(self).done == is_last_page(body@, old(self).offset as nat),
    {
        let ghost d0 = document_views(self.docs@);
        let mut n: u64 = 0;
        match documents_from(body) {
            Some(v) => {
                let ghost all = json::json_views(v@);
                proof {
                    json::lemma_json_views(v@);
                }
                let m = v.len();
                n = m as u64;
                let mut i: usize = 0;
                assert(all.take(0) =~= Seq::empty());
                assert(d0 + parsed_documents(all.take(0)) =~= d0);
                while i < m
                    invariant
                        m == v@.len(),
                        i <= m,
                        all == json::json_views(v@),
                        all.len() == m,
                        document_views(self.docs@) == d0 + parsed_documents(all.take(i as int)),
                        self.offset == old(self).offset,
                    decreases m - i,
                {
                    let ghost o = document_views(self.docs@);
                    let ghost before = parsed_documents(all.take(i as int));
                    proof {
                        json::lemma_json_views(v@);
                        assert(all.take(i + 1).drop_last() =~= all.take(i as int));
                        assert(all.take(i + 1).last() == v@[i as int]@);
                    }
                    if let Some(d) = parse_document(&v[i]) {
                        let ghost dv = d@;
                        self.docs.push(d);
                        assert(document_views(self.docs@) =~= o.push(dv));
                        assert(o.push(dv) =~= d0 + before.push(dv));
                    }
                    i = i + 1;
                }
                assert(all.take(m as int) =~= all);
            },
            None => {
                assert(d0 + parsed_documents(Seq::empty()) =~= d0);
            },
        }
        let total = match body.get_u64("totalCount") {
            Some(t) => t,
            None => 0,
        };
        self.offset = self.offset + n;
        self.done = n < PAGE_SIZE as u64 || (total > 0 && self.offset >= total);
    }
}

/// A page of a list that stands still: as many items as a page takes, as far as there are any.
pub open spec fn page_of(items: Seq<JsonView>, offset: int) -> Seq<JsonView> {
    items.subrange(
        offset,
        if offset + PAGE_SIZE < items.len() {
            offset + PAGE_SIZE
        } else {
            items.len() as int
        },
    )
}

/// Where the server hands out the pages of one list, with or without its length, reading page by
/// page reads all of it: each page goes on where the one before ended, and the last page is the
/// one with which everything was read.
pub proof fn law_listings_read_everything(items: Seq<JsonView>, offset: nat, body: JsonView)
    requires
        offset <= items.len(),
        documents_in(body) == page_of(items, offset as int),
        (match body.member_uint("totalCount"@) {
            Some(n) => n == 0 || n == items.len(),
            None => true,
        }),
    ensures
        ({
            let end = offset + documents_in(body).len();
            &&& end <= items.len()
            &&& parsed_documents(items.take(offset as int)) + parsed_documents(documents_in(body))
                == parsed_documents(items.take(end as int))
            &&& is_last_page(body, offset) ==> end == items.len()
            &&& !is_last_page(body, offset) ==> end == offset + PAGE_SIZE
        }),
{
    let page = page_of(items, offset as int);
    let end = offset + page.len();
    lemma_parsed_documents(items.take(offset as int), page);
    assert(items.take(offset as int) + page =~= items.take(end as int));
}

proof fn lemma_parsed_documents(a: Seq<JsonView>, b: Seq<JsonView>)
    ensures
        parsed_documents(a + b) == parsed_documents(a) + parsed_documents(b),
    decreases b.len(),
{
    if b.len() == 0 {
        assert(a + b =~= a);
        assert(parsed_documents(a) + parsed_documents(b) =~= parsed_documents(a));
    } else {
        lemma_parsed_documents(a, b.drop_last());
        assert((a + b).drop_last() =~= a + b.drop_last());
        assert((a + b).last() == b.last());
        if let Some(d) = document_in(b.last()) {
            assert(parsed_documents(a) + parsed_documents(b.drop_last()).push(d) =~= (
            parsed_documents(a) + parsed_documents(b.drop_last())).push(d));
        }
    }
}

} // verus!
