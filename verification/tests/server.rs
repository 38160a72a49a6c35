use canvas_fuse::api::{
    check_answer, encode_component, encode_segment, encode_tree_path, extract_result_ids,
    parse_document, read_context, read_contexts, read_paths, read_payload, read_trees,
    read_workspace, ApiClient, Listing, Method, Request,
};
use canvas_fuse::json::{parse_json, Json};
use canvas_fuse::render::percent_decode;
use canvas_fuse::writes::removal_request;
use std::time::{Duration, SystemTime};

fn client() -> ApiClient {
    ApiClient::new("https://canvas.example///", "canvas-token")
}

fn get(r: &Request) -> &str {
    assert_eq!(r.method, Method::Get);
    assert!(r.body.is_none());
    r.url.strip_prefix("https://canvas.example").unwrap()
}

fn sent(r: &Request, method: Method) -> (&str, String) {
    assert_eq!(r.method, method);
    (
        r.url.strip_prefix("https://canvas.example").unwrap(),
        compact(r.body.as_ref().unwrap()),
    )
}

fn compact(j: &Json) -> String {
    let v: serde_json::Value = serde_json::from_slice(&j.pretty()).unwrap();
    v.to_string()
}

fn parse(s: &str) -> Json {
    parse_json(s).unwrap()
}

#[test]
fn texts_are_read_as_json() {
    let text = "{\"a\":[1,-2,null,true],\"b\":{\"c\":\"x\",\"d\":1.5},\"e\":{}}";
    let j = parse(text);
    assert_eq!(j.get_array("a").unwrap()[0].as_u64(), Some(1));
    assert_eq!(j.get_array("a").unwrap()[1].as_u64(), None);
    assert!(matches!(j.get_array("a").unwrap()[2], Json::Null));
    assert_eq!(j.get_array("a").unwrap()[3].as_bool(), Some(true));
    assert_eq!(j.get("b").unwrap().get_str("c").unwrap(), "x");
    // what was read says what was written
    assert_eq!(compact(&j), text);
    // of two members with one key the later counts
    assert_eq!(parse("{\"a\":1,\"a\":2}").get_u64("a"), Some(2));
    assert!(parse_json("{").is_none());
    assert!(parse_json("").is_none());
    assert!(parse_json("1 2").is_none());
}

#[test]
fn base_url_loses_its_slashes() {
    let c = client();
    assert_eq!(c.server(), "https://canvas.example");
    assert_eq!(c.token(), "canvas-token");
}

#[test]
fn requests_for_contexts() {
    let c = client();
    assert_eq!(get(&c.list_contexts()), "/rest/v2/contexts");
    assert_eq!(get(&c.ping()), "/rest/v2/ping");
    assert_eq!(get(&c.get_context("work")), "/rest/v2/contexts/work");
    assert_eq!(
        get(&c.get_document("work", 12)),
        "/rest/v2/contexts/work/documents/12"
    );
    assert_eq!(
        get(&c.list_documents("work", 1000)),
        "/rest/v2/contexts/work/documents?limit=500&offset=1000"
    );
    assert_eq!(
        get(&c.fetch_content("ws", 7)),
        "/rest/v2/workspaces/ws/documents/7/content"
    );
    assert_eq!(
        sent(
            &c.create_documents("work", vec![Json::object().with("a", Json::uint(1))]),
            Method::Post
        ),
        (
            "/rest/v2/contexts/work/documents",
            "{\"documents\":[{\"a\":1}]}".to_string()
        )
    );
    assert_eq!(
        sent(&c.update_documents("work", vec![Json::Null]), Method::Put),
        (
            "/rest/v2/contexts/work/documents",
            "{\"documents\":[null]}".to_string()
        )
    );
    assert_eq!(
        sent(&c.remove_documents("work", &[1, 2]), Method::Delete),
        (
            "/rest/v2/contexts/work/documents/remove",
            "[1,2]".to_string()
        )
    );
    assert_eq!(
        sent(&c.delete_documents("work", &[3]), Method::Delete),
        ("/rest/v2/contexts/work/documents", "[3]".to_string())
    );
}

#[test]
fn documents_are_destroyed_only_where_this_mount_made_them() {
    let c = client();
    assert_eq!(
        sent(&removal_request(&c, "work", 7, true), Method::Delete),
        ("/rest/v2/contexts/work/documents", "[7]".to_string())
    );
    assert_eq!(
        sent(&removal_request(&c, "work", 7, false), Method::Delete),
        ("/rest/v2/contexts/work/documents/remove", "[7]".to_string())
    );
}

#[test]
fn requests_for_trees() {
    let c = client();
    assert_eq!(
        get(&c.get_workspace("my ws")),
        "/rest/v2/workspaces/my%20ws"
    );
    assert_eq!(get(&c.list_trees("w")), "/rest/v2/workspaces/w/trees");
    assert_eq!(
        get(&c.list_tree_paths("w", "a/b")),
        "/rest/v2/workspaces/w/trees/a%2Fb/paths"
    );
    assert_eq!(
        get(&c.list_tree_documents("w", "t", "directory", "/a b", 0)),
        "/rest/v2/workspaces/w/documents?treeNameOrTreeId=t&treeType=directory&context=%2Fa%20b&limit=500&offset=0"
    );
    assert_eq!(
        sent(&c.insert_tree_path("w", "t", "/a/b c"), Method::Put),
        (
            "/rest/v2/workspaces/w/trees/t/path/a/b%20c",
            "{}".to_string()
        )
    );
    assert_eq!(
        sent(&c.remove_tree_path("w", "t", "/a", true), Method::Delete),
        (
            "/rest/v2/workspaces/w/trees/t/path/a?recursive=true",
            "null".to_string()
        )
    );
    assert_eq!(
        sent(&c.move_tree_path("w", "t", "/a", "/b"), Method::Patch),
        (
            "/rest/v2/workspaces/w/trees/t/path/a",
            "{\"recursive\":true,\"to\":\"/b\"}".to_string()
        )
    );
    assert_eq!(
        sent(
            &c.put_tree_document("w", "t", "directory", "/a", Json::uint(1)),
            Method::Post
        ),
        (
            "/rest/v2/workspaces/w/documents",
            "{\"context\":\"/a\",\"documents\":[1],\"treeNameOrTreeId\":\"t\",\"treeType\":\"directory\"}"
                .to_string()
        )
    );
    assert_eq!(
        sent(
            &c.update_workspace_documents("w", "t", "context", "/", vec![]),
            Method::Put
        ),
        (
            "/rest/v2/workspaces/w/documents",
            "{\"context\":\"/\",\"documents\":[],\"treeNameOrTreeId\":\"t\",\"treeType\":\"context\"}"
                .to_string()
        )
    );
    assert_eq!(
        get(&c.get_workspace_document("w", 3)),
        "/rest/v2/workspaces/w/documents/3"
    );
    assert_eq!(
        sent(
            &c.remove_tree_document("w", "t", "directory", "/x", &[9]),
            Method::Delete
        ),
        (
            "/rest/v2/workspaces/w/documents/remove?treeNameOrTreeId=t&treeType=directory&context=%2Fx",
            "[9]".to_string()
        )
    );
}

#[test]
fn segments_are_encoded_and_read_back() {
    assert_eq!(encode_segment("a-b_c.d~e"), "a-b_c.d~e");
    assert_eq!(encode_segment("ž/%?"), "%C5%BE%2F%25%3F");
    assert_eq!(encode_component("a&b=c"), "a%26b%3Dc");
    assert_eq!(encode_tree_path("/foo//b r/"), "foo/b%20r");
    assert_eq!(encode_tree_path("/"), "");
    for s in ["", "plain", "ž/%?", "100% \u{1F600}", "%41"] {
        assert_eq!(percent_decode(&encode_segment(s)), s);
    }
}

#[test]
fn failures_are_reported() {
    let r = client().list_contexts();
    assert!(check_answer(&r, true, "200 OK", &Json::Null).is_ok());
    assert_eq!(
        check_answer(
            &r,
            false,
            "401 Unauthorized",
            &parse("{\"message\":\"no token\"}")
        ),
        Err("GET https://canvas.example/rest/v2/contexts: HTTP 401 Unauthorized: no token".into())
    );
    assert_eq!(
        check_answer(
            &client().delete_documents("c", &[]),
            false,
            "500",
            &Json::Null
        ),
        Err("DELETE https://canvas.example/rest/v2/contexts/c/documents: HTTP 500: ?".into())
    );
}

#[test]
fn contexts_are_read() {
    let v = read_contexts(&parse(
        "{\"payload\":[{\"id\":\"a\",\"url\":\"/x\",\"workspaceId\":\"w\"},{\"url\":\"/y\"},{\"id\":\"b\"}]}",
    ));
    assert_eq!(v.len(), 2);
    assert_eq!((v[0].id.as_str(), v[0].url.as_str()), ("a", "/x"));
    assert_eq!(v[0].workspace_id.as_deref(), Some("w"));
    assert_eq!((v[1].id.as_str(), v[1].url.as_str()), ("b", "/"));
    assert_eq!(v[1].workspace_id, None);
    assert_eq!(compact(&v[1].raw), "{\"id\":\"b\"}");
    assert!(read_contexts(&parse("{\"payload\":{}}")).is_empty());
    assert!(read_contexts(&Json::Null).is_empty());

    let c = read_context(
        &parse("{\"payload\":{\"context\":{\"id\":\"z\",\"url\":\"/q\"}}}"),
        "asked",
    );
    assert_eq!((c.id.as_str(), c.url.as_str()), ("z", "/q"));
    let c = read_context(&parse("{\"payload\":{\"url\":\"/q\"}}"), "asked");
    assert_eq!((c.id.as_str(), c.url.as_str()), ("asked", "/q"));
    let c = read_context(&Json::Null, "asked");
    assert_eq!((c.id.as_str(), c.url.as_str()), ("asked", "/"));
    assert_eq!(compact(&read_payload(&parse("{\"payload\":[1]}"))), "[1]");
    assert_eq!(compact(&read_payload(&Json::Null)), "null");
}

#[test]
fn workspaces_and_trees_are_read() {
    let w = read_workspace(
        &parse("{\"payload\":{\"workspace\":{\"id\":\"i\",\"name\":\"n\"}}}"),
        "x",
    );
    assert_eq!((w.id.as_str(), w.name.as_str()), ("i", "n"));
    let w = read_workspace(&parse("{\"payload\":{\"id\":\"i\"}}"), "x");
    assert_eq!((w.id.as_str(), w.name.as_str()), ("i", "x"));
    let t = read_trees(&parse(
        "{\"payload\":[{\"name\":\"t\",\"id\":\"1\",\"type\":\"directory\"},{\"id\":\"2\"},{\"name\":\"u\"}]}",
    ));
    assert_eq!(t.len(), 2);
    assert_eq!(
        (t[0].id.as_str(), t[0].name.as_str(), t[0].tree_type.as_str()),
        ("1", "t", "directory")
    );
    assert_eq!(
        (t[1].id.as_str(), t[1].name.as_str(), t[1].tree_type.as_str()),
        ("u", "u", "context")
    );
    assert_eq!(
        read_paths(&parse("{\"payload\":[\"/\",3,\"/a\"]}")),
        vec!["/", "/a"]
    );
}

#[test]
fn result_identifiers_are_read_in_any_form() {
    let ids = |s: &str| extract_result_ids(&parse(s));
    assert_eq!(
        ids("{\"payload\":{\"successful\":[{\"index\":0,\"id\":5},6,{\"x\":1}]}}"),
        vec![5, 6]
    );
    assert_eq!(ids("{\"payload\":[7,{\"id\":8},\"9\",-1]}"), vec![7, 8]);
    assert!(ids("{\"payload\":{}}").is_empty());
    assert!(ids("{}").is_empty());
}

#[test]
fn documents_are_read() {
    let d = parse_document(&parse(
        "{\"id\":3,\"schema\":\"data/abstraction/file\",\"data\":{\"a\":1},\
         \"updatedAt\":\"1970-01-01T00:01:40+00:00\",\
         \"locations\":[{\"url\":\"file://x/y\"},{\"path\":1},{\"url\":\"s://z\"}],\
         \"metadata\":{\"size\":9},\"checksumArray\":[\"sha/1\",\"sha/2\"]}",
    ))
    .unwrap();
    assert_eq!(d.id, 3);
    assert_eq!(d.schema, "data/abstraction/file");
    assert_eq!(compact(&d.data), "{\"a\":1}");
    assert_eq!(
        d.updated_at,
        SystemTime::UNIX_EPOCH + Duration::from_secs(100)
    );
    assert_eq!(d.locations, vec!["file://x/y", "s://z"]);
    assert_eq!(d.size, Some(9));
    assert_eq!(d.checksum.as_deref(), Some("sha/1"));

    let bare = parse_document(&parse("{\"id\":1,\"schema\":\"s\"}")).unwrap();
    assert_eq!(compact(&bare.data), "null");
    assert_eq!(bare.updated_at, SystemTime::UNIX_EPOCH);
    assert!(bare.locations.is_empty());
    assert_eq!((bare.size, bare.checksum), (None, None));

    let made = parse_document(&parse(
        "{\"id\":1,\"schema\":\"s\",\"createdAt\":\"1970-01-01T01:00:05+01:00\"}",
    ))
    .unwrap();
    assert_eq!(
        made.updated_at,
        SystemTime::UNIX_EPOCH + Duration::from_secs(5)
    );
    let odd = parse_document(&parse(
        "{\"id\":1,\"schema\":\"s\",\"updatedAt\":7,\"createdAt\":\"1970-01-01T01:00:05Z\"}",
    ))
    .unwrap();
    assert_eq!(odd.updated_at, SystemTime::UNIX_EPOCH);

    assert!(parse_document(&parse("{\"schema\":\"s\"}")).is_none());
    assert!(parse_document(&parse("{\"id\":1}")).is_none());
    assert!(parse_document(&parse("{\"id\":-1,\"schema\":\"s\"}")).is_none());
}

fn page(n: usize, total: Option<u64>) -> Json {
    let docs = (0..n as u64)
        .map(|i| {
            Json::object()
                .with("id", Json::uint(i))
                .with("schema", Json::text("s"))
        })
        .collect();
    let body = Json::object().with("payload", Json::array(docs));
    match total {
        Some(t) => body.with("totalCount", Json::uint(t)),
        None => body,
    }
}

#[test]
fn listings_are_read_page_by_page() {
    let mut l = Listing::new();
    assert!(!l.done && l.offset == 0 && l.can_take(&page(500, None)));
    l.take_page(&page(500, None));
    assert!(!l.done);
    assert_eq!(l.offset, 500);
    l.take_page(&page(3, None));
    assert!(l.done);
    assert_eq!((l.offset, l.docs.len()), (503, 503));

    let mut exact = Listing::new();
    exact.take_page(&page(500, Some(500)));
    assert!(exact.done);
    let mut more = Listing::new();
    more.take_page(&page(500, Some(501)));
    assert!(!more.done);
    let mut empty = Listing::new();
    empty.take_page(&Json::Null);
    assert!(empty.done && empty.docs.is_empty());
}

#[test]
fn wrapped_listings_are_read() {
    for s in [
        "{\"payload\":[{\"id\":1,\"schema\":\"s\"}]}",
        "{\"payload\":{\"data\":[{\"id\":1,\"schema\":\"s\"}]}}",
        "{\"payload\":{\"documents\":[{\"id\":1,\"schema\":\"s\"},{\"id\":2}]}}",
    ] {
        let mut l = Listing::new();
        l.take_page(&parse(s));
        assert_eq!(l.docs.len(), 1);
    }
}

#[test]
fn json_values_are_written_in_order_of_their_keys() {
    let j = Json::object()
        .with("b", Json::uint(2))
        .with("a", Json::array(vec![Json::Bool(true), Json::Null]))
        .with("b", Json::text("two"));
    assert_eq!(compact(&j), "{\"a\":[true,null],\"b\":\"two\"}");
    assert_eq!(j.get_str("b").unwrap(), "two");
    assert_eq!(j.get_array("a").unwrap().len(), 2);
    assert_eq!(j.get_u64("a"), None);
    assert_eq!(Json::uint(u64::MAX).as_u64(), Some(u64::MAX));
    assert_eq!(Json::Bool(true).as_bool(), Some(true));
    let mut k = j.copy();
    k.unset("a");
    k.set("c", Json::Null);
    assert_eq!(compact(&k), "{\"b\":\"two\",\"c\":null}");
}

#[test]
fn the_last_member_with_a_key_is_written() {
    let j = Json::Object(vec![
        ("a".to_string(), Json::uint(1)),
        ("b".to_string(), Json::uint(2)),
        ("a".to_string(), Json::Object(vec![
            ("x".to_string(), Json::Null),
            ("x".to_string(), Json::Bool(false)),
        ])),
        ("b".to_string(), Json::uint(3)),
        ("b".to_string(), Json::uint(4)),
    ]);
    assert_eq!(compact(&j), "{\"a\":{\"x\":false},\"b\":4}");
    assert_eq!(compact(&Json::Object(Vec::new())), "{}");
}
