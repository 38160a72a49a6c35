use canvas_fuse::api::Document;
use canvas_fuse::json::Json;
use canvas_fuse::render::{
    flat, host_of, location_basename, percent_decode, render, sanitize_filename, short_schema,
    slug, with_id_suffix, Content, SCHEMA_DIRS,
};
use std::time::SystemTime;

fn doc(id: u64, schema: &str, data: Json) -> Document {
    Document {
        id,
        schema: schema.to_string(),
        data,
        updated_at: SystemTime::UNIX_EPOCH,
        locations: Vec::new(),
        size: None,
        checksum: None,
    }
}

fn inline(c: &Content) -> String {
    match c {
        Content::Inline(b) => String::from_utf8(b.clone()).unwrap(),
        Content::Remote { .. } => panic!("remote content"),
    }
}

#[test]
fn slug_maps_separators_and_drops_the_rest() {
    assert_eq!(slug("Jira ticket"), "Jira-ticket");
    assert_eq!(slug("  a / b : c | d "), "a-b-c-d");
    assert_eq!(slug("what?! *really*"), "what-really");
    assert_eq!(slug("Über größe 3"), "Über-größe-3");
    assert_eq!(slug("..hidden.."), "hidden");
    assert_eq!(slug("???"), "untitled");
    assert_eq!(slug(""), "untitled");
    assert_eq!(slug("(a) [b]_c"), "(a)-[b]_c");
}

#[test]
fn slug_is_cut_at_eighty_characters() {
    let long = "x".repeat(100);
    assert_eq!(slug(&long), "x".repeat(80));
    let dashed = format!("{} tail", "y".repeat(79));
    assert_eq!(slug(&dashed), "y".repeat(79));
}

#[test]
fn suffix_goes_before_the_extension() {
    assert_eq!(with_id_suffix("notes.md", 123), "notes.123.md");
    assert_eq!(with_id_suffix("archive.tar.gz", 7), "archive.tar.7.gz");
    assert_eq!(with_id_suffix("plain", 0), "plain.0");
}

#[test]
fn locations_name_files() {
    assert_eq!(
        location_basename("file://{WORKSPACE_ROOT}/a/b%20c.txt?x=1#y").as_deref(),
        Some("b c.txt")
    );
    assert_eq!(location_basename("stored://backend/"), None);
    assert_eq!(location_basename("no scheme"), None);
    assert_eq!(location_basename("s3://key").as_deref(), Some("key"));
}

#[test]
fn percent_escapes_are_decoded_and_broken_ones_stay() {
    assert_eq!(percent_decode("%C3%A9t%C3%a9"), "été");
    assert_eq!(percent_decode("100%"), "100%");
    assert_eq!(percent_decode("%4"), "%4");
    assert_eq!(percent_decode("%zz%41"), "%zzA");
    assert_eq!(percent_decode("a%41"), "aA");
    assert_eq!(percent_decode("%FF"), "\u{FFFD}");
}

#[test]
fn real_names_lose_separators_and_outer_dots() {
    assert_eq!(sanitize_filename(" ..a/b\\c.txt. "), "abc.txt");
    assert_eq!(sanitize_filename("../.."), "unnamed");
    assert_eq!(sanitize_filename("Q2 Report.pdf"), "Q2 Report.pdf");
}

#[test]
fn hosts_and_schemas() {
    assert_eq!(host_of("https://a.b/c?d").as_deref(), Some("a.b"));
    assert_eq!(host_of("https://?x"), None);
    assert_eq!(host_of("nothing"), None);
    assert_eq!(short_schema("data/abstraction/contact"), "contact");
    assert_eq!(short_schema("plain"), "plain");
}

#[test]
fn tabs_and_links_become_shortcuts() {
    let t = render(&doc(
        4,
        "data/abstraction/tab",
        Json::object().with("url", Json::text("https://docs.rs/x")),
    ));
    assert_eq!(t.dir, "Tabs");
    assert_eq!(t.base_name, "docs.rs.url");
    assert_eq!(
        inline(&t.content),
        "[InternetShortcut]\r\nURL=https://docs.rs/x\r\n"
    );
    let l = render(&doc(5, "data/abstraction/link", Json::object()));
    assert_eq!(l.dir, "Links");
    assert_eq!(l.base_name, "tab-5.url");
    assert_eq!(inline(&l.content), "[InternetShortcut]\r\nURL=about:blank\r\n");
}

#[test]
fn notes_end_with_a_line_feed() {
    let n = render(&doc(
        1,
        "data/abstraction/note",
        Json::object().with("content", Json::text("body")),
    ));
    assert_eq!((n.dir, n.base_name.as_str()), ("Notes", "note-1.md"));
    assert_eq!(inline(&n.content), "body\n");
    let blank = render(&doc(
        1,
        "data/abstraction/note",
        Json::object().with("content", Json::text("  \n")),
    ));
    assert_eq!(inline(&blank.content), "");
}

#[test]
fn todos_have_a_box() {
    let t = render(&doc(
        2,
        "data/abstraction/todo",
        Json::object()
            .with("title", Json::text("Ship MVP"))
            .with("completed", Json::Bool(true))
            .with("description", Json::text("soon")),
    ));
    assert_eq!((t.dir, t.base_name.as_str()), ("Todos", "Ship-MVP.md"));
    assert_eq!(inline(&t.content), "- [x] Ship MVP\n\nsoon\n");
    let open = render(&doc(
        3,
        "data/abstraction/todo",
        Json::object().with("done", Json::Bool(false)),
    ));
    assert_eq!(inline(&open.content), "- [ ] todo-3\n");
}

#[test]
fn files_are_blobs_or_stubs() {
    let mut d = doc(9, "data/abstraction/file", Json::object());
    d.size = Some(10);
    let f = render(&d);
    assert_eq!((f.dir, f.base_name.as_str()), ("Files", "file-9"));
    assert!(matches!(f.content, Content::Remote { size: 10 }));
    d.size = None;
    let stub = render(&d);
    assert_eq!(stub.base_name, "file-9.json");
    assert_eq!(inline(&stub.content), "{}");
}

#[test]
fn other_documents_are_pretty_json() {
    let e = render(&doc(
        6,
        "data/abstraction/email",
        Json::object().with("subject", Json::text("Hi there")),
    ));
    assert_eq!((e.dir, e.base_name.as_str()), ("Emails", "Hi-there.json"));
    assert_eq!(inline(&e.content), "{\n  \"subject\": \"Hi there\"\n}");
    let o = render(&doc(7, "data/abstraction/contact", Json::Null));
    assert_eq!((o.dir, o.base_name.as_str()), ("Other", "contact-7.json"));
    assert_eq!(inline(&o.content), "null");
}

#[test]
fn flat_names_prefer_the_saved_one() {
    let (name, _) = flat(&doc(
        1,
        "data/abstraction/note",
        Json::object()
            .with("filename", Json::text(" my/notes.md "))
            .with("title", Json::text("T")),
    ));
    assert_eq!(name, "mynotes.md");
    let (name, _) = flat(&doc(
        1,
        "data/abstraction/note",
        Json::object().with("title", Json::text("T")),
    ));
    assert_eq!(name, "T.md");
}

#[test]
fn there_are_seven_directories() {
    assert_eq!(
        SCHEMA_DIRS,
        ["Tabs", "Notes", "Todos", "Files", "Emails", "Links", "Other"]
    );
}

#[test]
fn names_of_files_hold_no_separators() {
    for title in ["a/b", "..", "-x-", "\0", "日本 語", "a\\b"] {
        let s = slug(title);
        assert!(!s.is_empty() && s.chars().count() <= 80);
        assert!(!s.contains(['/', '\\', '\0']));
        assert!(!s.starts_with(['-', '.']) && !s.ends_with(['-', '.']));
        let k = sanitize_filename(title);
        assert!(!k.is_empty() && !k.contains(['/', '\\', '\0']));
        assert!(!k.starts_with('.') && !k.ends_with('.'));
    }
}

#[test]
fn the_slug_of_a_slug_is_itself() {
    for title in [
        "Meeting: notes / plans",
        "--a  --  b--",
        "\u{a0}x?\u{2003}y\u{a0}",
        "",
        "???",
        "..hidden.md..",
        "Übung 1 | zwei",
        &"long ".repeat(40),
    ] {
        let once = slug(title);
        assert_eq!(slug(&once), once);
    }
    assert_eq!(slug("?\u{a0}x"), "x");
}

#[test]
fn suffixes_are_put_on_until_a_name_is_free() {
    assert_eq!(with_id_suffix("X.1.md", 1), "X.1.1.md");
    assert_eq!(with_id_suffix("X", 1), "X.1");
}
