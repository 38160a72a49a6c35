use canvas_fuse::api::{ContextInfo, Document};
use canvas_fuse::json::Json;
use canvas_fuse::names::NameStore;
use canvas_fuse::state::{NodeContent, Tree, FIRST_OVERLAY_INO};
use canvas_fuse::writes::{
    build_new_document, build_update, can_update, created_id, FlushJob, RenameJob, UnlinkJob,
    WriteError, WriteStore, WRITABLE_DIRS,
};
use std::time::SystemTime;

struct Mount {
    tree: Tree,
    names: NameStore,
    writes: WriteStore,
    notes: u64,
    todos: u64,
    tabs: u64,
}

fn note(id: u64, title: &str, content: &str) -> Document {
    Document {
        id,
        schema: "data/abstraction/note".to_string(),
        data: Json::object()
            .with("title", Json::text(title))
            .with("content", Json::text(content)),
        updated_at: SystemTime::UNIX_EPOCH,
        locations: Vec::new(),
        size: None,
        checksum: None,
    }
}

fn mount(docs: &[Document]) -> Mount {
    let mut tree = Tree::new();
    let mut names = NameStore::new();
    tree.apply_contexts(&[ContextInfo {
        id: "work".to_string(),
        url: "/".to_string(),
        workspace_id: None,
        raw: Json::object(),
    }]);
    tree.apply_documents("work", docs, &mut names);
    let ctx = tree.context_ino("work").unwrap();
    let notes = tree.lookup(ctx, "Notes").unwrap().ino;
    let todos = tree.lookup(ctx, "Todos").unwrap().ino;
    let tabs = tree.lookup(ctx, "Tabs").unwrap().ino;
    Mount {
        tree,
        names,
        writes: WriteStore::new(),
        notes,
        todos,
        tabs,
    }
}

fn pretty(j: &Json) -> String {
    String::from_utf8(j.pretty()).unwrap()
}

#[test]
fn error_numbers() {
    assert_eq!(WriteError::NotPermitted.errno(), 13);
    assert_eq!(WriteError::NotFound.errno(), 2);
    assert_eq!(WriteError::Exists.errno(), 17);
    assert_eq!(WriteError::CrossDir.errno(), 18);
    assert_eq!(WriteError::Io("x".to_string()).errno(), 5);
    assert_eq!(WRITABLE_DIRS, ["Notes", "Todos"]);
}

#[test]
fn written_bytes_are_read_back() {
    let mut m = mount(&[note(1, "Plan", "hello")]);
    let ino = m.tree.lookup(m.notes, "Plan.md").unwrap().ino;
    assert!(m.writes.open_existing(&m.tree, ino, false).is_ok());
    assert_eq!(m.writes.size_override(ino), Some(6));
    assert_eq!(m.writes.write(ino, 2, b"LL").unwrap(), 2);
    assert_eq!(m.writes.read_buffer(ino, 0, 100).unwrap(), b"heLLo\n");
    assert_eq!(m.writes.read_buffer(ino, 2, 2).unwrap(), b"LL");
    // beyond the end: the gap is filled with zeros
    assert_eq!(m.writes.write(ino, 8, b"!").unwrap(), 1);
    assert_eq!(m.writes.read_buffer(ino, 4, 100).unwrap(), b"o\n\0\0!");
    // a negative offset is the start
    assert_eq!(m.writes.write(ino, -5, b"H").unwrap(), 1);
    assert_eq!(m.writes.read_buffer(ino, -1, 1).unwrap(), b"H");
    assert_eq!(m.writes.read_buffer(ino, 50, 1).unwrap(), b"");
    assert_eq!(m.writes.read_buffer(99, 0, 1), None);
    assert!(matches!(
        m.writes.write(99, 0, b"x"),
        Err(WriteError::NotPermitted)
    ));
}

#[test]
fn only_documents_in_writable_directories_open() {
    let tab = Document {
        schema: "data/abstraction/tab".to_string(),
        ..note(2, "T", "")
    };
    let mut m = mount(&[note(1, "Plan", "x"), tab]);
    let ctx = m.tree.context_ino("work").unwrap();
    let meta = m.tree.lookup(ctx, ".context.json").unwrap().ino;
    let tab_ino = m.tree.lookup(m.tabs, "T.url").unwrap().ino;
    assert!(matches!(
        m.writes.open_existing(&m.tree, 9999, false),
        Err(WriteError::NotFound)
    ));
    for ino in [meta, tab_ino, m.notes] {
        assert!(matches!(
            m.writes.open_existing(&m.tree, ino, false),
            Err(WriteError::NotPermitted)
        ));
    }
    assert!(matches!(
        m.writes.open_overlay(5, false),
        Err(WriteError::NotFound)
    ));
}

#[test]
fn handles_are_counted() {
    let mut m = mount(&[note(1, "Plan", "x")]);
    let ino = m.tree.lookup(m.notes, "Plan.md").unwrap().ino;
    m.writes.open_existing(&m.tree, ino, false).unwrap();
    m.writes.open_existing(&m.tree, ino, false).unwrap();
    m.writes.release(ino);
    assert!(m.writes.has_state(ino));
    m.writes.release(ino);
    assert!(!m.writes.has_state(ino));
    m.writes.release(ino);
    assert!(!m.writes.has_state(ino));
}

#[test]
fn update_keeps_what_the_file_does_not_carry() {
    let mut m = mount(&[note(1, "Plan", "v1")]);
    let ino = m.tree.lookup(m.notes, "Plan.md").unwrap().ino;
    m.writes.open_existing(&m.tree, ino, true).unwrap();
    m.writes.write(ino, 0, b"# New\n\nbody").unwrap();
    let job = m.writes.flush(ino);
    let (doc_id, dir, buffer) = match &job {
        FlushJob::Update {
            doc_id,
            dir,
            buffer,
            ctx,
        } => {
            assert_eq!(ctx, "work");
            (*doc_id, dir.clone(), buffer.clone())
        }
        _ => panic!("expected an update"),
    };
    let existing = Json::object()
        .with("schema", Json::text("data/abstraction/note"))
        .with(
            "data",
            Json::object()
                .with("title", Json::text("Plan"))
                .with("color", Json::text("red")),
        );
    assert!(can_update(&existing));
    let body = build_update(&existing, &dir, doc_id, &buffer);
    assert_eq!(
        pretty(&body),
        "{\n  \"data\": {\n    \"color\": \"red\",\n    \"content\": \"# New\\n\\nbody\",\n    \"title\": \"New\"\n  },\n  \"id\": 1,\n  \"schema\": \"data/abstraction/note\"\n}"
    );
    assert!(m
        .writes
        .finish_flush(&mut m.tree, &mut m.names, ino, job, Ok(1))
        .is_ok());
    match &m.tree.get(ino).unwrap().content {
        NodeContent::Inline(b) => assert_eq!(b.as_slice(), b"# New\n\nbody"),
        other => panic!("{other:?}"),
    }
    // nothing left to save
    assert!(matches!(m.writes.flush_final(ino), FlushJob::Done));
}

#[test]
fn documents_without_an_object_are_not_updated() {
    assert!(!can_update(&Json::object().with("data", Json::text("x"))));
    assert!(can_update(&Json::object().with("data", Json::Null)));
    assert!(can_update(&Json::Null));
    assert_eq!(
        pretty(&build_update(&Json::Null, "Notes", 4, b"x")),
        "{\n  \"data\": {\n    \"content\": \"x\"\n  },\n  \"id\": 4,\n  \"schema\": \"data/abstraction/note\"\n}"
    );
}

#[test]
fn failed_saves_keep_the_data() {
    let mut m = mount(&[note(1, "Plan", "v1")]);
    let ino = m.tree.lookup(m.notes, "Plan.md").unwrap().ino;
    m.writes.open_existing(&m.tree, ino, false).unwrap();
    m.writes.write(ino, 0, b"V").unwrap();
    let job = m.writes.flush(ino);
    let r = m.writes.finish_flush(
        &mut m.tree,
        &mut m.names,
        ino,
        job,
        Err(WriteError::Io("down".to_string())),
    );
    assert!(matches!(r, Err(WriteError::Io(e)) if e == "down"));
    assert!(matches!(m.writes.flush(ino), FlushJob::Update { .. }));
    assert_eq!(m.writes.read_buffer(ino, 0, 10).unwrap(), b"V1\n");
}

#[test]
fn created_files_are_adopted_on_their_first_save() {
    let mut m = mount(&[]);
    let e = m.writes.create(&m.tree, m.notes, "idea.md").unwrap();
    assert_eq!(e.ino, FIRST_OVERLAY_INO);
    assert_eq!((e.dir_ino, e.size), (m.notes, 0));
    assert!(m.tree.lookup(m.notes, "idea.md").is_none());
    assert_eq!(
        m.writes.lookup_overlay(m.notes, "idea.md").unwrap().ino,
        e.ino
    );
    assert_eq!(
        m.writes.overlay_entries(m.notes),
        vec![(e.ino, "idea.md".to_string())]
    );
    assert!(m.writes.overlay_entries(m.todos).is_empty());
    // an empty new file waits for the last flush
    assert!(matches!(m.writes.flush(e.ino), FlushJob::Done));
    m.writes.write(e.ino, 0, b"text").unwrap();
    assert_eq!(m.writes.overlay_attr(e.ino).unwrap().size, 4);
    let job = m.writes.flush(e.ino);
    match &job {
        FlushJob::Create {
            ctx,
            dir,
            name,
            buffer,
            dir_ino,
        } => {
            assert_eq!((ctx.as_str(), dir.as_str()), ("work", "Notes"));
            assert_eq!(*dir_ino, m.notes);
            assert_eq!(
                pretty(&build_new_document(dir, name, buffer)),
                "{\n  \"data\": {\n    \"content\": \"text\",\n    \"title\": \"idea\"\n  },\n  \"schema\": \"data/abstraction/note\"\n}"
            );
        }
        _ => panic!("expected a new document"),
    }
    let id = created_id(&vec![77, 78]).unwrap();
    m.writes
        .finish_flush(&mut m.tree, &mut m.names, e.ino, job, Ok(id))
        .unwrap();
    assert_eq!(m.tree.lookup(m.notes, "idea.md").unwrap().ino, e.ino);
    assert_eq!(m.tree.doc_for_ino(e.ino), Some(("work".to_string(), 77)));
    assert_eq!(m.tree.ino_for_doc("work", 77), Some(e.ino));
    assert_eq!(
        m.names.get("work", "Notes", 77).as_deref(),
        Some("idea.md")
    );
    assert!(m.writes.lookup_overlay(m.notes, "idea.md").is_none());
    m.writes.release(e.ino);
    // the refresh confirms it, under the same name and inode
    let inv = m
        .tree
        .apply_documents("work", &[note(77, "Something", "text")], &mut m.names);
    assert_eq!(m.tree.lookup(m.notes, "idea.md").unwrap().ino, e.ino);
    assert!(inv.removed.is_empty());
}

#[test]
fn creation_without_an_identifier_fails() {
    assert!(
        matches!(created_id(&Vec::new()), Err(WriteError::Io(e)) if e == "create returned no document id")
    );
}

#[test]
fn touched_files_are_saved_at_the_last_flush() {
    let mut m = mount(&[]);
    let e = m.writes.create(&m.tree, m.todos, "t.md").unwrap();
    assert!(matches!(
        m.writes.flush_final(e.ino),
        FlushJob::Create { .. }
    ));
}

#[test]
fn abandoned_files_vanish() {
    let mut m = mount(&[]);
    let e = m.writes.create(&m.tree, m.notes, "x.md").unwrap();
    m.writes.release(e.ino);
    assert!(m.writes.lookup_overlay(m.notes, "x.md").is_none());
    assert!(m.writes.overlay_attr(e.ino).is_none());
    assert!(m.writes.overlay_entries(m.notes).is_empty());
}

#[test]
fn creation_is_refused_where_it_cannot_be() {
    let mut m = mount(&[note(1, "Plan", "x")]);
    assert!(matches!(
        m.writes.create(&m.tree, m.tabs, "a"),
        Err(WriteError::NotPermitted)
    ));
    assert!(matches!(
        m.writes.create(&m.tree, m.notes, "Plan.md"),
        Err(WriteError::Exists)
    ));
    m.writes.create(&m.tree, m.notes, "new.md").unwrap();
    assert!(matches!(
        m.writes.create(&m.tree, m.notes, "new.md"),
        Err(WriteError::Exists)
    ));
}

#[test]
fn truncation_of_a_closed_file_is_saved_at_once() {
    let mut m = mount(&[note(1, "Plan", "abc")]);
    let ino = m.tree.lookup(m.notes, "Plan.md").unwrap().ino;
    assert!(m.writes.truncate(&m.tree, ino, 2).unwrap());
    match m.writes.flush(ino) {
        FlushJob::Update { buffer, .. } => assert_eq!(buffer, b"ab"),
        _ => panic!("expected an update"),
    }
    m.writes.release(ino);
    assert!(!m.writes.has_state(ino));
    m.writes.open_existing(&m.tree, ino, false).unwrap();
    assert!(!m.writes.truncate(&m.tree, ino, 6).unwrap());
    assert_eq!(m.writes.read_buffer(ino, 0, 9).unwrap(), b"abc\n\0\0");
    assert!(matches!(
        m.writes.truncate(&m.tree, 12345, 0),
        Err(WriteError::NotFound)
    ));
}

#[test]
fn limits_hold_only_where_something_is_counted() {
    let mut m = mount(&[note(1, "Plan", "abc")]);
    let ino = m.tree.lookup(m.notes, "Plan.md").unwrap().ino;
    let ctx = m.tree.context_ino("work").unwrap();
    let meta = m.tree.lookup(ctx, ".context.json").unwrap().ino;
    // a size that no buffer can have is refused where the file cannot be written
    assert!(m.writes.can_truncate(&m.tree, meta, u64::MAX));
    assert!(matches!(
        m.writes.truncate(&m.tree, meta, u64::MAX),
        Err(WriteError::NotPermitted)
    ));
    assert!(m.writes.can_truncate(&m.tree, 12345, u64::MAX));
    assert!(matches!(
        m.writes.truncate(&m.tree, 12345, u64::MAX),
        Err(WriteError::NotFound)
    ));
    assert!(!m.writes.can_truncate(&m.tree, ino, u64::MAX));
    assert!(m.writes.can_truncate(&m.tree, ino, isize::MAX as u64));
    assert!(m.writes.can_create(&m.tree, m.notes, "new.md"));
    let e = m.writes.create(&m.tree, m.notes, "new.md").unwrap();
    assert!(!m.writes.can_truncate(&m.tree, e.ino, u64::MAX));
    assert!(m.writes.can_create(&m.tree, m.notes, "new.md"));
    assert!(m.writes.can_create(&m.tree, m.tabs, "new.md"));
    assert!(m.writes.can_open(ino) && m.writes.can_open_existing(&m.tree, ino));
    assert!(m.writes.can_open_existing(&m.tree, meta));
}

#[test]
fn removal_detaches_and_destroys_only_what_is_ours() {
    let mut m = mount(&[note(1, "Plan", "x")]);
    let ino = m.tree.lookup(m.notes, "Plan.md").unwrap().ino;
    match m.writes.unlink(&m.tree, m.notes, "Plan.md").unwrap() {
        UnlinkJob::Remove {
            ino: i,
            ctx,
            doc_id,
            own,
        } => {
            assert_eq!((i, ctx.as_str(), doc_id, own), (ino, "work", 1, false));
        }
        UnlinkJob::Done => panic!("expected a removal"),
    }
    assert!(m
        .writes
        .finish_unlink(&mut m.tree, ino, Err(WriteError::Io("no".to_string())))
        .is_err());
    assert!(m.tree.lookup(m.notes, "Plan.md").is_some());
    m.writes.finish_unlink(&mut m.tree, ino, Ok(())).unwrap();
    assert!(m.tree.lookup(m.notes, "Plan.md").is_none());
    assert_eq!(m.tree.doc_for_ino(ino), None);

    let e = m.writes.create(&m.tree, m.notes, "own.md").unwrap();
    m.writes.write(e.ino, 0, b"x").unwrap();
    let job = m.writes.flush(e.ino);
    m.writes
        .finish_flush(&mut m.tree, &mut m.names, e.ino, job, Ok(5))
        .unwrap();
    assert!(matches!(
        m.writes.unlink(&m.tree, m.notes, "own.md").unwrap(),
        UnlinkJob::Remove { own: true, .. }
    ));

    m.writes.create(&m.tree, m.notes, "tmp.md").unwrap();
    assert!(matches!(
        m.writes.unlink(&m.tree, m.notes, "tmp.md").unwrap(),
        UnlinkJob::Done
    ));
    assert!(m.writes.lookup_overlay(m.notes, "tmp.md").is_none());
    assert!(matches!(
        m.writes.unlink(&m.tree, m.notes, "tmp.md"),
        Err(WriteError::NotFound)
    ));
    assert!(matches!(
        m.writes.unlink(&m.tree, m.tabs, "a"),
        Err(WriteError::NotPermitted)
    ));
}

#[test]
fn renames_to_a_free_name_keep_the_document() {
    let mut m = mount(&[note(1, "Plan", "x")]);
    let ino = m.tree.lookup(m.notes, "Plan.md").unwrap().ino;
    assert!(matches!(
        m.writes.rename(&m.tree, m.notes, "Plan.md", m.todos, "b.md"),
        Err(WriteError::CrossDir)
    ));
    assert!(matches!(
        m.writes.rename(&m.tree, m.notes, "none.md", m.notes, "b.md"),
        Err(WriteError::NotFound)
    ));
    assert!(matches!(
        m.writes.rename(&m.tree, m.tabs, "a", m.tabs, "b"),
        Err(WriteError::NotPermitted)
    ));
    match m
        .writes
        .rename(&m.tree, m.notes, "Plan.md", m.notes, "b.md")
        .unwrap()
    {
        RenameJob::Name {
            ino: i,
            ctx,
            dir,
            doc_id,
        } => {
            assert_eq!((i, doc_id), (ino, 1));
            m.writes
                .finish_name(&mut m.tree, &mut m.names, i, &ctx, &dir, doc_id, "b.md");
        }
        _ => panic!("expected a naming"),
    }
    assert_eq!(m.tree.lookup(m.notes, "b.md").unwrap().ino, ino);
    assert!(m.tree.lookup(m.notes, "Plan.md").is_none());
    // the name sticks over a refresh
    m.tree
        .apply_documents("work", &[note(1, "Plan", "x")], &mut m.names);
    assert_eq!(m.tree.lookup(m.notes, "b.md").unwrap().ino, ino);
}

#[test]
fn renames_over_a_document_replace_its_content() {
    let mut m = mount(&[note(1, "Plan", "old"), note(2, "Tmp", "new")]);
    let src = m.tree.lookup(m.notes, "Tmp.md").unwrap().ino;
    let dst = m.tree.lookup(m.notes, "Plan.md").unwrap().ino;
    match m
        .writes
        .rename(&m.tree, m.notes, "Tmp.md", m.notes, "Plan.md")
        .unwrap()
    {
        RenameJob::Replace {
            src_ino,
            dst_ino,
            ctx,
            dir,
            src_doc,
            dst_doc,
            content,
            own,
        } => {
            assert_eq!((src_ino, dst_ino), (src, dst));
            assert_eq!((src_doc, dst_doc, own), (2, 1, false));
            assert_eq!(content, b"new\n");
            m.writes.finish_replace(
                &mut m.tree,
                src_ino,
                dst_ino,
                &ctx,
                &dir,
                src_doc,
                dst_doc,
                "Plan.md",
                content,
            );
        }
        _ => panic!("expected a replacement"),
    }
    let node = m.tree.lookup(m.notes, "Plan.md").unwrap();
    assert_eq!(node.ino, src);
    assert!(m.tree.lookup(m.notes, "Tmp.md").is_none());
    assert!(m.tree.get(dst).is_none());
    assert_eq!(m.tree.ino_for_doc("work", 1), Some(src));
    assert_eq!(m.tree.ino_for_doc("work", 2), None);
}

#[test]
fn renames_of_new_files_follow_their_handles() {
    let mut m = mount(&[note(1, "Plan", "old")]);
    let e = m.writes.create(&m.tree, m.notes, "tmp").unwrap();
    m.writes.write(e.ino, 0, b"x").unwrap();
    assert!(matches!(
        m.writes
            .rename(&m.tree, m.notes, "tmp", m.notes, "fresh.md")
            .unwrap(),
        RenameJob::Done
    ));
    assert!(m.writes.lookup_overlay(m.notes, "tmp").is_none());
    assert_eq!(
        m.writes.lookup_overlay(m.notes, "fresh.md").unwrap().ino,
        e.ino
    );
    assert!(matches!(m.writes.flush(e.ino), FlushJob::Create { name, .. } if name == "fresh.md"));
    // over a document: saves go to it
    assert!(matches!(
        m.writes
            .rename(&m.tree, m.notes, "fresh.md", m.notes, "Plan.md")
            .unwrap(),
        RenameJob::Done
    ));
    assert!(m.writes.lookup_overlay(m.notes, "fresh.md").is_none());
    assert_eq!(m.writes.overlay_attr(e.ino).unwrap().name, "Plan.md");
    assert!(matches!(
        m.writes.flush(e.ino),
        FlushJob::Update { doc_id: 1, .. }
    ));
}

#[test]
fn todo_files_round_trip() {
    let todo = Document {
        schema: "data/abstraction/todo".to_string(),
        ..note(3, "Ship it", "")
    };
    let mut m = mount(&[todo]);
    let ino = m.tree.lookup(m.todos, "Ship-it.md").unwrap().ino;
    m.writes.open_existing(&m.tree, ino, true).unwrap();
    m.writes.write(ino, 0, b"- [X] Done now\n\nwhy\n").unwrap();
    match m.writes.flush(ino) {
        FlushJob::Update {
            dir,
            doc_id,
            buffer,
            ..
        } => {
            let body = build_update(
                &Json::object().with("schema", Json::text("data/abstraction/todo")),
                &dir,
                doc_id,
                &buffer,
            );
            assert_eq!(
                pretty(&body),
                "{\n  \"data\": {\n    \"completed\": true,\n    \"description\": \"why\",\n    \"title\": \"Done now\"\n  },\n  \"id\": 3,\n  \"schema\": \"data/abstraction/todo\"\n}"
            );
        }
        _ => panic!("expected an update"),
    }
}

#[test]
fn bytes_that_are_no_text_are_replaced() {
    let doc = build_new_document("Notes", "odd.md", b"a\xffb");
    let data = doc.get("data").unwrap();
    assert_eq!(data.get_str("content").unwrap(), "a\u{fffd}b");
    assert_eq!(data.get_str("title").unwrap(), "odd");
}
