use canvas_fuse::api::{ContextInfo, Document, TreeInfo};
use canvas_fuse::fsimpl::{
    attr_for_ino, can_open, file_attr, list_dir, lookup, open, read, resume_at, wants_truncate,
    wants_write, ReadAnswer, TTL_SECS,
};
use canvas_fuse::json::Json;
use canvas_fuse::names::NameStore;
use canvas_fuse::state::{Tree, CONTEXTS_INO, ROOT_INO};
use canvas_fuse::workspace::path_segments;
use canvas_fuse::writes::{WriteError, WriteStore};
use std::time::SystemTime;

fn doc(id: u64, schema: &str, title: &str, content: &str) -> Document {
    Document {
        id,
        schema: format!("data/abstraction/{schema}"),
        data: Json::object()
            .with("title", Json::text(title))
            .with("content", Json::text(content)),
        updated_at: SystemTime::UNIX_EPOCH,
        locations: vec!["file://root/blob.bin".to_string()],
        size: Some(1000),
        checksum: None,
    }
}

fn context(id: &str, ws: Option<&str>) -> ContextInfo {
    ContextInfo {
        id: id.to_string(),
        url: "/".to_string(),
        workspace_id: ws.map(str::to_string),
        raw: Json::object().with("id", Json::text(id)),
    }
}

fn shown(docs: &[Document]) -> (Tree, NameStore, WriteStore, u64) {
    let mut tree = Tree::default();
    let mut names = NameStore::new();
    tree.apply_contexts(&[context("work", Some("ws"))]);
    tree.apply_documents("work", docs, &mut names);
    let ctx = tree.context_ino("work").unwrap();
    let notes = tree.lookup(ctx, "Notes").unwrap().ino;
    (tree, names, WriteStore::new(), notes)
}

#[test]
fn attributes() {
    let a = file_attr(9, 513, SystemTime::UNIX_EPOCH, false);
    assert_eq!((a.ino, a.size, a.blocks, a.perm), (9, 513, 2, 0o644));
    assert_eq!((a.nlink, a.blksize, a.is_dir), (1, 4096, false));
    let d = file_attr(1, 0, SystemTime::UNIX_EPOCH, true);
    assert_eq!((d.blocks, d.perm, d.is_dir), (0, 0o755, true));
    assert_eq!(
        file_attr(1, u64::MAX, SystemTime::UNIX_EPOCH, false).blocks,
        1 << 55
    );
    assert_eq!(TTL_SECS, 1);
}

#[test]
fn sizes_follow_the_buffer() {
    let (tree, _names, mut writes, notes) = shown(&[doc(1, "note", "Plan", "abc")]);
    let a = lookup(&tree, &writes, notes, "Plan.md").unwrap();
    assert_eq!(a.size, 4);
    assert!(can_open(&tree, &writes, a.ino, false) && can_open(&tree, &writes, a.ino, true));
    assert_eq!(open(&tree, &mut writes, a.ino, false, false).unwrap(), 0);
    assert!(!writes.has_state(a.ino));
    assert_eq!(open(&tree, &mut writes, a.ino, true, true).unwrap(), a.ino);
    assert_eq!(lookup(&tree, &writes, notes, "Plan.md").unwrap().size, 0);
    writes.write(a.ino, 0, b"0123456789").unwrap();
    assert_eq!(attr_for_ino(&tree, &writes, a.ino).unwrap().size, 10);
    assert!(matches!(lookup(&tree, &writes, notes, "none"), Err(2)));
    assert!(attr_for_ino(&tree, &writes, 777).is_none());
    assert!(matches!(
        open(&tree, &mut writes, 777, true, false),
        Err(WriteError::NotFound)
    ));
    assert!(matches!(
        open(&tree, &mut writes, notes, true, false),
        Err(WriteError::NotPermitted)
    ));
}

#[test]
fn flags_of_an_open() {
    assert!(!wants_write(0, 3, 0));
    assert!(wants_write(1, 3, 0));
    assert!(wants_write(2 | 512, 3, 0));
    assert!(wants_truncate(512 | 1, 512));
    assert!(!wants_truncate(1, 512));
}

#[test]
fn reads_come_from_the_buffer_the_tree_or_a_blob() {
    let (tree, _names, mut writes, notes) =
        shown(&[doc(1, "note", "Plan", "abc"), doc(2, "file", "F", "")]);
    let ino = tree.lookup(notes, "Plan.md").unwrap().ino;
    assert!(
        matches!(read(&tree, &writes, ino, 1, 2), ReadAnswer::Data(d) if d == b"bc")
    );
    open(&tree, &mut writes, ino, true, false).unwrap();
    writes.write(ino, 1, b"X").unwrap();
    assert!(
        matches!(read(&tree, &writes, ino, 0, 9), ReadAnswer::Data(d) if d == b"aXc\n")
    );
    let ctx = tree.context_ino("work").unwrap();
    let files = tree.lookup(ctx, "Files").unwrap().ino;
    let blob = tree.lookup(files, "blob.bin").unwrap().ino;
    match read(&tree, &writes, blob, 0, 9) {
        ReadAnswer::Blob {
            key,
            workspace_id,
            doc_id,
        } => {
            assert_eq!(
                (key.as_str(), workspace_id.as_str(), doc_id),
                ("ws/2", "ws", 2)
            );
        }
        _ => panic!("expected a blob"),
    }
    assert!(matches!(
        read(&tree, &writes, notes, 0, 1),
        ReadAnswer::Error(21)
    ));
    assert!(matches!(
        read(&tree, &writes, 777, 0, 1),
        ReadAnswer::Error(2)
    ));
}

#[test]
fn listings_hold_new_files_too() {
    let (tree, _names, mut writes, notes) = shown(&[doc(1, "note", "Plan", "abc")]);
    let e = writes.create(&tree, notes, "new.md").unwrap();
    let v = list_dir(&tree, &writes, notes).unwrap();
    let got: Vec<(u64, bool, &str)> = v
        .iter()
        .map(|e| (e.ino, e.is_dir, e.name.as_str()))
        .collect();
    let ctx = tree.context_ino("work").unwrap();
    let plan = tree.lookup(notes, "Plan.md").unwrap().ino;
    assert_eq!(
        got,
        vec![
            (notes, true, "."),
            (ctx, true, ".."),
            (plan, false, "Plan.md"),
            (e.ino, false, "new.md"),
        ]
    );
    assert_eq!(
        lookup(&tree, &writes, notes, "new.md").unwrap().ino,
        e.ino
    );
    for entry in &v[2..] {
        let a = lookup(&tree, &writes, notes, &entry.name).unwrap();
        assert_eq!((a.ino, a.is_dir), (entry.ino, entry.is_dir));
    }
    assert!(matches!(list_dir(&tree, &writes, plan), Err(20)));
    assert!(matches!(list_dir(&tree, &writes, 777), Err(2)));
    let root = list_dir(&tree, &writes, ROOT_INO).unwrap();
    assert_eq!(root[1].ino, ROOT_INO);
    assert_eq!(root[2].ino, CONTEXTS_INO);
}

#[test]
fn listings_resume() {
    assert_eq!(resume_at(0, 4), 0);
    assert_eq!(resume_at(3, 4), 3);
    assert_eq!(resume_at(4, 4), 4);
    assert_eq!(resume_at(-1, 4), 4);
    assert_eq!(resume_at(i64::MAX, 4), 4);
}

#[test]
fn names_stick_against_newcomers_with_the_same_title() {
    let (mut tree, mut names, _w, notes) = shown(&[doc(5, "note", "Meeting", "a")]);
    let ino = tree.lookup(notes, "Meeting.md").unwrap().ino;
    tree.apply_documents(
        "work",
        &[doc(3, "note", "Meeting", "b"), doc(5, "note", "Meeting", "a")],
        &mut names,
    );
    assert_eq!(tree.lookup(notes, "Meeting.md").unwrap().ino, ino);
    assert_eq!(tree.ino_for_doc("work", 5), Some(ino));
    assert!(tree.lookup(notes, "Meeting.3.md").is_some());
}

#[test]
fn unchanged_views_tell_the_kernel_nothing() {
    let docs = [doc(1, "note", "A", "x"), doc(2, "todo", "B", "y")];
    let (mut tree, mut names, _w, _) = shown(&docs);
    let inv = tree.apply_documents("work", &docs, &mut names);
    assert!(inv.is_empty());
    let (inv, added) = tree.apply_contexts(&[context("work", Some("ws"))]);
    assert!(inv.is_empty() && added.is_empty());
    let inv = tree.apply_documents("unknown", &docs, &mut names);
    assert!(inv.is_empty());
}

#[test]
fn changes_are_told() {
    let (mut tree, mut names, _w, notes) = shown(&[doc(1, "note", "A", "x")]);
    let a = tree.lookup(notes, "A.md").unwrap().ino;
    let inv = tree.apply_documents(
        "work",
        &[doc(1, "note", "A", "y"), doc(2, "note", "B", "z")],
        &mut names,
    );
    assert_eq!(inv.changed, vec![a]);
    assert_eq!(inv.dirty_dirs, vec![notes]);
    assert!(inv.removed.is_empty());
    let inv = tree.apply_documents("work", &[], &mut names);
    let gone: Vec<(u64, &str)> = inv.removed.iter().map(|(p, _, n)| (*p, n.as_str())).collect();
    assert_eq!(gone, vec![(notes, "A.md"), (notes, "B.md")]);
}

#[test]
fn moved_documents_keep_their_inode() {
    let (mut tree, mut names, _w, notes) = shown(&[doc(1, "note", "A", "x")]);
    let ino = tree.lookup(notes, "A.md").unwrap().ino;
    // a tab is placed before the notes are gone through
    let inv = tree.apply_documents("work", &[doc(1, "tab", "A", "x")], &mut names);
    let ctx = tree.context_ino("work").unwrap();
    let tabs = tree.lookup(ctx, "Tabs").unwrap().ino;
    assert_eq!(tree.lookup(tabs, "A.url").unwrap().ino, ino);
    assert!(inv.removed.contains(&(notes, ino, "A.md".to_string())));
}

#[test]
fn contexts_that_leave_take_everything_with_them() {
    let mut tree = Tree::new();
    let mut names = NameStore::new();
    let (inv, added) = tree.apply_contexts(&[context("a", None), context("b", None)]);
    assert_eq!(added, vec!["a", "b"]);
    assert_eq!(inv.dirty_dirs, vec![CONTEXTS_INO, CONTEXTS_INO]);
    tree.apply_documents("a", &[doc(1, "note", "N", "x")], &mut names);
    let a = tree.context_ino("a").unwrap();
    let b = tree.context_ino("b").unwrap();
    let (inv, _) = tree.apply_contexts(&[context("b", None)]);
    // nine nodes of the context and one note
    assert_eq!(inv.removed.len(), 10);
    assert!(tree.get(a).is_none());
    assert_eq!(tree.context_ino("b"), Some(b));
    assert_eq!(tree.ino_for_doc("a", 1), None);
    // it comes back under new inodes
    tree.apply_contexts(&[context("a", None), context("b", None)]);
    assert!(tree.context_ino("a").unwrap() > a);
}

#[test]
fn rooted_mounts_show_only_their_context() {
    let mut tree = Tree::context_rooted("me".to_string());
    let (_, added) = tree.apply_contexts(&[context("other", None), context("me", None)]);
    assert_eq!(added, vec!["me"]);
    assert_eq!(tree.context_ids(), vec!["me"]);
    tree.apply_contexts(&[context("other", None)]);
    assert!(tree.context_ids().is_empty());
    assert!(tree.list(ROOT_INO).unwrap().is_empty());
    assert!(tree.get(ROOT_INO).is_some());
}

#[test]
fn files_without_a_workspace_show_their_document() {
    let mut tree = Tree::new();
    let mut names = NameStore::new();
    tree.apply_contexts(&[context("a", None)]);
    tree.apply_documents("a", &[doc(1, "file", "F", "")], &mut names);
    let ctx = tree.context_ino("a").unwrap();
    let files = tree.lookup(ctx, "Files").unwrap().ino;
    let node = tree.lookup(files, "blob.bin").unwrap();
    assert!(node.size() != 1000);
}

#[test]
fn names_are_kept_by_context_directory_and_document() {
    let mut names = NameStore::new();
    names.put("c", "Notes", 1, "a.md");
    names.put("c", "Notes", 2, "b.md");
    names.put("c", "Todos", 1, "c.md");
    names.put("d", "Notes", 1, "d.md");
    assert_eq!(names.get("c", "Notes", 1).as_deref(), Some("a.md"));
    assert_eq!(names.get("c", "Todos", 1).as_deref(), Some("c.md"));
    assert_eq!(names.get("d", "Notes", 1).as_deref(), Some("d.md"));
    assert_eq!(names.get("d", "Notes", 2), None);
    names.put("c", "Notes", 1, "z.md");
    assert_eq!(names.get("c", "Notes", 1).as_deref(), Some("z.md"));
    let unsaved = names.take_unsaved();
    assert_eq!(unsaved.len(), 5);
    assert_eq!(
        unsaved[0],
        ("c\u{1f}Notes\u{1f}1".to_string(), "a.md".to_string())
    );
    assert!(names.take_unsaved().is_empty());
    names.load("e\u{1f}Notes\u{1f}1".to_string(), "e.md".to_string());
    assert_eq!(names.get("e", "Notes", 1).as_deref(), Some("e.md"));
    assert!(names.take_unsaved().is_empty());
}

#[test]
fn inodes_run_out_far_away() {
    let tree = Tree::new();
    assert!(tree.has_room(1 << 47));
    assert!(!tree.has_room(1 << 48));
    assert!(!tree.is_workspace());
    assert_eq!(tree.ws_id(), None);
}

#[test]
fn trees_of_a_workspace_come_and_go() {
    let info = |name: &str, id: &str| TreeInfo {
        id: id.to_string(),
        name: name.to_string(),
        tree_type: "directory".to_string(),
    };
    let mut tree = Tree::workspace_rooted("ws".to_string(), "n".to_string());
    tree.apply_trees(&[info("a", "1"), info("b", "2")]);
    let a = tree.lookup(ROOT_INO, "a").unwrap().ino;
    let inv = tree.apply_trees(&[info("a", "9"), info("c", "3")]);
    assert_eq!(tree.lookup(ROOT_INO, "a").unwrap().ino, a);
    assert!(tree.lookup(ROOT_INO, "b").is_none());
    assert_eq!(inv.removed.len(), 1);
    assert_eq!(
        tree.ws_tree_meta("a"),
        Some(("9".to_string(), "directory".to_string()))
    );
    assert_eq!(tree.ws_tree_meta("b"), None);

    tree.apply_tree_paths("a", &["/x/y".to_string()]);
    let x = tree.lookup(a, "x").unwrap().ino;
    tree.apply_tree_documents("a", "/x", &[doc(1, "note", "N", "v"), doc(2, "note", "N", "w")]);
    let first = tree.lookup(x, "N.md").unwrap().ino;
    assert!(tree.lookup(x, "N.2.md").is_some());
    // the directory stays, documents that stay keep their inodes
    tree.apply_tree_documents("a", "x", &[doc(1, "note", "N", "changed")]);
    assert_eq!(tree.lookup(x, "N.md").unwrap().ino, first);
    assert!(tree.lookup(x, "N.2.md").is_none());
    assert!(tree.lookup(x, "y").unwrap().is_dir());
    assert!(tree.tree_file(x).is_none());
    assert!(tree.locate_tree_dir(first).is_none());
    assert_eq!(tree.locate_tree_dir(a).unwrap().3, "/");
    // a name that is taken, or another tree: nothing happens
    tree.apply_tree_paths("a", &["/x/y".to_string(), "/z".to_string()]);
    let z = tree.lookup(a, "z").unwrap().ino;
    tree.rename_tree_path(z, "x", "a");
    tree.rename_tree_path(z, "w", "c");
    tree.rename_tree_path(a, "w", "a");
    assert_eq!(tree.lookup(a, "z").unwrap().ino, z);
    assert_eq!(path_segments("//a//b/"), vec!["a", "b"]);
}

#[test]
fn every_document_of_a_list_is_shown() {
    let docs: Vec<Document> = (1..=4).map(|i| doc(i, "note", "Meeting", "x")).collect();
    let (tree, _names, _w, notes) = shown(&docs);
    let names: Vec<&str> = tree
        .list(notes)
        .unwrap()
        .iter()
        .map(|n| n.name.as_str())
        .collect();
    assert_eq!(
        names,
        vec!["Meeting.2.md", "Meeting.3.md", "Meeting.4.md", "Meeting.md"]
    );
    for d in &docs {
        let ino = tree.ino_for_doc("work", d.id).unwrap();
        assert_eq!(tree.get(ino).unwrap().parent, notes);
    }
    // a title that looks like a name with an identifier harms nobody while that name is not needed
    let (tree, _names, _w, notes) =
        shown(&[doc(1, "note", "Meeting.2", "x"), doc(2, "note", "Meeting", "y")]);
    assert!(tree.lookup(notes, "Meeting.2.md").is_some());
    assert!(tree.lookup(notes, "Meeting.md").is_some());
}

fn names_of(tree: &Tree, dir: u64) -> Vec<String> {
    tree.list(dir)
        .unwrap()
        .iter()
        .map(|n| n.name.clone())
        .collect()
}

#[test]
fn newcomers_leave_given_names_alone() {
    // 3 is named after an identifier that is not its own
    let (mut tree, mut names, _w, notes) =
        shown(&[doc(2, "note", "X", "two"), doc(3, "note", "X.1", "three")]);
    assert_eq!(names_of(&tree, notes), vec!["X.1.md", "X.md"]);
    let second = tree.ino_for_doc("work", 2).unwrap();
    let third = tree.ino_for_doc("work", 3).unwrap();
    let docs = [
        doc(1, "note", "X", "one"),
        doc(2, "note", "X", "two"),
        doc(3, "note", "X.1", "three"),
    ];
    tree.apply_documents("work", &docs, &mut names);
    assert_eq!(names_of(&tree, notes), vec!["X.1.1.md", "X.1.md", "X.md"]);
    assert_eq!(tree.ino_for_doc("work", 2), Some(second));
    assert_eq!(tree.ino_for_doc("work", 3), Some(third));
    assert_eq!(tree.lookup(notes, "X.1.md").unwrap().ino, third);
    // a second time nothing happens
    names.take_unsaved();
    let inv = tree.apply_documents("work", &docs, &mut names);
    assert!(inv.is_empty());
    assert!(names.take_unsaved().is_empty());
    assert_eq!(names_of(&tree, notes), vec!["X.1.1.md", "X.1.md", "X.md"]);
}

#[test]
fn documents_that_stay_keep_names_and_inodes() {
    let (mut tree, mut names, _w, notes) =
        shown(&[doc(1, "note", "X.3", "one"), doc(2, "note", "X", "two")]);
    let first = tree.lookup(notes, "X.3.md").unwrap().ino;
    tree.apply_documents(
        "work",
        &[
            doc(1, "note", "Another title", "changed"),
            doc(2, "note", "X", "two"),
            doc(3, "note", "X", "three"),
        ],
        &mut names,
    );
    assert_eq!(names_of(&tree, notes), vec!["X.3.3.md", "X.3.md", "X.md"]);
    assert_eq!(tree.lookup(notes, "X.3.md").unwrap().ino, first);
    assert_eq!(tree.ino_for_doc("work", 1), Some(first));
    assert_eq!(names.get("work", "Notes", 3).as_deref(), Some("X.3.3.md"));
}

#[test]
fn every_document_of_a_tree_has_a_file() {
    let mut tree = Tree::workspace_rooted("ws".to_string(), "ws".to_string());
    tree.apply_trees(&[TreeInfo {
        id: "t".to_string(),
        name: "t".to_string(),
        tree_type: "directory".to_string(),
    }]);
    tree.apply_tree_paths("t", &["/d/Y.md".to_string()]);
    let docs = [
        doc(1, "note", "X.3", "one"),
        doc(2, "note", "X", "two"),
        doc(3, "note", "X", "three"),
        doc(4, "note", "Y", "four"),
    ];
    assert!(!tree.apply_tree_documents("t", "/d", &docs).is_empty());
    assert!(tree.apply_tree_documents("t", "/d", &docs).is_empty());
    let top = tree.lookup(ROOT_INO, "t").unwrap().ino;
    let d = tree.lookup(top, "d").unwrap().ino;
    assert_eq!(
        names_of(&tree, d),
        vec!["X.3.3.md", "X.3.md", "X.md", "Y.4.md", "Y.md"]
    );
    assert!(tree.lookup(d, "Y.md").unwrap().is_dir());
}

#[test]
fn contexts_that_stay_are_left_alone() {
    let (mut tree, _names, _w, notes) = shown(&[doc(1, "note", "Plan", "abc")]);
    let list = [context("work", Some("ws")), context("home", None)];
    let (inv, added) = tree.apply_contexts(&list);
    assert_eq!(added, vec!["home"]);
    assert_eq!(inv.dirty_dirs, vec![CONTEXTS_INO]);
    assert!(inv.changed.is_empty() && inv.removed.is_empty());
    assert!(tree.lookup(notes, "Plan.md").is_some());
    let (inv, added) = tree.apply_contexts(&list);
    assert!(inv.is_empty() && added.is_empty());
}

#[test]
fn only_directories_of_contexts_take_documents() {
    let (mut tree, mut names, _w, notes) = shown(&[doc(1, "note", "Plan", "abc")]);
    tree.apply_contexts(&[context("work", Some("ws")), context("Notes", None)]);
    assert_eq!(
        tree.locate_schema_dir(notes),
        Some(("work".to_string(), "Notes".to_string()))
    );
    let named_so = tree.context_ino("Notes").unwrap();
    let plan = tree.lookup(notes, "Plan.md").unwrap().ino;
    for ino in [ROOT_INO, CONTEXTS_INO, named_so, plan, 777] {
        assert_eq!(tree.locate_schema_dir(ino), None);
    }
    // every node is in the listing of its directory
    tree.apply_documents("work", &[], &mut names);
    assert!(tree.list(plan).is_none() && tree.get(plan).is_none());
    assert!(tree.list(notes).unwrap().is_empty());
}
