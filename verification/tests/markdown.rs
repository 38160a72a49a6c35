use canvas_fuse::writes::{first_markdown_h1, parse_todo_markdown};

#[test]
fn h1_title_derivation() {
    assert_eq!(first_markdown_h1("plain body, no heading"), None);
    assert_eq!(
        first_markdown_h1("# Meeting Notes\n\nbody").as_deref(),
        Some("Meeting Notes")
    );
    // first H1 anywhere; trailing # stripped
    assert_eq!(
        first_markdown_h1("intro\n\n# Real Title ##\n").as_deref(),
        Some("Real Title")
    );
    // fenced code # ignored
    assert_eq!(
        first_markdown_h1("```\n# not a title\n```\n# Actual\n").as_deref(),
        Some("Actual")
    );
    // ## (H2) is not a title
    assert_eq!(first_markdown_h1("## subheading only\n"), None);
}

#[test]
fn todo_roundtrip() {
    let (t, d, desc) = parse_todo_markdown("- [x] Ship MVP\n\nBefore end of month\n");
    assert_eq!(t, "Ship MVP");
    assert!(d);
    assert_eq!(desc.as_deref(), Some("Before end of month"));

    let (t, d, desc) = parse_todo_markdown("- [ ] Open task\n");
    assert_eq!(t, "Open task");
    assert!(!d);
    assert!(desc.is_none());

    // Plain text without checkbox: first line becomes the title
    let (t, d, _) = parse_todo_markdown("just a line\n");
    assert_eq!(t, "just a line");
    assert!(!d);
}
