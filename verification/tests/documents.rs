use markspace::documents::{decimal_string, preview_link_target, EditorPanel, LinkTarget, OpenOutcome};

fn labels(p: &EditorPanel) -> Vec<String> {
    p.tab_labels()
}

#[test]
fn opening_a_non_markdown_file_is_refused() {
    let mut p = EditorPanel::new();
    match p.open("/ws/notes.txt") {
        OpenOutcome::NotMarkdown(name) => assert_eq!(name, "notes.txt"),
        _ => panic!("a .txt file must be refused"),
    }
    assert!(p.tab_paths().is_empty());
    assert_eq!(p.active_path(), None);
    assert!(matches!(p.open("/ws/README"), OpenOutcome::NotMarkdown(_)));
}

#[test]
fn opening_adds_a_tab_once_and_activates_it() {
    let mut p = EditorPanel::new();
    assert!(matches!(p.open("/ws/a.md"), OpenOutcome::Opened));
    assert!(matches!(p.open("/ws/b.md"), OpenOutcome::Opened));
    assert_eq!(p.active_path().as_deref(), Some("/ws/b.md"));
    assert_eq!(p.active_index(), 1);
    assert!(matches!(p.open("/ws/a.md"), OpenOutcome::Activated));
    assert_eq!(p.tab_paths(), vec!["/ws/a.md".to_string(), "/ws/b.md".to_string()]);
    assert_eq!(p.active_index(), 0);
    assert_eq!(p.tab_name(), "a.md");
    assert!(p.is_open("/ws/b.md"));
    assert!(!p.is_open("/ws/c.md"));
    assert_eq!(p.tab_path(1).as_deref(), Some("/ws/b.md"));
    assert_eq!(p.tab_path(2), None);
}

#[test]
fn set_active_ignores_paths_that_are_not_open() {
    let mut p = EditorPanel::new();
    p.open("/ws/a.md");
    p.open("/ws/b.md");
    p.set_active("/ws/a.md");
    assert_eq!(p.active_path().as_deref(), Some("/ws/a.md"));
    p.set_active("/ws/zzz.md");
    assert_eq!(p.active_path().as_deref(), Some("/ws/a.md"));
}

#[test]
fn closing_the_active_tab_falls_back_to_the_first() {
    let mut p = EditorPanel::new();
    p.open("/ws/a.md");
    p.open("/ws/b.md");
    p.open("/ws/c.md");
    p.close_doc("/ws/c.md");
    assert_eq!(p.active_path().as_deref(), Some("/ws/a.md"));
    assert_eq!(p.tab_paths(), vec!["/ws/a.md".to_string(), "/ws/b.md".to_string()]);
    // closing a tab that is not active keeps the active one
    p.set_active("/ws/b.md");
    p.close_doc("/ws/a.md");
    assert_eq!(p.active_path().as_deref(), Some("/ws/b.md"));
    p.close_doc("/ws/b.md");
    assert_eq!(p.active_path(), None);
    assert!(p.tab_paths().is_empty());
    // closing what is not open changes nothing
    p.close_doc("/ws/b.md");
    assert!(p.tab_paths().is_empty());
}

#[test]
fn edits_make_a_document_dirty_until_saved_or_undone() {
    let mut p = EditorPanel::new();
    p.open("/ws/a.md");
    p.open("/ws/b.md");
    assert!(p.content_loaded("/ws/b.md", "# B\nbody"));
    assert!(!p.is_dirty("/ws/b.md"));
    assert!(p.on_doc_changed("/ws/b.md", "# B\nbody!"));
    assert!(p.is_dirty("/ws/b.md"));
    assert_eq!(p.dirty_count(), 1);
    assert_eq!(labels(&p), vec!["a.md".to_string(), "b.md ●".to_string()]);
    // back to the saved text: clean again
    p.on_doc_changed("/ws/b.md", "# B\nbody");
    assert!(!p.is_dirty("/ws/b.md"));
    p.on_doc_changed("/ws/b.md", "changed");
    assert!(p.mark_saved("/ws/b.md", "changed"));
    assert!(!p.is_dirty("/ws/b.md"));
    assert_eq!(p.dirty_count(), 0);
    assert!(!p.on_doc_changed("/ws/none.md", "x"));
    assert!(!p.is_dirty("/ws/none.md"));
}

#[test]
fn the_outline_follows_the_text() {
    let mut p = EditorPanel::new();
    p.open("/ws/a.md");
    assert!(p.active_outline().is_empty());
    p.content_loaded("/ws/a.md", "# One\n## Two");
    let outline = p.active_outline();
    assert_eq!(outline.len(), 2);
    assert_eq!(outline[1].text, "Two");
    p.on_doc_changed("/ws/a.md", "Title\n===");
    let outline = p.active_outline();
    assert_eq!(outline.len(), 1);
    assert_eq!(outline[0].level, 1);
    assert_eq!(outline[0].text, "Title");
}

#[test]
fn status_text_shows_the_path_below_the_root() {
    let mut p = EditorPanel::new();
    assert_eq!(p.status_text("/ws"), (String::new(), false, 0));
    p.open("/ws/docs/a.md");
    p.content_loaded("/ws/docs/a.md", "你好 md");
    assert_eq!(p.status_text("/ws"), ("docs/a.md".to_string(), false, 5));
    assert_eq!(p.status_text("/elsewhere"), ("/ws/docs/a.md".to_string(), false, 5));
    p.on_doc_changed("/ws/docs/a.md", "你好");
    assert_eq!(p.status_text("/ws"), ("docs/a.md".to_string(), true, 2));
}

#[test]
fn an_unreadable_file_shows_a_notice() {
    let mut p = EditorPanel::new();
    p.open("/ws/a.md");
    assert!(p.content_unreadable("/ws/a.md"));
    assert_eq!(p.status_text("/ws"), ("a.md".to_string(), false, 8));
    assert!(!p.content_unreadable("/ws/b.md"));
}

#[test]
fn close_all_empties_the_panel() {
    let mut p = EditorPanel::new();
    p.open("/ws/a.md");
    p.on_doc_changed("/ws/a.md", "x");
    p.toggle_preview();
    p.close_all();
    assert!(p.tab_paths().is_empty());
    assert_eq!(p.dirty_count(), 0);
    assert_eq!(p.tab_name(), "编辑器");
    assert!(!p.preview_mode());
}

#[test]
fn toggle_preview_switches_back_and_forth() {
    let mut p = EditorPanel::new();
    assert!(!p.preview_mode());
    assert!(p.toggle_preview());
    assert!(p.preview_mode());
    assert!(!p.toggle_preview());
}

#[test]
fn renaming_a_directory_moves_its_open_documents() {
    let mut p = EditorPanel::new();
    p.open("/ws/docs/a.md");
    p.open("/ws/other.md");
    p.open("/ws/docs/sub/b.md");
    p.on_doc_changed("/ws/docs/sub/b.md", "edited");
    p.on_paths_renamed("/ws/docs", "/ws/notes");
    assert_eq!(
        p.tab_paths(),
        vec![
            "/ws/notes/a.md".to_string(),
            "/ws/other.md".to_string(),
            "/ws/notes/sub/b.md".to_string()
        ]
    );
    assert_eq!(p.active_path().as_deref(), Some("/ws/notes/sub/b.md"));
    assert!(p.is_dirty("/ws/notes/sub/b.md"));
    // renaming a file
    p.on_paths_renamed("/ws/other.md", "/ws/renamed.md");
    assert_eq!(p.tab_paths()[1], "/ws/renamed.md");
    // a sibling with a common name prefix is not below the renamed directory
    p.open("/ws/notes2/c.md");
    p.on_paths_renamed("/ws/notes", "/ws/n");
    assert_eq!(p.tab_paths()[3], "/ws/notes2/c.md");
}

#[test]
fn preview_links_lead_to_anchors_web_pages_or_files() {
    assert!(matches!(preview_link_target("/ws/docs/a.md", "#intro"), LinkTarget::Anchor));
    assert!(matches!(preview_link_target("/ws/docs/a.md", "https://example.com"), LinkTarget::External));
    assert!(matches!(preview_link_target("/ws/docs/a.md", "http://example.com"), LinkTarget::External));
    match preview_link_target("/ws/docs/a.md", "b.md") {
        LinkTarget::File(p) => assert_eq!(p, "/ws/docs/b.md"),
        _ => panic!("a relative link names a file"),
    }
    match preview_link_target("/ws/docs/a.md", "/abs/c.md") {
        LinkTarget::File(p) => assert_eq!(p, "/abs/c.md"),
        _ => panic!("an absolute path names a file"),
    }
    match preview_link_target("/ws/docs/a.md", "ftp://x") {
        LinkTarget::File(p) => assert_eq!(p, "/ws/docs/ftp://x"),
        _ => panic!("only http(s) goes to the browser"),
    }
}

#[test]
fn opening_then_closing_restores_the_other_tabs() {
    let mut p = EditorPanel::new();
    p.open("/ws/a.md");
    p.open("/ws/b.md");
    let before = p.tab_paths();
    p.open("/ws/new.md");
    p.close_doc("/ws/new.md");
    assert_eq!(p.tab_paths(), before);
    assert_eq!(p.active_path().as_deref(), Some("/ws/a.md"));
}

#[test]
fn opening_twice_is_opening_once() {
    let mut once = EditorPanel::new();
    once.open("/ws/a.md");
    once.open("/ws/b.md");
    let mut twice = EditorPanel::new();
    twice.open("/ws/a.md");
    twice.open("/ws/b.md");
    twice.open("/ws/b.md");
    assert_eq!(once.tab_paths(), twice.tab_paths());
    assert_eq!(once.active_path(), twice.active_path());
}

#[test]
fn status_line_wording() {
    let mut p = EditorPanel::new();
    assert_eq!(p.status_line("/ws"), "未打开文档");
    p.open("/ws/docs/a.md");
    p.content_loaded("/ws/docs/a.md", "0123456789ab");
    assert_eq!(p.status_line("/ws"), "docs/a.md · 12 字符");
    p.on_doc_changed("/ws/docs/a.md", "x");
    assert_eq!(p.status_line("/ws"), "docs/a.md · ● 未保存 · 1 字符");
}

#[test]
fn decimal_numerals() {
    assert_eq!(decimal_string(0), "0");
    assert_eq!(decimal_string(7), "7");
    assert_eq!(decimal_string(10), "10");
    assert_eq!(decimal_string(1234509), "1234509");
    assert_eq!(decimal_string(usize::MAX), usize::MAX.to_string());
}

#[test]
fn equal_paths_written_differently_name_one_document() {
    let mut p = EditorPanel::new();
    assert!(matches!(p.open("/ws/a.md"), OpenOutcome::Opened));
    assert!(matches!(p.open("/ws//a.md"), OpenOutcome::Activated));
    assert!(matches!(p.open("/ws/./a.md"), OpenOutcome::Activated));
    assert_eq!(p.tab_paths(), vec!["/ws/a.md".to_string()]);
    assert_eq!(p.doc_path("/ws//a.md").as_deref(), Some("/ws/a.md"));
    assert_eq!(p.doc_path("/ws/b.md"), None);
    assert!(p.is_open("/ws/a.md/"));
    assert!(p.content_loaded("/ws/./a.md", "saved"));
    assert!(p.on_doc_changed("/ws//a.md", "edited"));
    assert!(p.is_dirty("/ws/a.md"));
    assert!(p.is_dirty("/ws/./a.md"));
    p.open("/ws/b.md");
    p.set_active("/ws//a.md");
    assert_eq!(p.active_index(), 0);
    p.close_doc("/ws/./a.md");
    assert_eq!(p.tab_paths(), vec!["/ws/b.md".to_string()]);
    assert!(!p.is_open("/ws/a.md"));
}
