use markspace::tree::{
    dir_node, file_node, find_item, is_hidden_name, plan_rename, visible_entries, DirEntryInfo,
    DirNode, RenamePlan,
};

fn entry(path: &str, name: &str, is_dir: bool) -> DirEntryInfo {
    DirEntryInfo { path: path.to_string(), name: name.to_string(), is_dir }
}

#[test]
fn listing_puts_directories_first_then_sorts_by_name_and_hides() {
    let entries = vec![
        entry("/w/b.md", "b.md", false),
        entry("/w/src", "src", true),
        entry("/w/.git", ".git", true),
        entry("/w/target", "target", true),
        entry("/w/A.md", "A.md", false),
        entry("/w/node_modules", "node_modules", true),
        entry("/w/a.md", "a.md", false),
        entry("/w/docs", "docs", true),
        entry("/w/.hidden.md", ".hidden.md", false),
    ];
    let names: Vec<String> = visible_entries(entries).into_iter().map(|e| e.name).collect();
    assert_eq!(names, vec!["docs", "src", "A.md", "a.md", "b.md"]);
}

#[test]
fn hidden_names() {
    assert!(is_hidden_name(".git"));
    assert!(is_hidden_name("target"));
    assert!(is_hidden_name("node_modules"));
    assert!(!is_hidden_name("targets"));
    assert!(!is_hidden_name("README.md"));
    assert!(!is_hidden_name(""));
}

#[test]
fn non_markdown_files_are_disabled() {
    assert!(!file_node("/w/a.md".into(), "a.md".into()).disabled);
    assert!(file_node("/w/a.txt".into(), "a.txt".into()).disabled);
    assert!(file_node("/w/README".into(), "README".into()).disabled);
    assert!(file_node("/w/a.MD".into(), "a.MD".into()).disabled);
    let d = dir_node("/w".into(), "w".into(), Vec::new());
    assert!(d.is_dir && !d.disabled);
}

#[test]
fn find_item_searches_nested_nodes() {
    let tree = vec![
        dir_node(
            "/w/docs".into(),
            "docs".into(),
            vec![
                file_node("/w/docs/a.md".into(), "a.md".into()),
                dir_node(
                    "/w/docs/sub".into(),
                    "sub".into(),
                    vec![file_node("/w/docs/sub/b.md".into(), "b.md".into())],
                ),
            ],
        ),
        file_node("/w/c.md".into(), "c.md".into()),
    ];
    assert_eq!(find_item(&tree, "/w/docs/sub/b.md").map(|n| n.name.clone()), Some("b.md".into()));
    assert_eq!(find_item(&tree, "/w/c.md").map(|n| n.name.clone()), Some("c.md".into()));
    assert_eq!(find_item(&tree, "/w/docs").map(|n| n.is_dir), Some(true));
    assert!(find_item(&tree, "/w/none.md").is_none());
    let empty: Vec<DirNode> = Vec::new();
    assert!(find_item(&empty, "/w").is_none());
}

#[test]
fn rename_plans() {
    match plan_rename("/w/docs/a.md", "  b.md ") {
        RenamePlan::Rename { name, path } => {
            assert_eq!(name, "b.md");
            assert_eq!(path, "/w/docs/b.md");
        }
        _ => panic!("a valid new name renames"),
    }
    assert!(matches!(plan_rename("/w/docs/a.md", ""), RenamePlan::Cancel));
    assert!(matches!(plan_rename("/w/docs/a.md", "   "), RenamePlan::Cancel));
    assert!(matches!(plan_rename("/w/docs/a.md", "."), RenamePlan::Cancel));
    assert!(matches!(plan_rename("/w/docs/a.md", ".."), RenamePlan::Cancel));
    assert!(matches!(plan_rename("/w/docs/a.md", "x/y.md"), RenamePlan::Cancel));
    assert!(matches!(plan_rename("/w/docs/a.md", "x\\y.md"), RenamePlan::Cancel));
    assert!(matches!(plan_rename("/w/docs/a.md", "a.md"), RenamePlan::Unchanged));
    assert!(matches!(plan_rename("/w/docs//a.md", "a.md"), RenamePlan::Unchanged));
    assert!(matches!(plan_rename("/w/./docs/a.md", " a.md"), RenamePlan::Unchanged));
    match plan_rename("rel", "other") {
        RenamePlan::Rename { path, .. } => assert_eq!(path, "other"),
        _ => panic!("a relative path renames within its directory"),
    }
}

#[test]
fn equal_entries_keep_their_order() {
    let entries = vec![
        entry("/w/first/x.md", "x.md", false),
        entry("/w/d", "d", true),
        entry("/w/second/x.md", "x.md", false),
        entry("/w/a.md", "a.md", false),
        entry("/w/third/x.md", "x.md", false),
    ];
    let paths: Vec<String> = visible_entries(entries).into_iter().map(|e| e.path).collect();
    assert_eq!(
        paths,
        vec!["/w/d", "/w/a.md", "/w/first/x.md", "/w/second/x.md", "/w/third/x.md"]
    );
}

#[test]
fn a_cloned_tree_has_the_same_nodes() {
    let tree = dir_node(
        "/w".into(),
        "w".into(),
        vec![
            dir_node("/w/sub".into(), "sub".into(), vec![file_node("/w/sub/b.txt".into(), "b.txt".into())]),
            file_node("/w/a.md".into(), "a.md".into()),
        ],
    );
    let copy = tree.clone();
    assert_eq!(copy.path, "/w");
    assert_eq!(copy.name, "w");
    assert!(copy.is_dir);
    assert_eq!(copy.children.len(), 2);
    assert_eq!(copy.children[0].children.len(), 1);
    assert_eq!(copy.children[0].children[0].path, "/w/sub/b.txt");
    assert!(copy.children[0].children[0].disabled);
    assert_eq!(copy.children[1].name, "a.md");
    assert!(!copy.children[1].disabled);
}
