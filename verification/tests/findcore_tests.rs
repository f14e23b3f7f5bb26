use fssearch::findcore::{
    build_glob_pattern, classify_file_type, compile_glob, normalize_pattern,
    normalize_relative_path, plan_find, run_find, FileKind, FindError, FindOptions, FindResult,
    FindWalk, WalkEntry,
};

fn walk_entry(path: &str, kind: FileKind) -> WalkEntry {
    WalkEntry {
        path: path.to_string(),
        kind,
    }
}

/// The example tree, as a sorted walker would yield it: the root, then files
/// `a.txt`, `sub/b.txt`, `.git/c.txt` and `node_modules/d.txt`.
fn example_tree() -> Vec<WalkEntry> {
    vec![
        walk_entry("/r", FileKind::Dir),
        walk_entry("/r/.git", FileKind::Dir),
        walk_entry("/r/.git/c.txt", FileKind::File),
        walk_entry("/r/a.txt", FileKind::File),
        walk_entry("/r/node_modules", FileKind::Dir),
        walk_entry("/r/node_modules/d.txt", FileKind::File),
        walk_entry("/r/sub", FileKind::Dir),
        walk_entry("/r/sub/b.txt", FileKind::File),
    ]
}

fn find(
    pattern: &str,
    hidden: bool,
    filter: Option<FileKind>,
    cap: usize,
    entries: &Vec<WalkEntry>,
) -> FindResult {
    let normalized = normalize_pattern(pattern);
    let mentions = normalized.contains("node_modules");
    run_find(
        "/r".to_string(),
        normalized.as_str(),
        hidden,
        false,
        filter,
        cap,
        mentions,
        entries,
    )
    .unwrap()
}

fn paths(result: &FindResult) -> Vec<String> {
    result.matches.iter().map(|m| m.path.clone()).collect()
}

#[test]
fn default_walk_excludes_git_and_node_modules() {
    let tree = example_tree();
    let result = find("*.txt", false, None, usize::MAX, &tree);
    assert_eq!(paths(&result), vec!["a.txt".to_string(), "sub/b.txt".to_string()]);
    assert_eq!(result.total_matches, 2);
}

#[test]
fn pattern_mentioning_node_modules_disables_that_exclusion() {
    let tree = example_tree();
    let result = find("node_modules/*.txt", false, None, usize::MAX, &tree);
    assert_eq!(paths(&result), vec!["node_modules/d.txt".to_string()]);
}

#[test]
fn git_stays_excluded_even_with_hidden_enabled() {
    let tree = example_tree();
    let result = find("*.txt", true, None, usize::MAX, &tree);
    assert_eq!(paths(&result), vec!["a.txt".to_string(), "sub/b.txt".to_string()]);
}

#[test]
fn zero_cap_returns_empty_result() {
    let tree = example_tree();
    let result = find("*.txt", false, None, 0, &tree);
    assert!(result.matches.is_empty());
    assert_eq!(result.total_matches, 0);
}

#[test]
fn zero_cap_walk_asks_for_no_entries() {
    let walk = FindWalk::new(
        "/r".to_string(),
        "*",
        false,
        false,
        None,
        0,
        false,
    )
    .unwrap();
    assert!(!walk.wants_more());
}

#[test]
fn cap_truncates_in_lexicographic_entry_order() {
    let tree = example_tree();
    let result = find("*", false, None, 2, &tree);
    assert_eq!(paths(&result), vec!["a.txt".to_string(), "sub".to_string()]);
    assert_eq!(result.total_matches, 2);
    let unbounded = find("*", false, None, usize::MAX, &tree);
    assert_eq!(
        paths(&unbounded),
        vec!["a.txt".to_string(), "sub".to_string(), "sub/b.txt".to_string()]
    );
}

#[test]
fn identical_walks_give_identical_results() {
    let tree = example_tree();
    let first = find("*.txt", false, None, usize::MAX, &tree);
    let second = find("*.txt", false, None, usize::MAX, &tree);
    assert_eq!(paths(&first), paths(&second));
    assert_eq!(first.total_matches, second.total_matches);
}

#[test]
fn hidden_file_absent_unless_requested() {
    let mut tree = example_tree();
    tree.insert(1, walk_entry("/r/.env", FileKind::File));
    let without = find("*", false, None, usize::MAX, &tree);
    assert!(!paths(&without).contains(&".env".to_string()));
    let with = find("*", true, None, usize::MAX, &tree);
    assert!(paths(&with).contains(&".env".to_string()));
}

#[test]
fn type_filter_keeps_only_that_kind() {
    let tree = example_tree();
    let dirs = find("*", false, Some(FileKind::Dir), usize::MAX, &tree);
    assert_eq!(paths(&dirs), vec!["sub".to_string()]);
    for m in &dirs.matches {
        assert_eq!(m.file_type, FileKind::Dir);
    }
    let files = find("*", false, Some(FileKind::File), usize::MAX, &tree);
    assert_eq!(paths(&files), vec!["a.txt".to_string(), "sub/b.txt".to_string()]);
}

#[test]
fn empty_and_blank_patterns_match_everything() {
    let tree = example_tree();
    let blank = find("   ", false, None, usize::MAX, &tree);
    let star = find("*", false, None, usize::MAX, &tree);
    assert_eq!(paths(&blank), paths(&star));
    assert!(!paths(&blank).is_empty());
}

#[test]
fn invalid_pattern_surfaces_as_error() {
    let tree = example_tree();
    let result = run_find(
        "/r".to_string(),
        "a{",
        false,
        false,
        None,
        usize::MAX,
        false,
        &tree,
    );
    assert!(matches!(result, Err(FindError::InvalidPattern(_))));
}

#[test]
fn pattern_normalization_trims_and_defaults() {
    assert_eq!(normalize_pattern("  *.rs\t"), "*.rs");
    assert_eq!(normalize_pattern(""), "*");
    assert_eq!(normalize_pattern(" \n "), "*");
    assert_eq!(normalize_pattern("src/*.rs"), "src/*.rs");
}

#[test]
fn bare_patterns_are_rewritten_to_any_depth() {
    assert_eq!(build_glob_pattern("*.ts", false), "**/*.ts");
    assert_eq!(build_glob_pattern("src/*.ts", false), "src/*.ts");
    assert_eq!(build_glob_pattern("**", false), "**");
    assert_eq!(build_glob_pattern("sub\\*.txt", true), "sub/*.txt");
}

#[test]
fn compiled_glob_distinguishes_paths() {
    assert!(compile_glob("*.txt", false).is_ok());
    let tree = vec![
        walk_entry("/r/a.txt", FileKind::File),
        walk_entry("/r/b.rs", FileKind::File),
    ];
    let result = find("*.txt", false, None, usize::MAX, &tree);
    assert_eq!(paths(&result), vec!["a.txt".to_string()]);
}

#[test]
fn classification_prefers_symlink_then_dir() {
    assert_eq!(classify_file_type(true, true), FileKind::Symlink);
    assert_eq!(classify_file_type(false, true), FileKind::Dir);
    assert_eq!(classify_file_type(false, false), FileKind::File);
}

#[test]
fn root_itself_is_never_reported() {
    let tree = vec![walk_entry("/r", FileKind::Dir)];
    let result = find("*", false, None, usize::MAX, &tree);
    assert!(result.matches.is_empty());
}

#[test]
fn unreadable_entries_simply_never_reach_the_walk() {
    let tree = vec![walk_entry("/r/a.txt", FileKind::File)];
    let result = find("*", false, None, usize::MAX, &tree);
    assert_eq!(result.total_matches, 1);
}

#[test]
fn plan_fills_defaults_and_spots_node_modules() {
    let plan = plan_find(&FindOptions {
        pattern: "  node_modules/*.js ".to_string(),
        path: "/r".to_string(),
        file_type: None,
        hidden: None,
        max_results: None,
        gitignore: None,
    });
    assert_eq!(plan.pattern, "node_modules/*.js");
    assert!(!plan.include_hidden);
    assert!(plan.use_gitignore);
    assert_eq!(plan.max_results, usize::MAX);
    assert!(plan.mentions_node_modules);

    let explicit = plan_find(&FindOptions {
        pattern: "*.js".to_string(),
        path: "/r".to_string(),
        file_type: Some(FileKind::File),
        hidden: Some(true),
        max_results: Some(7),
        gitignore: Some(false),
    });
    assert!(explicit.include_hidden);
    assert!(!explicit.use_gitignore);
    assert_eq!(explicit.max_results, 7);
    assert!(!explicit.mentions_node_modules);
    assert_eq!(explicit.file_type_filter, Some(FileKind::File));
}

#[test]
fn unicode_whitespace_only_patterns_default_to_star() {
    assert_eq!(normalize_pattern("\u{000B}\u{000C}"), "*");
    assert_eq!(normalize_pattern("\u{00A0}\u{2003}\u{3000}"), "*");
    assert_eq!(normalize_pattern("\u{0085} x \u{2028}"), "x");
    let tree = example_tree();
    let blank = find("\u{000B}\u{00A0}", false, None, usize::MAX, &tree);
    let star = find("*", false, None, usize::MAX, &tree);
    assert_eq!(paths(&blank), paths(&star));
}

#[test]
fn doubled_separators_vanish_from_relative_paths() {
    let root: Vec<char> = "/r".chars().collect();
    let path: Vec<char> = "/r//a".chars().collect();
    let rel: String = normalize_relative_path(&root, &path).iter().collect();
    assert_eq!(rel, "a");
    let plain: Vec<char> = "/r/b".chars().collect();
    let rel2: String = normalize_relative_path(&root, &plain).iter().collect();
    assert_eq!(rel2, "b");
}
