use fssearch::pathsearch::{
    candidate_filenames, contains_string, join_path_exec, search_exact_in, search_for_executable,
    search_for_executable_with_prefix, search_prefix_in, ExecutablePathSearch, ListedEntry,
};

fn strings(items: &[&str]) -> Vec<String> {
    items.iter().map(|s| s.to_string()).collect()
}

#[test]
fn bare_name_is_single_candidate_without_extensions() {
    let exts: Vec<String> = Vec::new();
    let cands = candidate_filenames("ls", &exts);
    assert_eq!(cands, strings(&["ls"]));
}

#[test]
fn name_without_extension_expands_over_extension_list() {
    let exts = strings(&[".exe", ".bat"]);
    let cands = candidate_filenames("tool", &exts);
    assert_eq!(cands, strings(&["tool", "tool.exe", "tool.bat"]));
}

#[test]
fn name_with_extension_is_not_expanded() {
    let exts = strings(&[".exe", ".bat"]);
    let cands = candidate_filenames("tool.exe", &exts);
    assert_eq!(cands, strings(&["tool.exe"]));
}

#[test]
fn hidden_style_name_counts_as_extensionless() {
    let exts = strings(&[".exe"]);
    let cands = candidate_filenames(".profile", &exts);
    assert_eq!(cands, strings(&[".profile", ".profile.exe"]));
}

#[test]
fn join_path_inserts_separator_only_when_needed() {
    assert_eq!(join_path_exec("/usr/bin", "ls"), "/usr/bin/ls");
    assert_eq!(join_path_exec("/usr/bin/", "ls"), "/usr/bin/ls");
    assert_eq!(join_path_exec("", "ls"), "ls");
}

#[test]
fn exact_search_returns_earliest_directory_match() {
    let paths = strings(&["/a", "/b", "/c"]);
    let exts: Vec<String> = Vec::new();
    let execs = strings(&["/b/tool", "/c/tool"]);
    let found = search_exact_in(paths, "tool", &exts, &execs);
    assert_eq!(found, Some("/b/tool".to_string()));
}

#[test]
fn exact_search_prefers_earlier_candidate_filename() {
    let paths = strings(&["/a"]);
    let exts = strings(&[".exe"]);
    let execs = strings(&["/a/tool.exe", "/a/tool"]);
    let found = search_exact_in(paths, "tool", &exts, &execs);
    assert_eq!(found, Some("/a/tool".to_string()));
}

#[test]
fn exact_search_misses_when_nothing_matches() {
    let paths = strings(&["/a", "/b"]);
    let exts: Vec<String> = Vec::new();
    let execs = strings(&["/c/tool"]);
    assert_eq!(search_exact_in(paths, "tool", &exts, &execs), None);
}

#[test]
fn exact_search_over_empty_directory_list_is_empty() {
    let exts: Vec<String> = Vec::new();
    let execs = strings(&["/a/tool"]);
    assert_eq!(search_exact_in(Vec::new(), "tool", &exts, &execs), None);
}

#[test]
fn exact_search_state_machine_probes_nothing_on_empty_list() {
    let exts: Vec<String> = Vec::new();
    let search: ExecutablePathSearch = search_for_executable(Vec::new(), "tool", &exts);
    assert_eq!(search.next_probe(), None);
}

#[test]
fn exact_search_state_machine_walks_candidates_in_order() {
    let exts = strings(&[".exe"]);
    let mut search = search_for_executable(strings(&["/a", "/b"]), "tool", &exts);
    assert_eq!(search.next_probe(), Some("/a/tool".to_string()));
    search.record_probe(false);
    assert_eq!(search.next_probe(), Some("/a/tool.exe".to_string()));
    search.record_probe(false);
    assert_eq!(search.next_probe(), Some("/b/tool".to_string()));
    search.record_probe(true);
    assert_eq!(search.next_probe(), None);
}

fn entry(name: &str, is_exec_file: bool) -> ListedEntry {
    ListedEntry {
        name: name.to_string(),
        is_exec_file,
    }
}

#[test]
fn prefix_search_keeps_directory_priority_and_listing_order() {
    let paths = strings(&["/a", "/b"]);
    let listings = vec![
        vec![entry("gig", true), entry("git", true), entry("other", true)],
        vec![entry("gist", true)],
    ];
    let found = search_prefix_in(paths, "gi", false, &listings);
    assert_eq!(found, strings(&["/a/gig", "/a/git", "/b/gist"]));
}

#[test]
fn prefix_search_skips_non_executables_and_non_matches() {
    let paths = strings(&["/a"]);
    let listings = vec![vec![
        entry("git", false),
        entry("xgit", true),
        entry("gift", true),
    ]];
    let found = search_prefix_in(paths, "gi", false, &listings);
    assert_eq!(found, strings(&["/a/gift"]));
}

#[test]
fn prefix_search_case_insensitive_folds_both_sides() {
    let paths = strings(&["/a"]);
    let listings = vec![vec![entry("GIT", true), entry("gib", true), entry("no", true)]];
    let found = search_prefix_in(paths, "Gi", true, &listings);
    assert_eq!(found, strings(&["/a/GIT", "/a/gib"]));
}

#[test]
fn prefix_search_case_sensitive_by_default() {
    let paths = strings(&["/a"]);
    let listings = vec![vec![entry("GIT", true), entry("git", true)]];
    let found = search_prefix_in(paths, "gi", false, &listings);
    assert_eq!(found, strings(&["/a/git"]));
}

#[test]
fn prefix_search_over_empty_directory_list_is_empty() {
    let listings: Vec<Vec<ListedEntry>> = Vec::new();
    let found = search_prefix_in(Vec::new(), "gi", false, &listings);
    assert!(found.is_empty());
}

#[test]
fn prefix_search_state_machine_lists_nothing_on_empty_list() {
    let mut search = search_for_executable_with_prefix(Vec::new(), "gi", false);
    assert_eq!(search.next_directory(), None);
}

#[test]
fn prefix_search_buffers_one_directory_at_a_time() {
    let mut search = search_for_executable_with_prefix(strings(&["/a", "/b"]), "gi", false);
    let dir = search.next_directory().unwrap();
    assert_eq!(dir, "/a");
    search.offer_entry("git", "/a/git", true);
    search.offer_entry("gig", "/a/gig", true);
    search.offer_entry("nope", "/a/nope", true);
    assert_eq!(search.pop_queued(), Some("/a/git".to_string()));
    assert_eq!(search.pop_queued(), Some("/a/gig".to_string()));
    assert_eq!(search.pop_queued(), None);
    assert_eq!(search.next_directory(), Some("/b".to_string()));
}

#[test]
fn contains_string_sees_through_views() {
    let v = strings(&["alpha", "beta"]);
    assert!(contains_string(&v, &"beta".to_string()));
    assert!(!contains_string(&v, &"gamma".to_string()));
}

#[test]
fn trailing_separator_does_not_hide_an_extension() {
    let exts = strings(&[".exe"]);
    assert_eq!(candidate_filenames("tool.txt/", &exts), strings(&["tool.txt/"]));
    assert_eq!(candidate_filenames("dir/..", &exts), strings(&["dir/..", "dir/...exe"]));
}
