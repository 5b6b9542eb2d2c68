use release_notes::changelog::{assemble, collect_entries, generate_changelog, render_output};
use release_notes::classify::{classify_line, Category};
use release_notes::pathspec::{any_path_relevant_exec, get_pathspecs, path_relevant_exec};
use release_notes::strutil::{first_line, str_eq, str_starts_with};
use release_notes::tags::resolve_previous_version;
use release_notes::version::{increment, parse_version, IncKind, Version};
use release_notes::walker::{walk, CommitGraph, CommitInfo};

fn commit(parents: Vec<usize>, message: &str, diffs: Vec<Vec<&str>>) -> CommitInfo {
    CommitInfo {
        parents,
        message: message.to_string(),
        parent_changed_paths: diffs
            .into_iter()
            .map(|paths| paths.into_iter().map(|p| p.to_string()).collect())
            .collect(),
    }
}

fn tag_list(tags: &[&str]) -> Vec<String> {
    tags.iter().map(|t| t.to_string()).collect()
}

#[test]
fn resolves_max_version_in_namespace() {
    let tags = tag_list(&["app/1.2.3", "app/1.3.0", "other/9.9.9"]);
    let prev = resolve_previous_version(&tags, "app");
    assert_eq!(prev.to_string(), "1.3.0");
    let next = increment(&prev, IncKind::Patch);
    assert_eq!(next.to_string(), "1.3.1");
}

#[test]
fn tags_outside_namespace_never_affect_result() {
    let tags = tag_list(&["other/9.9.9", "app/extra/7.7.7", "noslashtag"]);
    let prev = resolve_previous_version(&tags, "app");
    assert_eq!(prev.to_string(), "0.0.0");
}

#[test]
fn malformed_version_text_degrades_to_zero() {
    let tags = tag_list(&["app/garbage"]);
    assert_eq!(resolve_previous_version(&tags, "app").to_string(), "0.0.0");
    let tags = tag_list(&["app/garbage", "app/0.0.1"]);
    assert_eq!(resolve_previous_version(&tags, "app").to_string(), "0.0.1");
}

#[test]
fn no_tags_resolves_to_zero() {
    let tags: Vec<String> = Vec::new();
    assert_eq!(resolve_previous_version(&tags, "app").to_string(), "0.0.0");
}

#[test]
fn registry_has_fixed_table() {
    assert_eq!(get_pathspecs("admin"), vec!["admin/"]);
    assert_eq!(get_pathspecs("api"), vec!["server/"]);
    assert_eq!(get_pathspecs("ios"), vec!["client/ios", "client/app"]);
    assert_eq!(get_pathspecs("android"), vec!["client/android", "client/app"]);
    assert_eq!(get_pathspecs("www"), vec!["www/"]);
    assert!(get_pathspecs("blog").is_empty());
}

#[test]
fn relevance_is_prefix_based() {
    let specs = get_pathspecs("ios");
    assert!(path_relevant_exec(&specs, "client/ios/App.swift"));
    assert!(path_relevant_exec(&specs, "client/app/shared.rs"));
    assert!(!path_relevant_exec(&specs, "server/main.rs"));
    let paths = vec!["server/main.rs".to_string(), "client/app/shared.rs".to_string()];
    assert!(any_path_relevant_exec(&specs, &paths));
    let paths = vec!["server/main.rs".to_string()];
    assert!(!any_path_relevant_exec(&specs, &paths));
}

#[test]
fn classification_precedence() {
    let (cat, text) = classify_line("[feature] add X");
    assert_eq!(cat, Category::Feature);
    assert_eq!(text, " add X");
    let (cat, text) = classify_line("[fix] crash on null");
    assert_eq!(cat, Category::Bug);
    assert_eq!(text, " crash on null");
    let (cat, text) = classify_line("[bug] oops");
    assert_eq!(cat, Category::Bug);
    assert_eq!(text, " oops");
    let (cat, text) = classify_line("[chore] bump deps");
    assert_eq!(cat, Category::Chore);
    assert_eq!(text, " bump deps");
    let (cat, text) = classify_line("unrelated change");
    assert_eq!(cat, Category::Other);
    assert_eq!(text, "unrelated change");
}

#[test]
fn short_line_falls_through_to_other() {
    let (cat, text) = classify_line("[f");
    assert_eq!(cat, Category::Other);
    assert_eq!(text, "[f");
    let (cat, text) = classify_line("");
    assert_eq!(cat, Category::Other);
    assert_eq!(text, "");
}

#[test]
fn marker_alone_yields_empty_residual() {
    let (cat, text) = classify_line("[feature]");
    assert_eq!(cat, Category::Feature);
    assert_eq!(text, "");
}

#[test]
fn first_line_stops_at_newline() {
    assert_eq!(first_line("hello\nworld"), "hello");
    assert_eq!(first_line("hello\r\nworld"), "hello");
    assert_eq!(first_line("hello"), "hello");
    assert_eq!(first_line(""), "");
}

#[test]
fn string_helpers() {
    assert!(str_eq("abc", "abc"));
    assert!(!str_eq("abc", "abd"));
    assert!(!str_eq("abc", "ab"));
    assert!(str_starts_with("abcdef", "abc"));
    assert!(!str_starts_with("ab", "abc"));
}

#[test]
fn walk_excludes_commits_reachable_from_exclusion() {
    // chain: 0 (tagged) <- 1 <- 2 (head)
    let g = CommitGraph {
        commits: vec![
            commit(vec![], "a", vec![]),
            commit(vec![0], "b", vec![vec!["www/x"]]),
            commit(vec![1], "c", vec![vec!["www/y"]]),
        ],
    };
    assert_eq!(walk(&g, 2, Some(0)), vec![2, 1]);
    assert_eq!(walk(&g, 2, None), vec![2, 1, 0]);
    assert_eq!(walk(&g, 2, Some(1)), vec![2]);
    assert_eq!(walk(&g, 2, Some(2)), Vec::<usize>::new());
}

#[test]
fn walk_is_topological_on_merges() {
    // diamond: 0 root; 1 and 2 branch; 3 merges them (head)
    let g = CommitGraph {
        commits: vec![
            commit(vec![], "root", vec![]),
            commit(vec![0], "left", vec![vec!["www/a"]]),
            commit(vec![0], "right", vec![vec!["www/b"]]),
            commit(vec![1, 2], "merge", vec![vec!["www/a"], vec!["www/b"]]),
        ],
    };
    let order = walk(&g, 3, None);
    assert_eq!(order, vec![3, 2, 1, 0]);
}

#[test]
fn merge_commit_yields_one_entry_per_relevant_parent_diff() {
    let g = CommitGraph {
        commits: vec![
            commit(vec![], "root", vec![]),
            commit(vec![0], "[feature] left", vec![vec!["www/a"]]),
            commit(vec![0], "other thing", vec![vec!["server/b"]]),
            commit(
                vec![1, 2],
                "[chore] merge",
                vec![vec!["www/merge1"], vec!["www/merge2"]],
            ),
        ],
    };
    let order = walk(&g, 3, None);
    let specs = get_pathspecs("www");
    let entries = collect_entries(&g, &order, &specs);
    let texts: Vec<(Category, String)> = entries
        .iter()
        .map(|e| (e.category, e.text.clone()))
        .collect();
    assert_eq!(
        texts,
        vec![
            (Category::Chore, " merge".to_string()),
            (Category::Chore, " merge".to_string()),
            (Category::Feature, " left".to_string()),
        ]
    );
}

#[test]
fn unknown_app_yields_zero_entries() {
    // non-trivial history, but the app has no registered path prefixes
    let g = CommitGraph {
        commits: vec![
            commit(vec![], "root", vec![]),
            commit(vec![0], "[feature] add X", vec![vec!["www/index.html"]]),
            commit(vec![1], "[bug] fix Y", vec![vec!["server/api.rs"]]),
        ],
    };
    let specs = get_pathspecs("blog");
    let next = parse_version("0.0.1").unwrap();
    let out = generate_changelog(&g, 2, None, &specs, &next);
    assert_eq!(out, "next version should be: 0.0.1\n");
}

#[test]
fn output_groups_by_category_and_omits_empty_groups() {
    let g = CommitGraph {
        commits: vec![
            commit(vec![], "root", vec![]),
            commit(vec![0], "[feature] add X", vec![vec!["www/index.html"]]),
            commit(vec![1], "[fix] crash on null", vec![vec!["www/app.js"]]),
            commit(vec![2], "unrelated change", vec![vec!["www/readme"]]),
            commit(vec![3], "[chore] irrelevant", vec![vec!["server/api.rs"]]),
        ],
    };
    let specs = get_pathspecs("www");
    let next = parse_version("1.3.1").unwrap();
    let out = generate_changelog(&g, 4, None, &specs, &next);
    assert_eq!(
        out,
        "### 🚀 Features\n*  add X\n### 🐛 Fixes\n*  crash on null\n### Everything else\n* unrelated change\nnext version should be: 1.3.1\n"
    );
}

#[test]
fn repeated_invocation_is_byte_identical() {
    let g = CommitGraph {
        commits: vec![
            commit(vec![], "root", vec![]),
            commit(vec![0], "[feature] add X", vec![vec!["www/index.html"]]),
        ],
    };
    let specs = get_pathspecs("www");
    let next = parse_version("0.1.0").unwrap();
    let first = generate_changelog(&g, 1, None, &specs, &next);
    let second = generate_changelog(&g, 1, None, &specs, &next);
    assert_eq!(first, second);
}

#[test]
fn assemble_preserves_order_within_groups() {
    let g = CommitGraph {
        commits: vec![
            commit(vec![], "root", vec![]),
            commit(vec![0], "[feature] one", vec![vec!["www/a"]]),
            commit(vec![1], "[feature] two", vec![vec!["www/b"]]),
        ],
    };
    let order = walk(&g, 2, None);
    let specs = get_pathspecs("www");
    let entries = collect_entries(&g, &order, &specs);
    let log = assemble(&entries);
    // walk order is newest first
    assert_eq!(log.features, vec![" two".to_string(), " one".to_string()]);
    assert!(log.bugs.is_empty());
    assert!(log.chores.is_empty());
    assert!(log.others.is_empty());
    let out = render_output(&log, &parse_version("0.0.1").unwrap());
    assert_eq!(
        out,
        "### 🚀 Features\n*  two\n*  one\nnext version should be: 0.0.1\n"
    );
}

#[test]
fn multiline_message_uses_first_line_only() {
    let g = CommitGraph {
        commits: vec![
            commit(vec![], "root", vec![]),
            commit(
                vec![0],
                "[bug] first line\n\nlonger body\nwith details",
                vec![vec!["admin/page"]],
            ),
        ],
    };
    let order = walk(&g, 1, None);
    let specs = get_pathspecs("admin");
    let entries = collect_entries(&g, &order, &specs);
    assert_eq!(entries.len(), 1);
    assert_eq!(entries[0].category, Category::Bug);
    assert_eq!(entries[0].text, " first line");
}

#[test]
fn versions_with_pre_release_resolve_below_release() {
    let tags = tag_list(&["app/1.0.0-rc.1", "app/1.0.0"]);
    assert_eq!(resolve_previous_version(&tags, "app").to_string(), "1.0.0");
    let tags = tag_list(&["app/1.0.1-rc.1", "app/1.0.0"]);
    assert_eq!(
        resolve_previous_version(&tags, "app").to_string(),
        "1.0.1-rc.1"
    );
}
