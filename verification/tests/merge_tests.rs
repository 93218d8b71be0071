use dir_tools::glob::{glob_to_regex, paths_case_insensitive};
use dir_tools::merge::{
    build_merge_plan, check_merge_walk, destination_in_roots, find_root, plan_needs_children, MergeAction,
    MergeError, WalkItem,
};

#[test]
fn glob_star_suffix_matches_end() {
    let re = glob_to_regex("*snap", paths_case_insensitive());
    assert!(re.is_match("mysnap"));
    assert!(re.is_match("snap"));
    assert!(!re.is_match("snapA"));
    assert!(!re.is_match("snap/sub"));
}

#[test]
fn glob_s_p_anchors_start_and_end() {
    let re = glob_to_regex("s*p", paths_case_insensitive());
    assert!(re.is_match("snap"));
    assert!(re.is_match("sp"));
    assert!(!re.is_match("mysnap"));
    assert!(!re.is_match("snapshot"));
}

#[test]
fn glob_prefix_star() {
    let re = glob_to_regex("snap*", paths_case_insensitive());
    assert!(re.is_match("snapA"));
    assert!(re.is_match("snapB"));
    assert!(!re.is_match("mysnap"));
}

#[test]
fn glob_question_single_char() {
    let re = glob_to_regex("snap?", paths_case_insensitive());
    assert!(re.is_match("snapA"));
    assert!(!re.is_match("snap"));
    assert!(!re.is_match("snapAA"));
}

#[test]
fn glob_star_does_not_cross_slash() {
    let re = glob_to_regex("*", paths_case_insensitive());
    assert!(re.is_match("sub"));
    assert!(re.is_match(""));
    assert!(!re.is_match("a/b"));
}

#[test]
fn glob_literal_escapes_specials() {
    let re = glob_to_regex("s.p", paths_case_insensitive());
    assert!(re.is_match("s.p"));
    assert!(!re.is_match("sxp"));
}

#[test]
fn glob_nested_path() {
    let re = glob_to_regex("snapA/sub", paths_case_insensitive());
    assert!(re.is_match("snapA/sub"));
    assert!(!re.is_match("snapA/sub/x"));
    assert!(!re.is_match("snapB/sub"));
}

#[test]
fn glob_expression_text_is_anchored_and_escaped() {
    let re = glob_to_regex("a*b?(c)", false);
    assert_eq!(re.as_str(), "^a[^/]*b[^/]\\(c\\)$");
    let re = glob_to_regex("x", true);
    assert_eq!(re.as_str(), "(?i)^x$");
}

#[test]
fn glob_case_flag_ignores_case() {
    let re = glob_to_regex("Snap*", true);
    assert!(re.is_match("snapA"));
    let re = glob_to_regex("Snap*", false);
    assert!(!re.is_match("snapA"));
}

#[test]
fn find_root_matches_deepest() {
    let roots = vec!["snapA".to_string(), "snapA/sub".to_string()];

    assert_eq!(find_root("snapA/f.txt", &roots), Some("snapA".to_string()));
    assert_eq!(find_root("snapA/sub/f.txt", &roots), Some("snapA/sub".to_string()));
    assert_eq!(find_root("snapB/f.txt", &roots), None);
}

#[test]
fn find_root_reads_components() {
    let roots = vec!["a/b".to_string()];
    assert_eq!(find_root("a//b/c", &roots), Some("a/b".to_string()));
    assert_eq!(find_root("a/./b/c", &roots), Some("a/b".to_string()));
    assert_eq!(find_root("a", &roots), None);
}

#[test]
fn destination_is_path_past_root() {
    let roots = vec!["snapA".to_string(), "snapA/sub".to_string()];
    assert_eq!(destination_in_roots("snapA/sub/x/f.txt", &roots), Some("x/f.txt".to_string()));
    assert_eq!(destination_in_roots("snapA/f.txt", &roots), Some("f.txt".to_string()));
    assert_eq!(destination_in_roots("snapA", &roots), Some("".to_string()));
    assert_eq!(destination_in_roots("other/f.txt", &roots), None);
}

#[test]
fn build_merge_plan_glob_compiles_patterns() {
    let from = vec!["snap*".to_string()];
    let plan = build_merge_plan(Some(&from), &Vec::new(), paths_case_insensitive());
    assert_eq!(plan.root_patterns.len(), 1);
    assert!(plan.roots.is_empty());
}

#[test]
fn build_merge_plan_default_finds_direct_children() {
    // The directories directly under the merged directory, as listing it gives them
    // ("snapA/sub" lies deeper and is not listed).
    let children = vec!["snapA".to_string(), "snapB".to_string(), "mysnap".to_string()];

    assert!(plan_needs_children(None));
    let plan = build_merge_plan(None, &children, paths_case_insensitive());
    let mut keys: Vec<&String> = plan.roots.iter().collect();
    keys.sort();
    assert_eq!(keys, vec!["mysnap", "snapA", "snapB"]);
}

#[test]
fn plan_from_children_writes_forward_slashes_and_drops_empty() {
    let children = vec!["a\\b".to_string(), "".to_string(), "c".to_string(), "c".to_string()];
    let plan = build_merge_plan(None, &children, paths_case_insensitive());
    let mut keys = plan.roots.clone();
    keys.sort();
    assert_eq!(keys, vec!["a/b".to_string(), "c".to_string()]);
}

#[test]
fn empty_from_list_uses_children() {
    let empty: Vec<String> = Vec::new();
    assert!(plan_needs_children(Some(&empty)));
    assert!(!plan_needs_children(Some(&vec!["x".to_string()])));
}

fn item(rel: &str, is_dir: bool) -> WalkItem {
    WalkItem { rel: rel.to_string(), is_dir }
}

fn scenario_items() -> Vec<WalkItem> {
    vec![
        item("", true),
        item("a", true),
        item("a/empty", true),
        item("a/only_a.txt", false),
        item("a/readme.md", false),
        item("a/sub", true),
        item("a/sub/config.txt", false),
        item("b", true),
        item("b/empty", true),
        item("b/readme.md", false),
        item("b/sub", true),
        item("b/sub/config.txt", false),
        item("loose.txt", false),
    ]
}

fn describe(acts: &[MergeAction]) -> Vec<String> {
    acts.iter()
        .map(|a| match a {
            MergeAction::CreateDir(d) => format!("dir {d}"),
            MergeAction::Transfer { entry, dest } => format!("file {entry} -> {dest}"),
        })
        .collect()
}

#[test]
fn merge_walk_from_children_lands_files_past_snapshots() {
    let children = vec!["a".to_string(), "b".to_string()];
    let mut plan = build_merge_plan(None, &children, paths_case_insensitive());
    let acts = plan.collect(&scenario_items());
    assert_eq!(
        describe(&acts),
        vec![
            "dir ", "dir empty", "file 3 -> only_a.txt", "file 4 -> readme.md", "dir sub",
            "file 6 -> sub/config.txt", "dir ", "dir empty", "file 9 -> readme.md", "dir sub",
            "file 11 -> sub/config.txt",
        ]
    );
    assert!(check_merge_walk(&plan, &acts).is_ok());
}

#[test]
fn merge_walk_with_globs_takes_matching_directories() {
    let from = vec!["a".to_string(), "b".to_string()];
    let mut plan = build_merge_plan(Some(&from), &Vec::new(), paths_case_insensitive());
    let acts = plan.collect(&scenario_items());
    let mut roots = plan.roots.clone();
    roots.sort();
    assert_eq!(roots, vec!["a".to_string(), "b".to_string()]);
    assert_eq!(acts.len(), 11);
}

#[test]
fn unmatched_globs_find_no_snapshot() {
    let from = vec!["nope*".to_string()];
    let mut plan = build_merge_plan(Some(&from), &Vec::new(), paths_case_insensitive());
    let acts = plan.collect(&scenario_items());
    assert!(acts.is_empty());
    assert!(matches!(check_merge_walk(&plan, &acts), Err(MergeError::NoSnapshots)));
}

#[test]
fn merge_with_empty_snapshots_has_no_files() {
    let children = vec!["a".to_string()];
    let mut plan = build_merge_plan(None, &children, paths_case_insensitive());
    let acts = plan.collect(&vec![item("a", true), item("a/d", true)]);
    assert!(matches!(check_merge_walk(&plan, &acts), Err(MergeError::NoFiles)));
}

#[test]
fn backslash_paths_ignore_case() {
    assert!(dir_tools::glob::separator_ignores_case('\\'));
    assert!(!dir_tools::glob::separator_ignores_case('/'));
}

#[test]
fn plan_globs_are_the_globs_of_glob_to_regex() {
    let from = vec!["Snap*".to_string(), "x?".to_string()];
    for flag in [false, true] {
        let plan = build_merge_plan(Some(&from), &Vec::new(), flag);
        assert!(plan.roots.is_empty());
        assert_eq!(plan.root_patterns.len(), 2);
        for (i, p) in from.iter().enumerate() {
            assert_eq!(plan.root_patterns[i].as_str(), glob_to_regex(p, flag).as_str());
            for s in ["snapA", "SnapA", "xy", "xyz"] {
                assert_eq!(plan.root_patterns[i].is_match(s), glob_to_regex(p, flag).is_match(s));
            }
        }
    }
}
