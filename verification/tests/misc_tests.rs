use dir_tools::args::{LockMode, Operation, RenameTarget};
use dir_tools::flatten::{flatten_destination, FlattenNamer};
use dir_tools::lock::{format_duration, lock_progress_lines, lock_step, LockStep};
use dir_tools::operations::{process_directory, resolve_path, DispatchError};
use dir_tools::tree::{is_shown, render_tree, TreeConfig, TreeEntry};

#[test]
fn duration_is_minutes_and_seconds() {
    assert_eq!(format_duration(0), "00:00");
    assert_eq!(format_duration(59), "00:59");
    assert_eq!(format_duration(61), "01:01");
    assert_eq!(format_duration(6000), "100:00");
}

#[test]
fn lock_lines_count_down() {
    let (status, progress) = lock_progress_lines("/f", 30, 90);
    assert_eq!(status, "Блокировка файла: /f | Осталось: 01:00");
    assert_eq!(progress, "Прошло 00:30 из 01:30");
}

#[test]
fn lock_steps() {
    assert!(matches!(lock_step(Some(2), 1_000_000_000, false), LockStep::Continue));
    assert!(matches!(lock_step(Some(2), 1_000_000_000, true), LockStep::Interrupted));
    assert!(matches!(lock_step(Some(2), 2_000_000_000, true), LockStep::Finished));
    assert!(matches!(lock_step(None, 5, false), LockStep::Continue));
    assert!(matches!(lock_step(None, 5, true), LockStep::Interrupted));
}

#[test]
fn lock_mode_access() {
    assert_eq!(LockMode::Read.access(), (true, false));
    assert_eq!(LockMode::ReadWrite.access(), (true, true));
}

#[test]
fn flatten_names_count_up() {
    let mut namer = FlattenNamer::new();
    let a = flatten_destination(&namer, "a.txt", false);
    assert_eq!(a, "a.txt");
    namer.record(&a);
    let b = flatten_destination(&namer, "a.txt", false);
    assert_eq!(b, "a (1).txt");
    namer.record(&b);
    let c = flatten_destination(&namer, "a.txt", false);
    assert_eq!(c, "a (1) (2).txt");
}

#[test]
fn flatten_names_without_extension() {
    let mut namer = FlattenNamer::new();
    for expected in ["notes", "notes (1)", "notes (2)"] {
        let n = namer.next_destination("notes");
        assert_eq!(n, expected);
        namer.record(&n);
    }
    let mut namer = FlattenNamer::new();
    for expected in [".bashrc", ".bashrc (1)", ".bashrc (2)"] {
        let n = namer.next_destination(".bashrc");
        assert_eq!(n, expected);
        namer.record(&n);
    }
}

#[test]
fn flatten_replace_mode_keeps_name() {
    let mut namer = FlattenNamer::new();
    namer.record("a.txt");
    assert_eq!(flatten_destination(&namer, "a.txt", true), "a.txt");
}

#[test]
fn resolve_relative_and_absolute() {
    assert_eq!(resolve_path("/abs", None, false), Some("/abs".to_string()));
    assert_eq!(resolve_path("rel", Some("/home/u"), false), Some("/home/u/rel".to_string()));
    assert_eq!(resolve_path("rel", Some("/home/u/"), false), Some("/home/u/rel".to_string()));
    assert_eq!(resolve_path("rel", None, false), None);
}

#[test]
fn dispatch_makes_paths_absolute() {
    let op = Operation::Flatten {
        directory: "src".to_string(),
        output: Some("out".to_string()),
        move_files: true,
        replace_newest: false,
    };
    match process_directory(&op, Some("/w"), false).ok().unwrap() {
        Operation::Flatten { directory, output, move_files, replace_newest } => {
            assert_eq!(directory, "/w/src");
            assert_eq!(output, Some("/w/out".to_string()));
            assert!(move_files);
            assert!(!replace_newest);
        },
        _ => panic!("wrong operation"),
    }
}

#[test]
fn dispatch_without_current_directory() {
    let op = Operation::Rename {
        directory: "src".to_string(),
        target_type: RenameTarget::Files,
        find: "a".to_string(),
        replace: "b".to_string(),
    };
    assert!(matches!(process_directory(&op, None, false), Err(DispatchError::NoCurrentDirectory)));
    let op = Operation::Flatten { directory: "/abs".to_string(), output: Some("out".to_string()), move_files: false, replace_newest: false };
    match process_directory(&op, None, false).ok().unwrap() {
        Operation::Flatten { output, .. } => assert_eq!(output, Some("out".to_string())),
        _ => panic!("wrong operation"),
    }
}

fn entry(path: &str, is_file: bool, content: Option<&str>) -> TreeEntry {
    let name = std::path::Path::new(path).file_name().unwrap().to_string_lossy().into_owned();
    TreeEntry { path: path.to_string(), name, is_file, content: content.map(|c| c.to_string()) }
}

#[test]
fn tree_draws_levels() {
    let es = vec![
        entry("/r/a", false, None),
        entry("/r/a/x.txt", true, Some("1\n2\n3\n4\n5\n6\n")),
        entry("/r/b.txt", true, None),
    ];
    let cfg = TreeConfig { show_content: true, full_content: false, max_depth: 0, windows: false };
    let lines = render_tree("/r", &es, cfg);
    assert_eq!(
        lines,
        vec![
            "/r", "└── a/", "    ├── x.txt", "    │   │ 1", "    │   │ 2", "    │   │ 3", "    │   │ 4",
            "    │   │ 5", "    │   │ ...", "└── b.txt",
        ]
    );
}

#[test]
fn tree_respects_depth() {
    let es = vec![entry("/r/a", false, None), entry("/r/a/x.txt", true, None)];
    let cfg = TreeConfig { show_content: false, full_content: false, max_depth: 1, windows: false };
    assert_eq!(render_tree("/r/", &es, cfg), vec!["/r/", "└── a/"]);
}

#[test]
fn hidden_entries() {
    assert!(!is_shown(".git", true, false));
    assert!(is_shown(".git", true, true));
    assert!(is_shown(".git", false, false));
    assert!(is_shown("src", true, false));
}

#[test]
fn resolving_twice_changes_nothing() {
    let once = resolve_path("a/b", Some("/work"), false).unwrap();
    assert_eq!(once, "/work/a/b");
    assert_eq!(resolve_path(&once, Some("/elsewhere"), false), Some(once.clone()));
    assert_eq!(resolve_path(&once, None, false), Some(once));
}

#[test]
fn tree_full_content_shows_every_line() {
    let es = vec![entry("/r/x.txt", true, Some("1\n2\n3\n4\n5\n6\n7"))];
    let cfg = TreeConfig { show_content: true, full_content: true, max_depth: 0, windows: false };
    let lines = render_tree("/r", &es, cfg);
    assert_eq!(lines.len(), 1 + 1 + 7);
    assert_eq!(lines[8], "    │ 7");
}

#[test]
fn windows_paths_resolve_by_windows_rules() {
    assert_eq!(resolve_path("C:\\data", Some("C:\\cwd"), true), Some("C:\\data".to_string()));
    assert_eq!(resolve_path("x\\y", Some("C:\\cwd"), true), Some("C:\\cwd\\x\\y".to_string()));
    assert_eq!(resolve_path("\\\\srv\\sh\\x", Some("C:\\cwd"), true), Some("\\\\srv\\sh\\x".to_string()));
    assert_eq!(resolve_path("\\temp", Some("C:\\cwd"), true), Some("C:\\temp".to_string()));
    assert_eq!(resolve_path("C:\\data", None, true), Some("C:\\data".to_string()));
    // Under Unix rules the same text is relative.
    assert_eq!(resolve_path("C:\\data", Some("/cwd"), false), Some("/cwd/C:\\data".to_string()));
}
