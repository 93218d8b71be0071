use dir_tools::paths::{components_exec, output_dir_beside, safe_file_name, safe_parent_dir, windows_paths};
use dir_tools::text::{str_contains, text_lines_exec};

#[test]
fn parent_dir_follows_std_path() {
    assert_eq!(safe_parent_dir("/foo/bar", false), Some("/foo".to_string()));
    assert_eq!(safe_parent_dir("/foo", false), Some("/".to_string()));
    assert_eq!(safe_parent_dir("/", false), None);
    assert_eq!(safe_parent_dir("", false), None);
    assert_eq!(safe_parent_dir("foo", false), Some("".to_string()));
    assert_eq!(safe_parent_dir("foo/bar/", false), Some("foo".to_string()));
    assert_eq!(safe_parent_dir("a//b", false), Some("a".to_string()));
    assert_eq!(safe_parent_dir("./a", false), Some(".".to_string()));
}

#[test]
fn parent_dir_agrees_with_std_on_samples() {
    for p in ["/foo/bar", "/foo", "/", "", "foo", "foo/bar/", "a//b", "./a", "a/./b", "..", "a/..", "/.", "x/y/."] {
        let expected = std::path::Path::new(p).parent().map(|q| q.to_string_lossy().into_owned());
        assert_eq!(safe_parent_dir(p, windows_paths()), expected, "parent of {p:?}");
        let expected = std::path::Path::new(p).file_name().map(|q| q.to_string_lossy().into_owned());
        assert_eq!(safe_file_name(p, windows_paths()), expected, "file name of {p:?}");
    }
}

#[test]
fn file_name_follows_std_path() {
    assert_eq!(safe_file_name("/usr/bin/", false), Some("bin".to_string()));
    assert_eq!(safe_file_name("tmp/foo.txt", false), Some("foo.txt".to_string()));
    assert_eq!(safe_file_name("foo.txt/.", false), Some("foo.txt".to_string()));
    assert_eq!(safe_file_name("foo.txt/.//", false), Some("foo.txt".to_string()));
    assert_eq!(safe_file_name("foo.txt/..", false), None);
    assert_eq!(safe_file_name("/", false), None);
}

#[test]
fn output_beside_executable() {
    assert_eq!(output_dir_beside("/opt/tool/dirt", "merged_files", false), "/opt/tool/merged_files");
    assert_eq!(output_dir_beside("dirt", "flattened_files", false), "flattened_files");
}

#[test]
fn contains_finds_substrings() {
    assert!(str_contains("hello world", "lo w"));
    assert!(str_contains("abc", ""));
    assert!(!str_contains("abc", "abcd"));
    assert!(!str_contains("", "a"));
}

#[test]
fn lines_follow_str_lines() {
    for s in ["", "a", "a\n", "a\nb", "a\r\nb\r\n", "\n", "a\n\nb", "x\r"] {
        let expected: Vec<String> = s.lines().map(|l| l.to_string()).collect();
        assert_eq!(text_lines_exec(s), expected, "lines of {s:?}");
    }
}

#[test]
fn parent_joined_with_file_name_gives_the_path_back() {
    for p in ["/foo/bar", "/foo", "foo", "foo/bar/", "a//b", "./a", "a/./b", "x/y/.", "/a/b//"] {
        let parent = safe_parent_dir(p, windows_paths()).unwrap();
        let name = safe_file_name(p, windows_paths()).unwrap();
        assert_eq!(std::path::Path::new(&parent).join(&name), std::path::Path::new(p), "path {p:?}");
    }
}

#[test]
fn windows_rules_read_backslashes_and_prefixes() {
    assert_eq!(safe_parent_dir("C:\\a\\b.txt", true), Some("C:\\a".to_string()));
    assert_eq!(safe_parent_dir("a\\b.txt", true), Some("a".to_string()));
    assert_eq!(safe_parent_dir("C:\\a", true), Some("C:\\".to_string()));
    assert_eq!(safe_parent_dir("C:\\", true), None);
    assert_eq!(safe_parent_dir("C:", true), None);
    assert_eq!(safe_parent_dir("C:a", true), Some("C:".to_string()));
    assert_eq!(safe_parent_dir("\\\\server\\share\\x", true), Some("\\\\server\\share\\".to_string()));
    assert_eq!(safe_parent_dir("\\\\server\\share", true), None);
    assert_eq!(safe_file_name("a\\b.txt", true), Some("b.txt".to_string()));
    assert_eq!(safe_file_name("C:\\a\\", true), Some("a".to_string()));
    assert_eq!(safe_file_name("C:\\", true), None);
    assert_eq!(safe_file_name("\\\\server\\share", true), None);
    // Under Unix rules a backslash is an ordinary character.
    assert_eq!(safe_file_name("a\\b.txt", false), Some("a\\b.txt".to_string()));
}

#[test]
fn windows_rules_join_with_backslashes() {
    assert_eq!(output_dir_beside("C:\\tools\\dirt.exe", "merged_files", true), "C:\\tools\\merged_files");
    assert_eq!(output_dir_beside("/opt/dirt", "merged_files", false), "/opt/merged_files");
}

#[test]
fn windows_parent_then_file_name_gives_the_components() {
    for p in ["C:\\a\\b.txt", "a\\b", "C:a", "C:\\a\\", "\\\\srv\\sh\\x\\y", "\\x", "a/b\\c"] {
        let chars: Vec<char> = p.chars().collect();
        let parent: Vec<char> = safe_parent_dir(p, true).unwrap().chars().collect();
        let name: Vec<char> = safe_file_name(p, true).unwrap().chars().collect();
        let mut expected = components_exec(&parent, true);
        expected.push(name);
        assert_eq!(components_exec(&chars, true), expected, "path {p:?}");
    }
}
