use csd::cli::{count_modified, prepare, report, select_patterns, FileResult, Report};
use csd::replace::{decide_file, plan_edit, Plan, ReplaceOptions};
use csd::walk::{dedup_paths, sample_is_binary, stdin_path};

/// What a run left behind: its messages, whether it failed, and the files.
struct Outcome {
    stderr: String,
    failed: bool,
}

/// Runs the tool's logic with the file list piped in, on in-memory files.
fn run_piped(args: &[&str], input: &str, files: &mut Vec<(String, String)>) -> Outcome {
    let mut dry_run = false;
    let mut quiet = false;
    let mut patterns: Vec<String> = Vec::new();
    for a in args {
        match *a {
            "--dry-run" => dry_run = true,
            "-q" => quiet = true,
            other => patterns.push(other.to_string()),
        }
    }
    let sel = select_patterns(&patterns, false);
    assert!(sel.from_stdin);
    let setup = match prepare(sel) {
        Ok(s) => s,
        Err(e) => {
            return Outcome { stderr: format!("Error: {}", e.message()), failed: true };
        }
    };
    let mut listed: Vec<String> = Vec::new();
    for line in input.lines() {
        if let Some(p) = stdin_path(line) {
            listed.push(p);
        }
    }
    let mut paths: Vec<String> = Vec::new();
    for p in dedup_paths(listed) {
        if let Some((_, c)) = files.iter().find(|(fp, _)| *fp == p) {
            if !sample_is_binary(Some(c.as_bytes())) {
                paths.push(p);
            }
        }
    }
    let mut stderr = String::new();
    if paths.is_empty() {
        if report(quiet, 0, 0) == Report::NoMatchingFiles {
            stderr.push_str("No matching files found.\n");
        }
        return Outcome { stderr, failed: false };
    }
    let opts = ReplaceOptions { interactive: false, dry_run, quiet };
    let mut results = Vec::new();
    for p in &paths {
        let idx = files.iter().position(|(fp, _)| fp == p).unwrap();
        let content = files[idx].1.clone();
        let result = match plan_edit(&content, &setup.search, &setup.replacement, false) {
            Plan::Replaced(new) => {
                let dec = decide_file(&content, new, &opts);
                if let Some(n) = dec.notice {
                    stderr.push_str(&format!("{}{}\n", n.prefix(), p));
                }
                if let Some(w) = dec.write {
                    files[idx].1 = w;
                }
                if dec.modified {
                    FileResult::Modified
                } else {
                    FileResult::Unchanged
                }
            }
            _ => FileResult::Unchanged,
        };
        results.push(result);
    }
    let modified = count_modified(&results);
    if let Report::Done { processed, modified } = report(quiet, paths.len(), modified) {
        stderr.push_str(&format!("\nDone. Processed {} files, modified {}.\n", processed, modified));
    }
    Outcome { stderr, failed: false }
}

fn dir_file(name: &str) -> String {
    format!("/tmp/e2e/{}", name)
}

fn new_files(entries: &[(&str, &str)]) -> Vec<(String, String)> {
    entries.iter().map(|(p, c)| (dir_file(p), c.to_string())).collect()
}

fn list(paths: &[&str]) -> String {
    paths.iter().map(|p| dir_file(p)).collect::<Vec<_>>().join("\n")
}

fn content_of(files: &Vec<(String, String)>, name: &str) -> String {
    files.iter().find(|(p, _)| *p == dir_file(name)).unwrap().1.clone()
}

#[test]
fn test_basic_replace() {
    let mut files = new_files(&[("test.txt", "hello world\nhello again")]);
    let out = run_piped(&["hello", "goodbye"], &list(&["test.txt"]), &mut files);
    assert!(!out.failed);
    assert!(out.stderr.contains("modified 1"));
    assert_eq!(content_of(&files, "test.txt"), "goodbye world\ngoodbye again");
}

#[test]
fn test_multiple_files() {
    let mut files = new_files(&[("file1.txt", "old"), ("file2.txt", "old"), ("file3.txt", "old")]);
    let out = run_piped(&["old", "new"], &list(&["file1.txt", "file2.txt", "file3.txt"]), &mut files);
    assert!(out.stderr.contains("modified 3"));
    assert_eq!(content_of(&files, "file1.txt"), "new");
    assert_eq!(content_of(&files, "file2.txt"), "new");
    assert_eq!(content_of(&files, "file3.txt"), "new");
}

#[test]
fn test_dry_run() {
    let mut files = new_files(&[("test.txt", "original")]);
    let out = run_piped(&["--dry-run", "original", "modified"], &list(&["test.txt"]), &mut files);
    assert!(!out.failed);
    assert_eq!(content_of(&files, "test.txt"), "original");
}

#[test]
fn test_quiet_mode() {
    let mut files = new_files(&[("test.txt", "hello")]);
    let out = run_piped(&["-q", "hello", "world"], &list(&["test.txt"]), &mut files);
    assert!(out.stderr.is_empty());
    assert_eq!(content_of(&files, "test.txt"), "world");
}

#[test]
fn test_regex_pattern() {
    let mut files = new_files(&[("test.txt", "foo123 bar456")]);
    run_piped(&[r"\d+", "XXX"], &list(&["test.txt"]), &mut files);
    assert_eq!(content_of(&files, "test.txt"), "fooXXX barXXX");
}

#[test]
fn test_backreferences_dollar_style() {
    let mut files = new_files(&[("test.txt", "hello world")]);
    run_piped(&[r"(\w+) (\w+)", "$2 $1"], &list(&["test.txt"]), &mut files);
    assert_eq!(content_of(&files, "test.txt"), "world hello");
}

#[test]
fn test_backreferences_backslash_style() {
    let mut files = new_files(&[("test.txt", "hello world")]);
    run_piped(&[r"(\w+) (\w+)", r"\2 \1"], &list(&["test.txt"]), &mut files);
    assert_eq!(content_of(&files, "test.txt"), "world hello");
}

#[test]
fn test_no_matches_found() {
    let mut files = new_files(&[("test.txt", "content")]);
    let out = run_piped(&["nonexistent", "replacement"], &list(&["test.txt"]), &mut files);
    assert!(out.stderr.contains("modified 0"));
    assert_eq!(content_of(&files, "test.txt"), "content");
}

#[test]
fn test_invalid_regex() {
    let mut files = new_files(&[]);
    let out = run_piped(&["[invalid", "replacement"], "", &mut files);
    assert!(out.failed);
    assert!(out.stderr.contains("Invalid search pattern"));
}

#[test]
fn test_nested_directories() {
    let mut files = new_files(&[("a/b/c/deep.txt", "find me"), ("x/y/z/deep.txt", "find me")]);
    let out = run_piped(&["find me", "found you"], &list(&["a/b/c/deep.txt", "x/y/z/deep.txt"]), &mut files);
    assert!(out.stderr.contains("modified 2"));
    assert_eq!(content_of(&files, "a/b/c/deep.txt"), "found you");
    assert_eq!(content_of(&files, "x/y/z/deep.txt"), "found you");
}

#[test]
fn test_multiline_content() {
    let mut files = new_files(&[("test.txt", "line1\nfind this\nline3\nfind this\nline5")]);
    run_piped(&["find this", "replaced"], &list(&["test.txt"]), &mut files);
    assert_eq!(content_of(&files, "test.txt"), "line1\nreplaced\nline3\nreplaced\nline5");
}

#[test]
fn test_special_characters_in_replacement() {
    let mut files = new_files(&[("test.txt", "placeholder")]);
    run_piped(&["placeholder", "@special#chars!&more"], &list(&["test.txt"]), &mut files);
    assert_eq!(content_of(&files, "test.txt"), "@special#chars!&more");
}

#[test]
fn test_empty_file() {
    let mut files = new_files(&[("empty.txt", "")]);
    let out = run_piped(&["nothing", "something"], &list(&["empty.txt"]), &mut files);
    assert!(out.stderr.contains("modified 0"));
    assert_eq!(content_of(&files, "empty.txt"), "");
}

#[test]
fn test_file_with_no_matches() {
    let mut files = new_files(&[("test.txt", "no matches here")]);
    let out = run_piped(&["xyz", "abc"], &list(&["test.txt"]), &mut files);
    assert!(out.stderr.contains("modified 0"));
    assert_eq!(content_of(&files, "test.txt"), "no matches here");
}

#[test]
fn test_case_sensitive_matching() {
    let mut files = new_files(&[("test.txt", "Hello HELLO hello")]);
    run_piped(&["hello", "hi"], &list(&["test.txt"]), &mut files);
    assert_eq!(content_of(&files, "test.txt"), "Hello HELLO hi");
}

#[test]
fn e2e_test_piped_empty_list() {
    let mut files = new_files(&[]);
    let out = run_piped(&["search", "replace"], "", &mut files);
    assert!(!out.failed);
    assert!(out.stderr.contains("No matching files found"));
}

#[test]
fn e2e_test_piped_with_nonexistent_file() {
    let mut files = new_files(&[("exists.txt", "content")]);
    let input = format!("{}\n{}/nonexistent.txt", dir_file("exists.txt"), "/tmp/e2e");
    run_piped(&["content", "replaced"], &input, &mut files);
    assert_eq!(content_of(&files, "exists.txt"), "replaced");
}

#[test]
fn e2e_test_piped_files_with_spaces() {
    let mut files = new_files(&[("file with spaces.txt", "content")]);
    run_piped(&["content", "changed"], &list(&["file with spaces.txt"]), &mut files);
    assert_eq!(content_of(&files, "file with spaces.txt"), "changed");
}

#[test]
fn test_mixed_file_types() {
    let mut files = new_files(&[("file.txt", "replace"), ("file.md", "replace"), ("file.rs", "replace")]);
    let out = run_piped(&["replace", "done"], &list(&["file.txt", "file.md", "file.rs"]), &mut files);
    assert!(out.stderr.contains("modified 3"));
    assert_eq!(content_of(&files, "file.txt"), "done");
    assert_eq!(content_of(&files, "file.md"), "done");
    assert_eq!(content_of(&files, "file.rs"), "done");
}

#[test]
fn test_complex_regex() {
    let mut files = new_files(&[("test.txt", "func(foo, bar)")]);
    run_piped(&[r"func\(([^,]+), ([^)]+)\)", r"function($1, $2)"], &list(&["test.txt"]), &mut files);
    assert_eq!(content_of(&files, "test.txt"), "function(foo, bar)");
}

#[test]
fn test_unicode_content() {
    let mut files = new_files(&[("test.txt", "Hello 世界 🌍")]);
    run_piped(&["世界", "World"], &list(&["test.txt"]), &mut files);
    assert_eq!(content_of(&files, "test.txt"), "Hello World 🌍");
}

#[test]
fn test_large_file() {
    let content = "line with pattern\n".repeat(1000);
    let mut files = new_files(&[("large.txt", &content)]);
    run_piped(&["pattern", "replaced"], &list(&["large.txt"]), &mut files);
    assert_eq!(content_of(&files, "large.txt"), "line with replaced\n".repeat(1000));
}
