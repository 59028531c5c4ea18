use csd::cli::{
    convert_backrefs, count_modified, prepare, report, select_patterns, FileResult, Report, Selection,
    SetupError,
};
use csd::confirm::interpret_response;
use csd::interactive::{Answer, Prompt, Session, Step};
use csd::lines::line_ranges_of;
use csd::pattern::Pattern;
use csd::cli::settle;
use csd::replace::{decide_file, decode_content, plan_edit, read_mode, temp_file_name, Notice, Plan, ReadMode, ReplaceOptions};
use csd::text::str_eq;
use csd::walk::{dedup_paths, in_git_dir, keep_walk_entry, sample_is_binary, stdin_path};

fn pat(s: &str) -> Pattern {
    match Pattern::new(s) {
        Ok(p) => p,
        Err(e) => panic!("pattern {} does not compile: {}", s, e),
    }
}

/// Runs a session, answering with `answers` in turn; returns the prompts
/// seen and the finished text.
fn session(content: &str, search: &str, rep: &str, answers: &[Answer]) -> (Vec<Prompt>, String) {
    let mut prompts = Vec::new();
    let pattern = pat(search);
    let mut step = Session::start(content.to_string(), &pattern, rep.to_string());
    let mut next = 0;
    loop {
        match step {
            Step::Done(text) => return (prompts, text),
            Step::Ask(s, prompt) => {
                prompts.push(prompt);
                let a = answers[next];
                next += 1;
                step = s.answer(a);
            }
        }
    }
}

fn shown(p: &Prompt) -> (String, String, usize, usize, usize) {
    (p.old_line.clone(), p.new_line.clone(), p.line_num, p.match_num, p.total_matches)
}

#[test]
fn lines_split_like_std() {
    for text in ["", "a", "a\n", "a\r\nb", "a\r", "\n\n", "x\r\r\n", "one\ntwo\r\nthree\n", "é\nü"] {
        let ranges = line_ranges_of(text);
        let got: Vec<&str> = ranges.iter().map(|(s, e)| &text[*s..*e]).collect();
        let want: Vec<&str> = text.lines().collect();
        assert_eq!(got, want, "lines of {:?}", text);
    }
}

#[test]
fn session_walks_matches_in_order() {
    let (prompts, text) = session(
        "a foo\nbar\nfoo foo",
        "foo",
        "X",
        &[Answer::Apply, Answer::Skip, Answer::Apply],
    );
    assert_eq!(prompts.len(), 3);
    assert_eq!(shown(&prompts[0]), ("a foo".to_string(), "a X".to_string(), 1, 1, 3));
    assert_eq!(shown(&prompts[1]), ("foo foo".to_string(), "X foo".to_string(), 3, 2, 3));
    assert_eq!(shown(&prompts[2]), ("foo foo".to_string(), "foo X".to_string(), 3, 3, 3));
    assert_eq!(text, "a X\nbar\nfoo X");
}

#[test]
fn session_offsets_follow_earlier_changes() {
    let (prompts, text) = session("é foo é foo", "foo", "longer", &[Answer::Apply, Answer::Apply]);
    assert_eq!(prompts[1].old_line, "é longer é foo");
    assert_eq!(prompts[1].new_line, "é longer é longer");
    assert_eq!(text, "é longer é longer");
}

#[test]
fn session_quit_keeps_rest() {
    let (prompts, text) = session("x foo\nfoo\nlast", "foo", "Y", &[Answer::Apply, Answer::Quit]);
    assert_eq!(prompts.len(), 2);
    assert_eq!(text, "x Y\nfoo\nlast");
}

#[test]
fn session_quit_keeps_missing_final_newline() {
    let (prompts, text) = session("a", "a", "b", &[Answer::Quit]);
    assert_eq!(prompts.len(), 1);
    assert_eq!(text, "a");
}

#[test]
fn session_quit_at_once_keeps_text() {
    let (_, text) = session("foo\nbar\n", "foo", "Y", &[Answer::Quit]);
    assert_eq!(text, "foo\nbar\n");
}

#[test]
fn session_declining_keeps_text() {
    let content = "foo one\nno match\nfoo foo\n";
    let (prompts, text) = session(content, "foo", "Z", &[Answer::Skip, Answer::Skip, Answer::Skip]);
    assert_eq!(prompts.len(), 3);
    assert_eq!(text, content);
}

#[test]
fn session_rejoins_crlf_lines() {
    let (_, text) = session("foo\r\nbar", "foo", "X", &[Answer::Apply]);
    assert_eq!(text, "X\nbar");
}

#[test]
fn session_expands_groups_on_match_text() {
    let (prompts, text) = session("k=v and a=b", r"(\w+)=(\w+)", "$2=$1", &[Answer::Apply, Answer::Apply]);
    assert_eq!(prompts[0].new_line, "v=k and a=b");
    assert_eq!(text, "v=k and b=a");
}

#[test]
fn session_without_match_rejoins() {
    let (prompts, text) = session("abc\r\ndef", "zzz", "X", &[]);
    assert!(prompts.is_empty());
    assert_eq!(text, "abc\ndef");
}

#[test]
fn responses_are_read_loosely() {
    assert_eq!(interpret_response("y\n"), Answer::Apply);
    assert_eq!(interpret_response("Y"), Answer::Apply);
    assert_eq!(interpret_response(""), Answer::Apply);
    assert_eq!(interpret_response("  \n"), Answer::Apply);
    assert_eq!(interpret_response("YES"), Answer::Apply);
    assert_eq!(interpret_response("n"), Answer::Skip);
    assert_eq!(interpret_response(" No \n"), Answer::Skip);
    assert_eq!(interpret_response("q\n"), Answer::Quit);
    assert_eq!(interpret_response("Q"), Answer::Quit);
    assert_eq!(interpret_response("quit"), Answer::Skip);
    assert_eq!(interpret_response("maybe"), Answer::Skip);
}

#[test]
fn git_components_are_found() {
    let parts = |v: &[&str]| v.iter().map(|s| s.to_string()).collect::<Vec<String>>();
    assert!(in_git_dir(&parts(&[".", ".git", "config"])));
    assert!(!in_git_dir(&parts(&[".", "src", "git.rs"])));
    assert!(!in_git_dir(&parts(&[".", ".github", "x"])));
}

#[test]
fn walk_entries_are_filtered() {
    let parts = |v: &[&str]| v.iter().map(|s| s.to_string()).collect::<Vec<String>>();
    let git = parts(&[".", ".git", "HEAD"]);
    let src = parts(&[".", "src", "main.rs"]);
    let txt = pat(r"\.txt$");
    assert!(!keep_walk_entry(&git, false, true, None, "HEAD", "./.git/HEAD"));
    assert!(keep_walk_entry(&git, true, true, None, "HEAD", "./.git/HEAD"));
    assert!(!keep_walk_entry(&src, false, false, None, "src", "./src"));
    assert!(keep_walk_entry(&src, false, true, None, "main.rs", "./src/main.rs"));
    assert!(!keep_walk_entry(&src, false, true, Some(&txt), "main.rs", "./src/main.rs"));
    assert!(keep_walk_entry(&src, false, true, Some(&txt), "a.txt", "./src/a.txt"));
    let dir = pat("^./docs/");
    assert!(keep_walk_entry(&src, false, true, Some(&dir), "x.md", "./docs/x.md"));
}

#[test]
fn binary_samples() {
    assert!(sample_is_binary(None));
    assert!(sample_is_binary(Some(&[1u8, 0, 2][..])));
    assert!(!sample_is_binary(Some(&b"plain text"[..])));
    assert!(!sample_is_binary(Some(&[][..])));
}

#[test]
fn stdin_lines_are_trimmed() {
    assert_eq!(stdin_path("  /tmp/a b.txt \t"), Some("/tmp/a b.txt".to_string()));
    assert_eq!(stdin_path("\t "), None);
    assert_eq!(stdin_path(""), None);
}

#[test]
fn arguments_are_selected() {
    let two = vec!["s".to_string(), "r".to_string()];
    let three = vec!["f".to_string(), "s".to_string(), "r".to_string()];
    let a = select_patterns(&two, false);
    assert!(a.from_stdin && a.file_pattern.is_none() && a.search == "s" && a.replacement == "r");
    let b = select_patterns(&two, true);
    assert!(!b.from_stdin);
    let c = select_patterns(&three, false);
    assert!(!c.from_stdin);
    assert_eq!(c.file_pattern.as_deref(), Some("f"));
    assert_eq!(c.search, "s");
    assert_eq!(c.replacement, "r");
}

#[test]
fn backrefs_are_converted() {
    assert_eq!(convert_backrefs(r"\2 \1"), "$2 $1");
    assert_eq!(convert_backrefs(r"x\10y"), "x$10y");
    assert_eq!(convert_backrefs("$1 plain"), "$1 plain");
    assert_eq!(convert_backrefs(r"\n"), r"\n");
}

#[test]
fn setup_errors_name_the_pattern() {
    let sel = Selection {
        file_pattern: Some("(".to_string()),
        search: "[".to_string(),
        replacement: "r".to_string(),
        from_stdin: false,
    };
    match prepare(sel) {
        Err(e @ SetupError::InvalidFilePattern(_)) => assert!(e.message().starts_with("Invalid file pattern: ")),
        _ => panic!("expected a file pattern error"),
    }
    let sel = Selection { file_pattern: None, search: "[".to_string(), replacement: "r".to_string(), from_stdin: true };
    match prepare(sel) {
        Err(e @ SetupError::InvalidSearchPattern(_)) => assert!(e.message().starts_with("Invalid search pattern: ")),
        _ => panic!("expected a search pattern error"),
    }
    let sel = Selection { file_pattern: Some("x".to_string()), search: "a".to_string(), replacement: r"\1".to_string(), from_stdin: false };
    match prepare(sel) {
        Ok(s) => {
            assert_eq!(s.replacement, "$1");
            assert_eq!(s.search.source(), "a");
            assert_eq!(s.file_pattern.map(|p| p.source().to_string()), Some("x".to_string()));
        }
        Err(_) => panic!("both patterns compile"),
    }
}

#[test]
fn modified_files_are_counted() {
    let rs = vec![FileResult::Modified, FileResult::Unchanged, FileResult::Failed, FileResult::Modified];
    assert_eq!(count_modified(&rs), 2);
    assert_eq!(count_modified(&Vec::new()), 0);
}

#[test]
fn reports_follow_quiet_and_counts() {
    assert_eq!(report(true, 0, 0), Report::Silent);
    assert_eq!(report(true, 3, 1), Report::Silent);
    assert_eq!(report(false, 0, 0), Report::NoMatchingFiles);
    assert_eq!(report(false, 3, 1), Report::Done { processed: 3, modified: 1 });
}

#[test]
fn read_mode_threshold() {
    assert_eq!(read_mode(0), ReadMode::InMemory);
    assert_eq!(read_mode(1048576), ReadMode::InMemory);
    assert_eq!(read_mode(1048577), ReadMode::Streaming);
}

#[test]
fn plans_follow_matches() {
    let p = pat("o");
    assert!(matches!(plan_edit("xyz", &p, "0", false), Plan::Unchanged));
    assert!(matches!(plan_edit("xyz", &p, "0", true), Plan::Unchanged));
    assert!(matches!(plan_edit("foo", &p, "0", true), Plan::Interactive));
    match plan_edit("foo", &p, "0", false) {
        Plan::Replaced(t) => assert_eq!(t, "f00"),
        _ => panic!("expected a replacement"),
    }
    assert!(matches!(plan_edit("foo", &p, "o", false), Plan::Unchanged));
}

#[test]
fn file_decisions_follow_options() {
    let normal = ReplaceOptions { interactive: false, dry_run: false, quiet: false };
    let dry = ReplaceOptions { interactive: false, dry_run: true, quiet: false };
    let quiet = ReplaceOptions { interactive: false, dry_run: false, quiet: true };
    let d = decide_file("a", "b".to_string(), &normal);
    assert!(d.modified && d.notice == Some(Notice::Modified) && d.write.as_deref() == Some("b"));
    let d = decide_file("a", "b".to_string(), &dry);
    assert!(d.modified && d.notice == Some(Notice::WouldModify) && d.write.is_none());
    let d = decide_file("a", "b".to_string(), &quiet);
    assert!(d.modified && d.notice.is_none() && d.write.as_deref() == Some("b"));
    let d = decide_file("a", "a".to_string(), &normal);
    assert!(!d.modified && d.notice.is_none() && d.write.is_none());
    assert_eq!(Notice::WouldModify.prefix(), "[Dry Run] Would modify: ");
    assert_eq!(Notice::Modified.prefix(), "Modified: ");
}

#[test]
fn patterns_find_spans() {
    let p = pat("X");
    assert_eq!(p.find_spans("aXbXc"), vec![(1, 2), (3, 4)]);
    assert!(p.is_match("aXb"));
    assert!(!p.is_match("abc"));
    assert_eq!(p.replace_first("XaX", "-"), "-aX");
    assert_eq!(p.replace_all("XaX", "-"), "-a-");
    assert!(Pattern::new("(").is_err());
}

#[test]
fn strings_compare() {
    assert!(str_eq("abc", "abc"));
    assert!(!str_eq("abc", "abd"));
    assert!(!str_eq("ab", "abc"));
    assert!(str_eq("", ""));
}

#[test]
fn temp_names_are_hidden() {
    assert_eq!(temp_file_name("a.txt"), ".a.txt.csd.tmp");
    assert_eq!(temp_file_name(""), "..csd.tmp");
}

#[test]
fn replacement_keeps_unmatched_ends() {
    let p = pat("b+");
    match plan_edit("aa bb cc bbb dd", &p, "X", false) {
        Plan::Replaced(t) => {
            assert_eq!(t, "aa X cc X dd");
            assert!(t.starts_with("aa "));
            assert!(t.ends_with(" dd"));
        }
        _ => panic!("expected a replacement"),
    }
}

/// The characters that the trim contract counts as white space are exactly
/// those that `char::is_whitespace` accepts.
#[test]
fn white_space_list_matches_std() {
    let listed = |c: char| {
        let u = c as u32;
        (0x9..=0xd).contains(&u)
            || u == 0x20
            || u == 0x85
            || u == 0xa0
            || u == 0x1680
            || (0x2000..=0x200a).contains(&u)
            || u == 0x2028
            || u == 0x2029
            || u == 0x202f
            || u == 0x205f
            || u == 0x3000
    };
    for u in 0..=0x10ffffu32 {
        if let Some(c) = char::from_u32(u) {
            assert_eq!(listed(c), c.is_whitespace(), "U+{:04X}", u);
            let s = format!("a{}b{}", c, c);
            let expected = if c.is_whitespace() { format!("a{}b", c) } else { s.clone() };
            assert_eq!(s.trim(), expected);
        }
    }
}

#[test]
fn enter_applies_and_q_quits() {
    assert_eq!(interpret_response("\n"), Answer::Apply);
    assert_eq!(interpret_response("\r\n"), Answer::Apply);
    assert_eq!(interpret_response(" Q \n"), Answer::Quit);
}

#[test]
fn piped_paths_keep_inner_spaces() {
    assert_eq!(stdin_path("a  b"), Some("a  b".to_string()));
    assert_eq!(stdin_path("\u{3000}x y\u{a0}"), Some("x y".to_string()));
    assert_eq!(stdin_path("\u{2003}\t"), None);
}

#[test]
fn errors_are_reported_even_when_quiet() {
    let s = settle(Err(()));
    assert_eq!(s.result, FileResult::Failed);
    assert!(s.report_error);
    let s = settle(Ok(true));
    assert_eq!(s.result, FileResult::Modified);
    assert!(!s.report_error);
    assert_eq!(settle(Ok(false)).result, FileResult::Unchanged);
}

#[test]
fn read_modes_agree_on_utf8() {
    let bytes = "héllo\nwörld".as_bytes();
    assert_eq!(decode_content(ReadMode::InMemory, bytes), Some("héllo\nwörld".to_string()));
    assert_eq!(decode_content(ReadMode::Streaming, bytes), Some("héllo\nwörld".to_string()));
    let bad = [b'a', 0xff, b'b'];
    assert_eq!(decode_content(ReadMode::InMemory, &bad), None);
    assert_eq!(decode_content(ReadMode::Streaming, &bad), Some("a\u{fffd}b".to_string()));
}

#[test]
fn repeated_paths_are_kept_once_in_first_order() {
    let listed = vec!["a".to_string(), "b".to_string(), "a".to_string(), "c".to_string(), "b".to_string()];
    assert_eq!(dedup_paths(listed), vec!["a".to_string(), "b".to_string(), "c".to_string()]);
    assert_eq!(dedup_paths(Vec::new()), Vec::<String>::new());
}
