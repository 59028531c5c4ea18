use vstd::prelude::*;
use vstd::string::StrSliceExecFns;
use crate::pattern::{Pattern, regex_compile_result};
use crate::text::{decimal_digit, is_decimal_digit};

verus! {

/// The pattern that finds `\N` back-references in a replacement.
pub open spec fn backref_pattern() -> Seq<char> {
    "\\\\(\\d+)"@
}

/// What each `\N` turns into: `$N`.
pub open spec fn backref_template() -> Seq<char> {
    "$$$1"@
}

/// A back-reference starts at `i`: a backslash followed by a decimal digit
/// (a match of `backref_pattern` begins there).
pub open spec fn starts_backref(s: Seq<char>, i: int) -> bool {
    0 <= i && i + 1 < s.len() && s[i] == '\\' && is_decimal_digit(s[i + 1])
}

/// The replacement with every `\N` written as `$N`: the backslash that
/// starts a back-reference becomes `$`, its digits and every other
/// character stay as they are. This is what replacing each match of
/// `backref_pattern` by `backref_template` gives: a match is a backslash
/// and the longest run of digits after it, and `$$$1` expands to `$` and
/// those digits.
pub open spec fn converted_backrefs(rep: Seq<char>) -> Seq<char> {
    Seq::new(rep.len(), |i: int| if starts_backref(rep, i) { '$' } else { rep[i] })
}

/// Turns `\1`-style back-references into the `$1` style that the regex
/// crate expands.
pub fn convert_backrefs(replacement: &str) -> (converted: String)
    ensures
        converted@ == converted_backrefs(replacement@),
{
    let ghost r = replacement@;
    let ghost conv = converted_backrefs(r);
    let n = replacement.unicode_len();
    let mut out = String::new();
    let mut start: usize = 0;
    let mut i: usize = 0;
    while i < n
        invariant
            n == r.len(),
            r == replacement@,
            conv == converted_backrefs(r),
            start <= i <= n,
            out@ == conv.subrange(0, start as int),
            forall|k: int| start <= k < i ==> !starts_backref(r, k),
        decreases n - i,
    {
        let c = replacement.get_char(i);
        if c == '\\' && i + 1 < n && decimal_digit(replacement.get_char(i + 1)) {
            let seg = replacement.substring_char(start, i);
            proof {
                assert(starts_backref(r, i as int));
                assert(seg@ =~= conv.subrange(start as int, i as int));
            }
            out.append(seg);
            out.append("$");
            proof {
                reveal_strlit("$");
                assert(out@ =~= conv.subrange(0, i + 1));
            }
            start = i + 1;
        }
        i = i + 1;
    }
    let seg = replacement.substring_char(start, n);
    proof {
        assert(seg@ =~= conv.subrange(start as int, n as int));
    }
    out.append(seg);
    proof {
        assert(out@ =~= conv);
    }
    out
}

/// Converting leaves every character in place: a backslash that starts a
/// back-reference turns into `$`, the digits after it and all else are
/// kept, and no back-reference in the `\N` style is left.
pub proof fn lemma_backrefs_become_dollars(replacement: &str, converted: String)
    requires
        call_ensures(convert_backrefs, (replacement,), converted),
    ensures
        converted@.len() == replacement@.len(),
        forall|i: int| 0 <= i < replacement@.len() && #[trigger] replacement@[i] == '\\' && i + 1 < replacement@.len()
            && is_decimal_digit(replacement@[i + 1]) ==> converted@[i] == '$' && converted@[i + 1] == replacement@[i + 1],
        forall|i: int| 0 <= i < replacement@.len() && !(replacement@[i] == '\\' && i + 1 < replacement@.len()
            && is_decimal_digit(replacement@[i + 1])) ==> #[trigger] converted@[i] == replacement@[i],
        forall|i: int| 0 <= i < converted@.len() && #[trigger] converted@[i] == '\\' && i + 1 < converted@.len()
            ==> !is_decimal_digit(converted@[i + 1]),
        forall|i: int| 0 <= i < replacement@.len() && #[trigger] converted@[i] != replacement@[i]
            ==> replacement@[i] == '\\' && converted@[i] == '$',
        forall|i: int| 0 <= i && i + 1 < replacement@.len() && #[trigger] replacement@[i] == '\\'
            && '0' <= replacement@[i + 1] <= '9' ==> converted@[i] == '$',
{
    let r = replacement@;
    assert forall|i: int| 0 <= i < r.len() && #[trigger] r[i] == '\\' && i + 1 < r.len()
        && is_decimal_digit(r[i + 1]) implies converted@[i] == '$' && converted@[i + 1] == r[i + 1] by {
        assert(starts_backref(r, i));
        assert(!starts_backref(r, i + 1));
    }
    assert forall|i: int| 0 <= i < converted@.len() && #[trigger] converted@[i] == '\\' && i + 1 < converted@.len()
        implies !is_decimal_digit(converted@[i + 1]) by {
        assert(!starts_backref(r, i));
        assert(r[i] == '\\');
        if starts_backref(r, i + 1) {
            assert(r[i + 1] == '\\');
            assert(!is_decimal_digit(r[i + 1])) by {
                assert(('\\' as u32) == 0x5C);
            }
        }
    }
}

/// The three positional arguments as the command line reads them.
pub struct Selection {
    /// Matched against file paths when walking the directory.
    pub file_pattern: Option<String>,
    /// The pattern searched for.
    pub search: String,
    /// What a match is replaced with, as given.
    pub replacement: String,
    /// The files come from standard input, one path per line.
    pub from_stdin: bool,
}

/// With three arguments the first is a file pattern; with two there is
/// none. The file list is read from standard input only with two arguments
/// and an input that is not a terminal.
pub fn select_patterns(patterns: &Vec<String>, stdin_is_terminal: bool) -> (sel: Selection)
    requires
        2 <= patterns@.len() <= 3,
    ensures
        sel.from_stdin == (!stdin_is_terminal && patterns@.len() == 2),
        patterns@.len() == 2 ==> {
            &&& sel.file_pattern is None
            &&& sel.search@ == patterns@[0]@
            &&& sel.replacement@ == patterns@[1]@
        },
        patterns@.len() == 3 ==> {
            &&& sel.file_pattern matches Some(f) && f@ == patterns@[0]@
            &&& sel.search@ == patterns@[1]@
            &&& sel.replacement@ == patterns@[2]@
        },
{
    let from_stdin = !stdin_is_terminal && patterns.len() == 2;
    if patterns.len() == 2 {
        Selection {
            file_pattern: None,
            search: patterns[0].clone(),
            replacement: patterns[1].clone(),
            from_stdin,
        }
    } else {
        Selection {
            file_pattern: Some(patterns[0].clone()),
            search: patterns[1].clone(),
            replacement: patterns[2].clone(),
            from_stdin,
        }
    }
}

/// Why a run cannot start.
pub enum SetupError {
    /// The file pattern does not compile; the regex crate's message.
    InvalidFilePattern(String),
    /// The search pattern does not compile; the regex crate's message.
    InvalidSearchPattern(String),
}

impl SetupError {
    /// The message reported for the error.
    pub fn message(&self) -> (m: String)
        ensures
            m@ == (match self {
                SetupError::InvalidFilePattern(e) => "Invalid file pattern: "@ + e@,
                SetupError::InvalidSearchPattern(e) => "Invalid search pattern: "@ + e@,
            }),
    {
        match self {
            SetupError::InvalidFilePattern(e) => {
                let mut m = "Invalid file pattern: ".to_owned();
                m.append(e.as_str());
                m
            },
            SetupError::InvalidSearchPattern(e) => {
                let mut m = "Invalid search pattern: ".to_owned();
                m.append(e.as_str());
                m
            },
        }
    }
}

/// What a run works with once its patterns are compiled.
pub struct Setup {
    pub file_pattern: Option<Pattern>,
    pub search: Pattern,
    /// The replacement with back-references converted.
    pub replacement: String,
    pub from_stdin: bool,
}

/// Converts the replacement's back-references, then compiles the file
/// pattern and the search pattern, in that order; the first that does not
/// compile is the error.
pub fn prepare(sel: Selection) -> (res: Result<Setup, SetupError>)
    ensures
        res is Ok <==> (match sel.file_pattern {
            Some(f) => regex_compile_result(f@) is Ok,
            None => true,
        }) && regex_compile_result(sel.search@) is Ok,
        res matches Ok(s) ==> {
            &&& s.search@ == sel.search@
            &&& s.replacement@ == converted_backrefs(sel.replacement@)
            &&& s.from_stdin == sel.from_stdin
            &&& match sel.file_pattern {
                Some(f) => s.file_pattern matches Some(fp) && fp@ == f@,
                None => s.file_pattern is None,
            }
        },
        res matches Err(SetupError::InvalidFilePattern(m)) ==> sel.file_pattern matches Some(f)
            && regex_compile_result(f@) == Err::<(), Seq<char>>(m@),
        res matches Err(SetupError::InvalidSearchPattern(m)) ==> (match sel.file_pattern {
            Some(f) => regex_compile_result(f@) is Ok,
            None => true,
        }) && regex_compile_result(sel.search@) == Err::<(), Seq<char>>(m@),
{
    let replacement = convert_backrefs(sel.replacement.as_str());
    let file_pattern = match &sel.file_pattern {
        Some(f) => match Pattern::new(f.as_str()) {
            Ok(p) => Some(p),
            Err(m) => {
                return Err(SetupError::InvalidFilePattern(m));
            },
        },
        None => None,
    };
    let search = match Pattern::new(sel.search.as_str()) {
        Ok(p) => p,
        Err(m) => {
            return Err(SetupError::InvalidSearchPattern(m));
        },
    };
    Ok(Setup { file_pattern, search, replacement, from_stdin: sel.from_stdin })
}

/// How processing one file ended.
#[derive(PartialEq, Eq, Structural, Clone, Copy, Debug)]
pub enum FileResult {
    Modified,
    Unchanged,
    Failed,
}

/// How processing one file ended, and whether to report its error.
pub struct Settled {
    pub result: FileResult,
    /// A failure is reported even in a quiet run, which suppresses all
    /// output except errors.
    pub report_error: bool,
}

/// Sorts the outcome of processing one file (`Ok(modified)` or a failure).
pub fn settle(outcome: Result<bool, ()>) -> (s: Settled)
    ensures
        s.result == (match outcome {
            Ok(true) => FileResult::Modified,
            Ok(false) => FileResult::Unchanged,
            Err(_) => FileResult::Failed,
        }),
        s.report_error == outcome is Err,
{
    match outcome {
        Ok(true) => Settled { result: FileResult::Modified, report_error: false },
        Ok(false) => Settled { result: FileResult::Unchanged, report_error: false },
        Err(_) => Settled { result: FileResult::Failed, report_error: true },
    }
}

/// How many of the results are `Modified`.
pub open spec fn modified_count(rs: Seq<FileResult>) -> nat
    decreases rs.len(),
{
    if rs.len() == 0 {
        0
    } else {
        modified_count(rs.drop_last()) + if rs.last() == FileResult::Modified {
            1nat
        } else {
            0nat
        }
    }
}

/// There are never more modified files than results.
pub proof fn lemma_modified_count_bound(rs: Seq<FileResult>)
    ensures
        modified_count(rs) <= rs.len(),
    decreases rs.len(),
{
    if rs.len() > 0 {
        lemma_modified_count_bound(rs.drop_last());
    }
}

/// The number of files that were modified.
pub fn count_modified(results: &Vec<FileResult>) -> (n: usize)
    ensures
        n == modified_count(results@),
{
    let mut n: usize = 0;
    let mut i: usize = 0;
    while i < results.len()
        invariant
            i <= results@.len(),
            n == modified_count(results@.subrange(0, i as int)),
        decreases results@.len() - i,
    {
        proof {
            assert(results@.subrange(0, i + 1).drop_last() =~= results@.subrange(0, i as int));
            lemma_modified_count_bound(results@.subrange(0, i as int));
        }
        match results[i] {
            FileResult::Modified => {
                n = n + 1;
            },
            _ => {},
        }
        i = i + 1;
    }
    proof {
        assert(results@.subrange(0, i as int) =~= results@);
    }
    n
}

/// What a run says at its end.
#[derive(PartialEq, Eq, Structural, Clone, Copy, Debug)]
pub enum Report {
    /// Nothing (a quiet run).
    Silent,
    /// No file to process was found.
    NoMatchingFiles,
    /// How many files were processed and how many modified.
    Done { processed: usize, modified: usize },
}

/// A quiet run says nothing; otherwise a run without files says so, and
/// one with files gives the counts.
pub fn report(quiet: bool, processed: usize, modified: usize) -> (r: Report)
    ensures
        r == (if quiet {
            Report::Silent
        } else if processed == 0 {
            Report::NoMatchingFiles
        } else {
            Report::Done { processed, modified }
        }),
{
    if quiet {
        Report::Silent
    } else if processed == 0 {
        Report::NoMatchingFiles
    } else {
        Report::Done { processed, modified }
    }
}

} // verus!
