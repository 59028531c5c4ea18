use vstd::prelude::*;

use crate::pattern::{Pattern, regex_is_match};
use crate::text::{is_white_space, lemma_trim_keeps_inner, lemma_trimmed_empty, str_eq, trim_exec, trimmed};

verus! {

/// Some component of the path is `.git`.
pub open spec fn has_git_component(components: Seq<String>) -> bool {
    exists|i: int| 0 <= i < components.len() && (#[trigger] components[i])@ == ".git"@
}

/// Whether some component of the path is `.git`.
pub fn in_git_dir(components: &Vec<String>) -> (r: bool)
    ensures
        r == has_git_component(components@),
        r <==> exists|i: int| 0 <= i < components@.len() && (#[trigger] components@[i])@ == ".git"@,
{
    let mut i: usize = 0;
    while i < components.len()
        invariant
            i <= components@.len(),
            forall|k: int| 0 <= k < i ==> (#[trigger] components@[k])@ != ".git"@,
        decreases components@.len() - i,
    {
        if str_eq(components[i].as_str(), ".git") {
            return true;
        }
        i = i + 1;
    }
    false
}

/// The walk keeps an entry that is not inside `.git` (unless that is asked
/// for), is a regular file, and passes the file pattern.
pub open spec fn walk_keeps(components: Seq<String>, include_git_dir: bool, is_file: bool, pattern_ok: bool) -> bool {
    !(!include_git_dir && has_git_component(components)) && is_file && pattern_ok
}

/// Including `.git` only ever adds entries.
pub proof fn lemma_including_git_only_adds(components: Seq<String>, is_file: bool, pattern_ok: bool)
    ensures
        walk_keeps(components, false, is_file, pattern_ok) ==> walk_keeps(components, true, is_file, pattern_ok),
{
}

/// Whether the walk keeps an entry: not inside `.git` (unless that is
/// asked for), a regular file, and, where there is a file pattern, one
/// whose name or path it matches.
pub fn keep_walk_entry(
    components: &Vec<String>,
    include_git_dir: bool,
    is_file: bool,
    file_pattern: Option<&Pattern>,
    file_name: &str,
    path: &str,
) -> (keep: bool)
    ensures
        keep == walk_keeps(components@, include_git_dir, is_file, match file_pattern {
            Some(p) => regex_is_match(p@, file_name@) || regex_is_match(p@, path@),
            None => true,
        }),
        keep == ((include_git_dir || !(exists|i: int| 0 <= i < components@.len() && (#[trigger] components@[i])@ == ".git"@))
            && is_file && match file_pattern {
            Some(p) => regex_is_match(p@, file_name@) || regex_is_match(p@, path@),
            None => true,
        }),
{
    if !include_git_dir && in_git_dir(components) {
        return false;
    }
    if !is_file {
        return false;
    }
    match file_pattern {
        Some(p) => p.is_match(file_name) || p.is_match(path),
        None => true,
    }
}

/// Any component equal to `.git`, wherever it stands in the path, puts the
/// entry inside the git directory; with no such component it is outside.
pub proof fn lemma_git_component_anywhere(components: &Vec<String>, inside: bool)
    requires
        call_ensures(in_git_dir, (components,), inside),
    ensures
        forall|i: int| 0 <= i < components@.len() && (#[trigger] components@[i])@ == ".git"@ ==> inside,
        (forall|i: int| 0 <= i < components@.len() ==> (#[trigger] components@[i])@ != ".git"@) ==> !inside,
{
}

/// A given file pattern always filters: an entry whose name and path it
/// both fails to match is never kept, whether or not `.git` is included.
pub proof fn lemma_file_pattern_always_filters(
    components: &Vec<String>,
    include_git_dir: bool,
    is_file: bool,
    file_pattern: Option<&Pattern>,
    file_name: &str,
    path: &str,
    keep: bool,
)
    requires
        call_ensures(keep_walk_entry, (components, include_git_dir, is_file, file_pattern, file_name, path), keep),
        file_pattern matches Some(p) && !regex_is_match(p@, file_name@) && !regex_is_match(p@, path@),
    ensures
        !keep,
{
}

/// Without `--include-git-dir` nothing under a `.git` component is kept,
/// and nothing but a regular file is ever kept.
pub proof fn lemma_git_entries_and_non_files_skipped(
    components: &Vec<String>,
    include_git_dir: bool,
    is_file: bool,
    file_pattern: Option<&Pattern>,
    file_name: &str,
    path: &str,
    keep: bool,
    i: int,
)
    requires
        call_ensures(keep_walk_entry, (components, include_git_dir, is_file, file_pattern, file_name, path), keep),
    ensures
        !is_file ==> !keep,
        !include_git_dir && 0 <= i < components@.len() && components@[i]@ == ".git"@ ==> !keep,
{
}

/// Asking for `.git` to be included only ever adds entries: what is kept
/// without it is kept with it.
pub proof fn lemma_including_git_keeps_more(
    components: &Vec<String>,
    is_file: bool,
    file_pattern: Option<&Pattern>,
    file_name: &str,
    path: &str,
    kept_without: bool,
    kept_with: bool,
)
    requires
        call_ensures(keep_walk_entry, (components, false, is_file, file_pattern, file_name, path), kept_without),
        call_ensures(keep_walk_entry, (components, true, is_file, file_pattern, file_name, path), kept_with),
    ensures
        kept_without ==> kept_with,
{
}

/// Whether a file looks binary, given its first bytes: a file that could
/// not be opened or read counts as binary, and so does one with a zero byte.
pub fn sample_is_binary(sample: Option<&[u8]>) -> (binary: bool)
    ensures
        binary == (sample is None || sample.unwrap()@.contains(0u8)),
{
    let b = match sample {
        None => {
            return true;
        },
        Some(b) => b,
    };
    let mut i: usize = 0;
    while i < b.len()
        invariant
            sample == Some(b),
            i <= b@.len(),
            forall|k: int| 0 <= k < i ==> b@[k] != 0u8,
        decreases b@.len() - i,
    {
        if b[i] == 0 {
            proof {
                assert(b@[i as int] == 0u8);
            }
            return true;
        }
        i = i + 1;
    }
    false
}

/// The path that a line of the piped file list names: the line without
/// surrounding white space, or nothing for a blank line. White space inside
/// the path is kept.
pub fn stdin_path(line: &str) -> (path: Option<String>)
    ensures
        match path {
            Some(p) => p@ == trimmed(line@) && p@.len() > 0,
            None => trimmed(line@).len() == 0,
        },
        path is None <==> forall|i: int| 0 <= i < line@.len() ==> is_white_space(#[trigger] line@[i]),
        line@.len() > 0 && !is_white_space(line@[0]) && !is_white_space(line@.last()) ==> (path matches Some(p)
            && p@ == line@),
{
    proof {
        lemma_trimmed_empty(line@);
        if line@.len() > 0 && !is_white_space(line@[0]) && !is_white_space(line@.last()) {
            lemma_trim_keeps_inner(line@);
        }
    }
    let t = trim_exec(line);
    if t.is_empty() {
        None
    } else {
        Some(t.to_owned())
    }
}

/// The texts of a list of strings.
pub open spec fn texts(v: Seq<String>) -> Seq<Seq<char>> {
    v.map_values(|x: String| x@)
}

/// The texts of `s`, each kept at its first occurrence only.
pub open spec fn first_occurrences(s: Seq<Seq<char>>) -> Seq<Seq<char>>
    decreases s.len(),
{
    if s.len() == 0 {
        s
    } else {
        let r = first_occurrences(s.drop_last());
        if r.contains(s.last()) {
            r
        } else {
            r.push(s.last())
        }
    }
}

/// Keeping first occurrences leaves no text twice and every text of `s`
/// exactly once.
pub proof fn lemma_first_occurrences(s: Seq<Seq<char>>)
    ensures
        forall|i: int, j: int|
            0 <= i < j < first_occurrences(s).len() ==> first_occurrences(s)[i] != first_occurrences(s)[j],
        forall|x: Seq<char>| first_occurrences(s).contains(x) <==> s.contains(x),
    decreases s.len(),
{
    if s.len() > 0 {
        let r = first_occurrences(s.drop_last());
        lemma_first_occurrences(s.drop_last());
        assert forall|x: Seq<char>| first_occurrences(s).contains(x) <==> s.contains(x) by {
            if s.contains(x) && x != s.last() {
                let k = choose|k: int| 0 <= k < s.len() && s[k] == x;
                assert(s.drop_last()[k] == x);
            }
            if s.drop_last().contains(x) {
                let k = choose|k: int| 0 <= k < s.drop_last().len() && s.drop_last()[k] == x;
                assert(s[k] == x);
            }
            if first_occurrences(s).contains(x) && !r.contains(s.last()) && x == s.last() {
                assert(s[s.len() - 1] == x);
            }
            if !r.contains(s.last()) && x == s.last() {
                assert(r.push(s.last())[r.len() as int] == x);
            }
            if r.contains(x) && !r.contains(s.last()) {
                let k = choose|k: int| 0 <= k < r.len() && r[k] == x;
                assert(r.push(s.last())[k] == x);
            }
            if !r.contains(s.last()) && r.push(s.last()).contains(x) && x != s.last() {
                let k = choose|k: int| 0 <= k < r.len() + 1 && r.push(s.last())[k] == x;
                assert(r[k] == x);
            }
        }
        if !r.contains(s.last()) {
            assert forall|i: int, j: int|
                0 <= i < j < first_occurrences(s).len() implies first_occurrences(s)[i] != first_occurrences(s)[j] by {
                if j == r.len() {
                    assert(first_occurrences(s)[i] == r[i]);
                }
            }
        }
    }
}

/// The piped paths with repeats dropped, each kept where it first appears,
/// so that a file listed more than once is processed once.
pub fn dedup_paths(paths: Vec<String>) -> (out: Vec<String>)
    ensures
        texts(out@) == first_occurrences(texts(paths@)),
{
    let mut out: Vec<String> = Vec::new();
    let mut i: usize = 0;
    while i < paths.len()
        invariant
            i <= paths@.len(),
            texts(out@) == first_occurrences(texts(paths@).take(i as int)),
        decreases paths@.len() - i,
    {
        let mut found = false;
        let mut j: usize = 0;
        while j < out.len()
            invariant
                i < paths@.len(),
                j <= out@.len(),
                found == exists|k: int| 0 <= k < j && out@[k]@ == paths@[i as int]@,
            decreases out@.len() - j,
        {
            if str_eq(out[j].as_str(), paths[i].as_str()) {
                found = true;
            }
            j = j + 1;
        }
        proof {
            let t = texts(paths@);
            assert(t.take(i + 1).drop_last() =~= t.take(i as int));
            assert(t.take(i + 1).last() == paths@[i as int]@);
            if found {
                let k = choose|k: int| 0 <= k < j && out@[k]@ == paths@[i as int]@;
                assert(texts(out@)[k] == paths@[i as int]@);
            } else {
                assert(!texts(out@).contains(paths@[i as int]@)) by {
                    if texts(out@).contains(paths@[i as int]@) {
                        let k = choose|k: int| 0 <= k < texts(out@).len() && texts(out@)[k] == paths@[i as int]@;
                        assert(out@[k]@ == paths@[i as int]@);
                    }
                }
            }
        }
        if !found {
            out.push(paths[i].clone());
            proof {
                assert(texts(out@) =~= texts(out@.drop_last()).push(paths@[i as int]@));
            }
        }
        i = i + 1;
    }
    proof {
        assert(texts(paths@).take(i as int) =~= texts(paths@));
    }
    out
}

} // verus!
