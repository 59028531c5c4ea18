use vstd::prelude::*;

use vstd::utf8::{decode_utf8, encode_utf8, encode_utf8_decode_utf8, valid_utf8};
use vstd::string::StringSliceAdditionalSpecFns;

use crate::pattern::{Pattern, regex_find_spans, regex_is_match, regex_replace_all, replaces_spans};
use crate::text::str_eq;

verus! {

/// Files above this size (in bytes) are read through a memory map.
pub const STREAMING_THRESHOLD: u64 = 1048576;

/// How a file is processed.
pub struct ReplaceOptions {
    /// Ask before each change.
    pub interactive: bool,
    /// Report what would change, but write nothing.
    pub dry_run: bool,
    /// Report nothing.
    pub quiet: bool,
}

/// How a file's content is read before it is searched.
#[derive(PartialEq, Eq, Structural, Clone, Copy, Debug)]
pub enum ReadMode {
    InMemory,
    Streaming,
}

/// Large files are mapped into memory, the others read whole.
pub fn read_mode(file_size: u64) -> (mode: ReadMode)
    ensures
        mode == (if file_size > STREAMING_THRESHOLD { ReadMode::Streaming } else { ReadMode::InMemory }),
{
    if file_size > STREAMING_THRESHOLD {
        ReadMode::Streaming
    } else {
        ReadMode::InMemory
    }
}

/// `std::str::from_utf8`, owned: the text whose UTF-8 encoding `bytes` is,
/// and nothing where `bytes` is not valid UTF-8.
#[verifier::external_body]
fn decode_strict(bytes: &[u8]) -> (text: Option<String>)
    ensures
        text is Some <==> valid_utf8(bytes@),
        text matches Some(t) ==> encode_utf8(t@) == bytes@,
{
    match std::str::from_utf8(bytes) {
        Ok(t) => Some(t.to_owned()),
        Err(_) => None,
    }
}

/// What `String::from_utf8_lossy` makes of the bytes.
pub uninterp spec fn std_from_utf8_lossy(bytes: Seq<u8>) -> Seq<char>;

/// `String::from_utf8_lossy`, owned. How invalid sequences are replaced
/// (by U+FFFD) is left to the name; valid UTF-8 comes back as the text it
/// encodes.
#[verifier::external_body]
fn decode_lossy(bytes: &[u8]) -> (text: String)
    ensures
        text@ == std_from_utf8_lossy(bytes@),
        valid_utf8(bytes@) ==> encode_utf8(text@) == bytes@,
{
    String::from_utf8_lossy(bytes).into_owned()
}

/// A file's content from its bytes. Read whole, the file must be UTF-8
/// (nothing otherwise); mapped, invalid sequences are replaced. For a file
/// that is valid UTF-8 both give the same text, so both ways of reading lead
/// to the same outcome.
pub fn decode_content(mode: ReadMode, bytes: &[u8]) -> (text: Option<String>)
    ensures
        valid_utf8(bytes@) ==> (text matches Some(t) && t@ == decode_utf8(bytes@)),
        mode == ReadMode::InMemory ==> (text is Some <==> valid_utf8(bytes@)),
        mode == ReadMode::Streaming ==> (text matches Some(t) && t@ == std_from_utf8_lossy(bytes@)),
{
    let text = match mode {
        ReadMode::InMemory => decode_strict(bytes),
        ReadMode::Streaming => Some(decode_lossy(bytes)),
    };
    proof {
        if valid_utf8(bytes@) {
            let t = text.unwrap();
            encode_utf8_decode_utf8(t@);
        }
    }
    text
}

/// What to do with a file's content once it is read.
pub enum Plan {
    /// The pattern does not occur, or replacing changes nothing.
    Unchanged,
    /// The pattern occurs; ask about each match.
    Interactive,
    /// The content with every match replaced.
    Replaced(String),
}

/// Decides what to do with `content`: nothing where the pattern does not
/// occur; otherwise ask about each match, or replace them all, where that
/// changes the text.
pub fn plan_edit(content: &str, search: &Pattern, replacement: &str, interactive: bool) -> (plan: Plan)
    ensures
        !regex_is_match(search@, content@) ==> plan is Unchanged,
        regex_is_match(search@, content@) && interactive ==> plan is Interactive,
        regex_is_match(search@, content@) && !interactive ==> match plan {
            Plan::Replaced(t) => {
                &&& t@ == regex_replace_all(search@, content@, replacement@)
                &&& t@ != content@
                &&& replaces_spans(encode_utf8(t@), content.spec_bytes(), regex_find_spans(search@, content@))
            },
            Plan::Unchanged => regex_replace_all(search@, content@, replacement@) == content@,
            Plan::Interactive => false,
        },
{
    if !search.is_match(content) {
        return Plan::Unchanged;
    }
    if interactive {
        return Plan::Interactive;
    }
    let replaced = search.replace_all(content, replacement);
    if str_eq(replaced.as_str(), content) {
        Plan::Unchanged
    } else {
        Plan::Replaced(replaced)
    }
}

/// What a run reports about a modified file.
#[derive(PartialEq, Eq, Structural, Clone, Copy, Debug)]
pub enum Notice {
    /// A dry run: the file would be modified.
    WouldModify,
    /// The file was modified.
    Modified,
}

impl Notice {
    /// The words that stand before the file's path.
    pub fn prefix(&self) -> (s: &'static str)
        ensures
            s@ == (match self {
                Notice::WouldModify => "[Dry Run] Would modify: "@,
                Notice::Modified => "Modified: "@,
            }),
    {
        match self {
            Notice::WouldModify => "[Dry Run] Would modify: ",
            Notice::Modified => "Modified: ",
        }
    }
}

/// The outcome for one file whose new content is known.
pub struct FileDecision {
    /// The file counts as modified.
    pub modified: bool,
    /// What to report about it, if anything.
    pub notice: Option<Notice>,
    /// The content to write to it, if anything.
    pub write: Option<String>,
}

/// A file is modified when its new content differs from the old; a dry run
/// writes nothing and a quiet run reports nothing.
pub fn decide_file(content: &str, new_content: String, opts: &ReplaceOptions) -> (dec: FileDecision)
    ensures
        dec.modified == (new_content@ != content@),
        dec.notice == (if dec.modified && !opts.quiet {
            Some(if opts.dry_run { Notice::WouldModify } else { Notice::Modified })
        } else {
            None
        }),
        dec.write is Some <==> dec.modified && !opts.dry_run,
        dec.write matches Some(w) ==> w@ == new_content@,
{
    if str_eq(new_content.as_str(), content) {
        return FileDecision { modified: false, notice: None, write: None };
    }
    let notice = if opts.quiet {
        None
    } else if opts.dry_run {
        Some(Notice::WouldModify)
    } else {
        Some(Notice::Modified)
    };
    let write = if opts.dry_run {
        None
    } else {
        Some(new_content)
    };
    FileDecision { modified: true, notice, write }
}

/// The name of the temporary file that a new content is written to before
/// it replaces the file: hidden, next to it, marked as the tool's.
pub fn temp_file_name(file_name: &str) -> (name: String)
    ensures
        name@ == "."@ + file_name@ + ".csd.tmp"@,
{
    let mut name = ".".to_owned();
    name.append(file_name);
    name.append(".csd.tmp");
    name
}

} // verus!
