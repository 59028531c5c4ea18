use vstd::prelude::*;

use crate::interactive::Answer;
use vstd::utf8::is_ascii_chars;

use crate::text::{ascii_lower, lemma_blank_trims_to_empty, std_to_lowercase, trimmed, is_white_space, str_eq, to_lowercase_exec, trim_exec};

verus! {

/// The answer a (trimmed, lower-cased) reply stands for: `q` quits, `n`
/// and `no` skip, an empty reply, `y` and `yes` apply, anything else skips.
pub open spec fn answer_for(reply: Seq<char>) -> Answer {
    if reply == "q"@ {
        Answer::Quit
    } else if reply == "n"@ || reply == "no"@ {
        Answer::Skip
    } else if reply == ""@ || reply == "y"@ || reply == "yes"@ {
        Answer::Apply
    } else {
        Answer::Skip
    }
}

/// Reads the user's reply to a proposed change: surrounding white space
/// is ignored, and so is case. Pressing Enter alone (a reply of nothing but
/// white space) applies the change; `q` or `Q` quits.
pub fn interpret_response(response: &str) -> (a: Answer)
    ensures
        a == answer_for(std_to_lowercase(trimmed(response@))),
        (forall|i: int| 0 <= i < response@.len() ==> is_white_space(#[trigger] response@[i])) ==> a
            == Answer::Apply,
        trimmed(response@) == "q"@ || trimmed(response@) == "Q"@ ==> a == Answer::Quit,
{
    let t = trim_exec(response);
    let lowered = to_lowercase_exec(t);
    proof {
        reveal_strlit("");
        reveal_strlit("q");
        reveal_strlit("Q");
        reveal_strlit("n");
        reveal_strlit("no");
        reveal_strlit("y");
        reveal_strlit("yes");
        if forall|i: int| 0 <= i < response@.len() ==> is_white_space(#[trigger] response@[i]) {
            lemma_blank_trims_to_empty(response@);
            assert(is_ascii_chars(t@));
            assert(lowered@ =~= Seq::<char>::empty());
            assert(lowered@ =~= ""@);
        }
        if t@ == "q"@ || t@ == "Q"@ {
            assert(is_ascii_chars(t@));
            assert(lowered@ =~= "q"@);
        }
    }
    answer_of_reply(lowered.as_str())
}

/// The answer that a reply, already trimmed and lower-cased, stands for.
pub fn answer_of_reply(reply: &str) -> (a: Answer)
    ensures
        a == answer_for(reply@),
{
    if str_eq(reply, "q") {
        Answer::Quit
    } else if str_eq(reply, "n") || str_eq(reply, "no") {
        Answer::Skip
    } else if str_eq(reply, "") || str_eq(reply, "y") || str_eq(reply, "yes") {
        Answer::Apply
    } else {
        Answer::Skip
    }
}

} // verus!
