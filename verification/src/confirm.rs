//! The answer to the question whether a file that exists may be
//! overwritten.

use vstd::prelude::*;
use vstd::string::*;

verus! {

/// What a reply to the question says.
#[derive(Clone, Copy, Debug, PartialEq, Eq, Structural)]
pub enum Answer {
    /// The reply starts with `y` or `Y`: overwrite the file.
    Overwrite,
    /// The reply starts with `n` or `N`: leave the file as it is.
    Keep,
    /// The reply is empty or starts with anything else: ask again.
    AskAgain,
}

/// What a reply says: only its first character counts.
pub open spec fn answer_of(reply: Seq<char>) -> Answer {
    if reply.len() == 0 {
        Answer::AskAgain
    } else if reply[0] == 'y' || reply[0] == 'Y' {
        Answer::Overwrite
    } else if reply[0] == 'n' || reply[0] == 'N' {
        Answer::Keep
    } else {
        Answer::AskAgain
    }
}

/// Reads a reply to the question.
pub fn read_answer(reply: &str) -> (answer: Answer)
    ensures
        answer == answer_of(reply@),
{
    if reply.is_empty() {
        return Answer::AskAgain;
    }
    let first = reply.get_char(0);
    if first == 'y' || first == 'Y' {
        Answer::Overwrite
    } else if first == 'n' || first == 'N' {
        Answer::Keep
    } else {
        Answer::AskAgain
    }
}

} // verus!
