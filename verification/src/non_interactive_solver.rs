//! The programmatic feedback oracle: compares a guess against a fixed answer
//! word, position by position.
//!
//! Each position is judged independently: an exact match is `Correct`, a
//! letter that occurs anywhere in the answer is `InWord`, anything else is
//! `NotInWord`.  A repeated guess letter may thus be judged `InWord` at
//! several positions even when the answer holds only one copy of it.

use vstd::prelude::*;
use vstd::string::StrSliceExecFns;
use crate::game::{GuessResponse, LetterResponse};
use crate::words::contains_char;

verus! {

/// The verdict for position `i` of a guess compared against an answer.
pub open spec fn feedback_letter(g: Seq<char>, a: Seq<char>, i: int) -> LetterResponse {
    if a[i] == g[i] {
        LetterResponse::Correct
    } else if a.contains(g[i]) {
        LetterResponse::InWord
    } else {
        LetterResponse::NotInWord
    }
}

/// Compute the feedback for `guess` against the fixed `answer`, one verdict
/// per guess position.
pub fn non_interactive_solver(guess: &str, answer: String) -> (response: GuessResponse)
    requires
        guess@.len() <= answer@.len(),
    ensures
        response.letter_responses@.len() == guess@.len(),
        forall|i: int| 0 <= i < guess@.len() ==> response.letter_responses@[i] == feedback_letter(
            guess@,
            answer@,
            i,
        ),
{
    let n = guess.unicode_len();
    let mut letter_responses: Vec<LetterResponse> = Vec::new();
    let mut i: usize = 0;
    while i < n
        invariant
            n == guess@.len(),
            guess@.len() <= answer@.len(),
            0 <= i <= n,
            letter_responses@.len() == i,
            forall|j: int| 0 <= j < i ==> letter_responses@[j] == feedback_letter(
                guess@,
                answer@,
                j,
            ),
        decreases n - i,
    {
        let guess_letter = guess.get_char(i);
        let answer_letter = answer.as_str().get_char(i);
        let verdict = if answer_letter == guess_letter {
            LetterResponse::Correct
        } else if contains_char(answer.as_str(), guess_letter) {
            LetterResponse::InWord
        } else {
            LetterResponse::NotInWord
        };
        letter_responses.push(verdict);
        i += 1;
    }
    GuessResponse { letter_responses }
}

} // verus!
