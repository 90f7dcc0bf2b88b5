//! The basic game vocabulary: per-letter verdicts, the feedback for one
//! guess, and the test for a winning guess.

use vstd::prelude::*;

verus! {

/// Number of letters in a word of the standard game.
pub const GAME_WORD_LENGTH: usize = 5;

/// Verdict for a single letter position of a guess.
#[derive(Copy, Clone, PartialEq, Eq, Structural, Debug)]
pub enum LetterResponse {
    /// The letter of the guess matches the secret word at this position.
    Correct,
    /// The letter occurs in the secret word, but not at this position.
    InWord,
    /// The letter does not occur in the secret word.
    NotInWord,
}

/// Feedback for one guess: one verdict per letter position, in order.
pub struct GuessResponse {
    pub letter_responses: Vec<LetterResponse>,
}

/// Holds when every position of a feedback sequence is `Correct`.
pub open spec fn all_correct(s: Seq<LetterResponse>) -> bool {
    forall|i: int| 0 <= i < s.len() ==> s[i] == LetterResponse::Correct
}

/// A guess wins exactly when every one of its letters was judged `Correct`.
pub fn is_guess_correct(response: &GuessResponse) -> (r: bool)
    ensures
        r == all_correct(response.letter_responses@),
{
    let n = response.letter_responses.len();
    let mut i: usize = 0;
    while i < n
        invariant
            n == response.letter_responses.len(),
            0 <= i <= n,
            forall|j: int| 0 <= j < i ==> response.letter_responses@[j] == LetterResponse::Correct,
        decreases n - i,
    {
        if response.letter_responses[i] != LetterResponse::Correct {
            assert(!all_correct(response.letter_responses@));
            return false;
        }
        i += 1;
    }
    true
}

} // verus!
