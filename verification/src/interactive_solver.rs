//! Parsing of the response string typed at the interactive prompt.
//!
//! A human answers a guess with one character per letter position: `y` for a
//! correct letter, `.` for a letter that is in the word but misplaced, and
//! `x` for a letter that is not in the word.  The prompt loop itself reads
//! from standard input and lives with the binary that wraps this library; it
//! re-prompts until this parser accepts the line.

use vstd::prelude::*;
use vstd::string::StrSliceExecFns;
use crate::game::{GAME_WORD_LENGTH, GuessResponse, LetterResponse};

verus! {

/// The characters a response line may hold.
pub open spec fn verdict_char(c: char) -> bool {
    c == 'y' || c == '.' || c == 'x'
}

/// The verdict each response character stands for.
pub open spec fn parse_verdict(c: char) -> LetterResponse {
    if c == 'y' {
        LetterResponse::Correct
    } else if c == '.' {
        LetterResponse::InWord
    } else {
        LetterResponse::NotInWord
    }
}

/// Index of the first character that is not a verdict character, or -1 when
/// every character is one.
pub open spec fn first_invalid(s: Seq<char>) -> int
    decreases s.len(),
{
    if s.len() == 0 {
        -1
    } else if !verdict_char(s[0]) {
        0
    } else {
        let rest = first_invalid(s.drop_first());
        if rest < 0 {
            -1
        } else {
            rest + 1
        }
    }
}

/// There is no invalid character exactly when every character is a verdict
/// character; otherwise `first_invalid` names the first offender.
pub proof fn lemma_first_invalid(s: Seq<char>)
    ensures
        first_invalid(s) < 0 <==> (forall|i: int| 0 <= i < s.len() ==> verdict_char(s[i])),
        first_invalid(s) >= 0 ==> first_invalid(s) < s.len() && !verdict_char(s[first_invalid(s)])
            && (forall|i: int| 0 <= i < first_invalid(s) ==> verdict_char(s[i])),
    decreases s.len(),
{
    if s.len() != 0 && verdict_char(s[0]) {
        lemma_first_invalid(s.drop_first());
        let rest = first_invalid(s.drop_first());
        if rest < 0 {
            assert forall|i: int| 0 <= i < s.len() implies verdict_char(s[i]) by {
                if i > 0 {
                    assert(verdict_char(s.drop_first()[i - 1]));
                }
            }
        } else {
            assert(s[rest + 1] == s.drop_first()[rest]);
            assert forall|i: int| 0 <= i < rest + 1 implies verdict_char(s[i]) by {
                if i > 0 {
                    assert(verdict_char(s.drop_first()[i - 1]));
                }
            }
        }
    }
}

/// Parse a response line of exactly the game's word length.  Returns the
/// per-letter verdicts, or the first invalid character of the line.
pub fn parse_user_response(response_str: &str) -> (parsed: Result<GuessResponse, char>)
    requires
        response_str@.len() == GAME_WORD_LENGTH,
    ensures
        parsed is Ok <==> (forall|i: int|
            0 <= i < response_str@.len() ==> verdict_char(response_str@[i])),
        parsed is Ok ==> (parsed->Ok_0).letter_responses@.len() == response_str@.len() && (forall|
            i: int,
        |
            0 <= i < response_str@.len() ==> (parsed->Ok_0).letter_responses@[i] == parse_verdict(
                response_str@[i],
            )),
        parsed is Err ==> first_invalid(response_str@) >= 0 && parsed->Err_0 == response_str@[
            first_invalid(response_str@)],
{
    proof {
        lemma_first_invalid(response_str@);
    }
    let n = response_str.unicode_len();
    let mut letter_responses: Vec<LetterResponse> = Vec::new();
    let mut i: usize = 0;
    while i < n
        invariant
            n == response_str@.len(),
            0 <= i <= n,
            letter_responses@.len() == i,
            forall|j: int| 0 <= j < i ==> verdict_char(response_str@[j]),
            forall|j: int| 0 <= j < i ==> letter_responses@[j] == parse_verdict(response_str@[j]),
            first_invalid(response_str@) < 0 || first_invalid(response_str@) >= i,
        decreases n - i,
    {
        proof {
            lemma_first_invalid(response_str@);
        }
        let c = response_str.get_char(i);
        let verdict = if c == 'y' {
            LetterResponse::Correct
        } else if c == '.' {
            LetterResponse::InWord
        } else if c == 'x' {
            LetterResponse::NotInWord
        } else {
            proof {
                lemma_first_invalid(response_str@);
                assert(!verdict_char(response_str@[i as int]));
            }
            return Err(c);
        };
        letter_responses.push(verdict);
        i += 1;
    }
    Ok(GuessResponse { letter_responses })
}

} // verus!
