use wordle_solver::game::{GuessResponse, LetterResponse, is_guess_correct};

#[test]
fn game_all_correct_is_correct() {
    let response = GuessResponse {
        letter_responses: [LetterResponse::Correct; 5].to_vec(),
    };
    assert!(is_guess_correct(&response));
}

#[test]
fn game_one_in_correct_is_not_correct() {
    let response = GuessResponse {
        letter_responses: [
            LetterResponse::Correct,
            LetterResponse::Correct,
            LetterResponse::Correct,
            LetterResponse::InWord,
            LetterResponse::Correct,
        ]
        .to_vec(),
    };
    assert!(!is_guess_correct(&response));
}

#[test]
fn main_all_correct_is_correct() {
    let response = GuessResponse {
        letter_responses: [LetterResponse::Correct; 5].to_vec(),
    };
    assert!(is_guess_correct(&response));
}

#[test]
fn main_one_in_correct_is_not_correct() {
    let response = GuessResponse {
        letter_responses: [
            LetterResponse::Correct,
            LetterResponse::Correct,
            LetterResponse::Correct,
            LetterResponse::InWord,
            LetterResponse::Correct,
        ]
        .to_vec(),
    };
    assert!(!is_guess_correct(&response));
}

#[test]
fn empty_feedback_is_correct() {
    let response = GuessResponse {
        letter_responses: Vec::new(),
    };
    assert!(is_guess_correct(&response));
}
