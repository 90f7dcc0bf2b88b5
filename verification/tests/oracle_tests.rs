use wordle_solver::game::LetterResponse;
use wordle_solver::non_interactive_solver::non_interactive_solver;

#[test]
fn non_interactive_solver_words_same_all_correct() {
    let guess = "hello";
    let answer = "hello";
    let result = non_interactive_solver(&guess, String::from(answer));
    assert!(result
        .letter_responses
        .iter()
        .all(|&l| l == LetterResponse::Correct))
}

#[test]
fn non_interactive_solver_letter_in_not_right_place() {
    let guess = "abc";
    let answer = "dea";
    let result = non_interactive_solver(&guess, String::from(answer));
    assert!(result.letter_responses[0] == LetterResponse::InWord);
    assert!(result.letter_responses[1] == LetterResponse::NotInWord);
    assert!(result.letter_responses[2] == LetterResponse::NotInWord);
}

#[test]
fn main_words_same_all_correct() {
    let guess = "hello";
    let answer = "hello";
    let result = non_interactive_solver(&guess, String::from(answer));
    assert!(result
        .letter_responses
        .iter()
        .all(|&l| l == LetterResponse::Correct))
}

#[test]
fn main_letter_in_not_right_place() {
    let guess = "abc";
    let answer = "dea";
    let result = non_interactive_solver(&guess, String::from(answer));
    assert!(result.letter_responses[0] == LetterResponse::InWord);
    assert!(result.letter_responses[1] == LetterResponse::NotInWord);
    assert!(result.letter_responses[2] == LetterResponse::NotInWord);
}

#[test]
fn repeated_guess_letter_judged_per_position() {
    // a per-position comparison: both copies of 'l' are judged against the
    // single 'l' of the answer independently
    let result = non_interactive_solver("llama", String::from("melon"));
    assert_eq!(result.letter_responses[0], LetterResponse::InWord);
    assert_eq!(result.letter_responses[1], LetterResponse::InWord);
    assert_eq!(result.letter_responses[2], LetterResponse::NotInWord);
    assert_eq!(result.letter_responses[3], LetterResponse::InWord);
    assert_eq!(result.letter_responses[4], LetterResponse::NotInWord);
}
