use wordle_solver::game::LetterResponse;
use wordle_solver::interactive_solver::parse_user_response;

#[test]
fn interactive_solver_valid_string_parsed_correctly() {
    let user_input = String::from("y.x.x");
    let response = parse_user_response(&user_input);
    assert!(response.is_ok());
    assert_eq!(
        response.unwrap().letter_responses,
        vec![
            LetterResponse::Correct,
            LetterResponse::InWord,
            LetterResponse::NotInWord,
            LetterResponse::InWord,
            LetterResponse::NotInWord
        ]
    );
}

#[test]
fn interactive_solver_one_invalid_char_invalid_response() {
    let user_input = String::from("y.xax");
    let response = parse_user_response(&user_input);
    assert!(response.is_err());
}

#[test]
fn main_valid_string_parsed_correctly() {
    let user_input = String::from("y.x.x");
    let response = parse_user_response(&user_input);
    assert!(response.is_ok());
    assert_eq!(
        response.unwrap().letter_responses,
        vec![
            LetterResponse::Correct,
            LetterResponse::InWord,
            LetterResponse::NotInWord,
            LetterResponse::InWord,
            LetterResponse::NotInWord
        ]
    );
}

#[test]
fn main_one_invalid_char_invalid_response() {
    let user_input = String::from("y.xax");
    let response = parse_user_response(&user_input);
    assert!(response.is_err());
}

#[test]
fn error_names_first_invalid_character() {
    let response = parse_user_response("y.xab");
    assert_eq!(response.err(), Some('a'));
}

#[test]
fn all_correct_response_parses_to_all_correct() {
    let response = parse_user_response("yyyyy").unwrap();
    assert!(response
        .letter_responses
        .iter()
        .all(|&l| l == LetterResponse::Correct));
}
