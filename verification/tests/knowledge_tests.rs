use wordle_solver::game::{GuessResponse, LetterResponse};
use wordle_solver::knowledge::{Knowledge, apply_learning, build_empty_knowledge};

#[test]
fn player_empty_knowledge_correct_letter_added_to_list_of_correct_letters() {
    let knowledge = build_empty_knowledge();
    let response = GuessResponse {
        letter_responses: [
            LetterResponse::Correct,
            LetterResponse::NotInWord,
            LetterResponse::NotInWord,
        ]
        .to_vec(),
    };
    let new_knowledge = apply_learning(&knowledge, &String::from("abc"), &response);
    assert!(new_knowledge.correct_letters.len() == 1);
    assert!(new_knowledge.correct_letters[0] == ('a', 0));
}

#[test]
fn player_empty_knowledge_contained_letters_added_to_list_of_contained_letters() {
    let knowledge = build_empty_knowledge();
    let response = GuessResponse {
        letter_responses: [
            LetterResponse::InWord,
            LetterResponse::NotInWord,
            LetterResponse::NotInWord,
        ]
        .to_vec(),
    };
    let new_knowledge = apply_learning(&knowledge, &String::from("abc"), &response);
    assert!(new_knowledge.correct_letters.len() == 0);
    assert!(new_knowledge.contained_letters.len() == 1);
    assert!(new_knowledge.contained_letters[0].0 == 'a');
    assert_eq!(new_knowledge.contained_letters[0].1, vec![0]);
}

#[test]
fn player_knowledge_about_letter_in_word_extended() {
    let knowledge = Knowledge {
        contained_letters: vec![('a', vec![0])],
        ..build_empty_knowledge()
    };
    let response = GuessResponse {
        letter_responses: [
            LetterResponse::NotInWord,
            LetterResponse::InWord,
            LetterResponse::NotInWord,
        ]
        .to_vec(),
    };
    let new_knowledge = apply_learning(&knowledge, &String::from("bac"), &response);
    assert!(new_knowledge.correct_letters.len() == 0);
    assert!(new_knowledge.contained_letters.len() == 1);
    assert!(new_knowledge.contained_letters[0].0 == 'a');
    assert_eq!(new_knowledge.contained_letters[0].1, vec![0, 1]);
}

#[test]
fn main_empty_knowledge_correct_letter_added_to_list_of_correct_letters() {
    let knowledge = build_empty_knowledge();
    let response = GuessResponse {
        letter_responses: [
            LetterResponse::Correct,
            LetterResponse::NotInWord,
            LetterResponse::NotInWord,
        ]
        .to_vec(),
    };
    let new_knowledge = apply_learning(&knowledge, &String::from("abc"), &response);
    assert!(new_knowledge.correct_letters.len() == 1);
    assert!(new_knowledge.correct_letters[0] == ('a', 0));
}

#[test]
fn main_empty_knowledge_contained_letters_added_to_list_of_contained_letters() {
    let knowledge = build_empty_knowledge();
    let response = GuessResponse {
        letter_responses: [
            LetterResponse::InWord,
            LetterResponse::NotInWord,
            LetterResponse::NotInWord,
        ]
        .to_vec(),
    };
    let new_knowledge = apply_learning(&knowledge, &String::from("abc"), &response);
    assert!(new_knowledge.correct_letters.len() == 0);
    assert!(new_knowledge.contained_letters.len() == 1);
    assert!(new_knowledge.contained_letters[0].0 == 'a');
    assert_eq!(new_knowledge.contained_letters[0].1, vec![0]);
}

#[test]
fn main_knowledge_about_letter_in_word_extended() {
    let knowledge = Knowledge {
        contained_letters: vec![('a', vec![0])],
        ..build_empty_knowledge()
    };
    let response = GuessResponse {
        letter_responses: [
            LetterResponse::NotInWord,
            LetterResponse::InWord,
            LetterResponse::NotInWord,
        ]
        .to_vec(),
    };
    let new_knowledge = apply_learning(&knowledge, &String::from("bac"), &response);
    assert!(new_knowledge.correct_letters.len() == 0);
    assert!(new_knowledge.contained_letters.len() == 1);
    assert!(new_knowledge.contained_letters[0].0 == 'a');
    assert_eq!(new_knowledge.contained_letters[0].1, vec![0, 1]);
}

#[test]
fn learning_accumulates_monotonically() {
    // every fact of the old knowledge survives the update
    let knowledge = Knowledge {
        guessed_words: vec![String::from("abc")],
        correct_letters: vec![('a', 0)],
        contained_letters: vec![('b', vec![1])],
    };
    let response = GuessResponse {
        letter_responses: [
            LetterResponse::Correct,
            LetterResponse::InWord,
            LetterResponse::NotInWord,
        ]
        .to_vec(),
    };
    let new_knowledge = apply_learning(&knowledge, &String::from("abd"), &response);
    assert!(new_knowledge.guessed_words.contains(&String::from("abc")));
    assert!(new_knowledge.guessed_words.contains(&String::from("abd")));
    assert!(new_knowledge.correct_letters.contains(&('a', 0)));
    assert_eq!(new_knowledge.correct_letters, vec![('a', 0), ('a', 0)]);
    assert_eq!(new_knowledge.contained_letters, vec![('b', vec![1, 1])]);
}
