use wordle_solver::knowledge::{Knowledge, build_empty_knowledge};
use wordle_solver::player::{filter_valid_words, is_word_valid, make_guess};

#[test]
fn player_guessed_one_word_dont_guess_again() {
    let words = [String::from("foo"), String::from("bar")].to_vec();
    let knowledge = Knowledge {
        guessed_words: [String::from("foo")].to_vec(),
        ..build_empty_knowledge()
    };
    let guess = make_guess(&words, &knowledge);
    assert!(guess == "bar");
}

#[test]
fn player_guessed_one_correct_letter_guess_next_valid_word() {
    let words = [
        String::from("abc"),
        String::from("bcd"),
        String::from("abd"),
    ]
    .to_vec();
    let knowledge = Knowledge {
        guessed_words: vec![String::from("abc")],
        correct_letters: vec![('a', 0)],
        ..build_empty_knowledge()
    };
    let guess = make_guess(&words, &knowledge);
    assert!(guess == "abd");
}

#[test]
fn player_guessed_one_contained_letter_guess_next_word_that_contains_in_different_position() {
    let words = vec![
        String::from("abc"),
        String::from("bcd"),
        String::from("acd"),
        String::from("bac"),
    ];
    let knowledge = Knowledge {
        guessed_words: vec![String::from("abc")],
        contained_letters: vec![('a', vec![0])],
        ..build_empty_knowledge()
    };
    let guess = make_guess(&words, &knowledge);
    assert!(guess == "bac");
}

#[test]
fn main_guessed_one_word_dont_guess_again() {
    let words = [String::from("foo"), String::from("bar")].to_vec();
    let knowledge = Knowledge {
        guessed_words: [String::from("foo")].to_vec(),
        ..build_empty_knowledge()
    };
    let guess = make_guess(&words, &knowledge);
    assert!(guess == "bar");
}

#[test]
fn main_guessed_one_correct_letter_guess_next_valid_word() {
    let words = [
        String::from("abc"),
        String::from("bcd"),
        String::from("abd"),
    ]
    .to_vec();
    let knowledge = Knowledge {
        guessed_words: vec![String::from("abc")],
        correct_letters: vec![('a', 0)],
        ..build_empty_knowledge()
    };
    let guess = make_guess(&words, &knowledge);
    assert!(guess == "abd");
}

#[test]
fn main_guessed_one_contained_letter_guess_next_word_that_contains_in_different_position() {
    let words = vec![
        String::from("abc"),
        String::from("bcd"),
        String::from("acd"),
        String::from("bac"),
    ];
    let knowledge = Knowledge {
        guessed_words: vec![String::from("abc")],
        contained_letters: vec![('a', vec![0])],
        ..build_empty_knowledge()
    };
    let guess = make_guess(&words, &knowledge);
    assert!(guess == "bac");
}

#[test]
fn guess_satisfies_all_recorded_constraints() {
    // the returned word never re-guesses, agrees with confirmed letters, and
    // avoids contained letters' tried positions
    let words = vec![
        String::from("slate"),
        String::from("sling"),
        String::from("snail"),
        String::from("scale"),
    ];
    let knowledge = Knowledge {
        guessed_words: vec![String::from("slate")],
        correct_letters: vec![('s', 0)],
        contained_letters: vec![('l', vec![1])],
    };
    let guess = make_guess(&words, &knowledge);
    assert!(is_word_valid(&guess, &knowledge));
    assert_ne!(guess, "slate");
    assert_eq!(guess.chars().next(), Some('s'));
    assert!(guess.contains('l'));
    assert_ne!(guess.chars().nth(1), Some('l'));
}

#[test]
fn filtering_twice_yields_the_same_set() {
    let words = vec![
        String::from("abc"),
        String::from("bcd"),
        String::from("acd"),
        String::from("bac"),
    ];
    let knowledge = Knowledge {
        guessed_words: vec![String::from("abc")],
        contained_letters: vec![('a', vec![0])],
        ..build_empty_knowledge()
    };
    let once = filter_valid_words(&words, &knowledge);
    let twice = filter_valid_words(&once, &knowledge);
    assert_eq!(once, twice);
    assert_eq!(once, vec![String::from("bac")]);
}
