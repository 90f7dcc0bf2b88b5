use wordle_solver::knowledge::{Knowledge, build_empty_knowledge};
use wordle_solver::score::{letter_frequencies, revealing_word, word_score};

#[test]
fn frequencies_count_raw_occurrences() {
    let words = vec![String::from("abc"), String::from("abd")];
    let freq = letter_frequencies(&words);
    assert_eq!(freq.len(), 26);
    assert_eq!(freq[0], 2); // a
    assert_eq!(freq[1], 2); // b
    assert_eq!(freq[2], 1); // c
    assert_eq!(freq[3], 1); // d
    assert_eq!(freq[4], 0); // e
}

#[test]
fn word_score_sums_distinct_letter_frequencies() {
    let words = vec![String::from("abc"), String::from("abd")];
    let freq = letter_frequencies(&words);
    let knowledge = build_empty_knowledge();
    assert_eq!(word_score(&String::from("abc"), &freq, &knowledge), 5);
    assert_eq!(word_score(&String::from("abd"), &freq, &knowledge), 5);
}

#[test]
fn word_score_counts_each_letter_once() {
    let words = vec![String::from("aab")];
    let freq = letter_frequencies(&words);
    let knowledge = build_empty_knowledge();
    assert_eq!(freq[0], 2);
    assert_eq!(word_score(&String::from("aab"), &freq, &knowledge), 3);
}

#[test]
fn letter_already_tried_scores_zero() {
    // 'a' appeared in a guessed word and was neither confirmed correct nor
    // in-word, so it reveals nothing and scores zero
    let words = vec![String::from("abc"), String::from("abd")];
    let freq = letter_frequencies(&words);
    let knowledge = Knowledge {
        guessed_words: vec![String::from("azz")],
        ..build_empty_knowledge()
    };
    assert_eq!(word_score(&String::from("abc"), &freq, &knowledge), 3);
}

#[test]
fn contained_letter_still_scores_its_frequency() {
    let words = vec![String::from("abc"), String::from("abd")];
    let freq = letter_frequencies(&words);
    let knowledge = Knowledge {
        guessed_words: vec![String::from("azz")],
        contained_letters: vec![('a', vec![0])],
        ..build_empty_knowledge()
    };
    assert_eq!(word_score(&String::from("abc"), &freq, &knowledge), 5);
}

#[test]
fn revealing_word_picks_the_highest_scoring_candidate() {
    let words = vec![
        String::from("abc"),
        String::from("abd"),
        String::from("dde"),
    ];
    let knowledge = build_empty_knowledge();
    // frequencies: a=2 b=2 c=1 d=3 e=1; scores: abc=5, abd=7, dde=4
    assert_eq!(revealing_word(&words, &knowledge), "abd");
}

#[test]
fn revealing_word_breaks_ties_towards_the_earlier_candidate() {
    let words = vec![String::from("ab"), String::from("ba")];
    let knowledge = build_empty_knowledge();
    assert_eq!(revealing_word(&words, &knowledge), "ab");
}
