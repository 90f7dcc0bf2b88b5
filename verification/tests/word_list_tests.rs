use wordle_solver::words::{filter_game_words, is_game_word};

#[test]
fn loader_filter_keeps_exactly_the_game_words() {
    let tokens = vec![
        String::from("hello"),
        String::from("world"),
        String::from("ab"),
        String::from("Hello"),
        String::from("worlds"),
        String::from("crane"),
        String::from("cr4ne"),
    ];
    let kept = filter_game_words(&tokens);
    assert_eq!(
        kept,
        vec![
            String::from("hello"),
            String::from("world"),
            String::from("crane")
        ]
    );
}

#[test]
fn loader_filter_of_empty_list_is_empty() {
    let tokens: Vec<String> = Vec::new();
    assert!(filter_game_words(&tokens).is_empty());
}

#[test]
fn game_word_check_demands_length_and_lowercase() {
    assert!(is_game_word(&String::from("crane")));
    assert!(!is_game_word(&String::from("cranes")));
    assert!(!is_game_word(&String::from("Crane")));
    assert!(!is_game_word(&String::from("cr4ne")));
    assert!(!is_game_word(&String::from("")));
}
