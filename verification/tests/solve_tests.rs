use wordle_solver::game::GuessResponse;
use wordle_solver::non_interactive_solver::non_interactive_solver;
use wordle_solver::player::solve;

fn oracle_for(secret: &str) -> impl Fn(&str) -> GuessResponse + '_ {
    move |guess: &str| non_interactive_solver(guess, String::from(secret))
}

#[test]
fn solve_single_word_immediate_win() {
    let words = vec![String::from("hello")];
    let solution = solve(&words, oracle_for("hello")).expect("the secret word is in the list");
    assert_eq!(solution.guess_sequence, vec![String::from("hello")]);
}

#[test]
fn solve_converges_on_the_secret_word() {
    let words = vec![
        String::from("abc"),
        String::from("bcd"),
        String::from("acd"),
        String::from("bac"),
    ];
    let solution = solve(&words, oracle_for("bac")).expect("the secret word is in the list");
    let transcript = &solution.guess_sequence;
    assert!(!transcript.is_empty());
    assert_eq!(transcript.last().unwrap(), "bac");
    // every guess comes from the list, and none repeats
    for (i, guess) in transcript.iter().enumerate() {
        assert!(words.contains(guess));
        assert!(!transcript[..i].contains(guess));
    }
}

#[test]
fn solve_with_empty_word_list_reports_exhaustion() {
    let words: Vec<String> = Vec::new();
    assert!(solve(&words, oracle_for("abc")).is_none());
}

#[test]
fn solve_reports_exhaustion_when_secret_is_not_listed() {
    let words = vec![String::from("abc")];
    assert!(solve(&words, oracle_for("def")).is_none());
}
