//! The guess engine and the convergence loop: filter the candidate list to
//! the words still consistent with the knowledge, pick the next guess, fold
//! the oracle's feedback back in, and repeat until the feedback is all
//! correct.

use vstd::prelude::*;
use vstd::string::StrSliceExecFns;
use crate::game::{GuessResponse, LetterResponse, all_correct, is_guess_correct};
use crate::knowledge::{
    Knowledge,
    build_empty_knowledge,
    apply_learning,
    contained_below,
    correct_below,
    pairs_with,
    lemma_pairs_with_bounds,
    lemma_record_all_contained_below,
    record_all_contained,
};
use crate::score::{best_index, lemma_best_in_range, revealing_word};
use crate::words::{contains_char, contains_word, lower_word, total_chars};

verus! {

broadcast use vstd::set::group_set_axioms, vstd::seq_lib::seq_to_set_is_finite;

/// A word is consistent with everything the knowledge holds: it agrees with
/// every confirmed-correct letter, contains every contained letter but never
/// at a position where that letter was already tried, and was not guessed
/// before.
pub open spec fn word_valid(w: Seq<char>, k: Knowledge) -> bool {
    &&& forall|i: int|
        0 <= i < k.correct_letters@.len() ==> w[(#[trigger] k.correct_letters@[i]).1 as int]
            == k.correct_letters@[i].0
    &&& forall|i: int|
        0 <= i < k.contained_view().len() ==> w.contains((#[trigger] k.contained_view()[i]).0)
    &&& forall|i: int, j: int|
        #![trigger k.contained_view()[i].1[j]]
        0 <= i < k.contained_view().len() && 0 <= j < k.contained_view()[i].1.len()
            ==> w[k.contained_view()[i].1[j] as int] != k.contained_view()[i].0
    &&& !k.guessed_view().contains(w)
}

/// The subsequence of candidate words consistent with the knowledge, in the
/// candidate list's order.
pub open spec fn valid_set(ws: Seq<Seq<char>>, k: Knowledge) -> Seq<Seq<char>>
    decreases ws.len(),
{
    if ws.len() == 0 {
        Seq::empty()
    } else {
        let rest = valid_set(ws.drop_last(), k);
        if word_valid(ws.last(), k) {
            rest.push(ws.last())
        } else {
            rest
        }
    }
}

/// The word `make_guess` must return: the sole (or first) remaining
/// candidate, or with three or more candidates left the best-scoring one.
pub open spec fn chosen_guess(ws: Seq<Seq<char>>, k: Knowledge) -> Seq<char> {
    let vs = valid_set(ws, k);
    if vs.len() > 2 {
        vs[best_index(vs, k)]
    } else {
        vs[0]
    }
}

/// Every word of the valid set is valid and comes from the candidate list.
pub proof fn lemma_valid_set_members(ws: Seq<Seq<char>>, k: Knowledge)
    ensures
        forall|j: int| 0 <= j < valid_set(ws, k).len() ==> word_valid(
            #[trigger] valid_set(ws, k)[j],
            k,
        ) && ws.contains(valid_set(ws, k)[j]),
    decreases ws.len(),
{
    let vs = valid_set(ws, k);
    if ws.len() > 0 {
        lemma_valid_set_members(ws.drop_last(), k);
        let rest = valid_set(ws.drop_last(), k);
        assert forall|j: int| 0 <= j < vs.len() implies word_valid(#[trigger] vs[j], k)
            && ws.contains(vs[j]) by {
            if j < rest.len() {
                assert(vs[j] == rest[j]);
                let t = choose|t: int|
                    0 <= t < ws.drop_last().len() && ws.drop_last()[t] == rest[j];
                assert(ws[t] == vs[j]);
            } else {
                assert(vs[j] == ws.last());
                assert(ws[ws.len() - 1] == vs[j]);
            }
        }
    }
}

/// Filtering a list whose every word is already valid returns it unchanged.
proof fn lemma_valid_set_all_valid(ws: Seq<Seq<char>>, k: Knowledge)
    requires
        forall|j: int| 0 <= j < ws.len() ==> word_valid(#[trigger] ws[j], k),
    ensures
        valid_set(ws, k) == ws,
    decreases ws.len(),
{
    if ws.len() > 0 {
        assert(forall|j: int|
            0 <= j < ws.drop_last().len() ==> word_valid(#[trigger] ws.drop_last()[j], k));
        lemma_valid_set_all_valid(ws.drop_last(), k);
        assert(word_valid(ws[ws.len() - 1], k));
        assert(valid_set(ws, k) =~= ws.drop_last().push(ws.last()));
        assert(ws.drop_last().push(ws.last()) =~= ws);
    }
}

/// Filtering is idempotent: running the valid-set filter twice with the same
/// knowledge yields the same set as running it once.
pub proof fn lemma_valid_set_idempotent(ws: Seq<Seq<char>>, k: Knowledge)
    ensures
        valid_set(valid_set(ws, k), k) == valid_set(ws, k),
{
    lemma_valid_set_members(ws, k);
    lemma_valid_set_all_valid(valid_set(ws, k), k);
}

/// Filtering never increases the total character count.
pub proof fn lemma_valid_set_total_chars(ws: Seq<Seq<char>>, k: Knowledge)
    ensures
        total_chars(valid_set(ws, k)) <= total_chars(ws),
    decreases ws.len(),
{
    if ws.len() > 0 {
        lemma_valid_set_total_chars(ws.drop_last(), k);
        let rest = valid_set(ws.drop_last(), k);
        if word_valid(ws.last(), k) {
            assert(rest.push(ws.last()).drop_last() =~~= rest);
            assert(rest.push(ws.last()).last() == ws.last());
        }
    }
}

/// Whether one word is consistent with everything the knowledge holds.
pub fn is_word_valid(word: &String, knowledge: &Knowledge) -> (valid: bool)
    requires
        knowledge.positions_below(word@.len() as int),
    ensures
        valid == word_valid(word@, *knowledge),
{
    let n = knowledge.correct_letters.len();
    let mut i: usize = 0;
    while i < n
        invariant
            n == knowledge.correct_letters.len(),
            knowledge.positions_below(word@.len() as int),
            0 <= i <= n,
            forall|t: int| 0 <= t < i ==> word@[(#[trigger] knowledge.correct_letters@[t]).1 as int]
                == knowledge.correct_letters@[t].0,
        decreases n - i,
    {
        let pair = knowledge.correct_letters[i];
        assert(pair == knowledge.correct_letters@[i as int]);
        if word.as_str().get_char(pair.1) != pair.0 {
            return false;
        }
        i += 1;
    }
    let m = knowledge.contained_letters.len();
    let mut t: usize = 0;
    while t < m
        invariant
            m == knowledge.contained_letters.len(),
            knowledge.positions_below(word@.len() as int),
            0 <= t <= m,
            forall|s: int| 0 <= s < t ==> word@.contains(
                (#[trigger] knowledge.contained_view()[s]).0,
            ),
            forall|s: int, j: int|
                #![trigger knowledge.contained_view()[s].1[j]]
                0 <= s < t && 0 <= j < knowledge.contained_view()[s].1.len()
                    ==> word@[knowledge.contained_view()[s].1[j] as int]
                    != knowledge.contained_view()[s].0,
        decreases m - t,
    {
        let letter = knowledge.contained_letters[t].0;
        assert(letter == knowledge.contained_view()[t as int].0);
        if !contains_char(word.as_str(), letter) {
            return false;
        }
        let position_count = knowledge.contained_letters[t].1.len();
        let mut u: usize = 0;
        while u < position_count
            invariant
                t < m == knowledge.contained_letters.len(),
                knowledge.positions_below(word@.len() as int),
                position_count == knowledge.contained_view()[t as int].1.len(),
                letter == knowledge.contained_view()[t as int].0,
                0 <= u <= position_count,
                forall|j: int| 0 <= j < u ==> word@[#[trigger] knowledge.contained_view()[
                    t as int].1[j] as int] != letter,
            decreases position_count - u,
        {
            let position = knowledge.contained_letters[t].1[u];
            assert(position == knowledge.contained_view()[t as int].1[u as int]);
            if word.as_str().get_char(position) == letter {
                return false;
            }
            u += 1;
        }
        t += 1;
    }
    if contains_word(&knowledge.guessed_words, word) {
        return false;
    }
    true
}

/// Filter the candidate list to the words still consistent with the
/// knowledge, keeping the list's order.
pub fn filter_valid_words(words: &Vec<String>, knowledge: &Knowledge) -> (valid: Vec<String>)
    requires
        forall|i: int| 0 <= i < words.deep_view().len() ==> knowledge.positions_below(
            (#[trigger] words.deep_view()[i]).len() as int,
        ),
    ensures
        valid.deep_view() == valid_set(words.deep_view(), *knowledge),
{
    let ghost ws = words.deep_view();
    let mut valid: Vec<String> = Vec::new();
    let mut i: usize = 0;
    while i < words.len()
        invariant
            0 <= i <= words.len(),
            ws == words.deep_view(),
            ws.len() == words.len(),
            forall|t: int| 0 <= t < ws.len() ==> knowledge.positions_below(
                (#[trigger] ws[t]).len() as int,
            ),
            valid.deep_view() == valid_set(ws.subrange(0, i as int), *knowledge),
        decreases words.len() - i,
    {
        let word = &words[i];
        proof {
            assert(word@ == ws[i as int]);
        }
        let ghost prefix = ws.subrange(0, i as int);
        let ghost next_prefix = ws.subrange(0, i as int + 1);
        proof {
            assert(next_prefix.drop_last() =~~= prefix);
            assert(next_prefix.last() == ws[i as int]);
        }
        if is_word_valid(word, knowledge) {
            valid.push(word.clone());
            proof {
                assert(valid.deep_view() =~~= valid_set(prefix, *knowledge).push(ws[i as int]));
            }
        }
        i += 1;
    }
    proof {
        assert(ws.subrange(0, ws.len() as int) =~~= ws);
    }
    valid
}

/// Pick the next guess: filter the candidates, then return the sole (or
/// first) remaining word, or with three or more remaining the one whose
/// distinct letters are most frequent across the remaining candidates.
pub fn make_guess(possible_words: &Vec<String>, knowledge: &Knowledge) -> (guess: String)
    requires
        forall|i: int| 0 <= i < possible_words.deep_view().len() ==> lower_word(
            #[trigger] possible_words.deep_view()[i],
        ),
        forall|i: int| 0 <= i < possible_words.deep_view().len() ==> knowledge.positions_below(
            (#[trigger] possible_words.deep_view()[i]).len() as int,
        ),
        total_chars(possible_words.deep_view()) <= usize::MAX,
        valid_set(possible_words.deep_view(), *knowledge).len() > 0,
    ensures
        guess@ == chosen_guess(possible_words.deep_view(), *knowledge),
        word_valid(guess@, *knowledge),
        possible_words.deep_view().contains(guess@),
{
    let ghost ws = possible_words.deep_view();
    let ghost vs = valid_set(ws, *knowledge);
    let valid = filter_valid_words(possible_words, knowledge);
    proof {
        lemma_valid_set_members(ws, *knowledge);
        lemma_valid_set_total_chars(ws, *knowledge);
        assert forall|j: int| 0 <= j < valid.deep_view().len() implies lower_word(
            #[trigger] valid.deep_view()[j],
        ) by {
            assert(ws.contains(vs[j]));
            let t = choose|t: int| 0 <= t < ws.len() && ws[t] == vs[j];
            assert(lower_word(ws[t]));
        }
        assert(valid@.len() == vs.len());
    }
    if valid.len() > 2 {
        let guess = revealing_word(&valid, knowledge);
        proof {
            lemma_best_in_range(vs, *knowledge, vs.len() as int);
            assert(guess@ == vs[best_index(vs, *knowledge)]);
        }
        guess
    } else {
        let guess = valid[0].clone();
        proof {
            assert(guess@ == vs[0]);
        }
        guess
    }
}

/// The full transcript of a solved game: every guess made, from the first to
/// the winning one.
pub struct Solution {
    pub guess_sequence: Vec<String>,
}

/// The transcript `t` extends `base`: it keeps `base` as a prefix, and every
/// guess added after it comes from the candidate list and repeats no earlier
/// guess.
pub open spec fn transcript_extends(
    t: Seq<Seq<char>>,
    base: Seq<Seq<char>>,
    ws: Seq<Seq<char>>,
) -> bool {
    &&& base.is_prefix_of(t)
    &&& forall|i: int|
        base.len() <= i < t.len() ==> ws.contains(#[trigger] t[i]) && !t.subrange(0, i).contains(
            t[i],
        )
}

/// The oracle can answer a guess reading `w` with all-correct feedback:
/// `resp` ranges over the responses the oracle's contract admits.
pub open spec fn winning_response<F: Fn(&str) -> GuessResponse>(oracle: F, w: Seq<char>) -> bool {
    exists|g: &str, resp: GuessResponse|
        g@ == w && call_ensures(oracle, (g,), resp) && all_correct(resp.letter_responses@)
}

/// The oracle can answer a guess reading `w` with feedback that is not
/// all-correct.
pub open spec fn losing_response<F: Fn(&str) -> GuessResponse>(oracle: F, w: Seq<char>) -> bool {
    exists|g: &str, resp: GuessResponse|
        g@ == w && call_ensures(oracle, (g,), resp) && !all_correct(resp.letter_responses@)
}

/// Run the guess/feedback loop from the given knowledge until the oracle
/// reports an all-correct guess.  Returns the full guess transcript, which
/// ends with a guess the oracle answered all-correct, or `None` when no
/// candidate consistent with the knowledge remains (the list cannot contain
/// the secret word, or feedback was contradictory); in particular, a
/// knowledge whose valid set is already empty yields `None`.
pub fn solve_rec<F: Fn(&str) -> GuessResponse>(
    possible_words: &Vec<String>,
    oracle: F,
    starting_knowledge: Knowledge,
) -> (outcome: Option<Solution>)
    requires
        forall|i: int, j: int|
            0 <= i < possible_words.deep_view().len() && 0 <= j < possible_words.deep_view().len()
                ==> (#[trigger] possible_words.deep_view()[i]).len()
                == (#[trigger] possible_words.deep_view()[j]).len(),
        forall|i: int| 0 <= i < possible_words.deep_view().len() ==> lower_word(
            #[trigger] possible_words.deep_view()[i],
        ),
        total_chars(possible_words.deep_view()) <= usize::MAX,
        starting_knowledge.wf(),
        forall|i: int| 0 <= i < possible_words.deep_view().len()
            ==> starting_knowledge.positions_below(
            (#[trigger] possible_words.deep_view()[i]).len() as int,
        ),
        forall|g: &str| possible_words.deep_view().contains(g@) ==> oracle.requires((g,)),
        forall|g: &str, resp: GuessResponse|
            possible_words.deep_view().contains(g@) && oracle.ensures((g,), resp)
                ==> resp.letter_responses@.len() == g@.len(),
    ensures
        valid_set(possible_words.deep_view(), starting_knowledge).len() == 0 ==> outcome is None,
        outcome is Some ==> transcript_extends(
            (outcome->Some_0).guess_sequence.deep_view(),
            starting_knowledge.guessed_view(),
            possible_words.deep_view(),
        ) && (outcome->Some_0).guess_sequence.deep_view().len()
            > starting_knowledge.guessed_view().len(),
        outcome is Some ==> winning_response(
            oracle,
            (outcome->Some_0).guess_sequence.deep_view().last(),
        ),
        outcome is Some ==> forall|i: int|
            starting_knowledge.guessed_view().len() <= i
                < (outcome->Some_0).guess_sequence.deep_view().len() - 1 ==> losing_response(
                oracle,
                #[trigger] (outcome->Some_0).guess_sequence.deep_view()[i],
            ),
{
    let ghost ws = possible_words.deep_view();
    let ghost base = starting_knowledge.guessed_view();
    let mut knowledge = starting_knowledge;
    loop
        invariant
            ws == possible_words.deep_view(),
            base == starting_knowledge.guessed_view(),
            forall|i: int, j: int|
                0 <= i < ws.len() && 0 <= j < ws.len() ==> (#[trigger] ws[i]).len() == (
                #[trigger] ws[j]).len(),
            forall|i: int| 0 <= i < ws.len() ==> lower_word(#[trigger] ws[i]),
            total_chars(ws) <= usize::MAX,
            knowledge.wf(),
            forall|i: int| 0 <= i < ws.len() ==> knowledge.positions_below(
                (#[trigger] ws[i]).len() as int,
            ),
            forall|g: &str| ws.contains(g@) ==> oracle.requires((g,)),
            forall|g: &str, resp: GuessResponse|
                ws.contains(g@) && oracle.ensures((g,), resp) ==> resp.letter_responses@.len()
                    == g@.len(),
            transcript_extends(knowledge.guessed_view(), base, ws),
            knowledge.guessed_view().len() >= base.len(),
            knowledge == starting_knowledge || valid_set(ws, starting_knowledge).len() > 0,
            forall|i: int| base.len() <= i < knowledge.guessed_view().len() ==> losing_response(
                oracle,
                #[trigger] knowledge.guessed_view()[i],
            ),
        decreases ws.to_set().difference(knowledge.guessed_view().to_set()).len(),
    {
        let remaining = filter_valid_words(possible_words, &knowledge);
        if remaining.len() == 0 {
            return None;
        }
        proof {
            assert(valid_set(ws, knowledge).len() > 0);
            assert(valid_set(ws, starting_knowledge).len() > 0);
        }
        let guess = make_guess(possible_words, &knowledge);
        let guess_str = guess.as_str();
        let response = oracle(guess_str);
        proof {
            assert(response.letter_responses@.len() == guess@.len());
        }
        let won = is_guess_correct(&response);
        let ghost old_knowledge = knowledge;
        knowledge = apply_learning(&knowledge, &guess, &response);
        proof {
            let g = guess@;
            let r = response.letter_responses@;
            let n = g.len() as int;
            let wt = choose|wt: int| 0 <= wt < ws.len() && ws[wt] == g;
            lemma_pairs_with_bounds(g, r, LetterResponse::Correct, n);
            lemma_pairs_with_bounds(g, r, LetterResponse::InWord, n);
            assert forall|i: int| 0 <= i < ws.len() implies knowledge.positions_below(
                (#[trigger] ws[i]).len() as int,
            ) by {
                let len = ws[i].len() as int;
                assert(g.len() == ws[i].len());
                assert(correct_below(old_knowledge.correct_letters@, len));
                assert(contained_below(old_knowledge.contained_view(), len));
                let added = pairs_with(g, r, LetterResponse::Correct, n);
                assert forall|s: int|
                    0 <= s < knowledge.correct_letters@.len() implies (
                #[trigger] knowledge.correct_letters@[s]).1 < len by {
                    if s < old_knowledge.correct_letters@.len() {
                        assert(knowledge.correct_letters@[s]
                            == old_knowledge.correct_letters@[s]);
                    } else {
                        assert(knowledge.correct_letters@[s] == added[s
                            - old_knowledge.correct_letters@.len()]);
                    }
                }
                lemma_record_all_contained_below(
                    old_knowledge.contained_view(),
                    pairs_with(g, r, LetterResponse::InWord, n),
                    len,
                );
            }
            // the transcript invariant: the new guess is fresh and from the list
            let old_t = old_knowledge.guessed_view();
            let t = knowledge.guessed_view();
            assert(t == old_t.push(g));
            assert(base.is_prefix_of(t)) by {
                assert(t.subrange(0, base.len() as int) =~~= old_t.subrange(
                    0,
                    base.len() as int,
                ));
            }
            assert forall|i: int| base.len() <= i < t.len() implies ws.contains(#[trigger] t[i])
                && !t.subrange(0, i).contains(t[i]) by {
                if i < old_t.len() {
                    assert(t[i] == old_t[i]);
                    assert(t.subrange(0, i) =~~= old_t.subrange(0, i));
                } else {
                    assert(t[i] == g);
                    assert(t.subrange(0, i) =~~= old_t);
                }
            }
            // the termination measure shrinks: the guess leaves the pool of
            // candidate words not yet tried
            let old_pool = ws.to_set().difference(old_t.to_set());
            let new_pool = ws.to_set().difference(t.to_set());
            assert(t.to_set() =~= old_t.to_set().insert(g)) by {
                assert forall|x: Seq<char>| #[trigger] t.to_set().contains(x) implies
                    old_t.to_set().contains(x) || x == g by {
                    let xi = choose|xi: int| 0 <= xi < t.len() && t[xi] == x;
                    if xi < old_t.len() {
                        assert(old_t[xi] == x);
                    }
                }
                assert forall|x: Seq<char>|
                    old_t.to_set().contains(x) || x == g implies #[trigger] t.to_set().contains(
                    x,
                ) by {
                    if old_t.to_set().contains(x) {
                        let xi = choose|xi: int| 0 <= xi < old_t.len() && old_t[xi] == x;
                        assert(t[xi] == x);
                    } else {
                        assert(t[t.len() - 1] == g);
                    }
                }
            }
            assert(!old_t.to_set().contains(g)) by {
                if old_t.to_set().contains(g) {
                    assert(old_t.contains(g));
                }
            }
            assert(old_pool.contains(g));
            assert(new_pool =~= old_pool.remove(g));
            assert(ws.to_set().finite());
            assert(old_pool.finite());
            assert(new_pool.len() < old_pool.len());
            // the actual call witnesses what the oracle answered this guess
            assert(guess_str@ == g);
            assert(call_ensures(oracle, (guess_str,), response));
            if won {
                assert(winning_response(oracle, g));
                assert(t.last() == g);
                assert forall|i: int| base.len() <= i < t.len() - 1 implies losing_response(
                    oracle,
                    #[trigger] t[i],
                ) by {
                    assert(t[i] == old_t[i]);
                    assert(losing_response(oracle, old_t[i]));
                }
            } else {
                assert(losing_response(oracle, g));
                assert forall|i: int| base.len() <= i < t.len() implies losing_response(
                    oracle,
                    #[trigger] t[i],
                ) by {
                    if i < old_t.len() {
                        assert(t[i] == old_t[i]);
                        assert(losing_response(oracle, old_t[i]));
                    } else {
                        assert(t[i] == g);
                    }
                }
            }
        }
        if won {
            return Some(Solution { guess_sequence: knowledge.guessed_words });
        }
    }
}

/// Play a whole game: starting from empty knowledge, guess and learn until
/// the oracle reports an all-correct guess.  Returns the full transcript of
/// guesses — distinct words, all from the candidate list, ending with the
/// guess the oracle answered all-correct and nothing but losing answers
/// before it — or `None` when the candidates are exhausted before the game
/// is won; an empty candidate list always yields `None`.
pub fn solve<F: Fn(&str) -> GuessResponse>(possible_words: &Vec<String>, oracle: F) -> (outcome:
    Option<Solution>)
    requires
        forall|i: int, j: int|
            0 <= i < possible_words.deep_view().len() && 0 <= j < possible_words.deep_view().len()
                ==> (#[trigger] possible_words.deep_view()[i]).len()
                == (#[trigger] possible_words.deep_view()[j]).len(),
        forall|i: int| 0 <= i < possible_words.deep_view().len() ==> lower_word(
            #[trigger] possible_words.deep_view()[i],
        ),
        total_chars(possible_words.deep_view()) <= usize::MAX,
        forall|g: &str| possible_words.deep_view().contains(g@) ==> oracle.requires((g,)),
        forall|g: &str, resp: GuessResponse|
            possible_words.deep_view().contains(g@) && oracle.ensures((g,), resp)
                ==> resp.letter_responses@.len() == g@.len(),
    ensures
        possible_words.deep_view().len() == 0 ==> outcome is None,
        outcome is Some ==> (outcome->Some_0).guess_sequence.deep_view().len() >= 1,
        outcome is Some ==> (outcome->Some_0).guess_sequence.deep_view().no_duplicates(),
        outcome is Some ==> forall|i: int|
            0 <= i < (outcome->Some_0).guess_sequence.deep_view().len()
                ==> possible_words.deep_view().contains(
                #[trigger] (outcome->Some_0).guess_sequence.deep_view()[i],
            ),
        outcome is Some ==> winning_response(
            oracle,
            (outcome->Some_0).guess_sequence.deep_view().last(),
        ),
        outcome is Some ==> forall|i: int|
            0 <= i < (outcome->Some_0).guess_sequence.deep_view().len() - 1 ==> losing_response(
                oracle,
                #[trigger] (outcome->Some_0).guess_sequence.deep_view()[i],
            ),
{
    let knowledge = build_empty_knowledge();
    let outcome = solve_rec(possible_words, oracle, knowledge);
    proof {
        if possible_words.deep_view().len() == 0 {
            assert(valid_set(possible_words.deep_view(), knowledge).len() == 0);
        }
        if outcome is Some {
            let t = (outcome->Some_0).guess_sequence.deep_view();
            assert(transcript_extends(t, Seq::<Seq<char>>::empty(), possible_words.deep_view()));
            assert forall|a: int, b: int|
                0 <= a < t.len() && 0 <= b < t.len() && a != b implies t[a] != t[b] by {
                let lo = if a < b {
                    a
                } else {
                    b
                };
                let hi = if a < b {
                    b
                } else {
                    a
                };
                assert(!t.subrange(0, hi).contains(t[hi]));
                assert(t.subrange(0, hi)[lo] == t[lo]);
            }
        }
    }
    outcome
}

} // verus!
