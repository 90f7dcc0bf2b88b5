//! Letter-frequency scoring: the heuristic that picks the most revealing
//! guess among the remaining candidates.
//!
//! The frequency table counts, for each of the 26 lowercase letters, its raw
//! occurrences across all candidate words.  A word's score sums the
//! frequencies of its distinct letters, except that a letter scores zero when
//! it already appeared in a guessed word without having been classified
//! correct or in-word: re-testing such a letter reveals nothing new.

use vstd::prelude::*;
use vstd::pervasive::VecAdditionalExecFns;
use vstd::string::StrSliceExecFns;
use crate::knowledge::{Knowledge, has_letter, lemma_has_letter_index};
use crate::words::{
    count_char,
    count_char_up_to,
    contains_char,
    is_lower_letter,
    letter_index,
    lower_word,
    total_chars,
    lemma_total_chars_prefix_le,
};

verus! {

/// Occurrences of `c` across all words of the list.
pub open spec fn count_in_words(ws: Seq<Seq<char>>, c: char) -> nat
    decreases ws.len(),
{
    if ws.len() == 0 {
        0
    } else {
        count_in_words(ws.drop_last(), c) + count_char(ws.last(), c)
    }
}

/// Sum of the first `n` entries of a frequency table.
pub open spec fn sum_freq(f: Seq<usize>, n: int) -> int
    decreases n,
{
    if n <= 0 {
        0
    } else {
        sum_freq(f, n - 1) + f[n - 1]
    }
}

/// Sum of those entries among the first `n` whose index lies in `sel`.
pub open spec fn sum_freq_sel(f: Seq<usize>, sel: Set<int>, n: int) -> int
    decreases n,
{
    if n <= 0 {
        0
    } else {
        sum_freq_sel(f, sel, n - 1) + if sel.contains(n - 1) {
            f[n - 1] as int
        } else {
            0
        }
    }
}

/// The alphabet indices of the letters of `w`.
pub open spec fn letter_indices(w: Seq<char>) -> Set<int>
    decreases w.len(),
{
    if w.len() == 0 {
        Set::empty()
    } else {
        letter_indices(w.drop_last()).insert(letter_index(w.last()))
    }
}

/// The letter occurs in some already-guessed word.
pub open spec fn letter_in_guessed(k: Knowledge, c: char) -> bool {
    exists|i: int| 0 <= i < k.guessed_view().len() && (#[trigger] k.guessed_view()[i]).contains(c)
}

/// The letter was confirmed `Correct` at some position.
pub open spec fn letter_confirmed_correct(k: Knowledge, c: char) -> bool {
    exists|i: int| 0 <= i < k.correct_letters@.len() && (#[trigger] k.correct_letters@[i]).0 == c
}

/// A letter scores zero when it already appeared in a guessed word without
/// being classified correct or in-word.
pub open spec fn letter_scored_zero(k: Knowledge, c: char) -> bool {
    letter_in_guessed(k, c) && !has_letter(k.contained_view(), c) && !letter_confirmed_correct(k, c)
}

/// The value one letter contributes to a word's score, given a frequency
/// table.
pub open spec fn letter_value(c: char, f: Seq<usize>, k: Knowledge) -> int {
    if letter_scored_zero(k, c) {
        0
    } else {
        f[letter_index(c)] as int
    }
}

/// Score of a word against a frequency table: the sum of its distinct
/// letters' values, each letter counted once (at its first occurrence).
pub open spec fn word_score_of(w: Seq<char>, f: Seq<usize>, k: Knowledge) -> int
    decreases w.len(),
{
    if w.len() == 0 {
        0
    } else if w.drop_last().contains(w.last()) {
        word_score_of(w.drop_last(), f, k)
    } else {
        word_score_of(w.drop_last(), f, k) + letter_value(w.last(), f, k)
    }
}

/// The value one letter contributes when the table counts occurrences across
/// the word list itself.
pub open spec fn letter_value_in(c: char, ws: Seq<Seq<char>>, k: Knowledge) -> int {
    if letter_scored_zero(k, c) {
        0
    } else {
        count_in_words(ws, c) as int
    }
}

/// Score of a word against the letter frequencies of the word list `ws`.
pub open spec fn word_score_in(w: Seq<char>, ws: Seq<Seq<char>>, k: Knowledge) -> int
    decreases w.len(),
{
    if w.len() == 0 {
        0
    } else if w.drop_last().contains(w.last()) {
        word_score_in(w.drop_last(), ws, k)
    } else {
        word_score_in(w.drop_last(), ws, k) + letter_value_in(w.last(), ws, k)
    }
}

/// Index of the best-scoring word among the first `n`, earliest maximal
/// index first.
pub open spec fn best_in(ws: Seq<Seq<char>>, k: Knowledge, n: int) -> int
    decreases n,
{
    if n <= 1 {
        0
    } else {
        let b = best_in(ws, k, n - 1);
        if word_score_in(ws[n - 1], ws, k) > word_score_in(ws[b], ws, k) {
            n - 1
        } else {
            b
        }
    }
}

/// Index of the best-scoring word of the whole list, earliest maximal index
/// first.
pub open spec fn best_index(ws: Seq<Seq<char>>, k: Knowledge) -> int {
    best_in(ws, k, ws.len() as int)
}

/// A selected sum never exceeds the full sum.
proof fn lemma_sum_freq_sel_le(f: Seq<usize>, sel: Set<int>, n: int)
    ensures
        sum_freq_sel(f, sel, n) <= sum_freq(f, n),
    decreases n,
{
    if n > 0 {
        lemma_sum_freq_sel_le(f, sel, n - 1);
    }
}

/// Selected sums of unsigned entries are nonnegative.
proof fn lemma_sum_freq_sel_nonneg(f: Seq<usize>, sel: Set<int>, n: int)
    ensures
        0 <= sum_freq_sel(f, sel, n),
    decreases n,
{
    if n > 0 {
        lemma_sum_freq_sel_nonneg(f, sel, n - 1);
    }
}

/// Inserting a fresh index adds exactly that entry to a selected sum.
proof fn lemma_sum_freq_sel_insert(f: Seq<usize>, sel: Set<int>, j: int, n: int)
    requires
        !sel.contains(j),
    ensures
        sum_freq_sel(f, sel.insert(j), n) == sum_freq_sel(f, sel, n) + if 0 <= j < n {
            f[j] as int
        } else {
            0
        },
    decreases n,
{
    if n > 0 {
        lemma_sum_freq_sel_insert(f, sel, j, n - 1);
    }
}

/// A word's score is at most the selected sum over its letters' indices.
proof fn lemma_word_score_le_sel(w: Seq<char>, f: Seq<usize>, k: Knowledge)
    requires
        lower_word(w),
    ensures
        word_score_of(w, f, k) <= sum_freq_sel(f, letter_indices(w), 26),
        0 <= word_score_of(w, f, k),
    decreases w.len(),
{
    lemma_sum_freq_sel_nonneg(f, letter_indices(w), 26);
    if w.len() > 0 {
        let w0 = w.drop_last();
        let c = w.last();
        assert(lower_word(w0));
        lemma_word_score_le_sel(w0, f, k);
        if w0.contains(c) {
            assert(letter_indices(w0).contains(letter_index(c))) by {
                lemma_letter_indices_contains(w0, c);
            }
            assert(letter_indices(w) =~= letter_indices(w0));
        } else {
            assert(!letter_indices(w0).contains(letter_index(c))) by {
                lemma_letter_indices_contains(w0, c);
            }
            lemma_sum_freq_sel_insert(f, letter_indices(w0), letter_index(c), 26);
            assert(0 <= letter_index(c) < 26);
            assert(letter_value(c, f, k) <= f[letter_index(c)] as int);
        }
    }
}

/// A lowercase letter's index is collected exactly when the letter occurs in
/// the word.
proof fn lemma_letter_indices_contains(w: Seq<char>, c: char)
    requires
        lower_word(w),
        is_lower_letter(c),
    ensures
        letter_indices(w).contains(letter_index(c)) <==> w.contains(c),
    decreases w.len(),
{
    if w.len() > 0 {
        let w0 = w.drop_last();
        assert(lower_word(w0));
        lemma_letter_indices_contains(w0, c);
        if w.last() == c {
            assert(w.contains(c)) by {
                assert(w[w.len() - 1] == c);
            }
        } else if w0.contains(c) {
            let i = choose|i: int| 0 <= i < w0.len() && w0[i] == c;
            assert(w[i] == c);
        } else if w.contains(c) {
            let i = choose|i: int| 0 <= i < w.len() && w[i] == c;
            assert(i < w.len() - 1);
            assert(w0[i] == c);
        }
    }
}

/// Bound for overflow reasoning: a word's score is at most the sum of the
/// whole frequency table.
pub proof fn lemma_word_score_le_total(w: Seq<char>, f: Seq<usize>, k: Knowledge)
    requires
        lower_word(w),
    ensures
        0 <= word_score_of(w, f, k) <= sum_freq(f, 26),
{
    lemma_word_score_le_sel(w, f, k);
    lemma_sum_freq_sel_le(f, letter_indices(w), 26);
}

/// With a table that counts occurrences across `ws`, the two score
/// definitions agree.
pub proof fn lemma_word_score_of_in(w: Seq<char>, f: Seq<usize>, ws: Seq<Seq<char>>, k: Knowledge)
    requires
        lower_word(w),
        forall|c: char| is_lower_letter(c) ==> f[letter_index(c)] == count_in_words(ws, c),
    ensures
        word_score_of(w, f, k) == word_score_in(w, ws, k),
    decreases w.len(),
{
    if w.len() > 0 {
        assert(lower_word(w.drop_last()));
        lemma_word_score_of_in(w.drop_last(), f, ws, k);
        assert(is_lower_letter(w.last()));
    }
}

/// Each table entry is at most the sum of the whole table.
proof fn lemma_sum_freq_element_le(f: Seq<usize>, j: int, n: int)
    requires
        0 <= j < n,
    ensures
        f[j] as int <= sum_freq(f, n),
    decreases n,
{
    if j < n - 1 {
        lemma_sum_freq_element_le(f, j, n - 1);
    } else {
        lemma_sum_freq_nonneg(f, n - 1);
    }
}

/// Sums of unsigned entries are nonnegative.
proof fn lemma_sum_freq_nonneg(f: Seq<usize>, n: int)
    ensures
        0 <= sum_freq(f, n),
    decreases n,
{
    if n > 0 {
        lemma_sum_freq_nonneg(f, n - 1);
    }
}

/// Bumping one entry changes the sum by the same amount.
proof fn lemma_sum_freq_update(f: Seq<usize>, j: int, v: usize, n: int)
    requires
        0 <= j < f.len(),
        n <= f.len(),
    ensures
        sum_freq(f.update(j, v), n) == sum_freq(f, n) + if 0 <= j < n {
            v as int - f[j] as int
        } else {
            0
        },
    decreases n,
{
    if n > 0 {
        lemma_sum_freq_update(f, j, v, n - 1);
    }
}

/// The sum of an all-zero table is zero.
proof fn lemma_sum_freq_zero(f: Seq<usize>, n: int)
    requires
        forall|j: int| 0 <= j < n ==> f[j] == 0,
    ensures
        sum_freq(f, n) == 0,
    decreases n,
{
    if n > 0 {
        lemma_sum_freq_zero(f, n - 1);
    }
}

/// The index of a lowercase letter in the 26-entry frequency table.
fn letter_slot(c: char) -> (slot: usize)
    requires
        is_lower_letter(c),
    ensures
        slot as int == letter_index(c),
        slot < 26,
{
    (c as u32 - 97) as usize
}

/// Count, for each of the 26 lowercase letters, its raw occurrences across
/// all words of the list.
pub fn letter_frequencies(words: &Vec<String>) -> (freq: Vec<usize>)
    requires
        forall|i: int| 0 <= i < words.deep_view().len() ==> lower_word(
            #[trigger] words.deep_view()[i],
        ),
        total_chars(words.deep_view()) <= usize::MAX,
    ensures
        freq@.len() == 26,
        forall|c: char| is_lower_letter(c) ==> freq@[letter_index(c)] == count_in_words(
            words.deep_view(),
            c,
        ),
        sum_freq(freq@, 26) == total_chars(words.deep_view()),
{
    let ghost ws = words.deep_view();
    let mut freq: Vec<usize> = Vec::new();
    let mut z: usize = 0;
    while z < 26
        invariant
            0 <= z <= 26,
            freq@.len() == z,
            forall|j: int| 0 <= j < z ==> freq@[j] == 0,
        decreases 26 - z,
    {
        freq.push(0);
        z += 1;
    }
    proof {
        lemma_sum_freq_zero(freq@, 26);
        assert(ws.subrange(0, 0) =~~= Seq::<Seq<char>>::empty());
        assert forall|c: char| is_lower_letter(c) implies freq@[letter_index(c)] == count_in_words(
            ws.subrange(0, 0),
            c,
        ) by {
            assert(count_in_words(ws.subrange(0, 0), c) == 0);
        }
    }
    let mut wi: usize = 0;
    while wi < words.len()
        invariant
            0 <= wi <= words.len(),
            ws == words.deep_view(),
            ws.len() == words.len(),
            forall|i: int| 0 <= i < ws.len() ==> lower_word(#[trigger] ws[i]),
            total_chars(ws) <= usize::MAX,
            freq@.len() == 26,
            forall|c: char| is_lower_letter(c) ==> freq@[letter_index(c)] == count_in_words(
                ws.subrange(0, wi as int),
                c,
            ),
            sum_freq(freq@, 26) == total_chars(ws.subrange(0, wi as int)),
        decreases words.len() - wi,
    {
        let word = &words[wi];
        let word_len = word.as_str().unicode_len();
        proof {
            assert(word@ == ws[wi as int]);
            lemma_total_chars_prefix_le(ws, wi as int + 1);
            assert(ws.subrange(0, wi as int + 1).drop_last() =~~= ws.subrange(0, wi as int));
            assert(total_chars(ws.subrange(0, wi as int)) + word@.len() <= total_chars(ws));
        }
        let mut j: usize = 0;
        while j < word_len
            invariant
                0 <= j <= word_len,
                wi < ws.len(),
                ws == words.deep_view(),
                word@ == ws[wi as int],
                lower_word(word@),
                word_len == word@.len(),
                total_chars(ws.subrange(0, wi as int)) + word@.len() <= total_chars(ws),
                total_chars(ws) <= usize::MAX,
                freq@.len() == 26,
                forall|c: char| is_lower_letter(c) ==> freq@[letter_index(c)] == count_in_words(
                    ws.subrange(0, wi as int),
                    c,
                ) + count_char_up_to(word@, c, j as int),
                sum_freq(freq@, 26) == total_chars(ws.subrange(0, wi as int)) + j,
            decreases word_len - j,
        {
            let c = word.as_str().get_char(j);
            let slot = letter_slot(c);
            let entry = freq[slot];
            let ghost table_before = freq@;
            proof {
                lemma_sum_freq_element_le(freq@, slot as int, 26);
            }
            freq.set(slot, entry + 1);
            proof {
                lemma_sum_freq_update(table_before, slot as int, (entry + 1) as usize, 26);
                assert forall|c2: char| is_lower_letter(c2) implies freq@[letter_index(c2)]
                    == count_in_words(ws.subrange(0, wi as int), c2) + count_char_up_to(
                    word@,
                    c2,
                    j as int + 1,
                ) by {
                    if c2 == c {
                        assert(freq@[letter_index(c2)] == entry + 1);
                    } else {
                        assert(letter_index(c2) != letter_index(c));
                        assert(freq@[letter_index(c2)] == table_before[letter_index(c2)]);
                        assert(word@[j as int] != c2);
                    }
                }
            }
            j += 1;
        }
        proof {
            assert(ws.subrange(0, wi as int + 1).drop_last() =~~= ws.subrange(0, wi as int));
            assert(ws.subrange(0, wi as int + 1).last() == word@);
            assert forall|c: char| is_lower_letter(c) implies freq@[letter_index(c)]
                == count_in_words(ws.subrange(0, wi as int + 1), c) by {
                assert(count_char_up_to(word@, c, word@.len() as int) == count_char(word@, c));
            }
        }
        wi += 1;
    }
    proof {
        assert(ws.subrange(0, ws.len() as int) =~~= ws);
    }
    freq
}

/// Whether the letter occurs in some already-guessed word.
fn letter_in_guessed_words(knowledge: &Knowledge, c: char) -> (found: bool)
    ensures
        found == letter_in_guessed(*knowledge, c),
{
    let n = knowledge.guessed_words.len();
    let mut i: usize = 0;
    while i < n
        invariant
            n == knowledge.guessed_words.len(),
            0 <= i <= n,
            forall|j: int| 0 <= j < i ==> !(#[trigger] knowledge.guessed_view()[j]).contains(c),
        decreases n - i,
    {
        if contains_char(knowledge.guessed_words[i].as_str(), c) {
            assert(knowledge.guessed_view()[i as int].contains(c));
            return true;
        }
        assert(!knowledge.guessed_view()[i as int].contains(c));
        i += 1;
    }
    false
}

/// Whether the contained-letter store has an entry for the letter.
fn letter_has_contained_entry(knowledge: &Knowledge, c: char) -> (found: bool)
    ensures
        found == has_letter(knowledge.contained_view(), c),
{
    proof {
        lemma_has_letter_index(knowledge.contained_view(), c);
    }
    let n = knowledge.contained_letters.len();
    let mut i: usize = 0;
    while i < n
        invariant
            n == knowledge.contained_letters.len(),
            0 <= i <= n,
            forall|j: int| 0 <= j < i ==> (#[trigger] knowledge.contained_view()[j]).0 != c,
        decreases n - i,
    {
        if knowledge.contained_letters[i].0 == c {
            proof {
                lemma_has_letter_index(knowledge.contained_view(), c);
                assert(knowledge.contained_view()[i as int].0 == c);
            }
            return true;
        }
        assert(knowledge.contained_view()[i as int].0 != c);
        i += 1;
    }
    proof {
        lemma_has_letter_index(knowledge.contained_view(), c);
    }
    false
}

/// Whether the letter was confirmed correct at some position.
fn letter_correct_somewhere(knowledge: &Knowledge, c: char) -> (found: bool)
    ensures
        found == letter_confirmed_correct(*knowledge, c),
{
    let n = knowledge.correct_letters.len();
    let mut i: usize = 0;
    while i < n
        invariant
            n == knowledge.correct_letters.len(),
            0 <= i <= n,
            forall|j: int| 0 <= j < i ==> (#[trigger] knowledge.correct_letters@[j]).0 != c,
        decreases n - i,
    {
        if knowledge.correct_letters[i].0 == c {
            assert(knowledge.correct_letters@[i as int].0 == c);
            return true;
        }
        i += 1;
    }
    false
}

/// Score a word against a frequency table: sum the table entries of the
/// word's distinct letters, scoring zero for a letter that already appeared
/// in a guessed word without being classified correct or in-word.
pub fn word_score(word: &String, char_frequence: &Vec<usize>, knowledge: &Knowledge) -> (score:
    usize)
    requires
        lower_word(word@),
        char_frequence@.len() == 26,
        sum_freq(char_frequence@, 26) <= usize::MAX,
    ensures
        score as int == word_score_of(word@, char_frequence@, *knowledge),
{
    let n = word.as_str().unicode_len();
    let mut score: usize = 0;
    let mut i: usize = 0;
    while i < n
        invariant
            n == word@.len(),
            lower_word(word@),
            char_frequence@.len() == 26,
            sum_freq(char_frequence@, 26) <= usize::MAX,
            0 <= i <= n,
            score as int == word_score_of(word@.subrange(0, i as int), char_frequence@, *knowledge),
        decreases n - i,
    {
        let c = word.as_str().get_char(i);
        let mut seen = false;
        let mut j: usize = 0;
        while j < i
            invariant
                0 <= j <= i <= word@.len(),
                c == word@[i as int],
                seen == word@.subrange(0, j as int).contains(c),
            decreases i - j,
        {
            if word.as_str().get_char(j) == c {
                seen = true;
                assert(word@.subrange(0, j as int + 1)[j as int] == c);
            }
            proof {
                if word@.subrange(0, j as int).contains(c) {
                    let t = choose|t: int|
                        0 <= t < j && #[trigger] word@.subrange(0, j as int)[t] == c;
                    assert(word@.subrange(0, j as int + 1)[t] == c);
                } else if word@.subrange(0, j as int + 1).contains(c) && word@[j as int] != c {
                    let t = choose|t: int|
                        0 <= t < j + 1 && #[trigger] word@.subrange(0, j as int + 1)[t] == c;
                    assert(word@.subrange(0, j as int)[t] == c);
                }
            }
            j += 1;
        }
        let ghost prefix = word@.subrange(0, i as int);
        let ghost next_prefix = word@.subrange(0, i as int + 1);
        proof {
            assert(next_prefix.drop_last() =~= prefix);
            assert(next_prefix.last() == c);
            assert(lower_word(next_prefix));
            lemma_word_score_le_total(next_prefix, char_frequence@, *knowledge);
        }
        if !seen {
            let zeroed = if letter_has_contained_entry(knowledge, c) {
                false
            } else if letter_correct_somewhere(knowledge, c) {
                false
            } else {
                letter_in_guessed_words(knowledge, c)
            };
            let value = if zeroed {
                0
            } else {
                char_frequence[letter_slot(c)]
            };
            proof {
                assert(value as int == letter_value(c, char_frequence@, *knowledge));
                assert(word_score_of(next_prefix, char_frequence@, *knowledge) == score + value);
            }
            score += value;
        }
        i += 1;
    }
    proof {
        assert(word@.subrange(0, n as int) =~= word@);
    }
    score
}

/// The best index of a nonempty prefix is inside the prefix.
pub proof fn lemma_best_in_range(ws: Seq<Seq<char>>, k: Knowledge, n: int)
    requires
        1 <= n,
    ensures
        0 <= best_in(ws, k, n) < n,
    decreases n,
{
    if n > 1 {
        lemma_best_in_range(ws, k, n - 1);
    }
}

/// The best index scores at least every word of the prefix, and strictly
/// more than every earlier word: ties keep the first maximal word.
pub proof fn lemma_best_in_maximal(ws: Seq<Seq<char>>, k: Knowledge, n: int)
    requires
        1 <= n,
    ensures
        forall|j: int| 0 <= j < n ==> word_score_in(#[trigger] ws[j], ws, k) <= word_score_in(
            ws[best_in(ws, k, n)],
            ws,
            k,
        ),
        forall|j: int| 0 <= j < best_in(ws, k, n) ==> word_score_in(#[trigger] ws[j], ws, k)
            < word_score_in(ws[best_in(ws, k, n)], ws, k),
    decreases n,
{
    if n > 1 {
        lemma_best_in_maximal(ws, k, n - 1);
    }
}

/// Pick the candidate with the highest score: the most revealing next guess.
/// Ties are broken in favour of the earliest candidate.
pub fn revealing_word(possible_words: &Vec<String>, knowledge: &Knowledge) -> (word: String)
    requires
        possible_words.len() > 0,
        forall|i: int| 0 <= i < possible_words.deep_view().len() ==> lower_word(
            #[trigger] possible_words.deep_view()[i],
        ),
        total_chars(possible_words.deep_view()) <= usize::MAX,
    ensures
        word@ == possible_words.deep_view()[best_index(possible_words.deep_view(), *knowledge)],
        0 <= best_index(possible_words.deep_view(), *knowledge) < possible_words.deep_view().len(),
        forall|j: int| 0 <= j < possible_words.deep_view().len() ==> word_score_in(
            #[trigger] possible_words.deep_view()[j],
            possible_words.deep_view(),
            *knowledge,
        ) <= word_score_in(word@, possible_words.deep_view(), *knowledge),
        forall|j: int| 0 <= j < best_index(possible_words.deep_view(), *knowledge)
            ==> word_score_in(
            #[trigger] possible_words.deep_view()[j],
            possible_words.deep_view(),
            *knowledge,
        ) < word_score_in(word@, possible_words.deep_view(), *knowledge),
{
    let ghost ws = possible_words.deep_view();
    let char_frequence = letter_frequencies(possible_words);
    let mut best: usize = 0;
    let first = &possible_words[0];
    proof {
        assert(first@ == ws[0]);
        assert(lower_word(ws[0]));
    }
    let mut best_score = word_score(first, &char_frequence, knowledge);
    proof {
        lemma_word_score_of_in(ws[0], char_frequence@, ws, *knowledge);
    }
    let mut i: usize = 1;
    while i < possible_words.len()
        invariant
            1 <= i <= possible_words.len(),
            ws == possible_words.deep_view(),
            ws.len() == possible_words.len(),
            forall|t: int| 0 <= t < ws.len() ==> lower_word(#[trigger] ws[t]),
            char_frequence@.len() == 26,
            sum_freq(char_frequence@, 26) <= usize::MAX,
            forall|c: char| is_lower_letter(c) ==> char_frequence@[letter_index(c)]
                == count_in_words(ws, c),
            best < i,
            best as int == best_in(ws, *knowledge, i as int),
            best_score as int == word_score_in(ws[best as int], ws, *knowledge),
        decreases possible_words.len() - i,
    {
        let candidate = &possible_words[i];
        proof {
            assert(candidate@ == ws[i as int]);
            assert(lower_word(ws[i as int]));
        }
        let candidate_score = word_score(candidate, &char_frequence, knowledge);
        proof {
            lemma_word_score_of_in(ws[i as int], char_frequence@, ws, *knowledge);
        }
        if candidate_score > best_score {
            best = i;
            best_score = candidate_score;
        }
        i += 1;
    }
    proof {
        lemma_best_in_range(ws, *knowledge, ws.len() as int);
        lemma_best_in_maximal(ws, *knowledge, ws.len() as int);
    }
    possible_words[best].clone()
}

} // verus!
