//! Helpers for game words: lowercase-letter predicates, character counting,
//! the word-list loader's filter, and small executable operations on strings
//! that the solver needs.

use vstd::prelude::*;
use vstd::string::StrSliceExecFns;
use crate::game::GAME_WORD_LENGTH;

verus! {

/// `c` is one of the 26 lowercase ascii letters.
pub open spec fn is_lower_letter(c: char) -> bool {
    'a' <= c && c <= 'z'
}

/// Index of a lowercase letter in the alphabet: 0 for 'a' up to 25 for 'z'.
pub open spec fn letter_index(c: char) -> int {
    c as int - 'a' as int
}

/// Every character of the word is a lowercase ascii letter.
pub open spec fn lower_word(w: Seq<char>) -> bool {
    forall|i: int| 0 <= i < w.len() ==> is_lower_letter(w[i])
}

/// Number of occurrences of `c` among the first `n` characters of `w`.
pub open spec fn count_char_up_to(w: Seq<char>, c: char, n: int) -> nat
    decreases n,
{
    if n <= 0 {
        0
    } else {
        count_char_up_to(w, c, n - 1) + if w[n - 1] == c {
            1nat
        } else {
            0nat
        }
    }
}

/// Number of occurrences of `c` in the whole word `w`.
pub open spec fn count_char(w: Seq<char>, c: char) -> nat {
    count_char_up_to(w, c, w.len() as int)
}

/// Total number of characters across a sequence of words.
pub open spec fn total_chars(ws: Seq<Seq<char>>) -> nat
    decreases ws.len(),
{
    if ws.len() == 0 {
        0
    } else {
        total_chars(ws.drop_last()) + ws.last().len()
    }
}

/// The total of a prefix never exceeds the total of the whole list.
pub proof fn lemma_total_chars_prefix_le(ws: Seq<Seq<char>>, n: int)
    requires
        0 <= n <= ws.len(),
    ensures
        total_chars(ws.subrange(0, n)) <= total_chars(ws),
    decreases ws.len() - n,
{
    if n == ws.len() {
        assert(ws.subrange(0, n) =~= ws);
    } else {
        lemma_total_chars_prefix_le(ws, n + 1);
        assert(ws.subrange(0, n + 1).drop_last() =~= ws.subrange(0, n));
        assert(total_chars(ws.subrange(0, n)) <= total_chars(ws.subrange(0, n + 1)));
    }
}

/// A word the game accepts: exactly the game's word length, lowercase ascii
/// letters throughout.
pub open spec fn game_word(w: Seq<char>) -> bool {
    w.len() == GAME_WORD_LENGTH && lower_word(w)
}

/// The subsequence of words the game accepts, in the given order.
pub open spec fn game_words_of(ws: Seq<Seq<char>>) -> Seq<Seq<char>>
    decreases ws.len(),
{
    if ws.len() == 0 {
        Seq::empty()
    } else {
        let rest = game_words_of(ws.drop_last());
        if game_word(ws.last()) {
            rest.push(ws.last())
        } else {
            rest
        }
    }
}

/// Whether the game accepts this word.
pub fn is_game_word(word: &String) -> (accepted: bool)
    ensures
        accepted == game_word(word@),
{
    let n = word.as_str().unicode_len();
    if n != GAME_WORD_LENGTH {
        return false;
    }
    let mut i: usize = 0;
    while i < n
        invariant
            n == word@.len(),
            0 <= i <= n,
            forall|j: int| 0 <= j < i ==> is_lower_letter(word@[j]),
        decreases n - i,
    {
        let c = word.as_str().get_char(i);
        let code = c as u32;
        if code < 97 || code > 122 {
            assert(!is_lower_letter(word@[i as int]));
            return false;
        }
        i += 1;
    }
    true
}

/// The word-list loader's filter: keep exactly the words the game accepts,
/// in order.
pub fn filter_game_words(words: &Vec<String>) -> (kept: Vec<String>)
    ensures
        kept.deep_view() == game_words_of(words.deep_view()),
        forall|i: int| 0 <= i < kept.deep_view().len() ==> (#[trigger] kept.deep_view()[i]).len()
            == GAME_WORD_LENGTH && lower_word(kept.deep_view()[i]),
{
    let ghost ws = words.deep_view();
    let mut kept: Vec<String> = Vec::new();
    let mut i: usize = 0;
    while i < words.len()
        invariant
            0 <= i <= words.len(),
            ws == words.deep_view(),
            ws.len() == words.len(),
            kept.deep_view() == game_words_of(ws.subrange(0, i as int)),
            forall|t: int| 0 <= t < kept.deep_view().len() ==> (#[trigger] kept.deep_view()[
                t]).len() == GAME_WORD_LENGTH && lower_word(kept.deep_view()[t]),
        decreases words.len() - i,
    {
        let word = &words[i];
        proof {
            assert(word@ == ws[i as int]);
        }
        let ghost prefix = ws.subrange(0, i as int);
        let ghost next_prefix = ws.subrange(0, i as int + 1);
        proof {
            assert(next_prefix.drop_last() =~~= prefix);
            assert(next_prefix.last() == ws[i as int]);
        }
        if is_game_word(word) {
            kept.push(word.clone());
            proof {
                assert(kept.deep_view() =~~= game_words_of(prefix).push(ws[i as int]));
            }
        }
        i += 1;
    }
    proof {
        assert(ws.subrange(0, ws.len() as int) =~~= ws);
    }
    kept
}

/// Whether the string contains the character anywhere.
pub fn contains_char(w: &str, c: char) -> (found: bool)
    ensures
        found == w@.contains(c),
{
    let n = w.unicode_len();
    let mut i: usize = 0;
    while i < n
        invariant
            n == w@.len(),
            0 <= i <= n,
            forall|j: int| 0 <= j < i ==> w@[j] != c,
        decreases n - i,
    {
        if w.get_char(i) == c {
            assert(w@.contains(c));
            return true;
        }
        i += 1;
    }
    assert(!w@.contains(c));
    false
}

/// Whether the word list holds a word whose characters equal `w`'s.
pub fn contains_word(list: &Vec<String>, w: &String) -> (found: bool)
    ensures
        found == list.deep_view().contains(w@),
{
    let n = list.len();
    let mut i: usize = 0;
    while i < n
        invariant
            n == list.len(),
            0 <= i <= n,
            forall|j: int| 0 <= j < i ==> list.deep_view()[j] != w@,
        decreases n - i,
    {
        if list[i] == *w {
            assert(list.deep_view()[i as int] == w@);
            return true;
        }
        assert(list.deep_view()[i as int] != w@);
        i += 1;
    }
    assert(!list.deep_view().contains(w@));
    false
}

} // verus!
