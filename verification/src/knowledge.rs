//! The knowledge store: everything learned from past guesses, and the pure
//! update that folds the feedback for one guess into it.
//!
//! The contained-letter store is an association list from a letter to the
//! positions where that letter was tried and judged in-word (so the letter is
//! known to occur in the secret word, but not at those positions).  A
//! well-formed store has at most one entry per letter.

use vstd::prelude::*;
use vstd::pervasive::VecAdditionalExecFns;
use vstd::string::StrSliceExecFns;
use crate::game::{GuessResponse, LetterResponse};

verus! {

/// Accumulated constraints derived from past feedback.  Updates rebuild the
/// value; nothing is mutated in place.
pub struct Knowledge {
    /// Words already guessed, in guess order.
    pub guessed_words: Vec<String>,
    /// (letter, position) pairs confirmed `Correct`.
    pub correct_letters: Vec<(char, usize)>,
    /// For each letter judged `InWord` at least once: the positions at which
    /// it was tried and found not to be.
    pub contained_letters: Vec<(char, Vec<usize>)>,
}

impl Knowledge {
    /// The guessed words as a sequence of character sequences.
    pub open spec fn guessed_view(self) -> Seq<Seq<char>> {
        self.guessed_words.deep_view()
    }

    /// The contained-letter store as a sequence of (letter, positions) pairs.
    pub open spec fn contained_view(self) -> Seq<(char, Seq<usize>)> {
        self.contained_letters.deep_view()
    }

    /// Well-formed: at most one contained-letter entry per letter.
    pub open spec fn wf(self) -> bool {
        unique_letters(self.contained_view())
    }

    /// Every position recorded anywhere in the knowledge is below `len`.
    pub open spec fn positions_below(self, len: int) -> bool {
        &&& correct_below(self.correct_letters@, len)
        &&& contained_below(self.contained_view(), len)
    }
}

/// At most one entry per letter in an association list.
pub open spec fn unique_letters(cl: Seq<(char, Seq<usize>)>) -> bool {
    forall|i: int, j: int| 0 <= i < j < cl.len() ==> cl[i].0 != cl[j].0
}

/// Every position of every confirmed-correct pair is below `len`.
pub open spec fn correct_below(cs: Seq<(char, usize)>, len: int) -> bool {
    forall|i: int| 0 <= i < cs.len() ==> (cs[i].1 as int) < len
}

/// Every position recorded in the contained-letter store is below `len`.
pub open spec fn contained_below(cl: Seq<(char, Seq<usize>)>, len: int) -> bool {
    forall|i: int, j: int|
        0 <= i < cl.len() && 0 <= j < cl[i].1.len() ==> (cl[i].1[j] as int) < len
}

/// Whether the store has an entry for letter `c`.
pub open spec fn has_letter(cl: Seq<(char, Seq<usize>)>, c: char) -> bool
    decreases cl.len(),
{
    cl.len() != 0 && (cl[0].0 == c || has_letter(cl.drop_first(), c))
}

/// The positions recorded for letter `c` (of its first entry), or the empty
/// sequence if the store has no entry for `c`.
pub open spec fn positions_of(cl: Seq<(char, Seq<usize>)>, c: char) -> Seq<usize>
    decreases cl.len(),
{
    if cl.len() == 0 {
        Seq::empty()
    } else if cl[0].0 == c {
        cl[0].1
    } else {
        positions_of(cl.drop_first(), c)
    }
}

/// Record that letter `c` was tried (and judged in-word) at position `p`:
/// extend the first entry for `c`, or append a fresh entry.
pub open spec fn record_contained(
    cl: Seq<(char, Seq<usize>)>,
    c: char,
    p: usize,
) -> Seq<(char, Seq<usize>)>
    decreases cl.len(),
{
    if cl.len() == 0 {
        seq![(c, seq![p])]
    } else if cl[0].0 == c {
        seq![(c, cl[0].1.push(p))] + cl.drop_first()
    } else {
        seq![cl[0]] + record_contained(cl.drop_first(), c, p)
    }
}

/// Fold a sequence of newly tried (letter, position) pairs into the store,
/// first pair first.
pub open spec fn record_all_contained(
    cl: Seq<(char, Seq<usize>)>,
    pairs: Seq<(char, usize)>,
) -> Seq<(char, Seq<usize>)>
    decreases pairs.len(),
{
    if pairs.len() == 0 {
        cl
    } else {
        record_contained(
            record_all_contained(cl, pairs.drop_last()),
            pairs.last().0,
            pairs.last().1,
        )
    }
}

/// The (letter, position) pairs of the first `n` positions of a guess whose
/// verdict is `v`, in position order.
pub open spec fn pairs_with(
    g: Seq<char>,
    r: Seq<LetterResponse>,
    v: LetterResponse,
    n: int,
) -> Seq<(char, usize)>
    decreases n,
{
    if n <= 0 {
        Seq::empty()
    } else {
        let rest = pairs_with(g, r, v, n - 1);
        if r[n - 1] == v {
            rest.push((g[n - 1], (n - 1) as usize))
        } else {
            rest
        }
    }
}

/// The positions, in order, that a pair sequence records for letter `c`.
pub open spec fn positions_for(pairs: Seq<(char, usize)>, c: char) -> Seq<usize>
    decreases pairs.len(),
{
    if pairs.len() == 0 {
        Seq::empty()
    } else {
        let rest = positions_for(pairs.drop_last(), c);
        if pairs.last().0 == c {
            rest.push(pairs.last().1)
        } else {
            rest
        }
    }
}

/// An entry for `c` exists exactly when some index holds the key `c`.
pub proof fn lemma_has_letter_index(cl: Seq<(char, Seq<usize>)>, c: char)
    ensures
        has_letter(cl, c) <==> exists|i: int| 0 <= i < cl.len() && cl[i].0 == c,
    decreases cl.len(),
{
    if cl.len() != 0 {
        lemma_has_letter_index(cl.drop_first(), c);
        if cl[0].0 == c {
            assert(cl[0].0 == c && 0 < cl.len());
        } else if has_letter(cl, c) {
            let i = choose|i: int| 0 <= i < cl.drop_first().len() && cl.drop_first()[i].0 == c;
            assert(cl[i + 1].0 == c);
        } else if exists|i: int| 0 <= i < cl.len() && cl[i].0 == c {
            let i = choose|i: int| 0 <= i < cl.len() && cl[i].0 == c;
            assert(cl.drop_first()[i - 1].0 == c);
        }
    }
}

/// What recording one (letter, position) fact does, letter by letter.
pub proof fn lemma_record_contained(cl: Seq<(char, Seq<usize>)>, c: char, p: usize)
    ensures
        has_letter(record_contained(cl, c, p), c),
        positions_of(record_contained(cl, c, p), c) == positions_of(cl, c).push(p),
        forall|d: char| d != c ==> has_letter(record_contained(cl, c, p), d) == has_letter(cl, d),
        forall|d: char| d != c ==> positions_of(record_contained(cl, c, p), d) == positions_of(
            cl,
            d,
        ),
        unique_letters(cl) ==> unique_letters(record_contained(cl, c, p)),
        record_contained(cl, c, p).len() == if has_letter(cl, c) {
            cl.len()
        } else {
            cl.len() + 1
        },
    decreases cl.len(),
{
    let rc = record_contained(cl, c, p);
    if cl.len() == 0 {
        assert(rc.drop_first() =~~= Seq::<(char, Seq<usize>)>::empty());
        assert(positions_of(cl, c).push(p) =~= seq![p]);
        assert forall|d: char| d != c implies has_letter(rc, d) == has_letter(cl, d) by {
            assert(!has_letter(rc.drop_first(), d));
        }
        assert forall|d: char| d != c implies positions_of(rc, d) == positions_of(cl, d) by {
            assert(positions_of(rc, d) == positions_of(rc.drop_first(), d));
        }
    } else if cl[0].0 == c {
        assert(rc.drop_first() =~~= cl.drop_first());
        assert(rc[0].0 == c && rc[0].1 == cl[0].1.push(p));
        assert forall|d: char| d != c implies has_letter(rc, d) == has_letter(cl, d)
            && positions_of(rc, d) == positions_of(cl, d) by {
            assert(has_letter(rc, d) == has_letter(rc.drop_first(), d));
            assert(has_letter(cl, d) == has_letter(cl.drop_first(), d));
            assert(positions_of(rc, d) == positions_of(rc.drop_first(), d));
            assert(positions_of(cl, d) == positions_of(cl.drop_first(), d));
        }
        if unique_letters(cl) {
            assert forall|i: int, j: int| 0 <= i < j < rc.len() implies rc[i].0 != rc[j].0 by {
                assert(rc[i].0 == cl[i].0 && rc[j].0 == cl[j].0);
            }
        }
    } else {
        lemma_record_contained(cl.drop_first(), c, p);
        let rc_rest = record_contained(cl.drop_first(), c, p);
        assert(rc.drop_first() =~~= rc_rest);
        assert(rc[0] == cl[0]);
        assert(positions_of(rc, c) == positions_of(rc_rest, c));
        assert(positions_of(rc, c) == positions_of(cl, c).push(p));
        assert forall|d: char| d != c implies positions_of(rc, d) == positions_of(cl, d)
            && has_letter(rc, d) == has_letter(cl, d) by {
            if cl[0].0 == d {
                assert(positions_of(rc, d) == rc[0].1);
                assert(positions_of(cl, d) == cl[0].1);
                assert(has_letter(rc, d));
                assert(has_letter(cl, d));
            } else {
                assert(positions_of(rc, d) == positions_of(rc_rest, d));
                assert(positions_of(rc_rest, d) == positions_of(cl.drop_first(), d));
                assert(positions_of(cl, d) == positions_of(cl.drop_first(), d));
                assert(has_letter(rc, d) == has_letter(rc_rest, d));
                assert(has_letter(rc_rest, d) == has_letter(cl.drop_first(), d));
                assert(has_letter(cl, d) == has_letter(cl.drop_first(), d));
            }
        }
        if unique_letters(cl) {
            assert(unique_letters(cl.drop_first())) by {
                assert forall|i: int, j: int|
                    0 <= i < j < cl.drop_first().len() implies cl.drop_first()[i].0
                    != cl.drop_first()[j].0 by {
                    assert(cl[i + 1].0 != cl[j + 1].0);
                }
            }
            assert forall|i: int, j: int| 0 <= i < j < rc.len() implies rc[i].0 != rc[j].0 by {
                if i == 0 {
                    // the tail never acquires the head's letter
                    if rc[j].0 == cl[0].0 {
                        assert(rc_rest[j - 1].0 == cl[0].0);
                        lemma_has_letter_index(rc_rest, cl[0].0);
                        assert(has_letter(rc_rest, cl[0].0));
                        assert(has_letter(cl.drop_first(), cl[0].0));
                        lemma_has_letter_index(cl.drop_first(), cl[0].0);
                        let w = choose|w: int|
                            0 <= w < cl.drop_first().len() && cl.drop_first()[w].0 == cl[0].0;
                        assert(cl[0].0 != cl[w + 1].0);
                        assert(false);
                    }
                } else {
                    assert(rc_rest[i - 1].0 != rc_rest[j - 1].0);
                }
            }
        }
    }
}

/// What folding a whole pair sequence does, letter by letter.
pub proof fn lemma_record_all_contained(cl: Seq<(char, Seq<usize>)>, pairs: Seq<(char, usize)>)
    ensures
        forall|d: char| #[trigger] positions_of(record_all_contained(cl, pairs), d)
            == positions_of(cl, d) + positions_for(pairs, d),
        forall|d: char| #[trigger] has_letter(record_all_contained(cl, pairs), d) <==> (has_letter(
            cl,
            d,
        ) || positions_for(pairs, d).len() > 0),
        unique_letters(cl) ==> unique_letters(record_all_contained(cl, pairs)),
    decreases pairs.len(),
{
    let rac = record_all_contained(cl, pairs);
    if pairs.len() == 0 {
        assert(rac == cl);
        assert forall|d: char| #[trigger] positions_of(rac, d) == positions_of(cl, d)
            + positions_for(pairs, d) by {
            assert(positions_for(pairs, d) == Seq::<usize>::empty());
            assert(positions_of(cl, d) + Seq::<usize>::empty() =~= positions_of(cl, d));
        }
        assert forall|d: char| #[trigger] has_letter(rac, d) <==> (has_letter(cl, d)
            || positions_for(pairs, d).len() > 0) by {
            assert(positions_for(pairs, d) == Seq::<usize>::empty());
        }
    } else {
        lemma_record_all_contained(cl, pairs.drop_last());
        let rest = record_all_contained(cl, pairs.drop_last());
        let c = pairs.last().0;
        let p = pairs.last().1;
        lemma_record_contained(rest, c, p);
        assert(rac == record_contained(rest, c, p));
        assert forall|d: char| #[trigger] positions_of(rac, d) == positions_of(cl, d)
            + positions_for(pairs, d) by {
            assert(positions_of(rest, d) == positions_of(cl, d) + positions_for(
                pairs.drop_last(),
                d,
            ));
            if d == c {
                assert(positions_for(pairs, d) == positions_for(pairs.drop_last(), d).push(p));
                assert(positions_of(rac, d) == positions_of(rest, d).push(p));
                assert((positions_of(cl, d) + positions_for(pairs.drop_last(), d)).push(p)
                    =~= positions_of(cl, d) + positions_for(pairs.drop_last(), d).push(p));
            } else {
                assert(positions_for(pairs, d) == positions_for(pairs.drop_last(), d));
                assert(positions_of(rac, d) == positions_of(rest, d));
            }
        }
        assert forall|d: char| #[trigger] has_letter(rac, d) <==> (has_letter(cl, d)
            || positions_for(pairs, d).len() > 0) by {
            assert(has_letter(rest, d) <==> (has_letter(cl, d) || positions_for(
                pairs.drop_last(),
                d,
            ).len() > 0));
            if d == c {
                assert(has_letter(rac, d));
                assert(positions_for(pairs, d) == positions_for(pairs.drop_last(), d).push(p));
            } else {
                assert(positions_for(pairs, d) == positions_for(pairs.drop_last(), d));
                assert(has_letter(rac, d) == has_letter(rest, d));
            }
        }
    }
}

/// Bridge for the executable update: when index `i` holds the first entry for
/// `c`, recording replaces that entry with the position appended.
pub proof fn lemma_record_contained_found(cl: Seq<(char, Seq<usize>)>, c: char, p: usize, i: int)
    requires
        0 <= i < cl.len(),
        cl[i].0 == c,
        forall|j: int| 0 <= j < i ==> cl[j].0 != c,
    ensures
        record_contained(cl, c, p) == cl.update(i, (c, cl[i].1.push(p))),
    decreases i,
{
    if i == 0 {
        assert(record_contained(cl, c, p) =~= cl.update(0, (c, cl[0].1.push(p))));
    } else {
        assert(cl[0].0 != c);
        assert(forall|j: int| 0 <= j < i - 1 ==> cl.drop_first()[j].0 != c);
        lemma_record_contained_found(cl.drop_first(), c, p, i - 1);
        assert(record_contained(cl, c, p) =~= cl.update(i, (c, cl[i].1.push(p))));
    }
}

/// Bridge for the executable update: with no entry for `c`, recording appends
/// a fresh one.
pub proof fn lemma_record_contained_absent(cl: Seq<(char, Seq<usize>)>, c: char, p: usize)
    requires
        forall|j: int| 0 <= j < cl.len() ==> cl[j].0 != c,
    ensures
        record_contained(cl, c, p) == cl.push((c, seq![p])),
    decreases cl.len(),
{
    if cl.len() == 0 {
        assert(record_contained(cl, c, p) =~= cl.push((c, seq![p])));
    } else {
        assert(forall|j: int| 0 <= j < cl.drop_first().len() ==> cl.drop_first()[j].0 != c);
        lemma_record_contained_absent(cl.drop_first(), c, p);
        assert(record_contained(cl, c, p) =~= cl.push((c, seq![p])));
    }
}

/// Every position that `pairs_with` extracts is below `n`.
pub proof fn lemma_pairs_with_bounds(g: Seq<char>, r: Seq<LetterResponse>, v: LetterResponse, n: int)
    ensures
        forall|j: int| 0 <= j < pairs_with(g, r, v, n).len() ==> (#[trigger] pairs_with(
            g,
            r,
            v,
            n,
        )[j]).1 < n,
    decreases n,
{
    if n > 0 {
        lemma_pairs_with_bounds(g, r, v, n - 1);
        let rest = pairs_with(g, r, v, n - 1);
        let whole = pairs_with(g, r, v, n);
        if r[n - 1] == v {
            assert(whole == rest.push((g[n - 1], (n - 1) as usize)));
            assert forall|j: int| 0 <= j < whole.len() implies (#[trigger] whole[j]).1 < n by {
                if j < rest.len() {
                    assert(whole[j] == rest[j]);
                } else {
                    assert(whole[j] == (g[n - 1], (n - 1) as usize));
                }
            }
        } else {
            assert(whole == rest);
        }
    }
}

/// Recording one in-range position keeps all recorded positions in range.
pub proof fn lemma_record_contained_below(cl: Seq<(char, Seq<usize>)>, c: char, p: usize, len: int)
    requires
        contained_below(cl, len),
        (p as int) < len,
    ensures
        contained_below(record_contained(cl, c, p), len),
    decreases cl.len(),
{
    let rc = record_contained(cl, c, p);
    if cl.len() == 0 {
    } else if cl[0].0 == c {
        assert forall|i: int, j: int|
            0 <= i < rc.len() && 0 <= j < rc[i].1.len() implies (rc[i].1[j] as int) < len by {
            if i == 0 {
                assert(rc[0].1 == cl[0].1.push(p));
            } else {
                assert(rc[i] == cl[i]);
            }
        }
    } else {
        assert(contained_below(cl.drop_first(), len)) by {
            assert forall|i: int, j: int|
                0 <= i < cl.drop_first().len() && 0 <= j < cl.drop_first()[i].1.len() implies (
            cl.drop_first()[i].1[j] as int) < len by {
                assert(cl[i + 1].1[j] == cl.drop_first()[i].1[j]);
            }
        }
        lemma_record_contained_below(cl.drop_first(), c, p, len);
        let rc_rest = record_contained(cl.drop_first(), c, p);
        assert forall|i: int, j: int|
            0 <= i < rc.len() && 0 <= j < rc[i].1.len() implies (rc[i].1[j] as int) < len by {
            if i == 0 {
                assert(rc[0] == cl[0]);
            } else {
                assert(rc[i] == rc_rest[i - 1]);
            }
        }
    }
}

/// Folding pairs whose positions are in range keeps all recorded positions in
/// range.
pub proof fn lemma_record_all_contained_below(
    cl: Seq<(char, Seq<usize>)>,
    pairs: Seq<(char, usize)>,
    len: int,
)
    requires
        contained_below(cl, len),
        forall|j: int| 0 <= j < pairs.len() ==> (#[trigger] pairs[j]).1 < len,
    ensures
        contained_below(record_all_contained(cl, pairs), len),
    decreases pairs.len(),
{
    if pairs.len() > 0 {
        lemma_record_all_contained_below(cl, pairs.drop_last(), len);
        lemma_record_contained_below(
            record_all_contained(cl, pairs.drop_last()),
            pairs.last().0,
            pairs.last().1,
            len,
        );
    }
}

/// A fresh, empty knowledge store: no guesses, no facts.
pub fn build_empty_knowledge() -> (knowledge: Knowledge)
    ensures
        knowledge.guessed_view() == Seq::<Seq<char>>::empty(),
        knowledge.correct_letters@ == Seq::<(char, usize)>::empty(),
        knowledge.contained_view() == Seq::<(char, Seq<usize>)>::empty(),
        knowledge.wf(),
{
    let knowledge = Knowledge {
        guessed_words: Vec::new(),
        correct_letters: Vec::new(),
        contained_letters: Vec::new(),
    };
    proof {
        assert(knowledge.guessed_view() =~= Seq::<Seq<char>>::empty());
        assert(knowledge.contained_view() =~= Seq::<(char, Seq<usize>)>::empty());
    }
    knowledge
}

/// An element-wise copy of a position vector.
fn copy_positions(positions: &Vec<usize>) -> (copied: Vec<usize>)
    ensures
        copied@ == positions@,
{
    let mut copied: Vec<usize> = Vec::new();
    let mut i: usize = 0;
    while i < positions.len()
        invariant
            0 <= i <= positions.len(),
            copied@.len() == i,
            copied@ == positions@.subrange(0, i as int),
        decreases positions.len() - i,
    {
        proof {
            assert(positions@.subrange(0, i as int).push(positions@[i as int]) =~= positions@.subrange(
                0,
                i as int + 1,
            ));
        }
        copied.push(positions[i]);
        i += 1;
    }
    proof {
        assert(copied@ =~= positions@);
    }
    copied
}

/// Merge newly tried (letter, position) pairs into the contained-letter
/// store, extending the first entry of a letter that already has one and
/// appending entries for fresh letters, first pair first.
pub fn merge_contained_letters_map(
    original: &Vec<(char, Vec<usize>)>,
    newly_tried_letters: &Vec<(char, usize)>,
) -> (merged: Vec<(char, Vec<usize>)>)
    ensures
        merged.deep_view() == record_all_contained(original.deep_view(), newly_tried_letters@),
{
    let mut merged: Vec<(char, Vec<usize>)> = Vec::new();
    let mut i: usize = 0;
    while i < original.len()
        invariant
            0 <= i <= original.len(),
            merged@.len() == i,
            merged.deep_view() == original.deep_view().subrange(0, i as int),
        decreases original.len() - i,
    {
        let letter = original[i].0;
        let positions = copy_positions(&original[i].1);
        merged.push((letter, positions));
        proof {
            assert(merged.deep_view() =~~= original.deep_view().subrange(0, i as int + 1));
        }
        i += 1;
    }
    proof {
        assert(merged.deep_view() =~~= original.deep_view());
    }
    let mut p: usize = 0;
    while p < newly_tried_letters.len()
        invariant
            0 <= p <= newly_tried_letters.len(),
            merged.deep_view() == record_all_contained(
                original.deep_view(),
                newly_tried_letters@.subrange(0, p as int),
            ),
        decreases newly_tried_letters.len() - p,
    {
        let ghost before = merged.deep_view();
        let pair = newly_tried_letters[p];
        let letter = pair.0;
        let position = pair.1;
        let n = merged.len();
        let mut idx: usize = 0;
        while idx < n && merged[idx].0 != letter
            invariant
                0 <= idx <= n,
                n == merged.len(),
                merged.deep_view() == before,
                forall|j: int| 0 <= j < idx ==> merged.deep_view()[j].0 != letter,
            decreases n - idx,
        {
            idx += 1;
        }
        if idx < n {
            let mut positions = copy_positions(&merged[idx].1);
            positions.push(position);
            proof {
                lemma_record_contained_found(before, letter, position, idx as int);
            }
            merged.set(idx, (letter, positions));
            proof {
                assert(merged.deep_view() =~~= record_contained(before, letter, position));
            }
        } else {
            let mut positions: Vec<usize> = Vec::new();
            positions.push(position);
            proof {
                lemma_record_contained_absent(before, letter, position);
            }
            merged.push((letter, positions));
            proof {
                assert(positions@ =~= seq![position]);
                assert(merged.deep_view() =~~= record_contained(before, letter, position));
            }
        }
        proof {
            let pref = newly_tried_letters@.subrange(0, p + 1 as int);
            assert(pref.drop_last() =~= newly_tried_letters@.subrange(0, p as int));
            assert(pref.last() == newly_tried_letters@[p as int]);
            assert(merged.deep_view() == record_all_contained(original.deep_view(), pref));
        }
        p += 1;
    }
    proof {
        assert(newly_tried_letters@.subrange(0, newly_tried_letters@.len() as int)
            =~= newly_tried_letters@);
    }
    merged
}

/// Fold the feedback for one guess into the knowledge: append the guess to
/// the guessed words, record a confirmed (letter, position) pair for every
/// `Correct` verdict, and record a tried position for every `InWord` verdict.
/// The result holds every fact the input held: accumulation is monotonic.
pub fn apply_learning(knowledge: &Knowledge, guess: &String, response: &GuessResponse) -> (learned:
    Knowledge)
    requires
        guess@.len() == response.letter_responses@.len(),
    ensures
        learned.guessed_view() == knowledge.guessed_view().push(guess@),
        learned.correct_letters@ == knowledge.correct_letters@ + pairs_with(
            guess@,
            response.letter_responses@,
            LetterResponse::Correct,
            guess@.len() as int,
        ),
        learned.contained_view() == record_all_contained(
            knowledge.contained_view(),
            pairs_with(
                guess@,
                response.letter_responses@,
                LetterResponse::InWord,
                guess@.len() as int,
            ),
        ),
        knowledge.guessed_view().to_set() <= learned.guessed_view().to_set(),
        knowledge.correct_letters@.to_set() <= learned.correct_letters@.to_set(),
        forall|c: char| has_letter(knowledge.contained_view(), c) ==> has_letter(
            learned.contained_view(),
            c,
        ),
        forall|c: char| positions_of(knowledge.contained_view(), c).to_set() <= positions_of(
            learned.contained_view(),
            c,
        ).to_set(),
        knowledge.wf() ==> learned.wf(),
{
    let ghost g = guess@;
    let ghost r = response.letter_responses@;
    let n = response.letter_responses.len();

    let mut new_words: Vec<String> = Vec::new();
    let mut i: usize = 0;
    while i < knowledge.guessed_words.len()
        invariant
            0 <= i <= knowledge.guessed_words.len(),
            new_words@.len() == i,
            new_words.deep_view() == knowledge.guessed_view().subrange(0, i as int),
        decreases knowledge.guessed_words.len() - i,
    {
        new_words.push(knowledge.guessed_words[i].clone());
        proof {
            assert(new_words.deep_view() =~= knowledge.guessed_view().subrange(0, i as int + 1));
        }
        i += 1;
    }
    proof {
        assert(new_words.deep_view() =~= knowledge.guessed_view());
    }
    new_words.push(guess.clone());
    proof {
        assert(new_words.deep_view() =~= knowledge.guessed_view().push(g));
    }

    let mut new_correct: Vec<(char, usize)> = Vec::new();
    let mut j: usize = 0;
    while j < knowledge.correct_letters.len()
        invariant
            0 <= j <= knowledge.correct_letters.len(),
            new_correct@.len() == j,
            new_correct@ == knowledge.correct_letters@.subrange(0, j as int),
        decreases knowledge.correct_letters.len() - j,
    {
        proof {
            assert(knowledge.correct_letters@.subrange(0, j as int).push(
                knowledge.correct_letters@[j as int],
            ) =~= knowledge.correct_letters@.subrange(0, j as int + 1));
        }
        let pair = knowledge.correct_letters[j];
        new_correct.push(pair);
        j += 1;
    }
    proof {
        assert(new_correct@ =~= knowledge.correct_letters@);
    }

    let mut tried: Vec<(char, usize)> = Vec::new();
    let mut pos: usize = 0;
    while pos < n
        invariant
            0 <= pos <= n,
            n == r.len(),
            g.len() == r.len(),
            r == response.letter_responses@,
            g == guess@,
            new_correct@ == knowledge.correct_letters@ + pairs_with(
                g,
                r,
                LetterResponse::Correct,
                pos as int,
            ),
            tried@ == pairs_with(g, r, LetterResponse::InWord, pos as int),
        decreases n - pos,
    {
        let verdict = response.letter_responses[pos];
        if verdict == LetterResponse::Correct {
            let letter = guess.as_str().get_char(pos);
            new_correct.push((letter, pos));
            proof {
                assert((knowledge.correct_letters@ + pairs_with(
                    g,
                    r,
                    LetterResponse::Correct,
                    pos as int,
                )).push((g[pos as int], pos)) =~= knowledge.correct_letters@ + pairs_with(
                    g,
                    r,
                    LetterResponse::Correct,
                    pos as int,
                ).push((g[pos as int], pos)));
            }
        } else if verdict == LetterResponse::InWord {
            let letter = guess.as_str().get_char(pos);
            tried.push((letter, pos));
        }
        pos += 1;
    }
    proof {
        assert(new_correct@ == knowledge.correct_letters@ + pairs_with(
            g,
            r,
            LetterResponse::Correct,
            g.len() as int,
        ));
        assert(tried@ == pairs_with(g, r, LetterResponse::InWord, g.len() as int));
    }

    let new_contained = merge_contained_letters_map(&knowledge.contained_letters, &tried);
    let learned = Knowledge {
        guessed_words: new_words,
        correct_letters: new_correct,
        contained_letters: new_contained,
    };
    proof {
        lemma_record_all_contained(knowledge.contained_view(), tried@);
        assert forall|w: Seq<char>| knowledge.guessed_view().to_set().contains(w)
            implies learned.guessed_view().to_set().contains(w) by {
            let wi = choose|wi: int|
                0 <= wi < knowledge.guessed_view().len() && knowledge.guessed_view()[wi] == w;
            assert(learned.guessed_view()[wi] == w);
        }
        assert forall|pr: (char, usize)| knowledge.correct_letters@.to_set().contains(pr)
            implies learned.correct_letters@.to_set().contains(pr) by {
            let pi = choose|pi: int|
                0 <= pi < knowledge.correct_letters@.len() && knowledge.correct_letters@[pi] == pr;
            assert(learned.correct_letters@[pi] == pr);
        }
        assert forall|c: char| positions_of(knowledge.contained_view(), c).to_set() <= positions_of(
            learned.contained_view(),
            c,
        ).to_set() by {
            let before = positions_of(knowledge.contained_view(), c);
            let after = positions_of(learned.contained_view(), c);
            assert(after == before + positions_for(tried@, c));
            assert forall|q: usize| before.to_set().contains(q) implies after.to_set().contains(
                q,
            ) by {
                let qi = choose|qi: int| 0 <= qi < before.len() && before[qi] == q;
                assert(after[qi] == q);
            }
        }
    }
    learned
}

} // verus!
