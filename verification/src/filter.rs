//! What a round says about the answer: the candidates it admits, and the
//! list of single tests that together admit exactly those.

use vstd::prelude::*;
use crate::feedback::{FeedbackCode, Round};
use crate::seq_lemmas::lemma_filter_twice;
use crate::word::Candidate;

verus! {

/// One test that a candidate passes or fails.
#[derive(Clone, Copy, Debug, PartialEq, Eq)]
pub enum Predicate {
    /// The candidate has `letter` at `position`.
    ExactAt { position: usize, letter: char },
    /// The candidate has `letter`, but not at `position`.
    Elsewhere { position: usize, letter: char },
    /// The candidate does not have `letter` anywhere.
    Without { letter: char },
    /// The candidate is another word than `word`.
    Other { word: Candidate },
}

impl Predicate {
    /// Whether `c` passes the test.
    pub open spec fn holds(self, c: Candidate) -> bool {
        match self {
            Predicate::ExactAt { position, letter } => {
                position < 5 && c@[position as int] == letter && c@.contains(letter)
            },
            Predicate::Elsewhere { position, letter } => {
                !(position < 5 && c@[position as int] == letter) && c@.contains(letter)
            },
            Predicate::Without { letter } => !c@.contains(letter),
            Predicate::Other { word } => c != word,
        }
    }

    /// The test as a function on candidates.
    pub open spec fn keeps(self) -> spec_fn(Candidate) -> bool {
        |c: Candidate| self.holds(c)
    }

    /// Whether `c` passes the test.
    pub fn test(&self, c: &Candidate) -> (passed: bool)
        ensures
            passed == self.holds(*c),
    {
        match self {
            Predicate::ExactAt { position, letter } => {
                *position < 5 && c.letter(*position) == *letter && c.contains(*letter)
            },
            Predicate::Elsewhere { position, letter } => {
                !(*position < 5 && c.letter(*position) == *letter) && c.contains(*letter)
            },
            Predicate::Without { letter } => !c.contains(*letter),
            Predicate::Other { word } => !c.same(word),
        }
    }
}

/// Whether `c` passes every test of `tests`.
pub open spec fn all_hold(tests: Seq<Predicate>, c: Candidate) -> bool {
    forall|k: int| 0 <= k < tests.len() ==> #[trigger] tests[k].holds(c)
}

/// Passing every test of `tests`, as a function on candidates.
pub open spec fn keeps_all(tests: Seq<Predicate>) -> spec_fn(Candidate) -> bool {
    |c: Candidate| all_hold(tests, c)
}

impl Round {
    /// Whether the round marks `letter` as present: some position of the
    /// guess holds it with the code exact or partial.
    pub open spec fn present(self, letter: char) -> bool {
        marked_present(self, letter, 5)
    }

    /// Whether `c` agrees with what the round says of position `i` of the
    /// guess.
    ///
    /// An exact letter must stand at `i`; a partial letter must occur, but
    /// not at `i`; an absent letter must not occur at all, unless the round
    /// marks the same letter as present at some position.
    pub open spec fn admits_at(self, c: Candidate, i: int) -> bool {
        let letter = self.guess@[i];
        match self.codes@[i] {
            FeedbackCode::Exact => c@[i] == letter && c@.contains(letter),
            FeedbackCode::Partial => c@[i] != letter && c@.contains(letter),
            FeedbackCode::Absent => self.present(letter) || !c@.contains(letter),
        }
    }

    /// Whether `c` can still be the answer after this round: it agrees with
    /// the round at every position and is not the guess itself.
    pub open spec fn admits(self, c: Candidate) -> bool {
        &&& forall|i: int| 0 <= i < 5 ==> #[trigger] self.admits_at(c, i)
        &&& c != self.guess
    }

    /// Being admitted by the round, as a function on candidates.
    pub open spec fn admitting(self) -> spec_fn(Candidate) -> bool {
        |c: Candidate| self.admits(c)
    }

    /// Whether the codes tell the truth about `answer`, letter by letter: an
    /// exact letter stands at its position in `answer`, a partial letter
    /// occurs in `answer` but not at its position, an absent letter does not
    /// occur in `answer`.
    pub open spec fn truthful_for(self, answer: Candidate) -> bool {
        forall|i: int|
            0 <= i < 5 ==> match #[trigger] self.codes@[i] {
                FeedbackCode::Exact => answer@[i] == self.guess@[i],
                FeedbackCode::Partial => answer@[i] != self.guess@[i] && answer@.contains(
                    self.guess@[i],
                ),
                FeedbackCode::Absent => !answer@.contains(self.guess@[i]),
            }
    }
}

/// Whether one of the first `upto` positions of the guess holds `letter`
/// with the code exact or partial.
pub open spec fn marked_present(round: Round, letter: char, upto: int) -> bool {
    exists|j: int|
        0 <= j < upto && #[trigger] round.guess@[j] == letter && round.codes@[j]
            != FeedbackCode::Absent
}

/// The candidates of `words` that the round admits, in their order.
pub open spec fn survivors(words: Seq<Candidate>, round: Round) -> Seq<Candidate> {
    words.filter(round.admitting())
}


/// Filtering with the same round a second time removes nothing more.
pub proof fn lemma_survivors_idempotent(words: Seq<Candidate>, round: Round)
    ensures
        survivors(survivors(words, round), round) == survivors(words, round),
{
    lemma_filter_twice(words, round.admitting(), round.admitting(), round.admitting());
}

/// The survivors are candidates of the lexicon that the round admits, and
/// every such candidate survives.
pub proof fn lemma_survivors_members(words: Seq<Candidate>, round: Round, c: Candidate)
    ensures
        survivors(words, round).contains(c) <==> words.contains(c) && round.admits(c),
        survivors(words, round).len() <= words.len(),
{
    let pred = round.admitting();
    words.lemma_filter_len(pred);
    if survivors(words, round).contains(c) {
        words.lemma_filter_contains_rev(pred, c);
        let i = choose|i: int| 0 <= i < words.filter(pred).len() && words.filter(pred)[i] == c;
        words.lemma_filter_pred(pred, i);
    }
    if words.contains(c) && round.admits(c) {
        let i = choose|i: int| 0 <= i < words.len() && words[i] == c;
        words.lemma_filter_contains(pred, i);
    }
}

/// A round never removes the answer it tells the truth about, unless the
/// answer is the guess itself.
pub proof fn lemma_truthful_answer_survives(words: Seq<Candidate>, round: Round, answer: Candidate)
    requires
        words.contains(answer),
        round.truthful_for(answer),
        answer != round.guess,
    ensures
        round.admits(answer),
        survivors(words, round).contains(answer),
{
    assert forall|i: int| 0 <= i < 5 implies #[trigger] round.admits_at(answer, i) by {
        assert(answer@.len() == 5);
        let code = round.codes@[i];
        if code == FeedbackCode::Exact {
            assert(answer@[i] == round.guess@[i]);
        }
    }
    lemma_survivors_members(words, round, answer);
}

impl Round {
    /// The tests of the exact and partial letters at the positions before
    /// `upto`, in the order of the positions.
    pub open spec fn marked_tests(self, upto: int) -> Seq<Predicate>
        decreases upto,
    {
        if upto <= 0 {
            Seq::empty()
        } else {
            let before = self.marked_tests(upto - 1);
            let position = (upto - 1) as usize;
            let letter = self.guess@[upto - 1];
            match self.codes@[upto - 1] {
                FeedbackCode::Exact => before.push(Predicate::ExactAt { position, letter }),
                FeedbackCode::Partial => before.push(Predicate::Elsewhere { position, letter }),
                FeedbackCode::Absent => before,
            }
        }
    }

    /// The tests of the absent letters at the positions before `upto`, in
    /// the order of the positions: one for each absent letter that the round
    /// does not mark as present.
    pub open spec fn absent_tests(self, upto: int) -> Seq<Predicate>
        decreases upto,
    {
        if upto <= 0 {
            Seq::empty()
        } else {
            let before = self.absent_tests(upto - 1);
            let letter = self.guess@[upto - 1];
            if self.codes@[upto - 1] == FeedbackCode::Absent && !self.present(letter) {
                before.push(Predicate::Without { letter })
            } else {
                before
            }
        }
    }

    /// The tests that the round puts to a candidate, in the order in which
    /// they are applied: those of the exact and partial letters, those of
    /// the absent letters, and last that the candidate is not the guess.
    pub open spec fn tests(self) -> Seq<Predicate> {
        (self.marked_tests(5) + self.absent_tests(5)).push(Predicate::Other { word: self.guess })
    }

    /// The tests that this round puts to a candidate, in the order in which
    /// they are applied. A candidate passes them all exactly when the round
    /// admits it.
    pub fn predicates(&self) -> (tests: Vec<Predicate>)
        ensures
            tests@ == self.tests(),
            forall|c: Candidate| #[trigger] all_hold(tests@, c) == self.admits(c),
            1 <= tests@.len() <= 6,
    {
        let mut tests: Vec<Predicate> = Vec::new();
        let mut present: Vec<char> = Vec::new();
        let mut i: usize = 0;
        while i < 5
            invariant
                i <= 5,
                tests@ == self.marked_tests(i as int),
                forall|letter: char| #[trigger]
                    present@.contains(letter) <==> marked_present(*self, letter, i as int),
            decreases 5 - i,
        {
            let letter = self.guess.letter(i);
            proof {
                lemma_present_step(*self, present@, i as int);
            }
            match self.codes[i] {
                FeedbackCode::Exact => {
                    tests.push(Predicate::ExactAt { position: i, letter });
                    present.push(letter);
                },
                FeedbackCode::Partial => {
                    tests.push(Predicate::Elsewhere { position: i, letter });
                    present.push(letter);
                },
                FeedbackCode::Absent => {},
            }
            i += 1;
        }
        let mut i: usize = 0;
        while i < 5
            invariant
                i <= 5,
                tests@ == self.marked_tests(5) + self.absent_tests(i as int),
                forall|letter: char| #[trigger]
                    present@.contains(letter) <==> self.present(letter),
            decreases 5 - i,
        {
            let letter = self.guess.letter(i);
            let ghost before = self.absent_tests(i as int);
            if self.codes[i] == FeedbackCode::Absent && !has_letter(&present, letter) {
                let test = Predicate::Without { letter };
                tests.push(test);
                assert((self.marked_tests(5) + before).push(test) =~= self.marked_tests(5)
                    + before.push(test));
            }
            i += 1;
        }
        tests.push(Predicate::Other { word: self.guess });
        proof {
            lemma_tests_count(*self);
            assert forall|c: Candidate| #[trigger] all_hold(tests@, c) == self.admits(c) by {
                lemma_tests_mean_admits(*self, c);
            }
        }
        tests
    }
}

/// Whether `c` agrees with what the round says of the exact and partial
/// letters at the positions before `upto`.
spec fn admits_marked(round: Round, c: Candidate, upto: int) -> bool {
    forall|i: int|
        0 <= i < upto && round.codes@[i] != FeedbackCode::Absent ==> #[trigger] round.admits_at(
            c,
            i,
        )
}

/// Whether `c` agrees with what the round says of the absent letters at the
/// positions before `upto`.
spec fn admits_unmarked(round: Round, c: Candidate, upto: int) -> bool {
    forall|i: int|
        0 <= i < upto && round.codes@[i] == FeedbackCode::Absent ==> #[trigger] round.admits_at(
            c,
            i,
        )
}

/// Whether `letter` occurs in `letters`.
fn has_letter(letters: &Vec<char>, letter: char) -> (found: bool)
    ensures
        found == letters@.contains(letter),
{
    let mut i: usize = 0;
    while i < letters.len()
        invariant
            i <= letters@.len(),
            forall|j: int| 0 <= j < i ==> letters@[j] != letter,
        decreases letters@.len() - i,
    {
        if letters[i] == letter {
            return true;
        }
        i += 1;
    }
    false
}

/// A candidate passes the tests of a round exactly when the round admits
/// it.
pub proof fn lemma_tests_mean_admits(round: Round, c: Candidate)
    ensures
        all_hold(round.tests(), c) == round.admits(c),
{
    let marked = round.marked_tests(5);
    let absent = round.absent_tests(5);
    let last = Predicate::Other { word: round.guess };
    lemma_marked_tests(round, c, 5);
    lemma_absent_tests(round, c, 5);
    lemma_all_hold_concat(marked, absent, c);
    lemma_all_hold_push(marked + absent, last, c);
    if admits_marked(round, c, 5) && admits_unmarked(round, c, 5) {
        assert forall|i: int| 0 <= i < 5 implies #[trigger] round.admits_at(c, i) by {}
    }
}

/// Each position of the guess gives at most one test, so that a round has
/// at most six tests.
pub proof fn lemma_tests_count(round: Round)
    ensures
        1 <= round.tests().len() <= 6,
{
    lemma_tests_count_upto(round, 5);
}

/// Each of the positions before `upto` gives at most one test.
proof fn lemma_tests_count_upto(round: Round, upto: int)
    requires
        0 <= upto <= 5,
    ensures
        round.marked_tests(upto).len() + round.absent_tests(upto).len() <= upto,
    decreases upto,
{
    if upto > 0 {
        lemma_tests_count_upto(round, upto - 1);
        let letter = round.guess.letter_in_proof(upto - 1);
    }
}

/// Passing one more test.
pub proof fn lemma_all_hold_push(tests: Seq<Predicate>, test: Predicate, c: Candidate)
    ensures
        all_hold(tests.push(test), c) == (all_hold(tests, c) && test.holds(c)),
{
    let more = tests.push(test);
    if all_hold(more, c) {
        assert(more[tests.len() as int].holds(c));
        assert forall|k: int| 0 <= k < tests.len() implies #[trigger] tests[k].holds(c) by {
            assert(more[k].holds(c));
        }
    }
    if all_hold(tests, c) && test.holds(c) {
        assert forall|k: int| 0 <= k < more.len() implies #[trigger] more[k].holds(c) by {
            if k < tests.len() {
                assert(tests[k].holds(c));
            }
        }
    }
}

/// Passing the tests of two lists.
proof fn lemma_all_hold_concat(first: Seq<Predicate>, second: Seq<Predicate>, c: Candidate)
    ensures
        all_hold(first + second, c) == (all_hold(first, c) && all_hold(second, c)),
{
    let both = first + second;
    if all_hold(both, c) {
        assert forall|k: int| 0 <= k < first.len() implies #[trigger] first[k].holds(c) by {
            assert(both[k].holds(c));
        }
        assert forall|k: int| 0 <= k < second.len() implies #[trigger] second[k].holds(c) by {
            assert(both[first.len() + k].holds(c));
        }
    }
    if all_hold(first, c) && all_hold(second, c) {
        assert forall|k: int| 0 <= k < both.len() implies #[trigger] both[k].holds(c) by {
            if k < first.len() {
                assert(first[k].holds(c));
            } else {
                assert(second[k - first.len()].holds(c));
            }
        }
    }
}

/// The tests of the marked letters say what the round says of them.
proof fn lemma_marked_tests(round: Round, c: Candidate, upto: int)
    requires
        0 <= upto <= 5,
    ensures
        all_hold(round.marked_tests(upto), c) == admits_marked(round, c, upto),
    decreases upto,
{
    if upto > 0 {
        let i = upto - 1;
        let before = round.marked_tests(i);
        let letter = round.guess.letter_in_proof(i);
        lemma_marked_tests(round, c, i);
        if round.codes@[i] != FeedbackCode::Absent {
            let test = round.marked_tests(upto).last();
            assert(round.marked_tests(upto) == before.push(test));
            assert(test.holds(c) == round.admits_at(c, i));
            lemma_all_hold_push(before, test, c);
        }
        if admits_marked(round, c, upto) {
            assert(admits_marked(round, c, i));
        }
    }
}

/// The tests of the absent letters say what the round says of them.
proof fn lemma_absent_tests(round: Round, c: Candidate, upto: int)
    requires
        0 <= upto <= 5,
    ensures
        all_hold(round.absent_tests(upto), c) == admits_unmarked(round, c, upto),
    decreases upto,
{
    if upto > 0 {
        let i = upto - 1;
        let before = round.absent_tests(i);
        let letter = round.guess.letter_in_proof(i);
        lemma_absent_tests(round, c, i);
        if round.codes@[i] == FeedbackCode::Absent && !round.present(letter) {
            let test = Predicate::Without { letter };
            assert(test.holds(c) == round.admits_at(c, i));
            lemma_all_hold_push(before, test, c);
        }
        if admits_unmarked(round, c, upto) {
            assert(admits_unmarked(round, c, i));
        }
    }
}

/// The letters collected as present, after position `i` of the guess has
/// been looked at.
proof fn lemma_present_step(round: Round, present: Seq<char>, i: int)
    requires
        0 <= i < 5,
        forall|letter: char| #[trigger]
            present.contains(letter) <==> marked_present(round, letter, i),
    ensures
        round.codes@[i] != FeedbackCode::Absent ==> forall|letter: char| #[trigger]
            present.push(round.guess@[i]).contains(letter) <==> marked_present(round, letter, i + 1),
        round.codes@[i] == FeedbackCode::Absent ==> forall|letter: char| #[trigger]
            present.contains(letter) <==> marked_present(round, letter, i + 1),
{
    let here = round.guess@[i];
    let is_absent = round.codes@[i] == FeedbackCode::Absent;
    let present_after = if is_absent {
        present
    } else {
        present.push(here)
    };
    assert forall|letter: char| #[trigger]
        present_after.contains(letter) <==> marked_present(round, letter, i + 1) by {
        lemma_contains_push(present, here, letter);
        assert(present.contains(letter) <==> marked_present(round, letter, i));
        if marked_present(round, letter, i + 1) {
            let j = choose|j: int|
                0 <= j < i + 1 && #[trigger] round.guess@[j] == letter && round.codes@[j]
                    != FeedbackCode::Absent;
            if j < i {
                assert(marked_present(round, letter, i));
            }
        }
        if marked_present(round, letter, i) {
            let j = choose|j: int|
                0 <= j < i && #[trigger] round.guess@[j] == letter && round.codes@[j]
                    != FeedbackCode::Absent;
            assert(0 <= j < i + 1 && round.guess@[j] == letter);
        }
        if !is_absent && letter == here {
            assert(round.guess@[i] == letter);
        }
    }
}

/// What a list of letters holds after one more letter.
proof fn lemma_contains_push(letters: Seq<char>, letter: char, other: char)
    ensures
        letters.push(letter).contains(other) <==> letters.contains(other) || other == letter,
{
    let more = letters.push(letter);
    if letters.contains(other) {
        let j = choose|j: int| 0 <= j < letters.len() && letters[j] == other;
        assert(more[j] == other);
    }
    if other == letter {
        assert(more[letters.len() as int] == other);
    }
}

} // verus!
