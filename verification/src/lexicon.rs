//! The lexicon: the ordered list of words that are still possible, how it
//! is loaded, and how a round of feedback shrinks it.

use vstd::prelude::*;
use crate::feedback::Round;
use crate::filter::{all_hold, keeps_all, lemma_all_hold_push, survivors, Predicate};
use crate::seq_lemmas::{
    lemma_filter_agree, lemma_filter_none_fails, lemma_filter_push, lemma_filter_twice,
};
use crate::word::Candidate;

verus! {

/// An ordered collection of candidate words.
///
/// It is filled once and afterwards only shrinks: survivors keep their
/// relative order. Its view is the sequence of its candidates.
#[derive(Debug)]
pub struct Lexicon {
    words: Vec<Candidate>,
}

impl View for Lexicon {
    type V = Seq<Candidate>;

    closed spec fn view(&self) -> Seq<Candidate> {
        self.words@
    }
}

impl Clone for Lexicon {
    /// A second lexicon with the same candidates.
    fn clone(&self) -> (copy: Lexicon)
        ensures
            copy@ == self@,
    {
        let mut words: Vec<Candidate> = Vec::new();
        let mut i: usize = 0;
        while i < self.words.len()
            invariant
                i <= self.words@.len(),
                words@ == self.words@.take(i as int),
            decreases self.words@.len() - i,
        {
            words.push(self.words[i]);
            assert(self.words@.take(i + 1) =~= self.words@.take(i as int).push(
                self.words@[i as int],
            ));
            i += 1;
        }
        assert(self.words@.take(self.words@.len() as int) =~= self.words@);
        Lexicon { words }
    }
}

/// Why a word list is no lexicon to start a game from.
#[derive(Clone, Copy, Debug, PartialEq, Eq, Structural)]
pub enum LoadError {
    /// The text is no JSON array of strings.
    Unparsable,
    /// Some word has not exactly five characters.
    WordLength,
    /// The list holds no word.
    Empty,
}

/// The error type of `serde_json`, carried from its parser to the place
/// where it is mapped to a [`LoadError`].
#[verifier::external_type_specification]
#[verifier::external_body]
pub struct ExJsonError(serde_json::Error);

/// What `serde_json` reads out of `text` as a JSON array of strings: the
/// strings in order, or `None` where it refuses the text.
pub uninterp spec fn json_string_array(text: Seq<char>) -> Option<Seq<Seq<char>>>;

/// The character sequences of a list of strings.
pub open spec fn texts(words: Seq<String>) -> Seq<Seq<char>> {
    Seq::new(words.len(), |i: int| words[i]@)
}

/// The letter sequences of a list of candidates.
pub open spec fn spelled(words: Seq<Candidate>) -> Seq<Seq<char>> {
    Seq::new(words.len(), |i: int| words[i]@)
}

/// Calls `serde_json::from_str` for a `Vec<String>`. The parser reads its
/// argument and nothing else, so its answer is a function of the text;
/// `json_string_array` is the name of that function, of which nothing more
/// is claimed here.
#[verifier::external_body]
fn parse_string_array(text: &str) -> (r: Result<Vec<String>, serde_json::Error>)
    ensures
        match r {
            Ok(words) => json_string_array(text@) == Some(texts(words@)),
            Err(_) => json_string_array(text@) is None,
        },
{
    serde_json::from_str::<Vec<String>>(text)
}

/// What is wrong with a list of words, if anything: first a word of the
/// wrong length, then that there is no word at all.
pub open spec fn load_fault(words: Seq<Seq<char>>) -> Option<LoadError> {
    if exists|i: int| 0 <= i < words.len() && (#[trigger] words[i]).len() != 5 {
        Some(LoadError::WordLength)
    } else if words.len() == 0 {
        Some(LoadError::Empty)
    } else {
        None
    }
}

impl Lexicon {
    /// A lexicon holding `initial_words` in the order given.
    pub fn load(initial_words: Vec<Candidate>) -> (lexicon: Lexicon)
        ensures
            lexicon@ == initial_words@,
    {
        Lexicon { words: initial_words }
    }

    /// The lexicon spelled by `words`, in their order. It is refused when a
    /// word has not exactly five characters, and when there is no word.
    pub fn from_words(words: &Vec<String>) -> (r: Result<Lexicon, LoadError>)
        ensures
            match r {
                Ok(lexicon) => load_fault(texts(words@)) is None && spelled(lexicon@) == texts(
                    words@,
                ),
                Err(e) => load_fault(texts(words@)) == Some(e),
            },
    {
        let mut candidates: Vec<Candidate> = Vec::new();
        let mut i: usize = 0;
        while i < words.len()
            invariant
                i <= words@.len(),
                candidates@.len() == i,
                forall|k: int| 0 <= k < i ==> (#[trigger] candidates@[k])@ == words@[k]@,
                forall|k: int| 0 <= k < i ==> (#[trigger] texts(words@)[k]).len() == 5,
            decreases words@.len() - i,
        {
            match Candidate::new(words[i].as_str()) {
                Some(candidate) => {
                    candidates.push(candidate);
                },
                None => {
                    assert(texts(words@)[i as int].len() != 5);
                    return Err(LoadError::WordLength);
                },
            }
            i += 1;
        }
        if candidates.len() == 0 {
            return Err(LoadError::Empty);
        }
        assert(spelled(candidates@) =~= texts(words@));
        Ok(Lexicon { words: candidates })
    }

    /// The lexicon that a JSON array of five-letter strings spells.
    ///
    /// The text is handed to `serde_json` as it is. What the parser refuses
    /// is [`LoadError::Unparsable`]; what it accepts goes through
    /// [`Lexicon::from_words`].
    pub fn from_json(text: &str) -> (r: Result<Lexicon, LoadError>)
        ensures
            match json_string_array(text@) {
                None => r == Err::<Lexicon, LoadError>(LoadError::Unparsable),
                Some(words) => match r {
                    Ok(lexicon) => load_fault(words) is None && spelled(lexicon@) == words,
                    Err(e) => load_fault(words) == Some(e),
                },
            },
    {
        match parse_string_array(text) {
            Ok(words) => Lexicon::from_words(&words),
            Err(_) => Err(LoadError::Unparsable),
        }
    }

    /// Number of candidates that remain.
    pub fn len(&self) -> (n: usize)
        ensures
            n == self@.len(),
    {
        self.words.len()
    }

    /// Whether no candidate remains.
    pub fn is_empty(&self) -> (empty: bool)
        ensures
            empty == (self@.len() == 0),
    {
        self.words.len() == 0
    }

    /// The candidate at position `i`.
    pub fn get(&self, i: usize) -> (word: Candidate)
        requires
            i < self@.len(),
        ensures
            word == self@[i as int],
    {
        self.words[i]
    }

    /// The candidates as strings, in order.
    pub fn to_strings(&self) -> (words: Vec<String>)
        ensures
            texts(words@) == spelled(self@),
    {
        let mut words: Vec<String> = Vec::new();
        let mut i: usize = 0;
        while i < self.words.len()
            invariant
                i <= self.words@.len(),
                words@.len() == i,
                forall|k: int| 0 <= k < i ==> (#[trigger] words@[k])@ == self.words@[k]@,
            decreases self.words@.len() - i,
        {
            words.push(self.words[i].to_string());
            i += 1;
        }
        assert(texts(words@) =~= spelled(self@));
        words
    }

    /// Removes every candidate that fails `test`. The others stay, in their
    /// order.
    pub fn retain(&mut self, test: &Predicate)
        ensures
            final(self)@ == old(self)@.filter(test.keeps()),
    {
        let mut kept: Vec<Candidate> = Vec::new();
        let mut i: usize = 0;
        while i < self.words.len()
            invariant
                i <= self.words@.len(),
                self.words@ == old(self).words@,
                kept@ == self.words@.take(i as int).filter(test.keeps()),
            decreases self.words@.len() - i,
        {
            let word = self.words[i];
            if test.test(&word) {
                kept.push(word);
            }
            proof {
                lemma_filter_push(self.words@.take(i as int), word, test.keeps());
                assert(self.words@.take(i + 1) =~= self.words@.take(i as int).push(word));
            }
            i += 1;
        }
        assert(self.words@.take(self.words@.len() as int) =~= self.words@);
        self.words = kept;
    }

    /// Removes every candidate that fails one of `tests`, test by test in
    /// the order given. The others stay, in their order.
    pub fn retain_all(&mut self, tests: &Vec<Predicate>)
        ensures
            final(self)@ == old(self)@.filter(keeps_all(tests@)),
    {
        let mut k: usize = 0;
        proof {
            lemma_filter_none_fails(self@, keeps_all(tests@.take(0)));
        }
        while k < tests.len()
            invariant
                k <= tests@.len(),
                self@ == old(self)@.filter(keeps_all(tests@.take(k as int))),
            decreases tests@.len() - k,
        {
            self.retain(&tests[k]);
            proof {
                let sofar = tests@.take(k as int);
                let next = tests@.take(k + 1);
                assert(next =~= sofar.push(tests@[k as int]));
                assert forall|c: Candidate| #[trigger]
                    keeps_all(next)(c) == (keeps_all(sofar)(c) && tests@[k as int].keeps()(
                        c,
                    )) by {
                    lemma_all_hold_push(sofar, tests@[k as int], c);
                }
                lemma_filter_twice(
                    old(self)@,
                    keeps_all(sofar),
                    tests@[k as int].keeps(),
                    keeps_all(next),
                );
            }
            k += 1;
        }
        assert(tests@.take(tests@.len() as int) =~= tests@);
    }

    /// The lexicon that one round of feedback leaves of this one: see
    /// [`Lexicon::apply_round`].
    pub fn narrowed(&self, round: &Round) -> (kept: Lexicon)
        ensures
            kept@ == survivors(self@, *round),
    {
        let mut kept = self.clone();
        kept.apply_round(round);
        kept
    }

    /// Narrows the lexicon by one round of feedback: what stays are the
    /// candidates that the round admits, in their order. The guess itself
    /// always goes.
    pub fn apply_round(&mut self, round: &Round)
        ensures
            final(self)@ == survivors(old(self)@, *round),
    {
        let tests = round.predicates();
        self.retain_all(&tests);
        proof {
            assert forall|c: Candidate| #[trigger]
                keeps_all(tests@)(c) == round.admitting()(c) by {
                assert(all_hold(tests@, c) == round.admits(c));
            }
            lemma_filter_agree(old(self)@, keeps_all(tests@), round.admitting());
        }
    }
}

} // verus!
