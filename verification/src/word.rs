//! Candidate words: exactly five characters, compared position by position.

use vstd::prelude::*;
use crate::text::{chars_of, string_of};

verus! {

/// Number of letters in every candidate word.
pub const WORD_LEN: usize = 5;

/// A word of exactly [`WORD_LEN`] characters.
///
/// Its view is the sequence of its letters; two candidates are equal exactly
/// when their letters are.
#[derive(Clone, Copy, Debug, PartialEq, Eq, Hash)]
pub struct Candidate {
    pub letters: [char; 5],
}

impl View for Candidate {
    type V = Seq<char>;

    open spec fn view(&self) -> Seq<char> {
        self.letters@
    }
}

impl Candidate {
    /// The candidate spelled by `word`, if `word` has exactly five characters.
    pub fn new(word: &str) -> (candidate: Option<Candidate>)
        ensures
            candidate is Some <==> word@.len() == WORD_LEN,
            candidate is Some ==> candidate->Some_0@ == word@,
    {
        let chars = chars_of(word);
        Candidate::from_chars(&chars, 0, chars.len())
    }

    /// The candidate spelled by the characters `from..to` of `chars`, if
    /// these are exactly five characters of `chars`.
    pub fn from_chars(chars: &Vec<char>, from: usize, to: usize) -> (candidate: Option<Candidate>)
        ensures
            candidate is Some <==> from + WORD_LEN == to && to <= chars@.len(),
            candidate is Some ==> candidate->Some_0@ == chars@.subrange(from as int, to as int),
    {
        if to > chars.len() || to < from || to - from != WORD_LEN {
            return None;
        }
        let letters: [char; 5] = [
            chars[from],
            chars[from + 1],
            chars[from + 2],
            chars[from + 3],
            chars[from + 4],
        ];
        let candidate = Candidate { letters };
        assert(candidate@ =~= chars@.subrange(from as int, to as int));
        Some(candidate)
    }

    /// The word as a string.
    pub fn to_string(&self) -> (word: String)
        ensures
            word@ == self@,
    {
        string_of(&self.letters)
    }

    /// The letter at position `i`, for use in proofs. The verifier learns of
    /// a letter that it is a character only when the letter is handed to it
    /// as one; reading it out of the view does not tell it so.
    pub proof fn letter_in_proof(self, i: int) -> (c: char)
        requires
            0 <= i < WORD_LEN,
        ensures
            c == self@[i],
    {
        self@[i]
    }

    /// The letter at position `i`.
    pub fn letter(&self, i: usize) -> (c: char)
        requires
            i < WORD_LEN,
        ensures
            c == self@[i as int],
    {
        self.letters[i]
    }

    /// Whether `c` occurs anywhere in the word.
    pub fn contains(&self, c: char) -> (found: bool)
        ensures
            found == self@.contains(c),
    {
        let mut i: usize = 0;
        while i < 5
            invariant
                i <= 5,
                forall|j: int| 0 <= j < i ==> self@[j] != c,
            decreases 5 - i,
        {
            if self.letters[i] == c {
                return true;
            }
            i += 1;
        }
        false
    }

    /// Whether both words have the same letters.
    pub fn same(&self, other: &Candidate) -> (eq: bool)
        ensures
            eq == (*self == *other),
            eq == (self@ == other@),
    {
        let mut i: usize = 0;
        while i < 5
            invariant
                i <= 5,
                forall|j: int| 0 <= j < i ==> self@[j] == other@[j],
            decreases 5 - i,
        {
            if self.letters[i] != other.letters[i] {
                return false;
            }
            i += 1;
        }
        assert(self@ =~= other@);
        assert(self.letters =~= other.letters);
        true
    }
}

} // verus!
