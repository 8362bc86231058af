//! One round of the game: the word that was guessed and what the game
//! answered for each of its letters, and how a line typed by the player is
//! read into a round.

use vstd::prelude::*;
use crate::text::{chars_of, field_end, find_field_end, trim, trimmed};
use crate::word::Candidate;

verus! {

/// The character between the guessed word and its codes.
pub const SEPARATOR: char = '-';

/// What the game says of one letter of a guess.
#[derive(Clone, Copy, Debug, PartialEq, Eq, Structural)]
pub enum FeedbackCode {
    /// The letter is not in the answer (written `0`).
    Absent,
    /// The letter is in the answer, at another position (written `1`).
    Partial,
    /// The letter is in the answer at this position (written `2`).
    Exact,
}

impl FeedbackCode {
    /// The code that the digit `c` stands for.
    pub open spec fn of_digit(c: char) -> Option<FeedbackCode> {
        if c == '0' {
            Some(FeedbackCode::Absent)
        } else if c == '1' {
            Some(FeedbackCode::Partial)
        } else if c == '2' {
            Some(FeedbackCode::Exact)
        } else {
            None
        }
    }

    /// The code that the digit `c` stands for, if it is one of `0`, `1`, `2`.
    pub fn from_digit(c: char) -> (code: Option<FeedbackCode>)
        ensures
            code == Self::of_digit(c),
    {
        if c == '0' {
            Some(FeedbackCode::Absent)
        } else if c == '1' {
            Some(FeedbackCode::Partial)
        } else if c == '2' {
            Some(FeedbackCode::Exact)
        } else {
            None
        }
    }
}

/// A guessed word with the code of each of its letters.
#[derive(Clone, Copy, Debug, PartialEq, Eq)]
pub struct Round {
    pub guess: Candidate,
    pub codes: [FeedbackCode; 5],
}

/// Why a line is no round.
#[derive(Clone, Copy, Debug, PartialEq, Eq, Structural)]
pub enum MalformedInput {
    /// The line holds no separator.
    MissingSeparator,
    /// The word before the separator has not exactly five characters.
    WordLength,
    /// The field after the separator has not exactly five characters.
    CodesLength,
    /// A code is none of `0`, `1`, `2`.
    UnknownCode,
}

/// The first field of `text`: the guessed word, which ends before the
/// first separator.
pub open spec fn guess_field(text: Seq<char>) -> Seq<char> {
    text.subrange(0, field_end(text, SEPARATOR, 0))
}

/// The second field of `text`: the codes, from behind the first separator
/// to the next one or to the end. What follows a second separator is not
/// read.
pub open spec fn codes_field(text: Seq<char>) -> Seq<char> {
    let dash = field_end(text, SEPARATOR, 0);
    text.subrange(dash + 1, field_end(text, SEPARATOR, dash + 1))
}

/// What is wrong with `text`, if anything: the first fault in the order
/// no separator, word length, codes length, unknown code.
pub open spec fn malformation(text: Seq<char>) -> Option<MalformedInput> {
    let word = guess_field(text);
    let codes = codes_field(text);
    if word.len() == text.len() {
        Some(MalformedInput::MissingSeparator)
    } else if word.len() != 5 {
        Some(MalformedInput::WordLength)
    } else if codes.len() != 5 {
        Some(MalformedInput::CodesLength)
    } else if exists|i: int| 0 <= i < 5 && FeedbackCode::of_digit(#[trigger] codes[i]) is None {
        Some(MalformedInput::UnknownCode)
    } else {
        None
    }
}

/// `round` is what `text` spells: its guess has the letters of the first
/// field, and its codes are those that the digits of the second stand for.
pub open spec fn spells(round: Round, text: Seq<char>) -> bool {
    &&& round.guess@ == guess_field(text)
    &&& forall|i: int|
        0 <= i < 5 ==> FeedbackCode::of_digit(#[trigger] codes_field(text)[i]) == Some(
            round.codes@[i],
        )
}

/// Reads a round out of text of the form `WORD-CODES`: five characters, the
/// separator, and five digits out of `0` (absent), `1` (partial), `2`
/// (exact). Nothing is skipped: white space counts as any other character.
/// Text of another form is refused, with the first fault found.
pub fn read_round(text: &Vec<char>) -> (r: Result<Round, MalformedInput>)
    ensures
        match r {
            Ok(round) => malformation(text@) is None && spells(round, text@),
            Err(e) => malformation(text@) == Some(e),
        },
{
    let dash = find_field_end(text, SEPARATOR, 0);
    if dash >= text.len() {
        return Err(MalformedInput::MissingSeparator);
    }
    let end = find_field_end(text, SEPARATOR, dash + 1);
    let ghost digits = codes_field(text@);
    let guess = match Candidate::from_chars(text, 0, dash) {
        Some(guess) => guess,
        None => {
            return Err(MalformedInput::WordLength);
        },
    };
    if end - (dash + 1) != 5 {
        return Err(MalformedInput::CodesLength);
    }
    let mut codes: [FeedbackCode; 5] = [FeedbackCode::Absent; 5];
    let mut i: usize = 0;
    while i < 5
        invariant
            i <= 5,
            dash == 5,
            end == 11,
            end <= text@.len(),
            dash == field_end(text@, SEPARATOR, 0),
            end == field_end(text@, SEPARATOR, dash + 1),
            digits == codes_field(text@),
            forall|k: int|
                0 <= k < i ==> FeedbackCode::of_digit(#[trigger] digits[k]) == Some(codes@[k]),
        decreases 5 - i,
    {
        match FeedbackCode::from_digit(text[dash + 1 + i]) {
            Some(code) => {
                codes[i] = code;
            },
            None => {
                assert(FeedbackCode::of_digit(digits[i as int]) is None);
                return Err(MalformedInput::UnknownCode);
            },
        }
        i += 1;
    }
    Ok(Round { guess, codes })
}

/// Reads the round that a line typed by the player spells. White space
/// around the line is dropped; what is left is read as [`read_round`] reads
/// it.
pub fn parse_feedback(line: &str) -> (r: Result<Round, MalformedInput>)
    ensures
        match r {
            Ok(round) => malformation(trimmed(line@)) is None && spells(round, trimmed(line@)),
            Err(e) => malformation(trimmed(line@)) == Some(e),
        },
{
    let chars = chars_of(line);
    let text = trim(&chars);
    read_round(&text)
}

} // verus!
