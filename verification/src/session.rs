//! The course of a game: score, wait for feedback, filter, and again, until
//! the game is over; then, if the player wants it, start afresh.
//!
//! The session decides and keeps the state. Whoever drives it shows the
//! rankings, reads the lines and hands them in.

use vstd::prelude::*;
use crate::feedback::{malformation, parse_feedback, spells, MalformedInput, Round};
use crate::filter::survivors;
use crate::lexicon::Lexicon;
use crate::rank::{is_ranking_of, paired, rank, Ranking};
use crate::text::{chars_of, trim, trimmed};
use crate::word::Candidate;

verus! {

/// Number of guesses after which the game is over in any case.
pub const MAX_GUESSES: u32 = 6;

/// Number of suggestions shown to the player in each round.
pub const SUGGESTIONS: usize = 5;

/// Where a session stands.
#[derive(Clone, Copy, Debug, PartialEq, Eq, Structural)]
pub enum Phase {
    /// The candidates are to be scored and ranked.
    Scoring,
    /// The ranking has been given out; the player's next line is awaited.
    AwaitingFeedback,
    /// A round has been read; the lexicon is to be narrowed by it.
    Filtering,
    /// The game is over: no candidate is left, or the last guess has been
    /// made. The two are not told apart, and a game that runs out of guesses
    /// with candidates left ends here too.
    Solved,
    /// The guesses have run out with candidates left. No session ever
    /// enters this state: the last guess ends the game as [`Phase::Solved`]
    /// whatever remains.
    Exhausted,
}

impl Phase {
    /// Whether the game is over.
    pub open spec fn terminal(self) -> bool {
        self == Phase::Solved || self == Phase::Exhausted
    }

    /// Whether the game is over.
    pub fn is_terminal(&self) -> (over: bool)
        ensures
            over == self.terminal(),
    {
        match self {
            Phase::Solved => true,
            Phase::Exhausted => true,
            _ => false,
        }
    }
}

/// What a session holds, as plain values.
pub struct SessionState {
    pub phase: Phase,
    /// The candidates the game started from.
    pub initial: Seq<Candidate>,
    /// The candidates that are still possible.
    pub remaining: Seq<Candidate>,
    /// Number of rounds filtered so far.
    pub guesses: nat,
    /// The round that has been read and not yet filtered by.
    pub pending: Option<Round>,
}

/// Where the game stands after a round has been filtered by: over when no
/// candidate remains or the last guess has been made, else scoring again.
pub open spec fn outcome_of(remaining: nat, guesses: nat) -> Phase {
    if remaining == 0 || guesses == MAX_GUESSES {
        Phase::Solved
    } else {
        Phase::Scoring
    }
}

/// Whether the answer to the question of another game means yes: it is the
/// single letter `y`, white space around it aside.
pub open spec fn affirmative(answer: Seq<char>) -> bool {
    trimmed(answer) == seq!['y']
}

impl SessionState {
    /// The state a game starts in.
    pub open spec fn start(initial: Seq<Candidate>) -> SessionState {
        SessionState {
            phase: Phase::Scoring,
            initial,
            remaining: initial,
            guesses: 0,
            pending: None,
        }
    }

    /// What holds of every state a session is ever in: the guesses are
    /// counted up to the limit, which is reached only when the game is over;
    /// while filtering there is a round to filter by; and the game is never
    /// exhausted.
    pub open spec fn wf(self) -> bool {
        &&& self.guesses <= MAX_GUESSES
        &&& !self.phase.terminal() ==> self.guesses < MAX_GUESSES
        &&& self.phase == Phase::Filtering ==> self.pending is Some
        &&& self.phase != Phase::Exhausted
    }

    /// The state after the ranking has been given out.
    pub open spec fn advised(self) -> SessionState {
        SessionState { phase: Phase::AwaitingFeedback, ..self }
    }

    /// The state after `round` has been read.
    pub open spec fn submitted(self, round: Round) -> SessionState {
        SessionState { phase: Phase::Filtering, pending: Some(round), ..self }
    }

    /// The state after the pending round has narrowed the lexicon: one more
    /// guess is counted, and the game is over or goes on as [`outcome_of`]
    /// says.
    pub open spec fn narrowed(self) -> SessionState {
        let remaining = survivors(self.remaining, self.pending->Some_0);
        let guesses = self.guesses + 1;
        SessionState {
            phase: outcome_of(remaining.len(), guesses),
            initial: self.initial,
            remaining,
            guesses,
            pending: None,
        }
    }

    /// The state after the player has asked for another game.
    pub open spec fn restarted(self) -> SessionState {
        SessionState::start(self.initial)
    }
}

/// One game after another over the same initial lexicon.
#[derive(Debug)]
pub struct Session {
    initial: Lexicon,
    lexicon: Lexicon,
    guesses: u32,
    phase: Phase,
    pending: Option<Round>,
}

impl View for Session {
    type V = SessionState;

    closed spec fn view(&self) -> SessionState {
        SessionState {
            phase: self.phase,
            initial: self.initial@,
            remaining: self.lexicon@,
            guesses: self.guesses as nat,
            pending: self.pending,
        }
    }
}

/// Whether the game is over after a round that left `remaining` candidates
/// and was guess number `guesses`.
pub fn outcome(remaining: usize, guesses: u32) -> (phase: Phase)
    ensures
        phase == outcome_of(remaining as nat, guesses as nat),
{
    if remaining == 0 || guesses == MAX_GUESSES {
        Phase::Solved
    } else {
        Phase::Scoring
    }
}

/// Whether the answer to the question of another game means yes.
pub fn is_affirmative(answer: &str) -> (yes: bool)
    ensures
        yes == affirmative(answer@),
{
    let chars = chars_of(answer);
    let text = trim(&chars);
    let yes = text.len() == 1 && text[0] == 'y';
    proof {
        if yes {
            assert(text@ =~= seq!['y']);
        } else {
            assert(seq!['y'].len() == 1 && seq!['y'][0] == 'y');
        }
    }
    yes
}

impl Session {
    /// Every session is in a well-formed state.
    #[verifier::type_invariant]
    spec fn well_formed(self) -> bool {
        self@.wf()
    }

    /// A session at the start of its first game.
    pub fn new(initial: Lexicon) -> (session: Session)
        ensures
            session@ == SessionState::start(initial@),
    {
        let lexicon = initial.clone();
        Session { initial, lexicon, guesses: 0, phase: Phase::Scoring, pending: None }
    }

    /// Where the session stands. The state of a session is always
    /// well-formed.
    pub fn phase(&self) -> (phase: Phase)
        ensures
            phase == self@.phase,
            self@.wf(),
    {
        proof {
            use_type_invariant(self);
        }
        self.phase
    }

    /// Number of rounds filtered in this game.
    pub fn guesses(&self) -> (guesses: u32)
        ensures
            guesses == self@.guesses,
            guesses <= MAX_GUESSES,
    {
        proof {
            use_type_invariant(self);
        }
        self.guesses
    }

    /// The candidates that are still possible.
    pub fn lexicon(&self) -> (lexicon: &Lexicon)
        ensures
            lexicon@ == self@.remaining,
    {
        &self.lexicon
    }

    /// Ranks the remaining candidates by `scores` and goes on to wait for
    /// the player's feedback.
    pub fn advise(&mut self, scores: &Vec<u128>) -> (ranking: Ranking)
        requires
            old(self)@.phase == Phase::Scoring,
            scores@.len() == old(self)@.remaining.len(),
        ensures
            final(self)@ == old(self)@.advised(),
            is_ranking_of(ranking@, paired(old(self)@.remaining, scores@)),
    {
        proof {
            use_type_invariant(&*self);
        }
        let ranking = rank(&self.lexicon, scores);
        self.phase = Phase::AwaitingFeedback;
        ranking
    }

    /// Reads the player's line. A round goes on to filtering; a malformed
    /// line is refused and changes nothing, so that another line can be
    /// handed in.
    pub fn submit(&mut self, line: &str) -> (r: Result<Round, MalformedInput>)
        requires
            old(self)@.phase == Phase::AwaitingFeedback,
        ensures
            match r {
                Ok(round) => {
                    &&& malformation(trimmed(line@)) is None
                    &&& spells(round, trimmed(line@))
                    &&& final(self)@ == old(self)@.submitted(round)
                },
                Err(e) => malformation(trimmed(line@)) == Some(e) && final(self)@ == old(self)@,
            },
    {
        proof {
            use_type_invariant(&*self);
        }
        match parse_feedback(line) {
            Ok(round) => {
                self.pending = Some(round);
                self.phase = Phase::Filtering;
                Ok(round)
            },
            Err(e) => Err(e),
        }
    }

    /// Narrows the lexicon by the round that was read, counts the guess, and
    /// says where the game stands now.
    pub fn narrow(&mut self) -> (phase: Phase)
        requires
            old(self)@.phase == Phase::Filtering,
        ensures
            final(self)@ == old(self)@.narrowed(),
            phase == final(self)@.phase,
    {
        proof {
            use_type_invariant(&*self);
        }
        match self.pending {
            Some(round) => {
                self.lexicon = self.lexicon.narrowed(&round);
            },
            None => {},
        }
        self.phase = outcome(self.lexicon.len(), self.guesses + 1);
        self.guesses = self.guesses + 1;
        self.pending = None;
        self.phase
    }

    /// Takes the player's answer to the question of another game. On yes the
    /// guesses are counted from zero again and the lexicon is the initial
    /// one; on anything else nothing changes.
    pub fn restart(&mut self, answer: &str) -> (again: bool)
        requires
            old(self)@.phase.terminal(),
        ensures
            again == affirmative(answer@),
            final(self)@ == if again {
                old(self)@.restarted()
            } else {
                old(self)@
            },
    {
        proof {
            use_type_invariant(&*self);
        }
        if is_affirmative(answer) {
            self.guesses = 0;
            self.lexicon = self.initial.clone();
            self.pending = None;
            self.phase = Phase::Scoring;
            true
        } else {
            false
        }
    }
}

} // verus!
