use wordle_assist::feedback::MalformedInput;
use wordle_assist::lexicon::Lexicon;
use wordle_assist::score::score_in_chunks;
use wordle_assist::session::{is_affirmative, outcome, Phase, Session, MAX_GUESSES, SUGGESTIONS};
use wordle_assist::word::Candidate;

fn session_over(words: &[&str]) -> Session {
    Session::new(Lexicon::load(words.iter().map(|w| Candidate::new(w).unwrap()).collect()))
}

fn play_round(session: &mut Session, line: &str) -> Phase {
    assert_eq!(session.phase(), Phase::Scoring);
    let scores = score_in_chunks(session.lexicon(), 3);
    let ranking = session.advise(&scores);
    assert_eq!(ranking.len(), session.lexicon().len());
    assert_eq!(session.phase(), Phase::AwaitingFeedback);
    assert!(session.submit(line).is_ok());
    assert_eq!(session.phase(), Phase::Filtering);
    session.narrow()
}

#[test]
fn a_session_starts_scoring_with_no_guess_made() {
    let session = session_over(&["crane", "slate", "trace"]);
    assert_eq!(session.phase(), Phase::Scoring);
    assert_eq!(session.guesses(), 0);
    assert_eq!(session.lexicon().to_strings(), vec!["crane", "slate", "trace"]);
}

#[test]
fn all_exact_feedback_solves_the_game() {
    let mut session = session_over(&["crane", "slate", "trace"]);
    let phase = play_round(&mut session, "crane-22222");
    assert_eq!(phase, Phase::Solved);
    assert_eq!(session.phase(), Phase::Solved);
    assert!(session.lexicon().is_empty());
    assert_eq!(session.guesses(), 1);
}

#[test]
fn a_round_that_leaves_candidates_goes_back_to_scoring() {
    let mut session = session_over(&["abcde", "fghij"]);
    let phase = play_round(&mut session, "abcde-00000");
    assert_eq!(phase, Phase::Scoring);
    assert_eq!(session.lexicon().to_strings(), vec!["fghij"]);
    assert_eq!(session.guesses(), 1);
}

#[test]
fn advise_ranks_the_remaining_candidates() {
    let mut session = session_over(&["crane", "slate", "trace"]);
    let scores = score_in_chunks(session.lexicon(), 2);
    let ranking = session.advise(&scores);
    let best = ranking.top(SUGGESTIONS);
    assert_eq!(best.len(), 3);
    assert_eq!(best[0].word.to_string(), "trace");
    assert_eq!(best[0].score, 58);
    assert_eq!(best[1].word.to_string(), "crane");
    assert_eq!(best[1].score, 54);
    assert_eq!(best[2].word.to_string(), "slate");
    assert_eq!(best[2].score, 49);
    assert_eq!(session.guesses(), 0);
    assert_eq!(session.lexicon().len(), 3);
}

#[test]
fn a_malformed_line_changes_nothing_and_can_be_retried() {
    let mut session = session_over(&["crane", "slate", "trace"]);
    let scores = score_in_chunks(session.lexicon(), 1);
    session.advise(&scores);
    assert_eq!(session.submit("crane02010"), Err(MalformedInput::MissingSeparator));
    assert_eq!(session.phase(), Phase::AwaitingFeedback);
    assert_eq!(session.submit("crane-0201"), Err(MalformedInput::CodesLength));
    assert_eq!(session.phase(), Phase::AwaitingFeedback);
    assert_eq!(session.submit("cran-02010"), Err(MalformedInput::WordLength));
    assert_eq!(session.submit("crane-0201?"), Err(MalformedInput::UnknownCode));
    assert_eq!(session.phase(), Phase::AwaitingFeedback);
    assert_eq!(session.guesses(), 0);
    assert_eq!(session.lexicon().len(), 3);
    let round = session.submit("crane-00202\n").unwrap();
    assert_eq!(round.guess.to_string(), "crane");
    assert_eq!(session.phase(), Phase::Filtering);
    assert_eq!(session.narrow(), Phase::Scoring);
    assert_eq!(session.lexicon().to_strings(), vec!["slate"]);
}

#[test]
fn the_sixth_guess_ends_the_game_with_candidates_left() {
    assert_eq!(MAX_GUESSES, 6);
    let mut session = session_over(&["aaaaa", "bbbbb", "ccccc"]);
    for guess in 1..=5 {
        assert_eq!(play_round(&mut session, "zzzzz-00000"), Phase::Scoring);
        assert_eq!(session.guesses(), guess);
    }
    assert_eq!(play_round(&mut session, "zzzzz-00000"), Phase::Solved);
    assert_eq!(session.guesses(), 6);
    assert_eq!(session.lexicon().len(), 3);
}

#[test]
fn restart_on_yes_starts_afresh() {
    let mut session = session_over(&["crane", "slate", "trace"]);
    assert_eq!(play_round(&mut session, "fghij-00000"), Phase::Scoring);
    assert_eq!(session.guesses(), 1);
    assert_eq!(play_round(&mut session, "crane-22222"), Phase::Solved);
    assert!(session.lexicon().is_empty());
    assert!(session.restart(" y\n"));
    assert_eq!(session.phase(), Phase::Scoring);
    assert_eq!(session.guesses(), 0);
    assert_eq!(session.lexicon().to_strings(), vec!["crane", "slate", "trace"]);
    assert_eq!(play_round(&mut session, "crane-22222"), Phase::Solved);
}

#[test]
fn restart_on_anything_else_changes_nothing() {
    let mut session = session_over(&["crane"]);
    assert_eq!(play_round(&mut session, "crane-22222"), Phase::Solved);
    assert!(!session.restart("n\n"));
    assert!(!session.restart("yes\n"));
    assert!(!session.restart("Y\n"));
    assert!(!session.restart("\n"));
    assert_eq!(session.phase(), Phase::Solved);
    assert_eq!(session.guesses(), 1);
    assert!(session.lexicon().is_empty());
}

#[test]
fn only_a_lone_lower_case_y_is_affirmative() {
    assert!(is_affirmative("y"));
    assert!(is_affirmative("y\n"));
    assert!(is_affirmative("  y \r\n"));
    assert!(!is_affirmative("Y"));
    assert!(!is_affirmative("yes"));
    assert!(!is_affirmative("y y"));
    assert!(!is_affirmative("n"));
    assert!(!is_affirmative(""));
    assert!(!is_affirmative("   "));
}

#[test]
fn only_the_end_of_a_game_is_terminal() {
    assert!(Phase::Solved.is_terminal());
    assert!(Phase::Exhausted.is_terminal());
    assert!(!Phase::Scoring.is_terminal());
    assert!(!Phase::AwaitingFeedback.is_terminal());
    assert!(!Phase::Filtering.is_terminal());
}

#[test]
fn no_outcome_is_exhausted() {
    for remaining in 0..4 {
        for guesses in 1..=6 {
            assert_ne!(outcome(remaining, guesses), Phase::Exhausted);
        }
    }
}

#[test]
fn outcome_is_solved_when_nothing_remains_or_guesses_run_out() {
    assert_eq!(outcome(0, 1), Phase::Solved);
    assert_eq!(outcome(0, 6), Phase::Solved);
    assert_eq!(outcome(10, 6), Phase::Solved);
    assert_eq!(outcome(1, 1), Phase::Scoring);
    assert_eq!(outcome(10, 5), Phase::Scoring);
}

#[test]
fn a_session_over_an_empty_lexicon_is_solved_after_one_round() {
    let mut session = session_over(&[]);
    let scores = score_in_chunks(session.lexicon(), 4);
    assert!(scores.is_empty());
    let ranking = session.advise(&scores);
    assert!(ranking.top(SUGGESTIONS).is_empty());
    assert!(session.submit("crane-00000").is_ok());
    assert_eq!(session.narrow(), Phase::Solved);
}
