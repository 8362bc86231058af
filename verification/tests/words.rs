use wordle_assist::word::{Candidate, WORD_LEN};

#[test]
fn candidate_round_trips_through_a_string() {
    let word = Candidate::new("crane").unwrap();
    assert_eq!(word.to_string(), "crane");
    assert_eq!(word.letters, ['c', 'r', 'a', 'n', 'e']);
}

#[test]
fn candidate_needs_exactly_five_characters() {
    assert_eq!(WORD_LEN, 5);
    assert!(Candidate::new("").is_none());
    assert!(Candidate::new("cran").is_none());
    assert!(Candidate::new("cranes").is_none());
    assert!(Candidate::new("crane").is_some());
}

#[test]
fn candidate_counts_characters_not_bytes() {
    let word = Candidate::new("crâne").unwrap();
    assert_eq!(word.letter(2), 'â');
    assert_eq!(word.to_string(), "crâne");
    assert!(Candidate::new("crân").is_none());
}

#[test]
fn candidate_from_chars_takes_the_given_stretch() {
    let chars: Vec<char> = "xxcranexx".chars().collect();
    let word = Candidate::from_chars(&chars, 2, 7).unwrap();
    assert_eq!(word.to_string(), "crane");
    assert!(Candidate::from_chars(&chars, 2, 6).is_none());
    assert!(Candidate::from_chars(&chars, 2, 8).is_none());
    assert!(Candidate::from_chars(&chars, 9, 9).is_none());
}

#[test]
fn candidate_letter_gives_each_position() {
    let word = Candidate::new("slate").unwrap();
    assert_eq!(word.letter(0), 's');
    assert_eq!(word.letter(1), 'l');
    assert_eq!(word.letter(2), 'a');
    assert_eq!(word.letter(3), 't');
    assert_eq!(word.letter(4), 'e');
}

#[test]
fn candidate_contains_looks_at_every_position() {
    let word = Candidate::new("slate").unwrap();
    assert!(word.contains('s'));
    assert!(word.contains('a'));
    assert!(word.contains('e'));
    assert!(!word.contains('z'));
    assert!(!word.contains('S'));
}

#[test]
fn candidate_same_compares_all_letters() {
    let crane = Candidate::new("crane").unwrap();
    let again = Candidate::new("crane").unwrap();
    let crank = Candidate::new("crank").unwrap();
    let brane = Candidate::new("brane").unwrap();
    assert!(crane.same(&again));
    assert!(!crane.same(&crank));
    assert!(!crane.same(&brane));
    assert_eq!(crane, again);
    assert_ne!(crane, crank);
}
