use wordle_assist::lexicon::{Lexicon, LoadError};
use wordle_assist::word::Candidate;

fn loading_strings(words: &[&str]) -> Vec<String> {
    words.iter().map(|w| w.to_string()).collect()
}

#[test]
fn load_keeps_the_words_in_order() {
    let words: Vec<Candidate> =
        ["slate", "crane", "trace"].iter().map(|w| Candidate::new(w).unwrap()).collect();
    let lexicon = Lexicon::load(words.clone());
    assert_eq!(lexicon.len(), 3);
    assert!(!lexicon.is_empty());
    assert_eq!(lexicon.get(0), words[0]);
    assert_eq!(lexicon.get(1), words[1]);
    assert_eq!(lexicon.get(2), words[2]);
    assert_eq!(lexicon.to_strings(), vec!["slate", "crane", "trace"]);
}

#[test]
fn load_of_nothing_is_an_empty_lexicon() {
    let lexicon = Lexicon::load(Vec::new());
    assert_eq!(lexicon.len(), 0);
    assert!(lexicon.is_empty());
    assert_eq!(lexicon.to_strings(), Vec::<String>::new());
}

#[test]
fn load_keeps_words_that_occur_twice() {
    let crane = Candidate::new("crane").unwrap();
    let lexicon = Lexicon::load(vec![crane, crane]);
    assert_eq!(lexicon.to_strings(), vec!["crane", "crane"]);
}

#[test]
fn clone_holds_the_same_words() {
    let lexicon = Lexicon::from_words(&loading_strings(&["crane", "slate"])).unwrap();
    let copy = lexicon.clone();
    assert_eq!(copy.to_strings(), lexicon.to_strings());
    assert_eq!(copy.len(), 2);
}

#[test]
fn from_words_spells_every_word() {
    let lexicon = Lexicon::from_words(&loading_strings(&["crane", "slate", "trace"])).unwrap();
    assert_eq!(lexicon.to_strings(), vec!["crane", "slate", "trace"]);
}

#[test]
fn from_words_refuses_a_word_of_the_wrong_length() {
    let short = Lexicon::from_words(&loading_strings(&["crane", "slat"]));
    assert_eq!(short.err(), Some(LoadError::WordLength));
    let long = Lexicon::from_words(&loading_strings(&["cranes"]));
    assert_eq!(long.err(), Some(LoadError::WordLength));
    let blank = Lexicon::from_words(&loading_strings(&[""]));
    assert_eq!(blank.err(), Some(LoadError::WordLength));
}

#[test]
fn from_words_refuses_an_empty_list() {
    assert_eq!(Lexicon::from_words(&Vec::new()).err(), Some(LoadError::Empty));
}

#[test]
fn from_json_reads_an_array_of_words() {
    let lexicon = Lexicon::from_json(r#"["crane", "slate", "trace"]"#).unwrap();
    assert_eq!(lexicon.to_strings(), vec!["crane", "slate", "trace"]);
    let spaced = Lexicon::from_json("\n [\n  \"abcde\",\n  \"fghij\"\n ]\n").unwrap();
    assert_eq!(spaced.to_strings(), vec!["abcde", "fghij"]);
}

#[test]
fn from_json_resolves_escapes() {
    let lexicon = Lexicon::from_json(r#"["crane", "crâne"]"#).unwrap();
    assert_eq!(lexicon.to_strings(), vec!["crane", "crâne"]);
}

#[test]
fn from_json_refuses_what_is_no_array_of_strings() {
    assert_eq!(Lexicon::from_json("").err(), Some(LoadError::Unparsable));
    assert_eq!(Lexicon::from_json("crane").err(), Some(LoadError::Unparsable));
    assert_eq!(Lexicon::from_json(r#"["crane""#).err(), Some(LoadError::Unparsable));
    assert_eq!(Lexicon::from_json(r#"["crane", 5]"#).err(), Some(LoadError::Unparsable));
    assert_eq!(Lexicon::from_json(r#"{"crane": 1}"#).err(), Some(LoadError::Unparsable));
    assert_eq!(Lexicon::from_json(r#""crane""#).err(), Some(LoadError::Unparsable));
    assert_eq!(Lexicon::from_json(r#"["crane"] x"#).err(), Some(LoadError::Unparsable));
}

#[test]
fn from_json_refuses_a_word_of_the_wrong_length() {
    assert_eq!(Lexicon::from_json(r#"["crane", "toolong"]"#).err(), Some(LoadError::WordLength));
    assert_eq!(Lexicon::from_json(r#"["four"]"#).err(), Some(LoadError::WordLength));
}

#[test]
fn from_json_refuses_an_empty_array() {
    assert_eq!(Lexicon::from_json("[]").err(), Some(LoadError::Empty));
    assert_eq!(Lexicon::from_json(" [ ] ").err(), Some(LoadError::Empty));
}
