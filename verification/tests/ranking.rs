use wordle_assist::lexicon::Lexicon;
use wordle_assist::rank::{rank, Suggestion};
use wordle_assist::score::score;
use wordle_assist::session::SUGGESTIONS;
use wordle_assist::word::Candidate;

fn ranking_lexicon(words: &[&str]) -> Lexicon {
    Lexicon::load(words.iter().map(|w| Candidate::new(w).unwrap()).collect())
}

fn ranking_pairs(entries: &[Suggestion]) -> Vec<(String, u128)> {
    entries.iter().map(|entry| (entry.word.to_string(), entry.score)).collect()
}

#[test]
fn rank_puts_the_highest_score_first() {
    let lexicon =
        ranking_lexicon(&["crane", "slate", "trace", "abcde", "fghij", "speed", "zzzzz"]);
    let ranking = rank(&lexicon, &score(&lexicon));
    assert_eq!(ranking.len(), 7);
    assert_eq!(
        ranking_pairs(&ranking.top(7)),
        vec![
            ("trace".to_string(), 79),
            ("crane".to_string(), 75),
            ("abcde".to_string(), 72),
            ("slate".to_string(), 71),
            ("speed".to_string(), 50),
            ("fghij".to_string(), 25),
            ("zzzzz".to_string(), 25),
        ]
    );
}

#[test]
fn rank_keeps_ties_in_lexicon_order() {
    let lexicon = ranking_lexicon(&["aaaaa", "bbbbb", "ccccc", "ddddd"]);
    let ranking = rank(&lexicon, &vec![7, 9, 7, 9]);
    assert_eq!(
        ranking_pairs(&ranking.top(4)),
        vec![
            ("bbbbb".to_string(), 9),
            ("ddddd".to_string(), 9),
            ("aaaaa".to_string(), 7),
            ("ccccc".to_string(), 7),
        ]
    );
}

#[test]
fn rank_of_ascending_scores_reverses_them() {
    let lexicon = ranking_lexicon(&["aaaaa", "bbbbb", "ccccc"]);
    let ranking = rank(&lexicon, &vec![1, 2, 3]);
    assert_eq!(ranking.get(0).score, 3);
    assert_eq!(ranking.get(1).score, 2);
    assert_eq!(ranking.get(2).score, 1);
    assert_eq!(ranking.get(0).word.to_string(), "ccccc");
}

#[test]
fn rank_of_nothing_is_empty() {
    let lexicon = ranking_lexicon(&[]);
    let ranking = rank(&lexicon, &Vec::new());
    assert_eq!(ranking.len(), 0);
    assert!(ranking.top(SUGGESTIONS).is_empty());
}

#[test]
fn top_five_of_two_words_gives_two() {
    assert_eq!(SUGGESTIONS, 5);
    let lexicon = ranking_lexicon(&["crane", "slate"]);
    let ranking = rank(&lexicon, &score(&lexicon));
    let best = ranking.top(5);
    assert_eq!(best.len(), 2);
    assert_eq!(
        ranking_pairs(&best),
        vec![("crane".to_string(), 35), ("slate".to_string(), 35)]
    );
}

#[test]
fn top_accepts_any_count() {
    let lexicon = ranking_lexicon(&["aaaaa", "bbbbb", "ccccc"]);
    let ranking = rank(&lexicon, &vec![1, 3, 2]);
    assert!(ranking.top(0).is_empty());
    assert_eq!(ranking_pairs(&ranking.top(1)), vec![("bbbbb".to_string(), 3)]);
    assert_eq!(ranking.top(2).len(), 2);
    assert_eq!(ranking.top(3).len(), 3);
    assert_eq!(ranking.top(usize::MAX).len(), 3);
}

#[test]
fn rank_agrees_with_a_stable_sort_on_many_ties() {
    let letters = ['a', 'b', 'c', 'd', 'e', 'f', 'g'];
    let mut words: Vec<Candidate> = Vec::new();
    let mut scores: Vec<u128> = Vec::new();
    let mut seed: u64 = 12345;
    for i in 0..343usize {
        let l = [letters[i % 7], letters[(i / 7) % 7], letters[(i / 49) % 7], 'x', 'y'];
        words.push(Candidate { letters: l });
        seed = seed.wrapping_mul(6364136223846793005).wrapping_add(1442695040888963407);
        scores.push(u128::from((seed >> 33) % 17));
    }
    let mut expected: Vec<(String, u128)> =
        words.iter().zip(scores.iter()).map(|(w, s)| (w.to_string(), *s)).collect();
    expected.sort_by(|a, b| b.1.cmp(&a.1));
    let ranking = rank(&Lexicon::load(words), &scores);
    assert_eq!(ranking.len(), 343);
    assert_eq!(ranking_pairs(&ranking.top(343)), expected);
    assert_eq!(ranking_pairs(&ranking.top(5)), expected[..5].to_vec());
}

#[test]
fn rank_of_one_word_is_that_word() {
    let lexicon = ranking_lexicon(&["crane"]);
    let ranking = rank(&lexicon, &vec![25]);
    assert_eq!(ranking_pairs(&ranking.top(5)), vec![("crane".to_string(), 25)]);
}
