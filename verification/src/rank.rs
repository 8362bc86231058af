//! Ranking: the candidates with their scores, best first.

use vstd::math::min;
use vstd::prelude::*;
use crate::seq_lemmas::{lemma_filter_none_pass, lemma_filter_push};
use crate::lexicon::Lexicon;
use crate::word::Candidate;

verus! {

/// A candidate with its score.
#[derive(Clone, Copy, Debug, PartialEq, Eq)]
pub struct Suggestion {
    pub word: Candidate,
    pub score: u128,
}

/// The candidates of a lexicon with their scores, from the highest score to
/// the lowest. Its view is the sequence of its entries.
#[derive(Debug)]
pub struct Ranking {
    entries: Vec<Suggestion>,
}

impl View for Ranking {
    type V = Seq<Suggestion>;

    closed spec fn view(&self) -> Seq<Suggestion> {
        self.entries@
    }
}

/// The candidates of `words` paired with the scores at the same positions.
pub open spec fn paired(words: Seq<Candidate>, scores: Seq<u128>) -> Seq<Suggestion> {
    Seq::new(words.len(), |i: int| Suggestion { word: words[i], score: scores[i] })
}

/// No entry has a higher score than one before it.
pub open spec fn descending(entries: Seq<Suggestion>) -> bool {
    forall|i: int, j: int|
        0 <= i < j < entries.len() ==> (#[trigger] entries[i]).score >= (#[trigger] entries[j]).score
}

/// Having the score `score`, as a function on entries.
pub open spec fn scoring(score: u128) -> spec_fn(Suggestion) -> bool {
    |entry: Suggestion| entry.score == score
}

/// `ranked` is `entries` in ranking order: the same entries, each as often
/// as in `entries`, from the highest score to the lowest, those with equal
/// scores in the order they have in `entries`.
pub open spec fn is_ranking_of(ranked: Seq<Suggestion>, entries: Seq<Suggestion>) -> bool {
    &&& ranked.len() == entries.len()
    &&& ranked.to_multiset() == entries.to_multiset()
    &&& descending(ranked)
    &&& forall|score: u128| #[trigger]
        ranked.filter(scoring(score)) == entries.filter(scoring(score))
}

/// A ranking holds the entries it ranks and no others.
pub proof fn lemma_ranking_members(
    ranked: Seq<Suggestion>,
    entries: Seq<Suggestion>,
    entry: Suggestion,
)
    requires
        is_ranking_of(ranked, entries),
    ensures
        ranked.contains(entry) <==> entries.contains(entry),
{
    ranked.to_multiset_ensures();
    entries.to_multiset_ensures();
    assert(ranked.to_multiset().count(entry) == entries.to_multiset().count(entry));
}

/// The first entry of a ranking scores at least as much as any entry.
pub proof fn lemma_best_first(ranked: Seq<Suggestion>, entries: Seq<Suggestion>, i: int)
    requires
        is_ranking_of(ranked, entries),
        0 <= i < entries.len(),
    ensures
        ranked[0].score >= entries[i].score,
{
    assert(entries.contains(entries[i]));
    lemma_ranking_members(ranked, entries, entries[i]);
    let at = choose|at: int| 0 <= at < ranked.len() && ranked[at] == entries[i];
    if at > 0 {
        assert(ranked[0].score >= ranked[at].score);
    }
}

/// `merged` is the two rankings `left` and `right` merged: the entries of
/// both, from the highest score to the lowest, those of `left` before those
/// of `right` where the scores are equal.
spec fn is_merge_of(
    merged: Seq<Suggestion>,
    left: Seq<Suggestion>,
    right: Seq<Suggestion>,
) -> bool {
    &&& merged.len() == left.len() + right.len()
    &&& merged.to_multiset() == left.to_multiset().add(right.to_multiset())
    &&& descending(merged)
    &&& forall|score: u128| #[trigger]
        merged.filter(scoring(score)) == left.filter(scoring(score)) + right.filter(
            scoring(score),
        )
}

/// Merging the rankings of two lists ranks the two lists put together.
proof fn lemma_merged_rankings(
    merged: Seq<Suggestion>,
    left: Seq<Suggestion>,
    right: Seq<Suggestion>,
    first: Seq<Suggestion>,
    second: Seq<Suggestion>,
)
    requires
        is_merge_of(merged, left, right),
        is_ranking_of(left, first),
        is_ranking_of(right, second),
    ensures
        is_ranking_of(merged, first + second),
{
    vstd::seq_lib::lemma_multiset_commutative(first, second);
    assert forall|score: u128| #[trigger]
        merged.filter(scoring(score)) == (first + second).filter(scoring(score)) by {
        let pred = scoring(score);
        Seq::filter_distributes_over_add(first, second, pred);
        assert(left.filter(pred) == first.filter(pred));
        assert(right.filter(pred) == second.filter(pred));
    }
}

/// What the merge has put out after `i` entries of `left` and `j` of
/// `right`: these entries, ranked, none of them scoring less than an entry
/// still to come, and those taken from `right` all scoring more than the next
/// entry of `left`.
spec fn merging(
    out: Seq<Suggestion>,
    left: Seq<Suggestion>,
    right: Seq<Suggestion>,
    i: int,
    j: int,
) -> bool {
    &&& 0 <= i <= left.len()
    &&& 0 <= j <= right.len()
    &&& is_merge_of(out, left.take(i), right.take(j))
    &&& i < left.len() ==> forall|k: int|
        0 <= k < out.len() ==> (#[trigger] out[k]).score >= left[i].score
    &&& j < right.len() ==> forall|k: int|
        0 <= k < out.len() ==> (#[trigger] out[k]).score >= right[j].score
    &&& i < left.len() ==> forall|k: int| 0 <= k < j ==> (#[trigger] right[k]).score > left[i].score
}

/// The merge goes on with the next entry of `left` where `right` has none
/// left or its next entry does not score more.
proof fn lemma_merge_takes_left(
    out: Seq<Suggestion>,
    left: Seq<Suggestion>,
    right: Seq<Suggestion>,
    i: int,
    j: int,
)
    requires
        descending(left),
        descending(right),
        merging(out, left, right, i, j),
        i < left.len(),
        j < right.len() ==> left[i].score >= right[j].score,
    ensures
        merging(out.push(left[i]), left, right, i + 1, j),
{
    let x = left[i];
    let grown = out.push(x);
    let before = left.take(i);
    let after = left.take(i + 1);
    let taken = right.take(j);
    assert(after =~= before.push(x));
    vstd::seq_lib::to_multiset_build(out, x);
    vstd::seq_lib::to_multiset_build(before, x);
    assert(grown.to_multiset() =~= after.to_multiset().add(taken.to_multiset()));
    assert forall|score: u128| #[trigger]
        grown.filter(scoring(score)) == after.filter(scoring(score)) + taken.filter(
            scoring(score),
        ) by {
        let pred = scoring(score);
        assert(out.filter(pred) == before.filter(pred) + taken.filter(pred));
        lemma_filter_push(out, x, pred);
        lemma_filter_push(before, x, pred);
        if pred(x) {
            assert forall|k: int| 0 <= k < taken.len() implies !pred(#[trigger] taken[k]) by {
                assert(right[k].score > left[i].score);
            }
            lemma_filter_none_pass(taken, pred);
            assert(before.filter(pred).push(x) + Seq::<Suggestion>::empty()
                =~= before.filter(pred).push(x));
            assert(before.filter(pred) + Seq::<Suggestion>::empty() =~= before.filter(pred));
        }
    }
    assert(descending(grown));
    if i + 1 < left.len() {
        assert(left[i].score >= left[i + 1].score);
    }
}

/// The merge goes on with the next entry of `right` where `left` has none
/// left or its next entry scores less.
proof fn lemma_merge_takes_right(
    out: Seq<Suggestion>,
    left: Seq<Suggestion>,
    right: Seq<Suggestion>,
    i: int,
    j: int,
)
    requires
        descending(left),
        descending(right),
        merging(out, left, right, i, j),
        j < right.len(),
        i < left.len() ==> left[i].score < right[j].score,
    ensures
        merging(out.push(right[j]), left, right, i, j + 1),
{
    let y = right[j];
    let grown = out.push(y);
    let taken = left.take(i);
    let before = right.take(j);
    let after = right.take(j + 1);
    assert(after =~= before.push(y));
    vstd::seq_lib::to_multiset_build(out, y);
    vstd::seq_lib::to_multiset_build(before, y);
    assert(grown.to_multiset() =~= taken.to_multiset().add(after.to_multiset()));
    assert forall|score: u128| #[trigger]
        grown.filter(scoring(score)) == taken.filter(scoring(score)) + after.filter(
            scoring(score),
        ) by {
        let pred = scoring(score);
        assert(out.filter(pred) == taken.filter(pred) + before.filter(pred));
        lemma_filter_push(out, y, pred);
        lemma_filter_push(before, y, pred);
        if pred(y) {
            assert((taken.filter(pred) + before.filter(pred)).push(y) =~= taken.filter(pred)
                + before.filter(pred).push(y));
        }
    }
    assert(descending(grown));
    if j + 1 < right.len() {
        assert(right[j].score >= right[j + 1].score);
    }
}

/// Merges two rankings into one.
fn merge(left: &Vec<Suggestion>, right: &Vec<Suggestion>) -> (merged: Vec<Suggestion>)
    requires
        descending(left@),
        descending(right@),
    ensures
        is_merge_of(merged@, left@, right@),
{
    let mut merged: Vec<Suggestion> = Vec::new();
    let mut i: usize = 0;
    let mut j: usize = 0;
    proof {
        assert(left@.take(0) =~= Seq::<Suggestion>::empty());
        assert(right@.take(0) =~= Seq::<Suggestion>::empty());
        vstd::seq_lib::lemma_multiset_commutative(left@.take(0), right@.take(0));
        assert(left@.take(0) + right@.take(0) =~= merged@);
        assert forall|score: u128| #[trigger]
            merged@.filter(scoring(score)) == left@.take(0).filter(scoring(score))
                + right@.take(0).filter(scoring(score)) by {
            assert(Seq::<Suggestion>::empty() + Seq::<Suggestion>::empty()
                =~= Seq::<Suggestion>::empty());
        }
    }
    while i < left.len() || j < right.len()
        invariant
            descending(left@),
            descending(right@),
            merging(merged@, left@, right@, i as int, j as int),
        decreases left@.len() - i + right@.len() - j,
    {
        if i < left.len() && (j >= right.len() || left[i].score >= right[j].score) {
            proof {
                lemma_merge_takes_left(merged@, left@, right@, i as int, j as int);
            }
            merged.push(left[i]);
            i += 1;
        } else {
            proof {
                lemma_merge_takes_right(merged@, left@, right@, i as int, j as int);
            }
            merged.push(right[j]);
            j += 1;
        }
    }
    assert(left@.take(i as int) =~= left@);
    assert(right@.take(j as int) =~= right@);
    merged
}

/// Ranks the entries `from..to` of `entries` by merging the rankings of
/// their two halves.
fn rank_range(entries: &Vec<Suggestion>, from: usize, to: usize) -> (ranked: Vec<Suggestion>)
    requires
        from <= to <= entries@.len(),
    ensures
        is_ranking_of(ranked@, entries@.subrange(from as int, to as int)),
    decreases to - from,
{
    let ghost range = entries@.subrange(from as int, to as int);
    if to - from <= 1 {
        let mut ranked: Vec<Suggestion> = Vec::new();
        if to - from == 1 {
            ranked.push(entries[from]);
        }
        assert(ranked@ =~= range);
        return ranked;
    }
    let mid = from + (to - from) / 2;
    let left = rank_range(entries, from, mid);
    let right = rank_range(entries, mid, to);
    let merged = merge(&left, &right);
    proof {
        let first = entries@.subrange(from as int, mid as int);
        let second = entries@.subrange(mid as int, to as int);
        lemma_merged_rankings(merged@, left@, right@, first, second);
        assert(first + second =~= range);
    }
    merged
}

/// Ranks the candidates of `lexicon` by the scores at the same positions of
/// `scores`: highest score first, candidates with equal scores in lexicon
/// order.
pub fn rank(lexicon: &Lexicon, scores: &Vec<u128>) -> (ranking: Ranking)
    requires
        scores@.len() == lexicon@.len(),
    ensures
        is_ranking_of(ranking@, paired(lexicon@, scores@)),
{
    let n = lexicon.len();
    let mut entries: Vec<Suggestion> = Vec::new();
    let mut i: usize = 0;
    while i < n
        invariant
            n == lexicon@.len(),
            n == scores@.len(),
            i <= n,
            entries@ == paired(lexicon@, scores@).take(i as int),
        decreases n - i,
    {
        entries.push(Suggestion { word: lexicon.get(i), score: scores[i] });
        assert(paired(lexicon@, scores@).take(i + 1) =~= paired(lexicon@, scores@).take(
            i as int,
        ).push(Suggestion { word: lexicon@[i as int], score: scores@[i as int] }));
        i += 1;
    }
    let ranked = rank_range(&entries, 0, n);
    assert(entries@.subrange(0, n as int) =~= paired(lexicon@, scores@));
    Ranking { entries: ranked }
}

impl Ranking {
    /// Every ranking is in order.
    #[verifier::type_invariant]
    spec fn in_order(self) -> bool {
        descending(self.entries@)
    }

    /// Number of entries. The entries of a ranking are always in descending
    /// order.
    pub fn len(&self) -> (n: usize)
        ensures
            n == self@.len(),
            descending(self@),
    {
        proof {
            use_type_invariant(self);
        }
        self.entries.len()
    }

    /// The entry at position `i`, counted from the best.
    pub fn get(&self, i: usize) -> (entry: Suggestion)
        requires
            i < self@.len(),
        ensures
            entry == self@[i as int],
    {
        self.entries[i]
    }

    /// The best `k` entries, best first; all of them where there are fewer
    /// than `k`.
    pub fn top(&self, k: usize) -> (best: Vec<Suggestion>)
        ensures
            best@ == self@.take(min(k as int, self@.len() as int)),
            descending(self@),
    {
        proof {
            use_type_invariant(self);
        }
        let n = if k < self.entries.len() {
            k
        } else {
            self.entries.len()
        };
        let mut best: Vec<Suggestion> = Vec::new();
        let mut i: usize = 0;
        while i < n
            invariant
                i <= n <= self.entries@.len(),
                best@ == self.entries@.take(i as int),
            decreases n - i,
        {
            best.push(self.entries[i]);
            assert(self.entries@.take(i + 1) =~= self.entries@.take(i as int).push(
                self.entries@[i as int],
            ));
            i += 1;
        }
        best
    }
}

} // verus!
