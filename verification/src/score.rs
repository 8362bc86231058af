//! Scoring: how many letters each candidate shares with the whole field.
//!
//! Every ordered pair of candidates contributes to the score of its second
//! member, position by position. The work can be cut into contiguous ranges
//! of first members; the partial results add up to the same scores whatever
//! the cut.
//!
//! Scores are `u128`: a pair adds at most 25 and a lexicon holds at most
//! `usize::MAX` candidates, so no score of a lexicon can overflow.

use vstd::math::min;
use vstd::prelude::*;
use crate::lexicon::Lexicon;
use crate::word::Candidate;

verus! {

/// Weight of a letter that `y` has at the same position as `x`.
pub const EXACT_WEIGHT: u128 = 5;

/// Weight of a letter of `x` that `y` has at some other position only.
pub const PRESENT_WEIGHT: u128 = 4;

/// What position `p` of `x` adds to the score of `y`.
pub open spec fn letter_weight(x: Candidate, y: Candidate, p: int) -> nat {
    if x@[p] == y@[p] {
        EXACT_WEIGHT as nat
    } else if y@.contains(x@[p]) {
        PRESENT_WEIGHT as nat
    } else {
        0
    }
}

/// What the pair `(x, y)` adds to the score of `y`: the weights of the five
/// positions of `x`.
pub open spec fn pair_score(x: Candidate, y: Candidate) -> nat {
    letter_weight(x, y, 0) + letter_weight(x, y, 1) + letter_weight(x, y, 2) + letter_weight(
        x,
        y,
        3,
    ) + letter_weight(x, y, 4)
}

/// What the candidates at positions `lo..hi` of `words` add to the score of `y`.
pub open spec fn range_score(words: Seq<Candidate>, y: Candidate, lo: int, hi: int) -> nat
    decreases hi - lo,
{
    if hi <= lo {
        0
    } else {
        range_score(words, y, lo, hi - 1) + pair_score(words[hi - 1], y)
    }
}

/// The score of `y` against the whole of `words`.
pub open spec fn total_score(words: Seq<Candidate>, y: Candidate) -> nat {
    range_score(words, y, 0, words.len() as int)
}

/// What the pair `(x, y)` adds to the score of `y`.
pub fn pair_score_of(x: &Candidate, y: &Candidate) -> (score: u128)
    ensures
        score == pair_score(*x, *y),
{
    let mut score: u128 = 0;
    let mut p: usize = 0;
    while p < 5
        invariant
            p <= 5,
            score == (if p > 0 { letter_weight(*x, *y, 0) } else { 0 })
                + (if p > 1 { letter_weight(*x, *y, 1) } else { 0 })
                + (if p > 2 { letter_weight(*x, *y, 2) } else { 0 })
                + (if p > 3 { letter_weight(*x, *y, 3) } else { 0 })
                + (if p > 4 { letter_weight(*x, *y, 4) } else { 0 }),
        decreases 5 - p,
    {
        let letter = x.letter(p);
        if letter == y.letter(p) {
            score += EXACT_WEIGHT;
        } else if y.contains(letter) {
            score += PRESENT_WEIGHT;
        }
        p += 1;
    }
    score
}

/// The partial score array of the range `from..to` of first members: entry
/// `y` is what the candidates at those positions add to the score of the
/// candidate at `y`. A range that reaches past the end of the lexicon stops
/// there, and one with `to <= from` contributes nothing.
pub fn partial_scores(lexicon: &Lexicon, from: usize, to: usize) -> (partial: Vec<u128>)
    ensures
        partial@.len() == lexicon@.len(),
        forall|y: int|
            0 <= y < lexicon@.len() ==> #[trigger] partial@[y] == range_score(
                lexicon@,
                lexicon@[y],
                from as int,
                min(to as int, lexicon@.len() as int),
            ),
{
    let n = lexicon.len();
    let hi = if to < n { to } else { n };
    let mut partial: Vec<u128> = Vec::new();
    let mut y: usize = 0;
    while y < n
        invariant
            n == lexicon@.len(),
            hi == min(to as int, lexicon@.len() as int),
            y <= n,
            partial@.len() == y,
            forall|k: int|
                0 <= k < y ==> #[trigger] partial@[k] == range_score(
                    lexicon@,
                    lexicon@[k],
                    from as int,
                    hi as int,
                ),
        decreases n - y,
    {
        let target = lexicon.get(y);
        let mut sum: u128 = 0;
        let mut x: usize = from;
        while x < hi
            invariant
                n == lexicon@.len(),
                hi <= n,
                y < n,
                target == lexicon@[y as int],
                from <= x,
                x <= hi || x == from,
                sum == range_score(lexicon@, target, from as int, x as int),
                sum <= 25 * (x - from),
            decreases hi - x,
        {
            let source = lexicon.get(x);
            let gain = pair_score_of(&source, &target);
            sum += gain;
            x += 1;
        }
        partial.push(sum);
        y += 1;
    }
    partial
}

/// The scores of all candidates, computed in one range.
pub fn score(lexicon: &Lexicon) -> (scores: Vec<u128>)
    ensures
        scores@.len() == lexicon@.len(),
        forall|y: int|
            0 <= y < lexicon@.len() ==> #[trigger] scores@[y] == total_score(lexicon@, lexicon@[y]),
{
    partial_scores(lexicon, 0, lexicon.len())
}

/// A contiguous range `from..to` of first members: the share of one worker.
#[derive(Clone, Copy, Debug, PartialEq, Eq, Structural)]
pub struct Chunk {
    pub from: usize,
    pub to: usize,
}

/// Length of each chunk when `n` candidates are dealt out to `units`
/// workers: `n / units`, rounded up.
pub open spec fn chunk_len(n: nat, units: nat) -> nat
    recommends
        units > 0,
{
    if n % units == 0 {
        n / units
    } else {
        n / units + 1
    }
}

/// Where chunk `c` starts: `c` chunk lengths in, but never past `n`.
pub open spec fn chunk_start(n: nat, units: nat, c: nat) -> nat {
    let reach = c * chunk_len(n, units);
    if reach < n {
        reach
    } else {
        n
    }
}

/// The chunks dealt out for `n` candidates and `units` workers: none where
/// there is nothing to score, else one per worker, the last ones possibly
/// empty.
pub open spec fn plan_of(n: nat, units: nat) -> Seq<Chunk> {
    if n == 0 {
        Seq::empty()
    } else {
        Seq::new(
            units,
            |c: int|
                Chunk {
                    from: chunk_start(n, units, c as nat) as usize,
                    to: chunk_start(n, units, (c + 1) as nat) as usize,
                },
        )
    }
}

/// Length of each chunk when `n` candidates are dealt out to `units` workers.
pub fn chunk_size(n: usize, units: usize) -> (size: usize)
    requires
        units > 0,
    ensures
        size == chunk_len(n as nat, units as nat),
{
    let whole = n / units;
    if n % units == 0 {
        whole
    } else {
        proof {
            lemma_chunks_reach_end(n as nat, units as nat);
        }
        whole + 1
    }
}

/// Deals the first members `0..n` out to `units` workers in contiguous
/// chunks of `chunk_size(n, units)`, in order. With nothing to score no
/// chunk is made.
pub fn plan_chunks(n: usize, units: usize) -> (plan: Vec<Chunk>)
    requires
        units > 0,
    ensures
        plan@ == plan_of(n as nat, units as nat),
{
    let mut plan: Vec<Chunk> = Vec::new();
    if n == 0 {
        return plan;
    }
    let size = chunk_size(n, units);
    let mut from: usize = 0;
    let mut c: usize = 0;
    proof {
        lemma_chunks_reach_end(n as nat, units as nat);
    }
    while c < units
        invariant
            units > 0,
            n > 0,
            c <= units,
            size == chunk_len(n as nat, units as nat),
            from == chunk_start(n as nat, units as nat, c as nat),
            from <= n,
            plan@.len() == c,
            forall|k: int| 0 <= k < c ==> #[trigger] plan@[k] == plan_of(n as nat, units as nat)[k],
        decreases units - c,
    {
        proof {
            lemma_chunk_step(n as nat, units as nat, c as nat);
        }
        let to = if n - from < size {
            n
        } else {
            from + size
        };
        plan.push(Chunk { from, to });
        from = to;
        c += 1;
    }
    plan
}

/// A worker did not deliver a usable partial score array.
#[derive(Clone, Copy, Debug, PartialEq, Eq, Structural)]
pub struct WorkerFailure;

/// Sum of entry `y` of the first `upto` partial arrays.
pub open spec fn column_sum(partials: Seq<Vec<u128>>, y: int, upto: int) -> nat
    decreases upto,
{
    if upto <= 0 {
        0
    } else {
        column_sum(partials, y, upto - 1) + partials[upto - 1]@[y] as nat
    }
}

/// Every expected partial array has arrived, each has one entry per
/// candidate, and every column sum fits.
pub open spec fn deliverable(n: nat, expected: nat, partials: Seq<Vec<u128>>) -> bool {
    &&& partials.len() == expected
    &&& forall|c: int| 0 <= c < partials.len() ==> (#[trigger] partials[c])@.len() == n
    &&& forall|y: int|
        0 <= y < n ==> #[trigger] column_sum(partials, y, partials.len() as int) <= u128::MAX
}

/// Adds the partial score arrays of all workers entry by entry.
///
/// The round fails when an array is missing or surplus (`expected` counts
/// the chunks dealt out), when one has not exactly `n` entries, or when a
/// sum does not fit; nothing is ever summed from a part of the arrays.
pub fn combine(n: usize, expected: usize, partials: &Vec<Vec<u128>>) -> (r: Result<
    Vec<u128>,
    WorkerFailure,
>)
    ensures
        r is Ok <==> deliverable(n as nat, expected as nat, partials@),
        r is Ok ==> r->Ok_0@.len() == n && forall|y: int|
            0 <= y < n ==> #[trigger] r->Ok_0@[y] == column_sum(
                partials@,
                y,
                partials@.len() as int,
            ),
{
    let count = partials.len();
    if count != expected {
        return Err(WorkerFailure);
    }
    let mut c: usize = 0;
    while c < count
        invariant
            count == partials@.len(),
            c <= count,
            forall|k: int| 0 <= k < c ==> (#[trigger] partials@[k])@.len() == n,
        decreases count - c,
    {
        if partials[c].len() != n {
            return Err(WorkerFailure);
        }
        c += 1;
    }
    let mut sums: Vec<u128> = Vec::new();
    let mut y: usize = 0;
    while y < n
        invariant
            count == partials@.len(),
            count == expected,
            y <= n,
            forall|k: int| 0 <= k < count ==> (#[trigger] partials@[k])@.len() == n,
            sums@.len() == y,
            forall|k: int|
                0 <= k < y ==> #[trigger] sums@[k] == column_sum(partials@, k, count as int),
        decreases n - y,
    {
        let mut sum: u128 = 0;
        let mut c: usize = 0;
        while c < count
            invariant
                count == partials@.len(),
                c <= count,
                y < n,
                forall|k: int| 0 <= k < count ==> (#[trigger] partials@[k])@.len() == n,
                sum == column_sum(partials@, y as int, c as int),
            decreases count - c,
        {
            let part = partials[c][y];
            if part > u128::MAX - sum {
                proof {
                    lemma_column_sum_grows(partials@, y as int, c + 1, count as int);
                }
                return Err(WorkerFailure);
            }
            sum += part;
            c += 1;
        }
        sums.push(sum);
        y += 1;
    }
    assert forall|k: int| 0 <= k < n implies #[trigger] column_sum(
        partials@,
        k,
        partials@.len() as int,
    ) <= u128::MAX by {
        assert(sums@[k] == column_sum(partials@, k, count as int));
    }
    Ok(sums)
}

/// Sum of what the first `upto` chunks of the plan for `units` workers add
/// to the score of `y`.
spec fn chunked_score(words: Seq<Candidate>, y: Candidate, units: nat, upto: nat) -> nat
    decreases upto,
{
    if upto == 0 {
        0
    } else {
        chunked_score(words, y, units, (upto - 1) as nat) + range_score(
            words,
            y,
            chunk_start(words.len(), units, (upto - 1) as nat) as int,
            chunk_start(words.len(), units, upto) as int,
        )
    }
}

/// The scores of all candidates, computed chunk by chunk as `units` workers
/// would and then combined. The result is that of [`score`], whatever
/// `units` is.
pub fn score_in_chunks(lexicon: &Lexicon, units: usize) -> (scores: Vec<u128>)
    requires
        units > 0,
    ensures
        scores@.len() == lexicon@.len(),
        forall|y: int|
            0 <= y < lexicon@.len() ==> #[trigger] scores@[y] == total_score(lexicon@, lexicon@[y]),
{
    let n = lexicon.len();
    let plan = plan_chunks(n, units);
    let mut partials: Vec<Vec<u128>> = Vec::new();
    let mut c: usize = 0;
    while c < plan.len()
        invariant
            units > 0,
            n == lexicon@.len(),
            plan@ == plan_of(n as nat, units as nat),
            c <= plan@.len(),
            partials@.len() == c,
            forall|k: int| 0 <= k < c ==> (#[trigger] partials@[k])@.len() == n,
            forall|k: int, y: int|
                0 <= k < c && 0 <= y < n ==> #[trigger] partials@[k]@[y] == range_score(
                    lexicon@,
                    lexicon@[y],
                    chunk_start(n as nat, units as nat, k as nat) as int,
                    chunk_start(n as nat, units as nat, (k + 1) as nat) as int,
                ),
        decreases plan@.len() - c,
    {
        proof {
            lemma_chunk_step(n as nat, units as nat, c as nat);
        }
        let chunk = plan[c];
        let partial = partial_scores(lexicon, chunk.from, chunk.to);
        partials.push(partial);
        c += 1;
    }
    proof {
        lemma_planned_partials_add_up(lexicon@, units as nat, partials@);
    }
    match combine(n, plan.len(), &partials) {
        Ok(scores) => scores,
        Err(_) => vstd::pervasive::unreached(),
    }
}

/// A range contributes at most 25 per candidate in it.
pub proof fn lemma_range_score_bound(words: Seq<Candidate>, y: Candidate, lo: int, hi: int)
    requires
        lo <= hi,
    ensures
        range_score(words, y, lo, hi) <= 25 * (hi - lo),
    decreases hi - lo,
{
    if lo < hi {
        lemma_range_score_bound(words, y, lo, hi - 1);
    }
}

/// Splitting a range at `mid` splits its contribution.
pub proof fn lemma_range_score_split(
    words: Seq<Candidate>,
    y: Candidate,
    lo: int,
    mid: int,
    hi: int,
)
    requires
        lo <= mid <= hi,
    ensures
        range_score(words, y, lo, hi) == range_score(words, y, lo, mid) + range_score(
            words,
            y,
            mid,
            hi,
        ),
    decreases hi - mid,
{
    if mid < hi {
        lemma_range_score_split(words, y, lo, mid, hi - 1);
    }
}

/// The contribution of a range depends on the candidates in it alone.
pub proof fn lemma_range_score_shift(
    a: Seq<Candidate>,
    b: Seq<Candidate>,
    y: Candidate,
    lo: int,
    hi: int,
    shift: int,
)
    requires
        forall|j: int| lo <= j < hi ==> a[j] == b[j + shift],
    ensures
        range_score(a, y, lo, hi) == range_score(b, y, lo + shift, hi + shift),
    decreases hi - lo,
{
    if lo < hi {
        lemma_range_score_shift(a, b, y, lo, hi - 1, shift);
    }
}

/// The chunks are long enough to cover all candidates.
pub proof fn lemma_chunks_reach_end(n: nat, units: nat)
    requires
        units > 0,
    ensures
        units * chunk_len(n, units) >= n,
        n > 0 ==> chunk_len(n, units) > 0,
        chunk_len(n, units) <= n,
        chunk_start(n, units, 0) == 0,
        chunk_start(n, units, units) == n,
{
    let q = n / units;
    let r = n % units;
    assert(n == units * q + r && 0 <= r < units) by (nonlinear_arith)
        requires
            units > 0,
            q == n / units,
            r == n % units,
    ;
    assert(units * (q + 1) == units * q + units) by (nonlinear_arith);
    assert(n > 0 && q == 0 ==> r != 0) by (nonlinear_arith)
        requires
            n == units * q + r,
    ;
    if r != 0 {
        assert(q + 1 <= n) by (nonlinear_arith)
            requires
                n == units * q + r,
                0 < r < units,
                q >= 0,
        ;
    }
    assert(q <= n) by (nonlinear_arith)
        requires
            n == units * q + r,
            r >= 0,
            units >= 1,
            q >= 0,
    ;
    assert(0 * chunk_len(n, units) == 0);
}

/// Each chunk starts where the one before it ends, one chunk length later
/// or at the end of the lexicon.
pub proof fn lemma_chunk_step(n: nat, units: nat, c: nat)
    requires
        units > 0,
        n > 0,
    ensures
        chunk_start(n, units, c) <= chunk_start(n, units, c + 1) <= n,
        chunk_start(n, units, c + 1) == if n - chunk_start(n, units, c) < chunk_len(n, units) {
            n
        } else {
            chunk_start(n, units, c) + chunk_len(n, units)
        },
{
    lemma_chunks_reach_end(n, units);
    let size = chunk_len(n, units);
    assert((c + 1) * size == c * size + size) by (nonlinear_arith);
    assert(c * size >= 0) by (nonlinear_arith)
        requires
            c >= 0,
            size >= 0,
    ;
}

/// Column sums grow with the number of arrays summed.
proof fn lemma_column_sum_grows(partials: Seq<Vec<u128>>, y: int, lo: int, hi: int)
    requires
        lo <= hi,
    ensures
        column_sum(partials, y, lo) <= column_sum(partials, y, hi),
    decreases hi - lo,
{
    if lo < hi {
        lemma_column_sum_grows(partials, y, lo, hi - 1);
    }
}

/// The first `upto` chunks add up to the range they cover together.
proof fn lemma_chunked_prefix(words: Seq<Candidate>, y: Candidate, units: nat, upto: nat)
    requires
        units > 0,
    ensures
        chunked_score(words, y, units, upto) == range_score(
            words,
            y,
            0,
            chunk_start(words.len(), units, upto) as int,
        ),
    decreases upto,
{
    let n = words.len();
    lemma_chunks_reach_end(n, units);
    if upto > 0 {
        let before = (upto - 1) as nat;
        lemma_chunked_prefix(words, y, units, before);
        if n > 0 {
            lemma_chunk_step(n, units, before);
        }
        lemma_range_score_split(
            words,
            y,
            0,
            chunk_start(n, units, before) as int,
            chunk_start(n, units, upto) as int,
        );
    }
}

/// Whether `partials` holds, for every chunk of the plan for `units`
/// workers and in the order of the plan, the partial scores of that chunk.
pub open spec fn planned_partials(words: Seq<Candidate>, units: nat, partials: Seq<Vec<u128>>) -> bool {
    let n = words.len();
    &&& partials.len() == plan_of(n, units).len()
    &&& forall|c: int| 0 <= c < partials.len() ==> (#[trigger] partials[c])@.len() == n
    &&& forall|c: int, y: int|
        0 <= c < partials.len() && 0 <= y < n ==> #[trigger] partials[c]@[y] == range_score(
            words,
            words[y],
            chunk_start(n, units, c as nat) as int,
            chunk_start(n, units, (c + 1) as nat) as int,
        )
}

/// The column sums of the first `upto` planned partial arrays are the
/// chunked scores.
proof fn lemma_columns_are_chunked(
    words: Seq<Candidate>,
    units: nat,
    partials: Seq<Vec<u128>>,
    y: int,
    upto: nat,
)
    requires
        units > 0,
        planned_partials(words, units, partials),
        0 <= y < words.len(),
        upto <= partials.len(),
    ensures
        column_sum(partials, y, upto as int) == chunked_score(words, words[y], units, upto),
    decreases upto,
{
    if upto > 0 {
        lemma_columns_are_chunked(words, units, partials, y, (upto - 1) as nat);
        let c = upto - 1;
        assert(partials[c]@[y] == range_score(
            words,
            words[y],
            chunk_start(words.len(), units, c as nat) as int,
            chunk_start(words.len(), units, (c + 1) as nat) as int,
        ));
    }
}

/// The partial score arrays of the planned chunks can always be combined,
/// and their sums are the scores, whatever the number of workers.
pub proof fn lemma_planned_partials_add_up(
    words: Seq<Candidate>,
    units: nat,
    partials: Seq<Vec<u128>>,
)
    requires
        units > 0,
        words.len() <= usize::MAX,
        planned_partials(words, units, partials),
    ensures
        deliverable(words.len(), plan_of(words.len(), units).len(), partials),
        forall|y: int|
            0 <= y < words.len() ==> #[trigger] column_sum(partials, y, partials.len() as int)
                == total_score(words, words[y]),
{
    assert forall|y: int| 0 <= y < words.len() implies {
        &&& #[trigger] column_sum(partials, y, partials.len() as int) == total_score(
            words,
            words[y],
        )
        &&& column_sum(partials, y, partials.len() as int) <= 25 * words.len()
    } by {
        lemma_columns_are_chunked(words, units, partials, y, partials.len());
        lemma_chunks_add_up(words, words[y], units);
        lemma_range_score_bound(words, words[y], 0, words.len() as int);
    }
}

/// Adding entry `y` of a partial array to a running sum.
spec fn add_entry(y: int) -> spec_fn(nat, Vec<u128>) -> nat {
    |sum: nat, partial: Vec<u128>| sum + partial@[y] as nat
}

/// A column sum is the fold of its entries from the first array on.
proof fn lemma_column_sum_is_fold(partials: Seq<Vec<u128>>, y: int)
    ensures
        column_sum(partials, y, partials.len() as int) == partials.fold_left(0nat, add_entry(y)),
    decreases partials.len(),
{
    if partials.len() > 0 {
        let rest = partials.drop_last();
        lemma_column_sum_is_fold(rest, y);
        lemma_column_sum_of_prefix(partials, rest, y, rest.len() as int);
    }
}

/// A column sum depends on the arrays summed alone.
proof fn lemma_column_sum_of_prefix(a: Seq<Vec<u128>>, b: Seq<Vec<u128>>, y: int, upto: int)
    requires
        upto <= a.len(),
        upto <= b.len(),
        forall|c: int| 0 <= c < upto ==> a[c] == b[c],
    ensures
        column_sum(a, y, upto) == column_sum(b, y, upto),
    decreases upto,
{
    if upto > 0 {
        lemma_column_sum_of_prefix(a, b, y, upto - 1);
    }
}

/// The order in which the partial arrays come in does not matter: the same
/// arrays in another order can be combined exactly when these can, and
/// give the same sums.
pub proof fn lemma_order_of_partials_irrelevant(
    n: nat,
    expected: nat,
    partials: Seq<Vec<u128>>,
    reordered: Seq<Vec<u128>>,
)
    requires
        partials.to_multiset() == reordered.to_multiset(),
    ensures
        deliverable(n, expected, partials) == deliverable(n, expected, reordered),
        forall|y: int| #[trigger]
            column_sum(partials, y, partials.len() as int) == column_sum(
                reordered,
                y,
                reordered.len() as int,
            ),
{
    partials.to_multiset_ensures();
    reordered.to_multiset_ensures();
    assert forall|y: int| #[trigger]
        column_sum(partials, y, partials.len() as int) == column_sum(
            reordered,
            y,
            reordered.len() as int,
        ) by {
        lemma_column_sum_is_fold(partials, y);
        lemma_column_sum_is_fold(reordered, y);
        vstd::seq_lib::lemma_fold_left_permutation(partials, reordered, add_entry(y), 0nat);
    }
    lemma_reordered_deliverable(n, expected, partials, reordered);
    lemma_reordered_deliverable(n, expected, reordered, partials);
}

/// What can be combined can be combined in another order too.
proof fn lemma_reordered_deliverable(
    n: nat,
    expected: nat,
    partials: Seq<Vec<u128>>,
    reordered: Seq<Vec<u128>>,
)
    requires
        partials.to_multiset() == reordered.to_multiset(),
        forall|y: int| #[trigger]
            column_sum(partials, y, partials.len() as int) == column_sum(
                reordered,
                y,
                reordered.len() as int,
            ),
    ensures
        deliverable(n, expected, partials) ==> deliverable(n, expected, reordered),
{
    partials.to_multiset_ensures();
    reordered.to_multiset_ensures();
    if deliverable(n, expected, partials) {
        assert forall|c: int| 0 <= c < reordered.len() implies (#[trigger] reordered[c])@.len()
            == n by {
            assert(reordered.contains(reordered[c]));
            assert(reordered.to_multiset().count(reordered[c]) > 0);
            assert(partials.contains(reordered[c]));
            let i = choose|i: int| 0 <= i < partials.len() && partials[i] == reordered[c];
            assert(partials[i]@.len() == n);
        }
        assert forall|y: int| 0 <= y < n implies #[trigger] column_sum(
            reordered,
            y,
            reordered.len() as int,
        ) <= u128::MAX by {
            assert(column_sum(partials, y, partials.len() as int) == column_sum(
                reordered,
                y,
                reordered.len() as int,
            ));
        }
    }
}

/// All chunks of a plan together add up to the score.
proof fn lemma_chunks_add_up(words: Seq<Candidate>, y: Candidate, units: nat)
    requires
        units > 0,
    ensures
        chunked_score(words, y, units, units) == total_score(words, y),
{
    lemma_chunks_reach_end(words.len(), units);
    lemma_chunked_prefix(words, y, units, units);
}

/// The number of workers does not matter: the partial score arrays planned
/// for one number of workers and those planned for another add up to the
/// same sums.
pub proof fn lemma_worker_count_irrelevant(
    words: Seq<Candidate>,
    units: nat,
    partials: Seq<Vec<u128>>,
    other_units: nat,
    other_partials: Seq<Vec<u128>>,
)
    requires
        units > 0,
        other_units > 0,
        words.len() <= usize::MAX,
        planned_partials(words, units, partials),
        planned_partials(words, other_units, other_partials),
    ensures
        forall|y: int|
            0 <= y < words.len() ==> #[trigger] column_sum(partials, y, partials.len() as int)
                == column_sum(other_partials, y, other_partials.len() as int),
{
    lemma_planned_partials_add_up(words, units, partials);
    lemma_planned_partials_add_up(words, other_units, other_partials);
}

/// Number of positions at which `x` and `y` have the same letter.
pub open spec fn exact_matches(x: Candidate, y: Candidate) -> nat {
    (if x@[0] == y@[0] { 1nat } else { 0 }) + (if x@[1] == y@[1] { 1nat } else { 0 })
        + (if x@[2] == y@[2] { 1nat } else { 0 }) + (if x@[3] == y@[3] { 1nat } else { 0 })
        + (if x@[4] == y@[4] { 1nat } else { 0 })
}

/// Number of positions of `x` whose letter occurs somewhere in `y`.
pub open spec fn shared_letters(x: Candidate, y: Candidate) -> nat {
    (if y@.contains(x@[0]) { 1nat } else { 0 }) + (if y@.contains(x@[1]) { 1nat } else { 0 })
        + (if y@.contains(x@[2]) { 1nat } else { 0 }) + (if y@.contains(x@[3]) { 1nat } else { 0 })
        + (if y@.contains(x@[4]) { 1nat } else { 0 })
}

/// A pair scores four for every letter of `x` that `y` has anywhere, and
/// one more for every letter that `y` has at the same position: the more
/// letters two words share, the more the pair adds.
pub proof fn lemma_pair_score_counts(x: Candidate, y: Candidate)
    ensures
        pair_score(x, y) == 4 * shared_letters(x, y) + exact_matches(x, y),
        exact_matches(x, y) <= shared_letters(x, y) <= 5,
{
    assert(y@.len() == 5);
    assert forall|p: int| 0 <= p < 5 && x@[p] == y@[p] implies y@.contains(x@[p]) by {
        assert(y@[p] == x@[p]);
    }
}

/// A word paired with itself scores five exact matches.
pub proof fn lemma_self_match(y: Candidate)
    ensures
        pair_score(y, y) == 25,
{
}

/// In a lexicon that holds only `y`, the score of `y` is that of its
/// self-match.
pub proof fn lemma_lone_word_score(y: Candidate)
    ensures
        total_score(seq![y], y) == 25,
{
    reveal_with_fuel(range_score, 2);
}

/// A word that is in the lexicon scores at least its self-match.
pub proof fn lemma_member_score(words: Seq<Candidate>, at: int)
    requires
        0 <= at < words.len(),
    ensures
        total_score(words, words[at]) >= 25,
{
    let y = words[at];
    let n = words.len() as int;
    lemma_range_score_split(words, y, 0, at, n);
    lemma_range_score_split(words, y, at, at + 1, n);
    assert(range_score(words, y, at, at + 1) == pair_score(y, y)) by {
        reveal_with_fuel(range_score, 2);
    }
}

/// Adding a candidate `w` anywhere in the lexicon raises the score of
/// every word `y` by exactly what the pair `(w, y)` adds, so no score ever
/// falls when the lexicon grows.
pub proof fn lemma_score_grows_on_insert(words: Seq<Candidate>, at: int, w: Candidate, y: Candidate)
    requires
        0 <= at <= words.len(),
    ensures
        total_score(words.insert(at, w), y) == total_score(words, y) + pair_score(w, y),
        total_score(words.insert(at, w), y) >= total_score(words, y),
{
    let grown = words.insert(at, w);
    let n = words.len() as int;
    lemma_range_score_split(grown, y, 0, at, n + 1);
    lemma_range_score_split(grown, y, at, at + 1, n + 1);
    lemma_range_score_split(words, y, 0, at, n);
    lemma_range_score_shift(grown, words, y, 0, at, 0);
    lemma_range_score_shift(grown, words, y, at + 1, n + 1, -1);
    assert(range_score(grown, y, at, at + 1) == pair_score(w, y)) by {
        reveal_with_fuel(range_score, 2);
    }
}

} // verus!
