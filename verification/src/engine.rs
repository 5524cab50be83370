//! The enumeration engine: fold every combination of the open questions
//! into one aggregate.
//!
//! The combination space `0..2^k` (for `k` open questions) is processed as
//! index ranges. Each index selects an assignment, the assignment is scored
//! and resolved, and the result is folded into the running `Stats`. A range
//! can be split at any point and the two halves merged afterwards: the fold
//! of a range equals the merge of the folds of its parts, which is what
//! makes partitioned runs exact.

use vstd::prelude::*;
use vstd::arithmetic::power2::{
    pow2,
    lemma_pow2_strictly_increases,
    lemma_pow2_unfold,
    lemma2_to64,
    lemma2_to64_rest,
};
use crate::game::Contestant;
use crate::game::rankings_view;
use crate::outcome::{
    assignment,
    build_assignment,
    count_yes,
    lemma_assignment_yes_count,
    lemma_maybe_positions_props,
    lemma_yes_count_bounds,
    maybe_positions,
    unresolved_indices,
    usize_view,
    yes_count,
};
use crate::score::{calculate_points, points};
use crate::stats::{
    Stats,
    StatsModel,
    empty_stats,
    lemma_take_succ,
    lemma_view_row_update,
    lemma_view_pair_table_update,
    lemma_view_table_update,
    lemma_view_pair_row_push,
    merge_stats,
    stats_bounded,
    stats_shape,
    view_pair_row,
    view_pair_table,
    view_row,
    view_table,
};
use crate::tiebreak::{
    as_usize_option,
    indices_with_score,
    lemma_indices_with_score_increasing,
    lemma_indices_with_score_range,
    lemma_resolve_range,
    max_score,
    resolve,
    tie_breaker_idx,
    tied_candidates,
};

verus! {

/// One counter of a row, incremented.
pub open spec fn bump(s: Seq<int>, i: int) -> Seq<int> {
    s.update(i, s[i] + 1)
}

/// A row with every listed counter incremented, in list order.
pub open spec fn bump_each(s: Seq<int>, idxs: Seq<int>) -> Seq<int>
    decreases idxs.len(),
{
    if idxs.len() == 0 {
        s
    } else {
        bump(bump_each(s, idxs.drop_last()), idxs.last())
    }
}

/// With distinct in-range indices, `bump_each` adds exactly one to each
/// listed counter and leaves the rest alone.
pub proof fn lemma_bump_each_props(s: Seq<int>, idxs: Seq<int>)
    requires
        forall|j: int| 0 <= j < idxs.len() ==> 0 <= #[trigger] idxs[j] < s.len(),
        forall|j1: int, j2: int| 0 <= j1 < j2 < idxs.len() ==> idxs[j1] != idxs[j2],
    ensures
        bump_each(s, idxs).len() == s.len(),
        forall|t: int|
            0 <= t < s.len() ==> bump_each(s, idxs)[t] == s[t] + (if idxs.contains(t) {
                1int
            } else {
                0int
            }),
    decreases idxs.len(),
{
    if idxs.len() > 0 {
        lemma_bump_each_props(s, idxs.drop_last());
        let pre = bump_each(s, idxs.drop_last());
        let w = idxs.last();
        assert(!idxs.drop_last().contains(w)) by {
            if idxs.drop_last().contains(w) {
                let t = choose|t: int| 0 <= t < idxs.drop_last().len() && idxs.drop_last()[t] == w;
                assert(idxs[t] == idxs[idxs.len() - 1]);
            }
        }
        assert forall|t: int|
            0 <= t < s.len() implies bump_each(s, idxs)[t] == s[t] + (if idxs.contains(t) {
            1int
        } else {
            0int
        }) by {
            if t == w {
                assert(idxs.contains(t));
            } else if idxs.contains(t) {
                let u = choose|u: int| 0 <= u < idxs.len() && idxs[u] == t;
                assert(u < idxs.len() - 1);
                assert(idxs.drop_last()[u] == t);
            } else {
                assert(!idxs.drop_last().contains(t)) by {
                    if idxs.drop_last().contains(t) {
                        let u = choose|u: int|
                            0 <= u < idxs.drop_last().len() && idxs.drop_last()[u] == t;
                        assert(idxs[u] == t);
                    }
                }
            }
        }
    }
}

/// A (yes, no) row with one occurrence of the assignment recorded at every
/// question.
pub open spec fn bump_questions(b: Seq<(int, int)>, assign: Seq<char>) -> Seq<(int, int)> {
    Seq::new(
        b.len(),
        |q: int| if assign[q] == 'y' {
            (b[q].0 + 1, b[q].1)
        } else {
            (b[q].0, b[q].1 + 1)
        },
    )
}

/// What the inputs to the engine look like: at least one contestant, one
/// ranking entry per question, and few enough questions that any score fits
/// in a 64-bit counter.
pub open spec fn valid_inputs(preds: Seq<Contestant>, outcomes: Seq<char>) -> bool {
    &&& preds.len() >= 1
    &&& outcomes.len() <= 0xffff_ffff
    &&& forall|c: int|
        0 <= c < preds.len() ==> (#[trigger] preds[c].ranking@.len()) == outcomes.len()
}

/// One combination folded into the aggregate: the combination `idx` selects
/// an assignment; its resolution decides which counters move. Every
/// candidate tied on the maximum score gains a win-path, whether or not the
/// tie-break then crowned them (or anyone).
pub open spec fn fold_step(
    s: StatsModel,
    rankings: Seq<Seq<u32>>,
    outcomes: Seq<char>,
    idx: int,
) -> StatsModel {
    let assign = assignment(outcomes, maybe_positions(outcomes), idx as nat);
    let tied = tied_candidates(rankings, assign);
    let more = yes_count(assign) - yes_count(outcomes);
    match resolve(rankings, assign) {
        Some(w) => StatsModel {
            winner_tally: bump(s.winner_tally, w),
            tie_broken_count: s.tie_broken_count + if tied.len() > 1 {
                1int
            } else {
                0int
            },
            true_tie_count: s.true_tie_count,
            true_ties_by_yes_count: s.true_ties_by_yes_count,
            win_paths: bump_each(s.win_paths, tied),
            person_question_buckets: s.person_question_buckets.update(
                w,
                bump_questions(s.person_question_buckets[w], assign),
            ),
            yes_buckets: s.yes_buckets.update(more, bump(s.yes_buckets[more], w)),
            true_tie_question_buckets: s.true_tie_question_buckets,
        },
        None => StatsModel {
            winner_tally: s.winner_tally,
            tie_broken_count: s.tie_broken_count,
            true_tie_count: s.true_tie_count + 1,
            true_ties_by_yes_count: bump(s.true_ties_by_yes_count, more),
            win_paths: bump_each(s.win_paths, tied),
            person_question_buckets: s.person_question_buckets,
            yes_buckets: s.yes_buckets,
            true_tie_question_buckets: bump_questions(s.true_tie_question_buckets, assign),
        },
    }
}

/// The aggregate of the combination range `lo..hi`, folded in index order
/// from the empty aggregate.
pub open spec fn stats_range(
    rankings: Seq<Seq<u32>>,
    outcomes: Seq<char>,
    lo: int,
    hi: int,
) -> StatsModel
    decreases hi - lo,
{
    if hi <= lo {
        empty_stats(
            rankings.len() as int,
            outcomes.len() as int,
            maybe_positions(outcomes).len() as int,
        )
    } else {
        fold_step(stats_range(rankings, outcomes, lo, hi - 1), rankings, outcomes, hi - 1)
    }
}

/// Sum of a row of counters.
pub open spec fn int_sum(s: Seq<int>) -> int
    decreases s.len(),
{
    if s.len() == 0 {
        0
    } else {
        int_sum(s.drop_last()) + s.last()
    }
}

pub proof fn lemma_int_sum_bump(s: Seq<int>, i: int)
    requires
        0 <= i < s.len(),
    ensures
        int_sum(bump(s, i)) == int_sum(s) + 1,
    decreases s.len(),
{
    if i == s.len() - 1 {
        assert(bump(s, i).drop_last() =~= s.drop_last());
    } else {
        assert(bump(s, i).drop_last() =~= bump(s.drop_last(), i));
        lemma_int_sum_bump(s.drop_last(), i);
    }
}

/// The number of open questions an assignment resolves Yes, beyond the
/// already-known Yes outcomes, lies in `0..=k`.
pub proof fn lemma_more_yes_bounds(outcomes: Seq<char>, idx: int)
    requires
        idx >= 0,
    ensures
        yes_count(outcomes) <= yes_count(
            assignment(outcomes, maybe_positions(outcomes), idx as nat),
        ) <= yes_count(outcomes) + maybe_positions(outcomes).len(),
        assignment(outcomes, maybe_positions(outcomes), idx as nat).len() == outcomes.len(),
{
    lemma_maybe_positions_props(outcomes);
    lemma_assignment_yes_count(outcomes, maybe_positions(outcomes), idx as nat);
}

/// A fold step keeps the aggregate's dimensions and raises the bound on its
/// counters by at most one.
pub proof fn lemma_fold_step_props(
    s: StatsModel,
    rankings: Seq<Seq<u32>>,
    outcomes: Seq<char>,
    idx: int,
    n: int,
)
    requires
        idx >= 0,
        stats_shape(
            s,
            rankings.len() as int,
            outcomes.len() as int,
            maybe_positions(outcomes).len() as int,
        ),
        stats_bounded(s, n),
        n >= 0,
    ensures
        stats_shape(
            fold_step(s, rankings, outcomes, idx),
            rankings.len() as int,
            outcomes.len() as int,
            maybe_positions(outcomes).len() as int,
        ),
        stats_bounded(fold_step(s, rankings, outcomes, idx), n + 1),
{
    let assign = assignment(outcomes, maybe_positions(outcomes), idx as nat);
    let more = yes_count(assign) - yes_count(outcomes);
    let nm = maybe_positions(outcomes).len() as int;
    lemma_more_yes_bounds(outcomes, idx);
    lemma_yes_count_bounds(outcomes);
    assert(0 <= more <= nm);
    lemma_resolve_range(rankings, assign);
    let r = fold_step(s, rankings, outcomes, idx);
    let tied = tied_candidates(rankings, assign);
    lemma_indices_with_score_range(rankings, assign, max_score(rankings, assign));
    lemma_indices_with_score_increasing(rankings, assign, max_score(rankings, assign));
    assert(forall|j1: int, j2: int| 0 <= j1 < j2 < tied.len() ==> tied[j1] != tied[j2]);
    lemma_bump_each_props(s.win_paths, tied);
    assert(forall|c: int| 0 <= c < r.win_paths.len() ==> 0 <= #[trigger] r.win_paths[c] <= n + 1);
    match resolve(rankings, assign) {
        Some(w) => {
            assert(forall|c: int|
                0 <= c < r.winner_tally.len() ==> 0 <= #[trigger] r.winner_tally[c] <= n + 1);
            assert(forall|m: int|
                0 <= m < r.yes_buckets.len() ==> (#[trigger] r.yes_buckets[m]).len()
                    == s.yes_buckets[m].len());
            assert(forall|m: int, c: int|
                0 <= m < r.yes_buckets.len() && 0 <= c < r.yes_buckets[m].len() ==> 0
                    <= #[trigger] r.yes_buckets[m][c] <= n + 1);
            assert(forall|c: int|
                0 <= c < r.person_question_buckets.len() ==> (
                #[trigger] r.person_question_buckets[c]).len()
                    == s.person_question_buckets[c].len());
            assert(forall|c: int, q: int|
                0 <= c < r.person_question_buckets.len() && 0 <= q
                    < r.person_question_buckets[c].len() ==> 0 <= (
                #[trigger] r.person_question_buckets[c][q]).0 <= n + 1 && 0
                    <= r.person_question_buckets[c][q].1 <= n + 1);
        },
        None => {
            assert(forall|m: int|
                0 <= m < r.true_ties_by_yes_count.len() ==> 0
                    <= #[trigger] r.true_ties_by_yes_count[m] <= n + 1);
            assert(forall|q: int|
                0 <= q < r.true_tie_question_buckets.len() ==> 0 <= (
                #[trigger] r.true_tie_question_buckets[q]).0 <= n + 1 && 0
                    <= r.true_tie_question_buckets[q].1 <= n + 1);
        },
    }
}

/// The aggregate of a range has the expected dimensions, and no counter
/// exceeds the number of combinations folded in.
pub proof fn lemma_stats_range_props(
    rankings: Seq<Seq<u32>>,
    outcomes: Seq<char>,
    lo: int,
    hi: int,
)
    requires
        lo <= hi,
        lo >= 0,
    ensures
        stats_shape(
            stats_range(rankings, outcomes, lo, hi),
            rankings.len() as int,
            outcomes.len() as int,
            maybe_positions(outcomes).len() as int,
        ),
        stats_bounded(stats_range(rankings, outcomes, lo, hi), hi - lo),
    decreases hi - lo,
{
    if hi <= lo {
    } else {
        lemma_stats_range_props(rankings, outcomes, lo, hi - 1);
        lemma_fold_step_props(
            stats_range(rankings, outcomes, lo, hi - 1),
            rankings,
            outcomes,
            hi - 1,
            hi - 1 - lo,
        );
    }
}

/// Folding a combination into the right-hand share commutes with merging.
pub proof fn lemma_fold_merge(
    a: StatsModel,
    b: StatsModel,
    rankings: Seq<Seq<u32>>,
    outcomes: Seq<char>,
    idx: int,
)
    requires
        idx >= 0,
        stats_shape(
            a,
            rankings.len() as int,
            outcomes.len() as int,
            maybe_positions(outcomes).len() as int,
        ),
        stats_shape(
            b,
            rankings.len() as int,
            outcomes.len() as int,
            maybe_positions(outcomes).len() as int,
        ),
    ensures
        merge_stats(a, fold_step(b, rankings, outcomes, idx)) == fold_step(
            merge_stats(a, b),
            rankings,
            outcomes,
            idx,
        ),
{
    let assign = assignment(outcomes, maybe_positions(outcomes), idx as nat);
    let more = yes_count(assign) - yes_count(outcomes);
    let nm = maybe_positions(outcomes).len() as int;
    lemma_more_yes_bounds(outcomes, idx);
    lemma_yes_count_bounds(outcomes);
    assert(0 <= more <= nm);
    lemma_resolve_range(rankings, assign);
    let tied = tied_candidates(rankings, assign);
    lemma_indices_with_score_range(rankings, assign, max_score(rankings, assign));
    lemma_indices_with_score_increasing(rankings, assign, max_score(rankings, assign));
    assert(forall|j1: int, j2: int| 0 <= j1 < j2 < tied.len() ==> tied[j1] != tied[j2]);
    lemma_bump_each_props(b.win_paths, tied);
    lemma_bump_each_props(crate::stats::add_rows(a.win_paths, b.win_paths), tied);
    assert(crate::stats::add_rows(a.win_paths, bump_each(b.win_paths, tied)) =~= bump_each(
        crate::stats::add_rows(a.win_paths, b.win_paths),
        tied,
    ));
    match resolve(rankings, assign) {
        Some(w) => {
            assert(merge_stats(a, fold_step(b, rankings, outcomes, idx)) =~~= fold_step(
                merge_stats(a, b),
                rankings,
                outcomes,
                idx,
            ));
        },
        None => {
            assert(merge_stats(a, fold_step(b, rankings, outcomes, idx)) =~~= fold_step(
                merge_stats(a, b),
                rankings,
                outcomes,
                idx,
            ));
        },
    }
}

/// A range may be split anywhere: folding `lo..hi` equals folding the two
/// parts separately and merging them. Together with the commutativity and
/// associativity of merging, this is what lets a partitioned run combine
/// its workers' aggregates in any grouping.
pub proof fn lemma_stats_range_split(
    rankings: Seq<Seq<u32>>,
    outcomes: Seq<char>,
    lo: int,
    mid: int,
    hi: int,
)
    requires
        0 <= lo <= mid <= hi,
    ensures
        stats_range(rankings, outcomes, lo, hi) == merge_stats(
            stats_range(rankings, outcomes, lo, mid),
            stats_range(rankings, outcomes, mid, hi),
        ),
    decreases hi - mid,
{
    let nc = rankings.len() as int;
    let nq = outcomes.len() as int;
    let nm = maybe_positions(outcomes).len() as int;
    if hi <= mid {
        lemma_stats_range_props(rankings, outcomes, lo, mid);
        crate::stats::lemma_merge_empty(stats_range(rankings, outcomes, lo, mid), nc, nq, nm);
    } else {
        lemma_stats_range_split(rankings, outcomes, lo, mid, hi - 1);
        lemma_stats_range_props(rankings, outcomes, lo, mid);
        lemma_stats_range_props(rankings, outcomes, mid, hi - 1);
        lemma_fold_merge(
            stats_range(rankings, outcomes, lo, mid),
            stats_range(rankings, outcomes, mid, hi - 1),
            rankings,
            outcomes,
            hi - 1,
        );
    }
}

/// Every combination in the range is counted exactly once: the wins of all
/// contestants plus the true ties add up to the size of the range.
pub proof fn lemma_scenarios_total(rankings: Seq<Seq<u32>>, outcomes: Seq<char>, lo: int, hi: int)
    requires
        0 <= lo <= hi,
    ensures
        int_sum(stats_range(rankings, outcomes, lo, hi).winner_tally) + stats_range(
            rankings,
            outcomes,
            lo,
            hi,
        ).true_tie_count == hi - lo,
    decreases hi - lo,
{
    let nc = rankings.len() as int;
    if hi <= lo {
        lemma_int_sum_zero_row(nc);
    } else {
        lemma_scenarios_total(rankings, outcomes, lo, hi - 1);
        lemma_stats_range_props(rankings, outcomes, lo, hi - 1);
        let s = stats_range(rankings, outcomes, lo, hi - 1);
        let idx = hi - 1;
        let assign = assignment(outcomes, maybe_positions(outcomes), idx as nat);
        lemma_resolve_range(rankings, assign);
        match resolve(rankings, assign) {
            Some(w) => {
                lemma_int_sum_bump(s.winner_tally, w);
            },
            None => {},
        }
    }
}

pub proof fn lemma_int_sum_zero_row(n: int)
    requires
        n >= 0,
    ensures
        int_sum(crate::stats::zero_row(n)) == 0,
    decreases n,
{
    if n > 0 {
        assert(crate::stats::zero_row(n).drop_last() =~= crate::stats::zero_row(n - 1));
        lemma_int_sum_zero_row(n - 1);
    } else {
        assert(crate::stats::zero_row(0).len() == 0);
    }
}

/// The unresolved-question count exceeds what a 64-bit combination index
/// can address.
#[derive(Clone, Copy, Debug)]
pub struct CapacityError {
    pub unresolved: usize,
}

/// An owned copy of a counter row.
fn copy_counters(v: &Vec<u64>) -> (r: Vec<u64>)
    ensures
        r@ == v@,
{
    let mut r: Vec<u64> = Vec::new();
    let mut i: usize = 0;
    while i < v.len()
        invariant
            0 <= i <= v@.len(),
            r@ =~= v@.take(i as int),
        decreases v@.len() - i,
    {
        r.push(v[i]);
        i = i + 1;
    }
    proof {
        assert(v@.take(v@.len() as int) =~= v@);
    }
    r
}

/// A counter row with one counter incremented.
fn bump_counter_row(row: &Vec<u64>, w: usize) -> (r: Vec<u64>)
    requires
        (w as int) < row@.len(),
        row@[w as int] < u64::MAX,
    ensures
        view_row(r@) == bump(view_row(row@), w as int),
{
    let mut r = copy_counters(row);
    let val = r[w];
    let ghost r0 = r@;
    r.set(w, val + 1);
    proof {
        lemma_view_row_update(r0, w as int, (val + 1) as u64);
        assert(view_row(r@) =~= bump(view_row(row@), w as int));
    }
    r
}

/// A (yes, no) row with one occurrence of the assignment recorded at every
/// question.
fn bump_pair_row(row: &Vec<(u64, u64)>, assign: &Vec<char>) -> (r: Vec<(u64, u64)>)
    requires
        row@.len() == assign@.len(),
        forall|q: int|
            0 <= q < row@.len() ==> (#[trigger] row@[q]).0 < u64::MAX && row@[q].1 < u64::MAX,
    ensures
        view_pair_row(r@) == bump_questions(view_pair_row(row@), assign@),
{
    let ghost goal = bump_questions(view_pair_row(row@), assign@);
    let mut r: Vec<(u64, u64)> = Vec::new();
    proof {
        assert(goal.len() == row@.len());
        assert(view_pair_row(r@) =~= goal.take(0));
    }
    let mut q: usize = 0;
    while q < row.len()
        invariant
            0 <= q <= row@.len(),
            row@.len() == assign@.len(),
            goal == bump_questions(view_pair_row(row@), assign@),
            goal.len() == row@.len(),
            forall|t: int|
                0 <= t < row@.len() ==> (#[trigger] row@[t]).0 < u64::MAX && row@[t].1 < u64::MAX,
            view_pair_row(r@) == goal.take(q as int),
        decreases row@.len() - q,
    {
        let p = row[q];
        let np: (u64, u64) = if assign[q] == 'y' {
            (p.0 + 1, p.1)
        } else {
            (p.0, p.1 + 1)
        };
        let ghost r0 = r@;
        r.push(np);
        proof {
            lemma_view_pair_row_push(r0, np);
            lemma_take_succ(goal, q as int);
            assert(view_pair_row(row@)[q as int] == (p.0 as int, p.1 as int));
            assert(goal[q as int] == (np.0 as int, np.1 as int));
        }
        q = q + 1;
    }
    proof {
        assert(goal.take(goal.len() as int) =~= goal);
    }
    r
}

/// `2^k` as a 64-bit combination count.
fn pow2_u64(k: usize) -> (r: u64)
    requires
        k <= 63,
    ensures
        r as nat == pow2(k as nat),
        r >= 1,
{
    let mut r: u64 = 1;
    proof {
        lemma2_to64();
    }
    let mut b: usize = 0;
    while b < k
        invariant
            0 <= b <= k <= 63,
            r as nat == pow2(b as nat),
        decreases k - b,
    {
        proof {
            lemma2_to64();
            lemma2_to64_rest();
            if (b as nat) < 62 {
                lemma_pow2_strictly_increases(b as nat, 62);
            }
            assert(pow2(62) == 0x4000000000000000);
            assert(r <= 0x4000000000000000);
            lemma_pow2_unfold((b + 1) as nat);
        }
        r = r * 2;
        b = b + 1;
    }
    proof {
        if (k as nat) > 0 {
            vstd::arithmetic::power2::lemma_pow2_pos(k as nat);
        }
    }
    r
}

/// Fold every combination in `lo..hi` into one aggregate, in index order.
///
/// This is the sequential worker: a partitioned run hands each worker a
/// sub-range and merges the results, which by `lemma_stats_range_split`
/// yields exactly the aggregate of the whole range.
pub fn compute_stats_range(
    predictions: &Vec<Contestant>,
    outcomes: &Vec<char>,
    lo: u64,
    hi: u64,
) -> (r: Stats)
    requires
        valid_inputs(predictions@, outcomes@),
        maybe_positions(outcomes@).len() <= 63,
        lo <= hi,
        hi as int <= pow2(maybe_positions(outcomes@).len() as nat) as int,
    ensures
        r@ == stats_range(rankings_view(predictions@), outcomes@, lo as int, hi as int),
{
    let ghost rv = rankings_view(predictions@);
    let nc = predictions.len();
    let nq = outcomes.len();
    let unres = unresolved_indices(outcomes);
    let nm = unres.len();
    proof {
        assert(usize_view(unres@).len() == maybe_positions(outcomes@).len());
        lemma_maybe_positions_props(outcomes@);
        assert forall|j: int| 0 <= j < unres@.len() implies (#[trigger] unres@[j]) < nq by {
            assert(usize_view(unres@)[j] == maybe_positions(outcomes@)[j]);
        }
        lemma_yes_count_bounds(outcomes@);
        lemma2_to64();
        lemma2_to64_rest();
        if (nm as nat) < 63 {
            lemma_pow2_strictly_increases(nm as nat, 63);
        }
        assert(pow2(63) == 0x8000000000000000);
        assert(hi <= 0x8000000000000000u64);
    }
    let yesses_already = count_yes(outcomes);
    let mut stats = Stats::new(nc, nq, nm);
    proof {
        assert(stats@ == stats_range(rv, outcomes@, lo as int, lo as int));
        lemma_stats_range_props(rv, outcomes@, lo as int, lo as int);
    }
    let mut i: u64 = lo;
    while i < hi
        invariant
            lo <= i <= hi,
            valid_inputs(predictions@, outcomes@),
            rv == rankings_view(predictions@),
            nc == predictions@.len(),
            nq == outcomes@.len(),
            usize_view(unres@) == maybe_positions(outcomes@),
            nm == unres@.len(),
            nm <= 63,
            forall|j: int| 0 <= j < unres@.len() ==> (#[trigger] unres@[j]) < nq,
            yesses_already as int == yes_count(outcomes@),
            yesses_already <= nq,
            hi <= 0x8000000000000000u64,
            stats@ == stats_range(rv, outcomes@, lo as int, i as int),
            stats_shape(stats@, nc as int, nq as int, nm as int),
            stats_bounded(stats@, i as int - lo as int),
        decreases hi - i,
    {
        let ghost pre = stats@;
        let current = build_assignment(outcomes, &unres, i);
        let ghost assign = assignment(outcomes@, maybe_positions(outcomes@), i as nat);
        proof {
            lemma_more_yes_bounds(outcomes@, i as int);
        }
        // Score every contestant for this assignment.
        let mut scores: Vec<u64> = Vec::new();
        let mut c: usize = 0;
        while c < nc
            invariant
                0 <= c <= nc,
                nc == predictions@.len(),
                valid_inputs(predictions@, outcomes@),
                rv == rankings_view(predictions@),
                current@ == assign,
                assign.len() == outcomes@.len(),
                nq == outcomes@.len(),
                scores@.len() == c,
                forall|t: int|
                    0 <= t < c ==> (#[trigger] scores@[t]) as int == points(rv[t], assign),
            decreases nc - c,
        {
            let pts = calculate_points(&predictions[c].ranking, &current);
            scores.push(pts);
            proof {
                assert(rv[c as int] == predictions@[c as int].ranking@);
            }
            c = c + 1;
        }
        // The maximum score.
        let mut maxv: u64 = scores[0];
        proof {
            assert(rv.take(1).drop_last() =~= rv.take(0));
            assert(rv.take(0).len() == 0);
            assert(max_score(rv.take(0), assign) == -1);
            assert(rv.take(1).last() == rv[0]);
            assert(maxv as int == max_score(rv.take(1), assign));
        }
        let mut c2: usize = 1;
        while c2 < nc
            invariant
                1 <= c2 <= nc,
                nc == predictions@.len(),
                predictions@.len() >= 1,
                rv == rankings_view(predictions@),
                rv.len() == nc,
                scores@.len() == nc,
                forall|t: int|
                    0 <= t < nc ==> (#[trigger] scores@[t]) as int == points(rv[t], assign),
                maxv as int == max_score(rv.take(c2 as int), assign),
            decreases nc - c2,
        {
            proof {
                assert(rv.take(c2 as int + 1).drop_last() =~= rv.take(c2 as int));
                assert(rv.take(c2 as int + 1).last() == rv[c2 as int]);
            }
            if scores[c2] > maxv {
                maxv = scores[c2];
            }
            c2 = c2 + 1;
        }
        proof {
            assert(rv.take(nc as int) =~= rv);
        }
        // The candidates tied on the maximum.
        let mut tied: Vec<usize> = Vec::new();
        proof {
            assert(usize_view(tied@) =~= indices_with_score(rv.take(0), assign, maxv as int));
        }
        let mut c3: usize = 0;
        while c3 < nc
            invariant
                0 <= c3 <= nc,
                nc == predictions@.len(),
                rv == rankings_view(predictions@),
                rv.len() == nc,
                scores@.len() == nc,
                forall|t: int|
                    0 <= t < nc ==> (#[trigger] scores@[t]) as int == points(rv[t], assign),
                usize_view(tied@) == indices_with_score(rv.take(c3 as int), assign, maxv as int),
                forall|j: int| 0 <= j < tied@.len() ==> (#[trigger] tied@[j]) < nc,
            decreases nc - c3,
        {
            proof {
                assert(rv.take(c3 as int + 1).drop_last() =~= rv.take(c3 as int));
                assert(rv.take(c3 as int + 1).last() == rv[c3 as int]);
            }
            if scores[c3] == maxv {
                let ghost t0 = tied@;
                tied.push(c3);
                proof {
                    assert(usize_view(tied@) =~= usize_view(t0).push(c3 as int));
                }
            }
            c3 = c3 + 1;
        }
        proof {
            assert(rv.take(nc as int) =~= rv);
            assert(usize_view(tied@) == tied_candidates(rv, assign));
        }
        // The winner, if the tie-break finds one.
        let winner: Option<usize> = if tied.len() == 1 {
            Some(tied[0])
        } else {
            proof {
                assert(forall|c4: int|
                    0 <= c4 < predictions@.len() ==> (#[trigger] predictions@[c4].ranking@.len())
                        == current@.len());
            }
            tie_breaker_idx(predictions, &current, &tied)
        };
        let ghost wspec = resolve(rv, assign);
        proof {
            lemma_resolve_range(rv, assign);
            if usize_view(tied@).len() == 1 {
                assert(wspec == Some(usize_view(tied@)[0]));
                assert(usize_view(tied@)[0] == tied@[0] as int);
            }
            assert(winner == as_usize_option(wspec));
        }
        // How many open questions this combination resolves Yes.
        let yc = count_yes(&current);
        let more = yc - yesses_already;
        proof {
            assert(yc as int == yes_count(assign));
            assert(yesses_already <= yc);
            assert(more as int == yes_count(assign) - yes_count(outcomes@));
            assert(more <= nm);
        }
        // Every tied candidate held the maximum score: each gets a
        // win-path, whatever the tie-break decides.
        let ghost tiedv = usize_view(tied@);
        proof {
            lemma_indices_with_score_range(rv, assign, maxv as int);
            lemma_indices_with_score_increasing(rv, assign, maxv as int);
            assert(tiedv.take(0) =~= Seq::<int>::empty());
            assert(stats@ =~~= (StatsModel {
                winner_tally: pre.winner_tally,
                tie_broken_count: pre.tie_broken_count,
                true_tie_count: pre.true_tie_count,
                true_ties_by_yes_count: pre.true_ties_by_yes_count,
                win_paths: bump_each(pre.win_paths, tiedv.take(0)),
                person_question_buckets: pre.person_question_buckets,
                yes_buckets: pre.yes_buckets,
                true_tie_question_buckets: pre.true_tie_question_buckets,
            }));
        }
        let mut jw: usize = 0;
        while jw < tied.len()
            invariant
                0 <= jw <= tied@.len(),
                nc == predictions@.len(),
                tiedv == usize_view(tied@),
                forall|t: int| 0 <= t < tiedv.len() ==> 0 <= #[trigger] tiedv[t] < nc as int,
                forall|t1: int, t2: int| 0 <= t1 < t2 < tiedv.len() ==> tiedv[t1] < tiedv[t2],
                pre.win_paths.len() == nc as int,
                forall|t: int|
                    0 <= t < pre.win_paths.len() ==> 0 <= #[trigger] pre.win_paths[t]
                        < 0x8000000000000000,
                stats@ == (StatsModel {
                    winner_tally: pre.winner_tally,
                    tie_broken_count: pre.tie_broken_count,
                    true_tie_count: pre.true_tie_count,
                    true_ties_by_yes_count: pre.true_ties_by_yes_count,
                    win_paths: bump_each(pre.win_paths, tiedv.take(jw as int)),
                    person_question_buckets: pre.person_question_buckets,
                    yes_buckets: pre.yes_buckets,
                    true_tie_question_buckets: pre.true_tie_question_buckets,
                }),
            decreases tied@.len() - jw,
        {
            proof {
                lemma_bump_each_props(pre.win_paths, tiedv.take(jw as int));
                assert(stats.win_paths@.len() == nc);
                assert(!tiedv.take(jw as int).contains(tiedv[jw as int])) by {
                    if tiedv.take(jw as int).contains(tiedv[jw as int]) {
                        let t = choose|t: int|
                            0 <= t < jw as int && tiedv.take(jw as int)[t] == tiedv[jw as int];
                        assert(tiedv[t] == tiedv[jw as int]);
                    }
                }
                assert(view_row(stats.win_paths@)[tiedv[jw as int]] == pre.win_paths[tiedv[
                jw as int]]);
            }
            let w = tied[jw];
            let val = stats.win_paths[w];
            let ghost wp0 = stats.win_paths@;
            stats.win_paths.set(w, val + 1);
            proof {
                lemma_view_row_update(wp0, w as int, (val + 1) as u64);
                assert(tiedv.take(jw as int + 1).drop_last() =~= tiedv.take(jw as int));
                assert(view_row(stats.win_paths@) =~= bump_each(
                    pre.win_paths,
                    tiedv.take(jw as int + 1),
                ));
                assert(stats@ =~~= (StatsModel {
                    winner_tally: pre.winner_tally,
                    tie_broken_count: pre.tie_broken_count,
                    true_tie_count: pre.true_tie_count,
                    true_ties_by_yes_count: pre.true_ties_by_yes_count,
                    win_paths: bump_each(pre.win_paths, tiedv.take(jw as int + 1)),
                    person_question_buckets: pre.person_question_buckets,
                    yes_buckets: pre.yes_buckets,
                    true_tie_question_buckets: pre.true_tie_question_buckets,
                }));
            }
            jw = jw + 1;
        }
        proof {
            assert(tiedv.take(tiedv.len() as int) =~= tiedv);
            assert(view_row(stats.win_paths@) == bump_each(pre.win_paths, tiedv));
        }
        match winner {
            Some(w) => {
                proof {
                    assert(wspec == Some(w as int));
                    assert(0 <= (w as int) < nc as int);
                    assert(pre.winner_tally.len() == nc as int);
                    assert(stats.winner_tally@.len() == nc);
                    assert(pre.winner_tally[w as int] <= i as int - lo as int);
                }
                let val = stats.winner_tally[w];
                let ghost wt0 = stats.winner_tally@;
                stats.winner_tally.set(w, val + 1);
                proof {
                    lemma_view_row_update(wt0, w as int, (val + 1) as u64);
                    assert(view_row(stats.winner_tally@) =~= bump(pre.winner_tally, w as int));
                }
                proof {
                    assert(stats.yes_buckets@.len() == nm + 1);
                    assert(view_table(stats.yes_buckets@)[more as int] == view_row(
                        stats.yes_buckets@[more as int]@,
                    ));
                    assert(pre.yes_buckets[more as int].len() == nc as int);
                    assert(stats.yes_buckets@[more as int]@.len() == nc);
                    assert(pre.yes_buckets[more as int][w as int] <= i as int - lo as int);
                    assert(stats.yes_buckets@[more as int]@[w as int] < u64::MAX);
                }
                let yrow = bump_counter_row(&stats.yes_buckets[more], w);
                let ghost yb0 = stats.yes_buckets@;
                stats.yes_buckets.set(more, yrow);
                proof {
                    lemma_view_table_update(yb0, more as int, yrow);
                    assert(view_table(stats.yes_buckets@) =~= pre.yes_buckets.update(
                        more as int,
                        bump(pre.yes_buckets[more as int], w as int),
                    ));
                }
                if tied.len() > 1 {
                    proof {
                        assert(pre.tie_broken_count <= i as int - lo as int);
                    }
                    stats.tie_broken_count = stats.tie_broken_count + 1;
                }
                proof {
                    assert(stats.person_question_buckets@.len() == nc);
                    assert(view_pair_table(stats.person_question_buckets@)[w as int]
                        == view_pair_row(stats.person_question_buckets@[w as int]@));
                    assert(pre.person_question_buckets[w as int].len() == nq as int);
                    assert(stats.person_question_buckets@[w as int]@.len() == nq);
                    assert forall|q: int|
                        0 <= q < stats.person_question_buckets@[w as int]@.len() implies (
                    #[trigger] stats.person_question_buckets@[w as int]@[q]).0 < u64::MAX
                        && stats.person_question_buckets@[w as int]@[q].1 < u64::MAX by {
                        assert(pre.person_question_buckets[w as int][q] == (
                            stats.person_question_buckets@[w as int]@[q].0 as int,
                            stats.person_question_buckets@[w as int]@[q].1 as int,
                        ));
                    }
                }
                let prow = bump_pair_row(&stats.person_question_buckets[w], &current);
                let ghost pq0 = stats.person_question_buckets@;
                stats.person_question_buckets.set(w, prow);
                proof {
                    lemma_view_pair_table_update(pq0, w as int, prow);
                    assert(view_pair_table(stats.person_question_buckets@)
                        =~= pre.person_question_buckets.update(
                        w as int,
                        bump_questions(pre.person_question_buckets[w as int], assign),
                    ));
                }
            },
            None => {
                proof {
                    assert(wspec is None);
                    assert(pre.true_tie_count <= i as int - lo as int);
                    assert(pre.true_ties_by_yes_count.len() == nm + 1);
                    assert(stats.true_ties_by_yes_count@.len() == nm + 1);
                    assert(pre.true_ties_by_yes_count[more as int] <= i as int - lo as int);
                }
                stats.true_tie_count = stats.true_tie_count + 1;
                let val = stats.true_ties_by_yes_count[more];
                let ghost ty0 = stats.true_ties_by_yes_count@;
                stats.true_ties_by_yes_count.set(more, val + 1);
                proof {
                    lemma_view_row_update(ty0, more as int, (val + 1) as u64);
                    assert(view_row(stats.true_ties_by_yes_count@) =~= bump(
                        pre.true_ties_by_yes_count,
                        more as int,
                    ));
                }
                proof {
                    assert(pre.true_tie_question_buckets.len() == nq as int);
                    assert(stats.true_tie_question_buckets@.len() == nq);
                    assert forall|q: int|
                        0 <= q < stats.true_tie_question_buckets@.len() implies (
                    #[trigger] stats.true_tie_question_buckets@[q]).0 < u64::MAX
                        && stats.true_tie_question_buckets@[q].1 < u64::MAX by {
                        assert(pre.true_tie_question_buckets[q] == (
                            stats.true_tie_question_buckets@[q].0 as int,
                            stats.true_tie_question_buckets@[q].1 as int,
                        ));
                    }
                }
                let prow = bump_pair_row(&stats.true_tie_question_buckets, &current);
                stats.true_tie_question_buckets = prow;
            },
        }
        proof {
            assert(stats@ =~~= fold_step(pre, rv, outcomes@, i as int));
            assert(stats_range(rv, outcomes@, lo as int, i as int + 1) == fold_step(
                stats_range(rv, outcomes@, lo as int, i as int),
                rv,
                outcomes@,
                i as int,
            ));
            lemma_fold_step_props(pre, rv, outcomes@, i as int, i as int - lo as int);
        }
        i = i + 1;
    }
    stats
}

/// Fold the whole combination space of the open questions.
///
/// Fails fast with a capacity error when more than 63 questions are open:
/// the combination count would not fit a 64-bit index.
pub fn compute_stats(predictions: &Vec<Contestant>, outcomes: &Vec<char>) -> (r: Result<
    Stats,
    CapacityError,
>)
    requires
        valid_inputs(predictions@, outcomes@),
    ensures
        ({
            let k = maybe_positions(outcomes@).len();
            match r {
                Ok(s) => k <= 63 && s@ == stats_range(
                    rankings_view(predictions@),
                    outcomes@,
                    0,
                    pow2(k as nat) as int,
                ) && int_sum(s@.winner_tally) + s@.true_tie_count == pow2(k as nat) as int,
                Err(e) => k > 63 && e.unresolved == k,
            }
        }),
{
    let unres = unresolved_indices(outcomes);
    proof {
        assert(usize_view(unres@).len() == maybe_positions(outcomes@).len());
    }
    if unres.len() > 63 {
        return Err(CapacityError { unresolved: unres.len() });
    }
    let total = pow2_u64(unres.len());
    let s = compute_stats_range(predictions, outcomes, 0, total);
    proof {
        lemma_scenarios_total(rankings_view(predictions@), outcomes@, 0, total as int);
    }
    Ok(s)
}

} // verus!
