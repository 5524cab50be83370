//! The tie-break: choosing a single winner among contestants tied on the
//! maximum score, or declaring a true tie.
//!
//! Each tied candidate's "ladder" is the multiset of ranking weights they
//! assigned to questions resolved Yes, sorted in descending order. The
//! candidates are compared level by level: at level `L` a candidate's value
//! is the `L`-th ladder entry, or `0` past the ladder's end, and only the
//! candidates with the maximum value at that level survive. The first level
//! that leaves exactly one survivor decides the winner; if every level up to
//! the longest ladder length is exhausted, the tie is a true tie.

use vstd::prelude::*;
use vstd::relations::{sorted_by, total_ordering};
use vstd::seq_lib::group_to_multiset_ensures;
use vstd::seq_lib::lemma_sorted_unique;
use vstd::multiset::Multiset;
use crate::game::{Contestant, rankings_view};
use crate::score::{correct_seq, points};

verus! {

/// The maximum score over the contestants (`-1` if there are none).
pub open spec fn max_score(rankings: Seq<Seq<u32>>, outcome: Seq<char>) -> int
    decreases rankings.len(),
{
    if rankings.len() == 0 {
        -1
    } else {
        let rest = max_score(rankings.drop_last(), outcome);
        let lastv = points(rankings.last(), outcome);
        if lastv >= rest {
            lastv
        } else {
            rest
        }
    }
}

/// The contestants scoring exactly `target`, in ascending index order.
pub open spec fn indices_with_score(
    rankings: Seq<Seq<u32>>,
    outcome: Seq<char>,
    target: int,
) -> Seq<int>
    decreases rankings.len(),
{
    if rankings.len() == 0 {
        Seq::<int>::empty()
    } else {
        let rest = indices_with_score(rankings.drop_last(), outcome, target);
        if points(rankings.last(), outcome) == target {
            rest.push(rankings.len() - 1)
        } else {
            rest
        }
    }
}

/// The contestants tied on the maximum score.
pub open spec fn tied_candidates(rankings: Seq<Seq<u32>>, outcome: Seq<char>) -> Seq<int> {
    indices_with_score(rankings, outcome, max_score(rankings, outcome))
}

/// The resolution of one assignment: the winning contestant's index (a
/// unique maximum, or the tie-break's choice), or `None` for a true tie.
pub open spec fn resolve(rankings: Seq<Seq<u32>>, outcome: Seq<char>) -> Option<int> {
    tie_break_result(rankings, outcome, tied_candidates(rankings, outcome))
}

/// Every index in the tied set is a contestant index.
pub proof fn lemma_indices_with_score_range(
    rankings: Seq<Seq<u32>>,
    outcome: Seq<char>,
    target: int,
)
    ensures
        forall|j: int|
            0 <= j < indices_with_score(rankings, outcome, target).len() ==> 0
                <= #[trigger] indices_with_score(rankings, outcome, target)[j] < rankings.len(),
    decreases rankings.len(),
{
    if rankings.len() > 0 {
        lemma_indices_with_score_range(rankings.drop_last(), outcome, target);
        let s = indices_with_score(rankings, outcome, target);
        let rest = indices_with_score(rankings.drop_last(), outcome, target);
        assert forall|j: int| 0 <= j < s.len() implies 0 <= #[trigger] s[j] < rankings.len() by {
            if j < rest.len() {
                assert(s[j] == rest[j]);
            }
        }
    }
}

pub proof fn lemma_survivors_at_range(
    rankings: Seq<Seq<u32>>,
    outcome: Seq<char>,
    remaining: Seq<int>,
    level: int,
    target: u32,
    n: int,
)
    requires
        forall|j: int| 0 <= j < remaining.len() ==> 0 <= #[trigger] remaining[j] < n,
    ensures
        forall|j: int|
            0 <= j < survivors_at(rankings, outcome, remaining, level, target).len() ==> 0
                <= #[trigger] survivors_at(rankings, outcome, remaining, level, target)[j] < n,
    decreases remaining.len(),
{
    if remaining.len() > 0 {
        lemma_survivors_at_range(rankings, outcome, remaining.drop_last(), level, target, n);
        let s = survivors_at(rankings, outcome, remaining, level, target);
        let rest = survivors_at(rankings, outcome, remaining.drop_last(), level, target);
        assert forall|j: int| 0 <= j < s.len() implies 0 <= #[trigger] s[j] < n by {
            if j < rest.len() {
                assert(s[j] == rest[j]);
            }
        }
    }
}

pub proof fn lemma_tie_break_from_range(
    rankings: Seq<Seq<u32>>,
    outcome: Seq<char>,
    remaining: Seq<int>,
    level: int,
    max_levels: int,
    n: int,
)
    requires
        forall|j: int| 0 <= j < remaining.len() ==> 0 <= #[trigger] remaining[j] < n,
    ensures
        match tie_break_from(rankings, outcome, remaining, level, max_levels) {
            Some(w) => 0 <= w < n,
            None => true,
        },
    decreases max_levels - level,
{
    if level < max_levels {
        let next = survivors(rankings, outcome, remaining, level);
        lemma_survivors_at_range(
            rankings,
            outcome,
            remaining,
            level,
            level_max(rankings, outcome, remaining, level),
            n,
        );
        if next.len() != 1 {
            lemma_tie_break_from_range(rankings, outcome, next, level + 1, max_levels, n);
        }
    }
}

/// The filtered candidates all occur in the unfiltered set.
pub proof fn lemma_survivors_at_membership(
    rankings: Seq<Seq<u32>>,
    outcome: Seq<char>,
    remaining: Seq<int>,
    level: int,
    target: u32,
)
    ensures
        forall|j: int|
            0 <= j < survivors_at(rankings, outcome, remaining, level, target).len()
                ==> remaining.contains(
                #[trigger] survivors_at(rankings, outcome, remaining, level, target)[j],
            ),
    decreases remaining.len(),
{
    if remaining.len() > 0 {
        lemma_survivors_at_membership(rankings, outcome, remaining.drop_last(), level, target);
        let s = survivors_at(rankings, outcome, remaining, level, target);
        let rest = survivors_at(rankings, outcome, remaining.drop_last(), level, target);
        assert forall|j: int| 0 <= j < s.len() implies remaining.contains(#[trigger] s[j]) by {
            if j < rest.len() {
                assert(s[j] == rest[j]);
                assert(remaining.drop_last().contains(rest[j]));
                let t = choose|t: int|
                    0 <= t < remaining.drop_last().len() && remaining.drop_last()[t] == rest[j];
                assert(remaining[t] == rest[j]);
            } else {
                assert(s[j] == remaining.last());
                assert(remaining[remaining.len() - 1] == remaining.last());
            }
        }
    }
}

/// The filtered candidates all hold the target value at the level.
pub proof fn lemma_survivors_at_values(
    rankings: Seq<Seq<u32>>,
    outcome: Seq<char>,
    remaining: Seq<int>,
    level: int,
    target: u32,
)
    ensures
        forall|j: int|
            0 <= j < survivors_at(rankings, outcome, remaining, level, target).len()
                ==> level_value(
                ladder(
                    rankings[#[trigger] survivors_at(rankings, outcome, remaining, level, target)[
                    j]],
                    outcome,
                ),
                level,
            ) == target,
    decreases remaining.len(),
{
    if remaining.len() > 0 {
        lemma_survivors_at_values(rankings, outcome, remaining.drop_last(), level, target);
        let s = survivors_at(rankings, outcome, remaining, level, target);
        let rest = survivors_at(rankings, outcome, remaining.drop_last(), level, target);
        assert forall|j: int|
            0 <= j < s.len() implies level_value(ladder(rankings[#[trigger] s[j]], outcome), level)
            == target by {
            if j < rest.len() {
                assert(s[j] == rest[j]);
            } else {
                assert(s[j] == remaining.last());
            }
        }
    }
}

/// Filtering at the maximum keeps at least one candidate.
pub proof fn lemma_level_max_achieved(
    rankings: Seq<Seq<u32>>,
    outcome: Seq<char>,
    remaining: Seq<int>,
    level: int,
)
    requires
        remaining.len() > 0,
    ensures
        survivors(rankings, outcome, remaining, level).len() >= 1,
    decreases remaining.len(),
{
    let target = level_max(rankings, outcome, remaining, level);
    let rest_max = level_max(rankings, outcome, remaining.drop_last(), level);
    let lastv = level_value(ladder(rankings[remaining.last()], outcome), level);
    if lastv >= rest_max {
        assert(survivors_at(rankings, outcome, remaining, level, target).len() >= 1);
    } else {
        lemma_level_max_achieved(rankings, outcome, remaining.drop_last(), level);
    }
}

/// Filtering keeps the candidates' ascending order.
pub proof fn lemma_survivors_at_increasing(
    rankings: Seq<Seq<u32>>,
    outcome: Seq<char>,
    remaining: Seq<int>,
    level: int,
    target: u32,
)
    requires
        forall|j1: int, j2: int| 0 <= j1 < j2 < remaining.len() ==> remaining[j1] < remaining[j2],
    ensures
        forall|j1: int, j2: int|
            0 <= j1 < j2 < survivors_at(rankings, outcome, remaining, level, target).len()
                ==> survivors_at(rankings, outcome, remaining, level, target)[j1] < survivors_at(
                rankings,
                outcome,
                remaining,
                level,
                target,
            )[j2],
    decreases remaining.len(),
{
    if remaining.len() > 0 {
        lemma_survivors_at_increasing(rankings, outcome, remaining.drop_last(), level, target);
        lemma_survivors_at_membership(rankings, outcome, remaining.drop_last(), level, target);
        let s = survivors_at(rankings, outcome, remaining, level, target);
        let rest = survivors_at(rankings, outcome, remaining.drop_last(), level, target);
        assert forall|j1: int, j2: int| 0 <= j1 < j2 < s.len() implies s[j1] < s[j2] by {
            if j2 < rest.len() {
                assert(s[j1] == rest[j1] && s[j2] == rest[j2]);
            } else {
                assert(s[j1] == rest[j1]);
                assert(remaining.drop_last().contains(rest[j1]));
                let t = choose|t: int|
                    0 <= t < remaining.drop_last().len() && remaining.drop_last()[t] == rest[j1];
                assert(remaining[t] == rest[j1]);
                assert(remaining[t] < remaining[remaining.len() - 1]);
            }
        }
    }
}

/// A winner of the level elimination occurs in the candidate set.
pub proof fn lemma_tie_break_from_membership(
    rankings: Seq<Seq<u32>>,
    outcome: Seq<char>,
    remaining: Seq<int>,
    level: int,
    max_levels: int,
    w: int,
)
    requires
        tie_break_from(rankings, outcome, remaining, level, max_levels) == Some(w),
    ensures
        remaining.contains(w),
    decreases max_levels - level,
{
    let target = level_max(rankings, outcome, remaining, level);
    let next = survivors(rankings, outcome, remaining, level);
    lemma_survivors_at_membership(rankings, outcome, remaining, level, target);
    if next.len() == 1 {
        assert(remaining.contains(next[0]));
    } else {
        lemma_tie_break_from_membership(rankings, outcome, next, level + 1, max_levels, w);
        let t = choose|t: int| 0 <= t < next.len() && next[t] == w;
        assert(remaining.contains(next[t]));
    }
}

/// The tied candidates all hold the target score.
pub proof fn lemma_indices_with_score_points(
    rankings: Seq<Seq<u32>>,
    outcome: Seq<char>,
    target: int,
)
    ensures
        forall|j: int|
            0 <= j < indices_with_score(rankings, outcome, target).len() ==> points(
                rankings[#[trigger] indices_with_score(rankings, outcome, target)[j]],
                outcome,
            ) == target,
    decreases rankings.len(),
{
    if rankings.len() > 0 {
        lemma_indices_with_score_points(rankings.drop_last(), outcome, target);
        let s = indices_with_score(rankings, outcome, target);
        let rest = indices_with_score(rankings.drop_last(), outcome, target);
        assert forall|j: int|
            0 <= j < s.len() implies points(rankings[#[trigger] s[j]], outcome) == target by {
            if j < rest.len() {
                assert(s[j] == rest[j]);
                assert(0 <= rest[j] < rankings.drop_last().len()) by {
                    lemma_indices_with_score_range(rankings.drop_last(), outcome, target);
                }
                assert(rankings[rest[j]] == rankings.drop_last()[rest[j]]);
            } else {
                assert(s[j] == rankings.len() - 1);
            }
        }
    }
}

/// The tied candidates come in ascending order.
pub proof fn lemma_indices_with_score_increasing(
    rankings: Seq<Seq<u32>>,
    outcome: Seq<char>,
    target: int,
)
    ensures
        forall|j1: int, j2: int|
            0 <= j1 < j2 < indices_with_score(rankings, outcome, target).len()
                ==> indices_with_score(rankings, outcome, target)[j1] < indices_with_score(
                rankings,
                outcome,
                target,
            )[j2],
    decreases rankings.len(),
{
    if rankings.len() > 0 {
        lemma_indices_with_score_increasing(rankings.drop_last(), outcome, target);
        lemma_indices_with_score_range(rankings.drop_last(), outcome, target);
        let s = indices_with_score(rankings, outcome, target);
        let rest = indices_with_score(rankings.drop_last(), outcome, target);
        assert forall|j1: int, j2: int| 0 <= j1 < j2 < s.len() implies s[j1] < s[j2] by {
            if j2 < rest.len() {
                assert(s[j1] == rest[j1] && s[j2] == rest[j2]);
            } else {
                assert(s[j1] == rest[j1]);
            }
        }
    }
}

/// No score exceeds the maximum.
pub proof fn lemma_max_score_ge(rankings: Seq<Seq<u32>>, outcome: Seq<char>)
    ensures
        forall|c: int|
            0 <= c < rankings.len() ==> points(#[trigger] rankings[c], outcome) <= max_score(
                rankings,
                outcome,
            ),
    decreases rankings.len(),
{
    if rankings.len() > 0 {
        lemma_max_score_ge(rankings.drop_last(), outcome);
        assert forall|c: int|
            0 <= c < rankings.len() implies points(#[trigger] rankings[c], outcome) <= max_score(
            rankings,
            outcome,
        ) by {
            if c < rankings.len() - 1 {
                assert(rankings.drop_last()[c] == rankings[c]);
            }
        }
    }
}

/// Someone achieves the maximum: the tied set is never empty.
pub proof fn lemma_max_score_achieved(rankings: Seq<Seq<u32>>, outcome: Seq<char>)
    requires
        rankings.len() > 0,
    ensures
        tied_candidates(rankings, outcome).len() >= 1,
    decreases rankings.len(),
{
    let target = max_score(rankings, outcome);
    let rest_max = max_score(rankings.drop_last(), outcome);
    let lastv = points(rankings.last(), outcome);
    crate::score::lemma_points_nonneg(rankings.last(), outcome);
    if lastv >= rest_max {
        assert(indices_with_score(rankings, outcome, target).len() >= 1);
    } else {
        assert(rankings.drop_last().len() > 0);
        lemma_max_score_achieved(rankings.drop_last(), outcome);
    }
}

/// Every tied candidate's ladder fits inside the level count.
pub proof fn lemma_max_ladder_len_ge(rankings: Seq<Seq<u32>>, outcome: Seq<char>, tied: Seq<int>)
    ensures
        forall|j: int|
            0 <= j < tied.len() ==> ladder(rankings[#[trigger] tied[j]], outcome).len()
                <= max_ladder_len(rankings, outcome, tied),
    decreases tied.len(),
{
    if tied.len() > 0 {
        lemma_max_ladder_len_ge(rankings, outcome, tied.drop_last());
        assert forall|j: int|
            0 <= j < tied.len() implies ladder(rankings[#[trigger] tied[j]], outcome).len()
            <= max_ladder_len(rankings, outcome, tied) by {
            if j < tied.len() - 1 {
                assert(tied.drop_last()[j] == tied[j]);
            }
        }
    }
}

/// Law: a winner always holds the maximum score of the assignment, so no
/// contestant scores more than the winner.
pub proof fn lemma_winner_has_max_score(rankings: Seq<Seq<u32>>, outcome: Seq<char>, w: int)
    requires
        resolve(rankings, outcome) == Some(w),
    ensures
        0 <= w < rankings.len(),
        points(rankings[w], outcome) == max_score(rankings, outcome),
        forall|c: int|
            0 <= c < rankings.len() ==> points(#[trigger] rankings[c], outcome) <= points(
                rankings[w],
                outcome,
            ),
{
    lemma_resolve_range(rankings, outcome);
    let target = max_score(rankings, outcome);
    let tied = tied_candidates(rankings, outcome);
    lemma_indices_with_score_points(rankings, outcome, target);
    lemma_max_score_ge(rankings, outcome);
    if tied.len() == 1 {
        assert(w == tied[0]);
    } else {
        lemma_tie_break_from_membership(
            rankings,
            outcome,
            tied,
            0,
            max_ladder_len(rankings, outcome, tied),
            w,
        );
        let t = choose|t: int| 0 <= t < tied.len() && tied[t] == w;
        assert(points(rankings[tied[t]], outcome) == target);
    }
}

/// Every weight a contestant predicted correctly is at least one.
pub proof fn lemma_correct_seq_ge_one(ranking: Seq<u32>, outcome: Seq<char>)
    requires
        forall|q: int| 0 <= q < ranking.len() ==> (#[trigger] ranking[q]) >= 1,
    ensures
        forall|t: int|
            0 <= t < correct_seq(ranking, outcome).len() ==> (#[trigger] correct_seq(
                ranking,
                outcome,
            )[t]) >= 1,
    decreases ranking.len(),
{
    if ranking.len() > 0 && outcome.len() > 0 {
        lemma_correct_seq_ge_one(ranking.drop_last(), outcome.drop_last());
        let s = correct_seq(ranking, outcome);
        let rest = correct_seq(ranking.drop_last(), outcome.drop_last());
        assert forall|t: int| 0 <= t < s.len() implies (#[trigger] s[t]) >= 1 by {
            if outcome.last() == 'y' && t == s.len() - 1 {
                assert(s[t] == ranking.last());
            } else {
                assert(s[t] == rest[t]);
            }
        }
    }
}

/// Every ladder entry is at least one.
pub proof fn lemma_ladder_ge_one(ranking: Seq<u32>, outcome: Seq<char>)
    requires
        forall|q: int| 0 <= q < ranking.len() ==> (#[trigger] ranking[q]) >= 1,
    ensures
        forall|t: int|
            0 <= t < ladder(ranking, outcome).len() ==> (#[trigger] ladder(ranking, outcome)[t])
                >= 1,
{
    broadcast use group_to_multiset_ensures;

    lemma_correct_seq_ge_one(ranking, outcome);
    lemma_ladder_ensures(ranking, outcome);
    let lad = ladder(ranking, outcome);
    let cs = correct_seq(ranking, outcome);
    assert forall|t: int| 0 <= t < lad.len() implies (#[trigger] lad[t]) >= 1 by {
        assert(lad.contains(lad[t]));
        assert(lad.to_multiset().count(lad[t]) > 0);
        assert(cs.to_multiset().count(lad[t]) > 0);
        assert(cs.contains(lad[t]));
        let u = choose|u: int| 0 <= u < cs.len() && cs[u] == lad[t];
        assert(cs[u] >= 1);
    }
}

/// Two candidates whose level values agree on every level up to both
/// ladders' lengths have identical ladders, because a ladder entry is never
/// zero while a missing entry counts as zero.
pub proof fn lemma_ladders_equal_from_levels(
    rankings: Seq<Seq<u32>>,
    outcome: Seq<char>,
    i: int,
    j: int,
    max_levels: int,
)
    requires
        0 <= i < rankings.len(),
        0 <= j < rankings.len(),
        forall|c: int, q: int|
            0 <= c < rankings.len() && 0 <= q < rankings[c].len() ==> (#[trigger] rankings[c][q])
                >= 1,
        ladder(rankings[i], outcome).len() <= max_levels,
        ladder(rankings[j], outcome).len() <= max_levels,
        forall|l: int|
            0 <= l < max_levels ==> #[trigger] level_value(ladder(rankings[i], outcome), l)
                == level_value(ladder(rankings[j], outcome), l),
    ensures
        ladder(rankings[i], outcome) == ladder(rankings[j], outcome),
{
    lemma_ladder_ge_one(rankings[i], outcome);
    lemma_ladder_ge_one(rankings[j], outcome);
    let li = ladder(rankings[i], outcome);
    let lj = ladder(rankings[j], outcome);
    if li.len() < lj.len() {
        let l = li.len() as int;
        assert(level_value(li, l) == 0);
        assert(level_value(lj, l) == lj[l]);
        assert(false);
    }
    if lj.len() < li.len() {
        let l = lj.len() as int;
        assert(level_value(lj, l) == 0);
        assert(level_value(li, l) == li[l]);
        assert(false);
    }
    assert forall|t: int| 0 <= t < li.len() implies li[t] == lj[t] by {
        assert(level_value(li, t) == level_value(lj, t));
    }
    assert(li =~= lj);
}

/// When the elimination runs out of levels, two distinct survivors have
/// identical ladders.
proof fn lemma_tie_break_none_two_equal(
    rankings: Seq<Seq<u32>>,
    outcome: Seq<char>,
    remaining: Seq<int>,
    level: int,
    max_levels: int,
)
    requires
        tie_break_from(rankings, outcome, remaining, level, max_levels) is None,
        remaining.len() >= 2,
        0 <= level,
        forall|c: int, q: int|
            0 <= c < rankings.len() && 0 <= q < rankings[c].len() ==> (#[trigger] rankings[c][q])
                >= 1,
        forall|j: int| 0 <= j < remaining.len() ==> 0 <= #[trigger] remaining[j] < rankings.len(),
        forall|j1: int, j2: int| 0 <= j1 < j2 < remaining.len() ==> remaining[j1] < remaining[j2],
        forall|j: int|
            0 <= j < remaining.len() ==> ladder(rankings[#[trigger] remaining[j]], outcome).len()
                <= max_levels,
        forall|j1: int, j2: int, l: int|
            0 <= j1 < remaining.len() && 0 <= j2 < remaining.len() && 0 <= l < level
                ==> #[trigger] level_value(ladder(rankings[remaining[j1]], outcome), l)
                == #[trigger] level_value(ladder(rankings[remaining[j2]], outcome), l),
    ensures
        exists|i: int, j: int|
            remaining.contains(i) && remaining.contains(j) && i != j && ladder(rankings[i], outcome)
                == ladder(rankings[j], outcome),
    decreases max_levels - level,
{
    if level >= max_levels {
        let i = remaining[0];
        let j = remaining[1];
        assert(i < j);
        lemma_ladders_equal_from_levels(rankings, outcome, i, j, max_levels);
        assert(remaining.contains(i) && remaining.contains(j));
    } else {
        let target = level_max(rankings, outcome, remaining, level);
        let next = survivors(rankings, outcome, remaining, level);
        lemma_level_max_achieved(rankings, outcome, remaining, level);
        assert(next.len() >= 2);
        lemma_survivors_at_membership(rankings, outcome, remaining, level, target);
        lemma_survivors_at_values(rankings, outcome, remaining, level, target);
        lemma_survivors_at_increasing(rankings, outcome, remaining, level, target);
        lemma_survivors_at_range(rankings, outcome, remaining, level, target, rankings.len() as int);
        assert forall|j: int|
            0 <= j < next.len() implies ladder(rankings[#[trigger] next[j]], outcome).len()
            <= max_levels by {
            let t = choose|t: int| 0 <= t < remaining.len() && remaining[t] == next[j];
            assert(ladder(rankings[remaining[t]], outcome).len() <= max_levels);
        }
        assert forall|j1: int, j2: int, l: int|
            0 <= j1 < next.len() && 0 <= j2 < next.len() && 0 <= l < level + 1 implies
            #[trigger] level_value(ladder(rankings[next[j1]], outcome), l)
            == #[trigger] level_value(ladder(rankings[next[j2]], outcome), l) by {
            if l < level {
                let t1 = choose|t: int| 0 <= t < remaining.len() && remaining[t] == next[j1];
                let t2 = choose|t: int| 0 <= t < remaining.len() && remaining[t] == next[j2];
                assert(level_value(ladder(rankings[remaining[t1]], outcome), l) == level_value(
                    ladder(rankings[remaining[t2]], outcome),
                    l,
                ));
            } else {
                assert(level_value(ladder(rankings[next[j1]], outcome), level) == target);
                assert(level_value(ladder(rankings[next[j2]], outcome), level) == target);
            }
        }
        lemma_tie_break_none_two_equal(rankings, outcome, next, level + 1, max_levels);
        let (i, j) = choose|i: int, j: int|
            next.contains(i) && next.contains(j) && i != j && ladder(rankings[i], outcome)
                == ladder(rankings[j], outcome);
        let ti = choose|t: int| 0 <= t < next.len() && next[t] == i;
        let tj = choose|t: int| 0 <= t < next.len() && next[t] == j;
        assert(remaining.contains(next[ti]));
        assert(remaining.contains(next[tj]));
    }
}

/// Law: a true tie is genuine. When the resolution reports no winner, at
/// least two distinct top-scoring contestants carry identical full
/// descending correct-prediction ladders.
pub proof fn lemma_true_tie_equal_ladders(rankings: Seq<Seq<u32>>, outcome: Seq<char>)
    requires
        resolve(rankings, outcome) is None,
        rankings.len() >= 1,
        forall|c: int, q: int|
            0 <= c < rankings.len() && 0 <= q < rankings[c].len() ==> (#[trigger] rankings[c][q])
                >= 1,
    ensures
        exists|i: int, j: int|
            0 <= i < rankings.len() && 0 <= j < rankings.len() && i != j && points(
                rankings[i],
                outcome,
            ) == max_score(rankings, outcome) && points(rankings[j], outcome) == max_score(
                rankings,
                outcome,
            ) && ladder(rankings[i], outcome) == ladder(rankings[j], outcome),
{
    let target = max_score(rankings, outcome);
    let tied = tied_candidates(rankings, outcome);
    let maxl = max_ladder_len(rankings, outcome, tied);
    lemma_max_score_achieved(rankings, outcome);
    assert(tied.len() >= 2);
    lemma_indices_with_score_range(rankings, outcome, target);
    lemma_indices_with_score_increasing(rankings, outcome, target);
    lemma_indices_with_score_points(rankings, outcome, target);
    lemma_max_ladder_len_ge(rankings, outcome, tied);
    lemma_tie_break_none_two_equal(rankings, outcome, tied, 0, maxl);
    let (i, j) = choose|i: int, j: int|
        tied.contains(i) && tied.contains(j) && i != j && ladder(rankings[i], outcome) == ladder(
            rankings[j],
            outcome,
        );
    let ti = choose|t: int| 0 <= t < tied.len() && tied[t] == i;
    let tj = choose|t: int| 0 <= t < tied.len() && tied[t] == j;
    assert(points(rankings[tied[ti]], outcome) == target);
    assert(points(rankings[tied[tj]], outcome) == target);
    assert(0 <= tied[ti] < rankings.len());
    assert(0 <= tied[tj] < rankings.len());
}

/// A winner returned by the resolution is a contestant index.
pub proof fn lemma_resolve_range(rankings: Seq<Seq<u32>>, outcome: Seq<char>)
    ensures
        match resolve(rankings, outcome) {
            Some(w) => 0 <= w < rankings.len(),
            None => true,
        },
{
    let tied = tied_candidates(rankings, outcome);
    lemma_indices_with_score_range(rankings, outcome, max_score(rankings, outcome));
    if tied.len() != 1 {
        lemma_tie_break_from_range(
            rankings,
            outcome,
            tied,
            0,
            max_ladder_len(rankings, outcome, tied),
            rankings.len() as int,
        );
    }
}

/// Descending order on weights.
pub open spec fn weight_order() -> spec_fn(u32, u32) -> bool {
    |a: u32, b: u32| a >= b
}

/// A contestant's correct-prediction ladder: the weights at the Yes
/// positions, sorted in descending order.
pub open spec fn ladder(ranking: Seq<u32>, outcome: Seq<char>) -> Seq<u32> {
    correct_seq(ranking, outcome).sort_by(weight_order())
}

/// A candidate's value at one comparison level: the ladder entry there, or
/// `0` past the ladder's end.
pub open spec fn level_value(lad: Seq<u32>, level: int) -> u32 {
    if 0 <= level < lad.len() {
        lad[level]
    } else {
        0u32
    }
}

/// The greatest level value among the remaining candidates (`0` if none).
pub open spec fn level_max(
    rankings: Seq<Seq<u32>>,
    outcome: Seq<char>,
    remaining: Seq<int>,
    level: int,
) -> u32
    decreases remaining.len(),
{
    if remaining.len() == 0 {
        0u32
    } else {
        let rest = level_max(rankings, outcome, remaining.drop_last(), level);
        let lastv = level_value(ladder(rankings[remaining.last()], outcome), level);
        if lastv >= rest {
            lastv
        } else {
            rest
        }
    }
}

/// The remaining candidates whose value at `level` equals `target`, in order.
pub open spec fn survivors_at(
    rankings: Seq<Seq<u32>>,
    outcome: Seq<char>,
    remaining: Seq<int>,
    level: int,
    target: u32,
) -> Seq<int>
    decreases remaining.len(),
{
    if remaining.len() == 0 {
        Seq::<int>::empty()
    } else {
        let rest = survivors_at(rankings, outcome, remaining.drop_last(), level, target);
        if level_value(ladder(rankings[remaining.last()], outcome), level) == target {
            rest.push(remaining.last())
        } else {
            rest
        }
    }
}

/// The candidates that survive one comparison level.
pub open spec fn survivors(
    rankings: Seq<Seq<u32>>,
    outcome: Seq<char>,
    remaining: Seq<int>,
    level: int,
) -> Seq<int> {
    survivors_at(rankings, outcome, remaining, level, level_max(rankings, outcome, remaining, level))
}

/// The longest ladder among the tied candidates.
pub open spec fn max_ladder_len(rankings: Seq<Seq<u32>>, outcome: Seq<char>, tied: Seq<int>) -> int
    decreases tied.len(),
{
    if tied.len() == 0 {
        0
    } else {
        let rest = max_ladder_len(rankings, outcome, tied.drop_last());
        let l = ladder(rankings[tied.last()], outcome).len() as int;
        if l >= rest {
            l
        } else {
            rest
        }
    }
}

/// Level-by-level elimination from `level` up to `max_levels`.
pub open spec fn tie_break_from(
    rankings: Seq<Seq<u32>>,
    outcome: Seq<char>,
    remaining: Seq<int>,
    level: int,
    max_levels: int,
) -> Option<int>
    decreases max_levels - level,
{
    if level >= max_levels {
        None
    } else {
        let next = survivors(rankings, outcome, remaining, level);
        if next.len() == 1 {
            Some(next[0])
        } else {
            tie_break_from(rankings, outcome, next, level + 1, max_levels)
        }
    }
}

/// The outcome of the tie-break for a set of tied candidates: the winner's
/// index, or `None` for a true tie.
pub open spec fn tie_break_result(
    rankings: Seq<Seq<u32>>,
    outcome: Seq<char>,
    tied: Seq<int>,
) -> Option<int> {
    if tied.len() == 1 {
        Some(tied[0])
    } else {
        tie_break_from(rankings, outcome, tied, 0, max_ladder_len(rankings, outcome, tied))
    }
}

pub open spec fn as_usize_option(o: Option<int>) -> Option<usize> {
    match o {
        Some(i) => Some(i as usize),
        None => None,
    }
}

pub proof fn lemma_weight_order_total()
    ensures
        total_ordering(weight_order()),
{
    let leq = weight_order();
    assert forall|x: u32, y: u32| #[trigger] leq(x, y) || #[trigger] leq(y, x) by {}
    assert forall|x: u32, y: u32| #[trigger] leq(x, y) && #[trigger] leq(y, x) implies x == y by {}
    assert forall|x: u32, y: u32, z: u32| #[trigger] leq(x, y) && #[trigger] leq(y, z) implies leq(
        x,
        z,
    ) by {}
}

/// The ladder is sorted descending and holds the same weights as the
/// correct-prediction list.
pub proof fn lemma_ladder_ensures(ranking: Seq<u32>, outcome: Seq<char>)
    ensures
        sorted_by(ladder(ranking, outcome), weight_order()),
        ladder(ranking, outcome).to_multiset() == correct_seq(ranking, outcome).to_multiset(),
{
    lemma_weight_order_total();
    correct_seq(ranking, outcome).lemma_sort_by_ensures(weight_order());
}

/// Index of a maximum element of a nonempty list of weights.
fn max_index(v: &Vec<u32>) -> (p: usize)
    requires
        v@.len() > 0,
    ensures
        p < v@.len(),
        forall|q: int| 0 <= q < v@.len() ==> v@[q] <= v@[p as int],
{
    let mut p: usize = 0;
    let mut q: usize = 1;
    while q < v.len()
        invariant
            p < q <= v@.len(),
            forall|t: int| 0 <= t < q ==> v@[t] <= v@[p as int],
        decreases v@.len() - q,
    {
        if v[q] > v[p] {
            p = q;
        }
        q = q + 1;
    }
    p
}

/// Sort a list of weights in descending order (selection sort).
fn sort_descending(v: Vec<u32>) -> (r: Vec<u32>)
    ensures
        sorted_by(r@, weight_order()),
        r@.to_multiset() == v@.to_multiset(),
{
    let ghost orig = v@.to_multiset();
    let mut rest = v;
    let mut out: Vec<u32> = Vec::new();
    proof {
        broadcast use group_to_multiset_ensures;
        broadcast use vstd::multiset::group_multiset_axioms;

        assert forall|x: u32| out@.to_multiset().count(x) == 0 by {
            assert(!out@.contains(x));
        }
        assert(out@.to_multiset().add(rest@.to_multiset()) =~= rest@.to_multiset());
    }
    while rest.len() > 0
        invariant
            sorted_by(out@, weight_order()),
            out@.to_multiset().add(rest@.to_multiset()) == orig,
            forall|p: int, q: int|
                0 <= p < out@.len() && 0 <= q < rest@.len() ==> rest@[q] <= out@[p],
        decreases rest@.len(),
    {
        let p = max_index(&rest);
        let x = rest[p];
        proof {
            broadcast use group_to_multiset_ensures;
            broadcast use vstd::multiset::group_multiset_axioms;

            let old_out = out@;
            let old_rest = rest@;
            assert(old_rest.to_multiset().count(x) > 0) by {
                assert(old_rest.contains(x));
            }
            assert(old_out.push(x).to_multiset().add(old_rest.remove(p as int).to_multiset())
                =~= old_out.to_multiset().add(old_rest.to_multiset()));
            assert forall|s: int, t: int|
                0 <= s < t < old_out.push(x).len() implies #[trigger] weight_order()(
                old_out.push(x)[s],
                old_out.push(x)[t],
            ) by {}
            assert forall|q: int| 0 <= q < old_rest.remove(p as int).len() implies old_rest.remove(
                p as int,
            )[q] <= x by {
                if q < p {
                    assert(old_rest.remove(p as int)[q] == old_rest[q]);
                } else {
                    assert(old_rest.remove(p as int)[q] == old_rest[q + 1]);
                }
            }
        }
        out.push(x);
        rest.remove(p);
    }
    proof {
        broadcast use group_to_multiset_ensures;
        broadcast use vstd::multiset::group_multiset_axioms;

        assert forall|x: u32| rest@.to_multiset().count(x) == 0 by {
            assert(!rest@.contains(x));
        }
        assert(rest@.to_multiset() =~= Multiset::<u32>::empty());
        assert(out@.to_multiset().add(Multiset::<u32>::empty()) =~= out@.to_multiset());
    }
    out
}

/// A contestant's ladder for one assignment: their correct-prediction
/// weights, sorted in descending order.
pub fn correct_descending(ranking: &Vec<u32>, outcomes: &Vec<char>) -> (r: Vec<u32>)
    requires
        ranking@.len() == outcomes@.len(),
    ensures
        r@ == ladder(ranking@, outcomes@),
{
    let mut correct: Vec<u32> = Vec::new();
    let mut i: usize = 0;
    while i < ranking.len()
        invariant
            0 <= i <= ranking@.len(),
            ranking@.len() == outcomes@.len(),
            correct@ == correct_seq(ranking@.take(i as int), outcomes@.take(i as int)),
        decreases ranking@.len() - i,
    {
        proof {
            crate::score::lemma_points_step(ranking@, outcomes@, i as int);
        }
        if outcomes[i] == 'y' {
            correct.push(ranking[i]);
        }
        i = i + 1;
    }
    proof {
        assert(ranking@.take(ranking@.len() as int) =~= ranking@);
        assert(outcomes@.take(outcomes@.len() as int) =~= outcomes@);
    }
    let sorted = sort_descending(correct);
    proof {
        lemma_weight_order_total();
        lemma_ladder_ensures(ranking@, outcomes@);
        lemma_sorted_unique(sorted@, ladder(ranking@, outcomes@), weight_order());
    }
    sorted
}

/// An owned copy of a list of weights.
pub(crate) fn copy_weights(v: &Vec<u32>) -> (r: Vec<u32>)
    ensures
        r@ == v@,
{
    let mut r: Vec<u32> = Vec::new();
    let mut i: usize = 0;
    while i < v.len()
        invariant
            0 <= i <= v@.len(),
            r@ =~= v@.take(i as int),
        decreases v@.len() - i,
    {
        r.push(v[i]);
        i = i + 1;
    }
    proof {
        assert(v@.take(v@.len() as int) =~= v@);
    }
    r
}

/// Resolve a tie among the contestants at `tied_indices`.
///
/// Returns the winning contestant's index if some comparison level leaves a
/// single survivor, and `None` for a true tie.
pub fn tie_breaker_idx(
    predictions: &Vec<Contestant>,
    outcomes: &Vec<char>,
    tied_indices: &Vec<usize>,
) -> (r: Option<usize>)
    requires
        forall|j: int|
            0 <= j < tied_indices@.len() ==> (#[trigger] tied_indices@[j]) < predictions@.len(),
        forall|c: int|
            0 <= c < predictions@.len() ==> (#[trigger] predictions@[c].ranking@.len())
                == outcomes@.len(),
    ensures
        r == as_usize_option(
            tie_break_result(
                rankings_view(predictions@),
                outcomes@,
                crate::outcome::usize_view(tied_indices@),
            ),
        ),
{
    let ghost rv = rankings_view(predictions@);
    let ghost tied0 = crate::outcome::usize_view(tied_indices@);
    if tied_indices.len() == 1 {
        return Some(tied_indices[0]);
    }
    // Each tied candidate's ladder, in the order of `tied_indices`.
    let mut ladders: Vec<Vec<u32>> = Vec::new();
    let mut j: usize = 0;
    while j < tied_indices.len()
        invariant
            0 <= j <= tied_indices@.len(),
            ladders@.len() == j,
            forall|p: int|
                0 <= p < j ==> (#[trigger] ladders@[p])@ == ladder(rv[tied0[p]], outcomes@),
            rv == rankings_view(predictions@),
            tied0 == crate::outcome::usize_view(tied_indices@),
            forall|p: int|
                0 <= p < tied_indices@.len() ==> (#[trigger] tied_indices@[p])
                    < predictions@.len(),
            forall|c: int|
                0 <= c < predictions@.len() ==> (#[trigger] predictions@[c].ranking@.len())
                    == outcomes@.len(),
        decreases tied_indices@.len() - j,
    {
        let idx = tied_indices[j];
        let lad = correct_descending(&predictions[idx].ranking, outcomes);
        proof {
            assert(rv[tied0[j as int]] == predictions@[idx as int].ranking@);
        }
        ladders.push(lad);
        j = j + 1;
    }
    // The number of comparison levels: the longest ladder among the tied.
    let mut max_levels: usize = 0;
    let mut j2: usize = 0;
    while j2 < tied_indices.len()
        invariant
            0 <= j2 <= tied_indices@.len(),
            ladders@.len() == tied_indices@.len(),
            forall|p: int|
                0 <= p < tied_indices@.len() ==> (#[trigger] ladders@[p])@ == ladder(
                    rv[tied0[p]],
                    outcomes@,
                ),
            tied0 == crate::outcome::usize_view(tied_indices@),
            max_levels as int == max_ladder_len(rv, outcomes@, tied0.take(j2 as int)),
        decreases tied_indices@.len() - j2,
    {
        proof {
            assert(tied0.take(j2 as int + 1).drop_last() =~= tied0.take(j2 as int));
        }
        if ladders[j2].len() > max_levels {
            max_levels = ladders[j2].len();
        }
        j2 = j2 + 1;
    }
    proof {
        assert(tied0.take(tied0.len() as int) =~= tied0);
    }
    let ghost maxl = max_ladder_len(rv, outcomes@, tied0);
    // The surviving candidates, with their ladders kept alongside.
    let mut remaining: Vec<usize> = Vec::new();
    let mut rem_ladders: Vec<Vec<u32>> = Vec::new();
    let mut j3: usize = 0;
    while j3 < tied_indices.len()
        invariant
            0 <= j3 <= tied_indices@.len(),
            ladders@.len() == tied_indices@.len(),
            forall|p: int|
                0 <= p < tied_indices@.len() ==> (#[trigger] ladders@[p])@ == ladder(
                    rv[tied0[p]],
                    outcomes@,
                ),
            tied0 == crate::outcome::usize_view(tied_indices@),
            forall|p: int|
                0 <= p < tied_indices@.len() ==> (#[trigger] tied_indices@[p])
                    < predictions@.len(),
            remaining@ =~= tied_indices@.take(j3 as int),
            rem_ladders@.len() == j3,
            forall|p: int|
                0 <= p < j3 ==> (#[trigger] rem_ladders@[p])@ == ladder(rv[tied0[p]], outcomes@),
        decreases tied_indices@.len() - j3,
    {
        remaining.push(tied_indices[j3]);
        let lad = copy_weights(&ladders[j3]);
        rem_ladders.push(lad);
        proof {
            assert((rem_ladders@[j3 as int])@ == ladder(rv[tied0[j3 as int]], outcomes@));
        }
        j3 = j3 + 1;
    }
    proof {
        assert(tied_indices@.take(tied_indices@.len() as int) =~= tied_indices@);
        assert(crate::outcome::usize_view(remaining@) =~= tied0);
        assert forall|p: int| 0 <= p < remaining@.len() implies (#[trigger] rem_ladders@[p])@
            == ladder(rv[remaining@[p] as int], outcomes@) by {
            assert(tied0[p] == remaining@[p] as int);
        }
    }
    let mut level: usize = 0;
    while level < max_levels
        invariant
            0 <= level <= max_levels,
            max_levels as int == maxl,
            maxl == max_ladder_len(rv, outcomes@, tied0),
            tied_indices@.len() != 1,
            tied0 == crate::outcome::usize_view(tied_indices@),
            rv == rankings_view(predictions@),
            rem_ladders@.len() == remaining@.len(),
            forall|p: int|
                0 <= p < remaining@.len() ==> (#[trigger] remaining@[p]) < predictions@.len(),
            forall|p: int|
                0 <= p < remaining@.len() ==> (#[trigger] rem_ladders@[p])@ == ladder(
                    rv[remaining@[p] as int],
                    outcomes@,
                ),
            tie_break_from(rv, outcomes@, tied0, 0, maxl) == tie_break_from(
                rv,
                outcomes@,
                crate::outcome::usize_view(remaining@),
                level as int,
                maxl,
            ),
        decreases max_levels - level,
    {
        let ghost remv = crate::outcome::usize_view(remaining@);
        // Maximum level value among the survivors.
        let mut maxv: u32 = 0;
        let mut p: usize = 0;
        while p < remaining.len()
            invariant
                0 <= p <= remaining@.len(),
                remv == crate::outcome::usize_view(remaining@),
                rem_ladders@.len() == remaining@.len(),
                forall|t: int|
                    0 <= t < remaining@.len() ==> (#[trigger] rem_ladders@[t])@ == ladder(
                        rv[remaining@[t] as int],
                        outcomes@,
                    ),
                maxv == level_max(rv, outcomes@, remv.take(p as int), level as int),
            decreases remaining@.len() - p,
        {
            proof {
                assert(remv.take(p as int + 1).drop_last() =~= remv.take(p as int));
            }
            let lv: u32 = if level < rem_ladders[p].len() {
                rem_ladders[p][level]
            } else {
                0
            };
            proof {
                assert(lv == level_value(ladder(rv[remv[p as int]], outcomes@), level as int));
            }
            if lv > maxv {
                maxv = lv;
            }
            p = p + 1;
        }
        proof {
            assert(remv.take(remv.len() as int) =~= remv);
        }
        // Keep only the candidates at the maximum.
        let mut next_rem: Vec<usize> = Vec::new();
        let mut next_lad: Vec<Vec<u32>> = Vec::new();
        let mut p2: usize = 0;
        while p2 < remaining.len()
            invariant
                0 <= p2 <= remaining@.len(),
                remv == crate::outcome::usize_view(remaining@),
                rem_ladders@.len() == remaining@.len(),
                forall|t: int|
                    0 <= t < remaining@.len() ==> (#[trigger] remaining@[t]) < predictions@.len(),
                forall|t: int|
                    0 <= t < remaining@.len() ==> (#[trigger] rem_ladders@[t])@ == ladder(
                        rv[remaining@[t] as int],
                        outcomes@,
                    ),
                crate::outcome::usize_view(next_rem@) == survivors_at(
                    rv,
                    outcomes@,
                    remv.take(p2 as int),
                    level as int,
                    maxv,
                ),
                next_lad@.len() == next_rem@.len(),
                forall|t: int|
                    0 <= t < next_rem@.len() ==> (#[trigger] next_rem@[t]) < predictions@.len(),
                forall|t: int|
                    0 <= t < next_rem@.len() ==> (#[trigger] next_lad@[t])@ == ladder(
                        rv[next_rem@[t] as int],
                        outcomes@,
                    ),
            decreases remaining@.len() - p2,
        {
            proof {
                assert(remv.take(p2 as int + 1).drop_last() =~= remv.take(p2 as int));
            }
            let lv: u32 = if level < rem_ladders[p2].len() {
                rem_ladders[p2][level]
            } else {
                0
            };
            proof {
                assert(lv == level_value(ladder(rv[remv[p2 as int]], outcomes@), level as int));
            }
            if lv == maxv {
                next_rem.push(remaining[p2]);
                let lad = copy_weights(&rem_ladders[p2]);
                next_lad.push(lad);
                proof {
                    assert(crate::outcome::usize_view(next_rem@) =~= survivors_at(
                        rv,
                        outcomes@,
                        remv.take(p2 as int),
                        level as int,
                        maxv,
                    ).push(remv[p2 as int]));
                    assert((next_lad@[next_lad@.len() - 1])@ == ladder(
                        rv[remaining@[p2 as int] as int],
                        outcomes@,
                    ));
                }
            }
            p2 = p2 + 1;
        }
        proof {
            assert(remv.take(remv.len() as int) =~= remv);
            assert(crate::outcome::usize_view(next_rem@) == survivors(
                rv,
                outcomes@,
                remv,
                level as int,
            ));
        }
        if next_rem.len() == 1 {
            proof {
                assert(tie_break_from(rv, outcomes@, remv, level as int, maxl) == Some(
                    crate::outcome::usize_view(next_rem@)[0],
                ));
                assert(tie_break_result(rv, outcomes@, tied0) == tie_break_from(
                    rv,
                    outcomes@,
                    tied0,
                    0,
                    maxl,
                ));
                assert(crate::outcome::usize_view(next_rem@)[0] == next_rem@[0] as int);
            }
            return Some(next_rem[0]);
        }
        remaining = next_rem;
        rem_ladders = next_lad;
        level = level + 1;
    }
    proof {
        assert(tie_break_from(
            rv,
            outcomes@,
            crate::outcome::usize_view(remaining@),
            level as int,
            maxl,
        ) is None);
        assert(tie_break_result(rv, outcomes@, tied0) == tie_break_from(
            rv,
            outcomes@,
            tied0,
            0,
            maxl,
        ));
    }
    None
}

} // verus!
