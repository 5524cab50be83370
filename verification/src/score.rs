//! Scoring: a contestant's point total for a full outcome assignment.
//!
//! An outcome assignment is a vector of `char`s, one per question: `'y'` for
//! a question resolved Yes, `'n'` for No (any other character also counts as
//! No for scoring). A contestant's score is the sum of their ranking weights
//! over exactly the questions resolved Yes.

use vstd::prelude::*;
use vstd::set_lib::{lemma_len_subset, lemma_int_range, set_int_range};
use crate::game::valid_ranking;

verus! {

/// Sum of a sequence of weights.
pub open spec fn seq_sum(s: Seq<u32>) -> int
    decreases s.len(),
{
    if s.len() == 0 {
        0
    } else {
        seq_sum(s.drop_last()) + s.last()
    }
}

/// The weights a ranking assigns to the questions that `outcome` resolves
/// Yes, in question order.
pub open spec fn correct_seq(ranking: Seq<u32>, outcome: Seq<char>) -> Seq<u32>
    decreases ranking.len(),
{
    if ranking.len() == 0 || outcome.len() == 0 {
        Seq::<u32>::empty()
    } else {
        let rest = correct_seq(ranking.drop_last(), outcome.drop_last());
        if outcome.last() == 'y' {
            rest.push(ranking.last())
        } else {
            rest
        }
    }
}

/// A contestant's score: the sum of the ranking weights at the Yes positions.
pub open spec fn points(ranking: Seq<u32>, outcome: Seq<char>) -> int {
    seq_sum(correct_seq(ranking, outcome))
}

pub proof fn lemma_seq_sum_push(s: Seq<u32>, x: u32)
    ensures
        seq_sum(s.push(x)) == seq_sum(s) + x,
{
    assert(s.push(x).drop_last() =~= s);
}

/// How one more question extends the correct-weight list and the score.
pub proof fn lemma_points_step(ranking: Seq<u32>, outcome: Seq<char>, i: int)
    requires
        ranking.len() == outcome.len(),
        0 <= i < ranking.len(),
    ensures
        correct_seq(ranking.take(i + 1), outcome.take(i + 1)) == if outcome[i] == 'y' {
            correct_seq(ranking.take(i), outcome.take(i)).push(ranking[i])
        } else {
            correct_seq(ranking.take(i), outcome.take(i))
        },
        points(ranking.take(i + 1), outcome.take(i + 1)) == points(ranking.take(i), outcome.take(i))
            + (if outcome[i] == 'y' {
            ranking[i] as int
        } else {
            0int
        }),
{
    let r1 = ranking.take(i + 1);
    let o1 = outcome.take(i + 1);
    assert(r1.drop_last() =~= ranking.take(i));
    assert(o1.drop_last() =~= outcome.take(i));
    assert(r1.last() == ranking[i]);
    assert(o1.last() == outcome[i]);
    if outcome[i] == 'y' {
        lemma_seq_sum_push(correct_seq(ranking.take(i), outcome.take(i)), ranking[i]);
    }
}

pub proof fn lemma_seq_sum_nonneg(s: Seq<u32>)
    ensures
        seq_sum(s) >= 0,
    decreases s.len(),
{
    if s.len() > 0 {
        lemma_seq_sum_nonneg(s.drop_last());
    }
}

/// A score is never negative.
pub proof fn lemma_points_nonneg(ranking: Seq<u32>, outcome: Seq<char>)
    ensures
        points(ranking, outcome) >= 0,
{
    lemma_seq_sum_nonneg(correct_seq(ranking, outcome));
}

/// The sum `1 + 2 + … + n`.
pub open spec fn triangle(n: int) -> int
    decreases n,
{
    if n <= 0 {
        0
    } else {
        triangle(n - 1) + n
    }
}

/// Law: an assignment with no Yes resolutions scores zero, whatever the
/// ranking.
pub proof fn lemma_score_all_no(ranking: Seq<u32>, outcome: Seq<char>)
    requires
        ranking.len() == outcome.len(),
        forall|q: int| 0 <= q < outcome.len() ==> outcome[q] != 'y',
    ensures
        points(ranking, outcome) == 0,
    decreases ranking.len(),
{
    if ranking.len() > 0 {
        lemma_score_all_no(ranking.drop_last(), outcome.drop_last());
    }
}

pub proof fn lemma_correct_all_yes(ranking: Seq<u32>, outcome: Seq<char>)
    requires
        ranking.len() == outcome.len(),
        forall|q: int| 0 <= q < outcome.len() ==> outcome[q] == 'y',
    ensures
        correct_seq(ranking, outcome) == ranking,
    decreases ranking.len(),
{
    if ranking.len() > 0 {
        lemma_correct_all_yes(ranking.drop_last(), outcome.drop_last());
        assert(correct_seq(ranking, outcome) =~= ranking);
    } else {
        assert(correct_seq(ranking, outcome) =~= ranking);
    }
}

pub proof fn lemma_seq_sum_remove(s: Seq<u32>, i: int)
    requires
        0 <= i < s.len(),
    ensures
        seq_sum(s.remove(i)) == seq_sum(s) - s[i],
    decreases s.len(),
{
    if i == s.len() - 1 {
        assert(s.remove(i) =~= s.drop_last());
    } else {
        assert(s.remove(i).drop_last() =~= s.drop_last().remove(i));
        assert(s.remove(i).last() == s.last());
        lemma_seq_sum_remove(s.drop_last(), i);
    }
}

/// A valid ranking of length `n` contains the weight `n` somewhere: were it
/// absent, `n` distinct weights would share the `n - 1` values `1..n`.
pub proof fn lemma_valid_ranking_has_top(r: Seq<u32>)
    requires
        valid_ranking(r),
        r.len() > 0,
    ensures
        exists|i: int| 0 <= i < r.len() && r[i] == r.len(),
{
    let n = r.len() as int;
    if !(exists|i: int| 0 <= i < r.len() && r[i] == r.len()) {
        let ints = r.map_values(|x: u32| x as int);
        assert(ints.no_duplicates()) by {
            assert forall|i: int, j: int|
                0 <= i < ints.len() && 0 <= j < ints.len() && i != j implies ints[i]
                != ints[j] by {
                assert(r[i] != r[j]);
            }
        }
        ints.unique_seq_to_set();
        assert(ints.to_set().subset_of(set_int_range(1, n))) by {
            assert forall|x: int| ints.to_set().contains(x) implies set_int_range(1, n).contains(
                x,
            ) by {
                let idx = choose|idx: int| 0 <= idx < ints.len() && ints[idx] == x;
                assert(1 <= r[idx] <= r.len());
                assert(r[idx] != r.len());
            }
        }
        lemma_int_range(1, n);
        lemma_len_subset(ints.to_set(), set_int_range(1, n));
        assert(false);
    }
}

/// The weights of a valid ranking of length `n` sum to `1 + 2 + … + n`.
pub proof fn lemma_valid_ranking_sum(r: Seq<u32>)
    requires
        valid_ranking(r),
    ensures
        seq_sum(r) == triangle(r.len() as int),
    decreases r.len(),
{
    if r.len() > 0 {
        lemma_valid_ranking_has_top(r);
        let i = choose|i: int| 0 <= i < r.len() && r[i] == r.len();
        let rest = r.remove(i);
        lemma_seq_sum_remove(r, i);
        assert(valid_ranking(rest)) by {
            assert forall|j: int| 0 <= j < rest.len() implies 1 <= #[trigger] rest[j]
                <= rest.len() by {
                if j < i {
                    assert(rest[j] == r[j]);
                    assert(r[j] != r[i]);
                } else {
                    assert(rest[j] == r[j + 1]);
                    assert(r[j + 1] != r[i]);
                }
            }
            assert forall|j1: int, j2: int| 0 <= j1 < j2 < rest.len() implies rest[j1]
                != rest[j2] by {
                if j2 < i {
                    assert(rest[j1] == r[j1] && rest[j2] == r[j2]);
                } else if j1 < i {
                    assert(rest[j1] == r[j1] && rest[j2] == r[j2 + 1]);
                } else {
                    assert(rest[j1] == r[j1 + 1] && rest[j2] == r[j2 + 1]);
                }
            }
        }
        lemma_valid_ranking_sum(rest);
    }
}

/// Law: on an all-Yes assignment a valid ranking scores exactly
/// `1 + 2 + … + N`.
pub proof fn lemma_score_all_yes(ranking: Seq<u32>, outcome: Seq<char>)
    requires
        valid_ranking(ranking),
        ranking.len() == outcome.len(),
        forall|q: int| 0 <= q < outcome.len() ==> outcome[q] == 'y',
    ensures
        points(ranking, outcome) == triangle(ranking.len() as int),
{
    lemma_correct_all_yes(ranking, outcome);
    lemma_valid_ranking_sum(ranking);
}

/// Score of a contestant for a full assignment.
///
/// The two slices are aligned by question index; the length bound keeps the
/// running sum inside `u64` (each weight is below `2^32`).
pub fn calculate_points(rankings: &Vec<u32>, outcomes: &Vec<char>) -> (total: u64)
    requires
        rankings@.len() == outcomes@.len(),
        rankings@.len() <= 0x1_0000_0000,
    ensures
        total as int == points(rankings@, outcomes@),
{
    let mut total: u64 = 0;
    let mut i: usize = 0;
    while i < rankings.len()
        invariant
            0 <= i <= rankings@.len(),
            rankings@.len() == outcomes@.len(),
            rankings@.len() <= 0x1_0000_0000,
            total as int == points(rankings@.take(i as int), outcomes@.take(i as int)),
            total as int <= i as int * 0xffff_ffffint,
        decreases rankings@.len() - i,
    {
        proof {
            lemma_points_step(rankings@, outcomes@, i as int);
        }
        if outcomes[i] == 'y' {
            total = total + rankings[i] as u64;
        }
        i = i + 1;
    }
    proof {
        assert(rankings@.take(rankings@.len() as int) =~= rankings@);
        assert(outcomes@.take(outcomes@.len() as int) =~= outcomes@);
    }
    total
}

} // verus!
