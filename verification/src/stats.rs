//! Aggregate statistics over the combination space, folded on the fly.
//!
//! One `Stats` value holds the running tallies for a share of the space:
//! per-contestant win counts and win-paths, tie counters, per-question
//! (yes, no) occurrence buckets, and win counts bucketed by how many open
//! questions came out Yes. Contestants are addressed by their index in the
//! prediction list; buckets are dense vectors. Two shares combine by
//! element-wise addition, which is associative and commutative, so a
//! partitioned run can merge its shares in any order.

use vstd::prelude::*;

verus! {

/// The mathematical value of a `Stats`: every counter as an integer.
#[verifier::ext_equal]
pub ghost struct StatsModel {
    pub winner_tally: Seq<int>,
    pub tie_broken_count: int,
    pub true_tie_count: int,
    pub true_ties_by_yes_count: Seq<int>,
    pub win_paths: Seq<int>,
    pub person_question_buckets: Seq<Seq<(int, int)>>,
    pub yes_buckets: Seq<Seq<int>>,
    pub true_tie_question_buckets: Seq<(int, int)>,
}

pub open spec fn zero_row(n: int) -> Seq<int> {
    Seq::new(n as nat, |i: int| 0int)
}

pub open spec fn zero_pair_row(n: int) -> Seq<(int, int)> {
    Seq::new(n as nat, |i: int| (0int, 0int))
}

pub open spec fn zero_pair_table(n: int, nq: int) -> Seq<Seq<(int, int)>> {
    Seq::new(n as nat, |c: int| zero_pair_row(nq))
}

pub open spec fn zero_table(n: int, nc: int) -> Seq<Seq<int>> {
    Seq::new(n as nat, |m: int| zero_row(nc))
}

/// The empty aggregate for `nc` contestants, `nq` questions and `nm` open
/// questions.
pub open spec fn empty_stats(nc: int, nq: int, nm: int) -> StatsModel {
    StatsModel {
        winner_tally: zero_row(nc),
        tie_broken_count: 0,
        true_tie_count: 0,
        true_ties_by_yes_count: zero_row(nm + 1),
        win_paths: zero_row(nc),
        person_question_buckets: zero_pair_table(nc, nq),
        yes_buckets: zero_table(nm + 1, nc),
        true_tie_question_buckets: zero_pair_row(nq),
    }
}

/// The dimensions of an aggregate.
pub open spec fn stats_shape(s: StatsModel, nc: int, nq: int, nm: int) -> bool {
    &&& s.winner_tally.len() == nc
    &&& s.win_paths.len() == nc
    &&& s.true_ties_by_yes_count.len() == nm + 1
    &&& s.person_question_buckets.len() == nc
    &&& forall|c: int| 0 <= c < nc ==> (#[trigger] s.person_question_buckets[c]).len() == nq
    &&& s.yes_buckets.len() == nm + 1
    &&& forall|m: int| 0 <= m < nm + 1 ==> (#[trigger] s.yes_buckets[m]).len() == nc
    &&& s.true_tie_question_buckets.len() == nq
}

/// Two aggregates cover the same dimensions.
pub open spec fn compatible(a: StatsModel, b: StatsModel) -> bool {
    &&& a.winner_tally.len() == b.winner_tally.len()
    &&& a.win_paths.len() == b.win_paths.len()
    &&& a.true_ties_by_yes_count.len() == b.true_ties_by_yes_count.len()
    &&& a.person_question_buckets.len() == b.person_question_buckets.len()
    &&& forall|c: int|
        0 <= c < a.person_question_buckets.len() ==> (#[trigger] a.person_question_buckets[
        c]).len() == b.person_question_buckets[c].len()
    &&& a.yes_buckets.len() == b.yes_buckets.len()
    &&& forall|m: int|
        0 <= m < a.yes_buckets.len() ==> (#[trigger] a.yes_buckets[m]).len()
            == b.yes_buckets[m].len()
    &&& a.true_tie_question_buckets.len() == b.true_tie_question_buckets.len()
}

pub open spec fn add_rows(a: Seq<int>, b: Seq<int>) -> Seq<int> {
    Seq::new(a.len(), |i: int| a[i] + b[i])
}

pub open spec fn add_pair_rows(a: Seq<(int, int)>, b: Seq<(int, int)>) -> Seq<(int, int)> {
    Seq::new(a.len(), |i: int| (a[i].0 + b[i].0, a[i].1 + b[i].1))
}

/// Element-wise sum of two aggregates.
pub open spec fn merge_stats(a: StatsModel, b: StatsModel) -> StatsModel {
    StatsModel {
        winner_tally: add_rows(a.winner_tally, b.winner_tally),
        tie_broken_count: a.tie_broken_count + b.tie_broken_count,
        true_tie_count: a.true_tie_count + b.true_tie_count,
        true_ties_by_yes_count: add_rows(a.true_ties_by_yes_count, b.true_ties_by_yes_count),
        win_paths: add_rows(a.win_paths, b.win_paths),
        person_question_buckets: Seq::new(
            a.person_question_buckets.len(),
            |c: int| add_pair_rows(a.person_question_buckets[c], b.person_question_buckets[c]),
        ),
        yes_buckets: Seq::new(
            a.yes_buckets.len(),
            |m: int| add_rows(a.yes_buckets[m], b.yes_buckets[m]),
        ),
        true_tie_question_buckets: add_pair_rows(
            a.true_tie_question_buckets,
            b.true_tie_question_buckets,
        ),
    }
}

/// Every counter of the aggregate lies in `0..=n`.
pub open spec fn stats_bounded(s: StatsModel, n: int) -> bool {
    &&& forall|c: int| 0 <= c < s.winner_tally.len() ==> 0 <= #[trigger] s.winner_tally[c] <= n
    &&& 0 <= s.tie_broken_count <= n
    &&& 0 <= s.true_tie_count <= n
    &&& forall|m: int|
        0 <= m < s.true_ties_by_yes_count.len() ==> 0 <= #[trigger] s.true_ties_by_yes_count[m]
            <= n
    &&& forall|c: int| 0 <= c < s.win_paths.len() ==> 0 <= #[trigger] s.win_paths[c] <= n
    &&& forall|c: int, q: int|
        0 <= c < s.person_question_buckets.len() && 0 <= q < s.person_question_buckets[c].len()
            ==> 0 <= (#[trigger] s.person_question_buckets[c][q]).0 <= n && 0
            <= s.person_question_buckets[c][q].1 <= n
    &&& forall|m: int, c: int|
        0 <= m < s.yes_buckets.len() && 0 <= c < s.yes_buckets[m].len() ==> 0
            <= #[trigger] s.yes_buckets[m][c] <= n
    &&& forall|q: int|
        0 <= q < s.true_tie_question_buckets.len() ==> 0 <= (
        #[trigger] s.true_tie_question_buckets[q]).0 <= n && 0 <= s.true_tie_question_buckets[q].1
            <= n
}

/// Merging two aggregates keeps every counter inside `u64`.
pub open spec fn merge_fits(a: StatsModel, b: StatsModel) -> bool {
    &&& forall|c: int|
        0 <= c < a.winner_tally.len() ==> (#[trigger] a.winner_tally[c]) + b.winner_tally[c]
            <= u64::MAX as int
    &&& a.tie_broken_count + b.tie_broken_count <= u64::MAX as int
    &&& a.true_tie_count + b.true_tie_count <= u64::MAX as int
    &&& forall|m: int|
        0 <= m < a.true_ties_by_yes_count.len() ==> (#[trigger] a.true_ties_by_yes_count[m])
            + b.true_ties_by_yes_count[m] <= u64::MAX as int
    &&& forall|c: int|
        0 <= c < a.win_paths.len() ==> (#[trigger] a.win_paths[c]) + b.win_paths[c] <= u64::MAX
            as int
    &&& forall|c: int, q: int|
        0 <= c < a.person_question_buckets.len() && 0 <= q < a.person_question_buckets[c].len()
            ==> (#[trigger] a.person_question_buckets[c][q]).0 + b.person_question_buckets[c][q].0
            <= u64::MAX as int && a.person_question_buckets[c][q].1
            + b.person_question_buckets[c][q].1 <= u64::MAX as int
    &&& forall|m: int, c: int|
        0 <= m < a.yes_buckets.len() && 0 <= c < a.yes_buckets[m].len() ==> (
        #[trigger] a.yes_buckets[m][c]) + b.yes_buckets[m][c] <= u64::MAX as int
    &&& forall|q: int|
        0 <= q < a.true_tie_question_buckets.len() ==> (
        #[trigger] a.true_tie_question_buckets[q]).0 + b.true_tie_question_buckets[q].0
            <= u64::MAX as int && a.true_tie_question_buckets[q].1
            + b.true_tie_question_buckets[q].1 <= u64::MAX as int
}

/// Merging is commutative: the two shares may arrive in either order.
pub proof fn lemma_merge_commutative(a: StatsModel, b: StatsModel)
    requires
        compatible(a, b),
    ensures
        merge_stats(a, b) == merge_stats(b, a),
{
    assert(merge_stats(a, b) =~~= merge_stats(b, a));
}

/// Merging is associative: shares may be grouped arbitrarily.
pub proof fn lemma_merge_associative(a: StatsModel, b: StatsModel, c: StatsModel)
    requires
        compatible(a, b),
        compatible(b, c),
    ensures
        merge_stats(a, merge_stats(b, c)) == merge_stats(merge_stats(a, b), c),
{
    assert(merge_stats(a, merge_stats(b, c)) =~~= merge_stats(merge_stats(a, b), c));
}

/// The empty aggregate is the identity of merging.
pub proof fn lemma_merge_empty(s: StatsModel, nc: int, nq: int, nm: int)
    requires
        stats_shape(s, nc, nq, nm),
    ensures
        merge_stats(empty_stats(nc, nq, nm), s) == s,
        merge_stats(s, empty_stats(nc, nq, nm)) == s,
{
    assert(merge_stats(empty_stats(nc, nq, nm), s) =~~= s);
    assert(merge_stats(s, empty_stats(nc, nq, nm)) =~~= s);
}

pub open spec fn view_row(v: Seq<u64>) -> Seq<int> {
    v.map_values(|x: u64| x as int)
}

pub open spec fn view_pair_row(v: Seq<(u64, u64)>) -> Seq<(int, int)> {
    v.map_values(|p: (u64, u64)| (p.0 as int, p.1 as int))
}

pub open spec fn view_table(t: Seq<Vec<u64>>) -> Seq<Seq<int>> {
    t.map_values(|r: Vec<u64>| view_row(r@))
}

pub open spec fn view_pair_table(t: Seq<Vec<(u64, u64)>>) -> Seq<Seq<(int, int)>> {
    t.map_values(|r: Vec<(u64, u64)>| view_pair_row(r@))
}

pub proof fn lemma_view_row_push(v: Seq<u64>, x: u64)
    ensures
        view_row(v.push(x)) == view_row(v).push(x as int),
{
    assert(view_row(v.push(x)) =~= view_row(v).push(x as int));
}

pub proof fn lemma_view_pair_row_push(v: Seq<(u64, u64)>, p: (u64, u64))
    ensures
        view_pair_row(v.push(p)) == view_pair_row(v).push((p.0 as int, p.1 as int)),
{
    assert(view_pair_row(v.push(p)) =~= view_pair_row(v).push((p.0 as int, p.1 as int)));
}

pub proof fn lemma_view_table_push(t: Seq<Vec<u64>>, r: Vec<u64>)
    ensures
        view_table(t.push(r)) == view_table(t).push(view_row(r@)),
{
    assert(view_table(t.push(r)) =~= view_table(t).push(view_row(r@)));
}

pub proof fn lemma_view_pair_table_push(t: Seq<Vec<(u64, u64)>>, r: Vec<(u64, u64)>)
    ensures
        view_pair_table(t.push(r)) == view_pair_table(t).push(view_pair_row(r@)),
{
    assert(view_pair_table(t.push(r)) =~= view_pair_table(t).push(view_pair_row(r@)));
}

pub proof fn lemma_zero_row_succ(n: int)
    requires
        n >= 0,
    ensures
        zero_row(n + 1) == zero_row(n).push(0int),
{
    assert(zero_row(n + 1) =~= zero_row(n).push(0int));
}

pub proof fn lemma_zero_pair_row_succ(n: int)
    requires
        n >= 0,
    ensures
        zero_pair_row(n + 1) == zero_pair_row(n).push((0int, 0int)),
{
    assert(zero_pair_row(n + 1) =~= zero_pair_row(n).push((0int, 0int)));
}

pub proof fn lemma_zero_pair_table_succ(n: int, nq: int)
    requires
        n >= 0,
    ensures
        zero_pair_table(n + 1, nq) == zero_pair_table(n, nq).push(zero_pair_row(nq)),
{
    assert(zero_pair_table(n + 1, nq) =~= zero_pair_table(n, nq).push(zero_pair_row(nq)));
}

pub proof fn lemma_zero_table_succ(n: int, nc: int)
    requires
        n >= 0,
    ensures
        zero_table(n + 1, nc) == zero_table(n, nc).push(zero_row(nc)),
{
    assert(zero_table(n + 1, nc) =~= zero_table(n, nc).push(zero_row(nc)));
}

pub proof fn lemma_view_row_update(v: Seq<u64>, i: int, x: u64)
    requires
        0 <= i < v.len(),
    ensures
        view_row(v.update(i, x)) == view_row(v).update(i, x as int),
{
    assert(view_row(v.update(i, x)) =~= view_row(v).update(i, x as int));
}

pub proof fn lemma_view_table_update(t: Seq<Vec<u64>>, i: int, r: Vec<u64>)
    requires
        0 <= i < t.len(),
    ensures
        view_table(t.update(i, r)) == view_table(t).update(i, view_row(r@)),
{
    assert(view_table(t.update(i, r)) =~= view_table(t).update(i, view_row(r@)));
}

pub proof fn lemma_view_pair_table_update(t: Seq<Vec<(u64, u64)>>, i: int, r: Vec<(u64, u64)>)
    requires
        0 <= i < t.len(),
    ensures
        view_pair_table(t.update(i, r)) == view_pair_table(t).update(i, view_pair_row(r@)),
{
    assert(view_pair_table(t.update(i, r)) =~= view_pair_table(t).update(i, view_pair_row(r@)));
}

pub proof fn lemma_take_succ<A>(s: Seq<A>, i: int)
    requires
        0 <= i < s.len(),
    ensures
        s.take(i + 1) == s.take(i).push(s[i]),
{
    assert(s.take(i + 1) =~= s.take(i).push(s[i]));
}

/// Aggregated statistics for one share of the combination space.
///
/// Contestants are addressed by index into the prediction list, questions by
/// index into the question list.
#[derive(Clone, Debug)]
pub struct Stats {
    /// Definitive wins per contestant (unique winner, or won the tie-break).
    pub winner_tally: Vec<u64>,
    /// Scenarios in which the tie-break determined the winner.
    pub tie_broken_count: u64,
    /// Scenarios in which the tie could not be broken: no winner.
    pub true_tie_count: u64,
    /// True ties bucketed by the number of open questions resolved Yes.
    pub true_ties_by_yes_count: Vec<u64>,
    /// Scenarios in which the contestant held the maximum score.
    pub win_paths: Vec<u64>,
    /// Per contestant, per question: (yes, no) occurrences among their wins.
    pub person_question_buckets: Vec<Vec<(u64, u64)>>,
    /// Per number of open questions resolved Yes: wins per contestant.
    pub yes_buckets: Vec<Vec<u64>>,
    /// Per question: (yes, no) occurrences among true-tie scenarios.
    pub true_tie_question_buckets: Vec<(u64, u64)>,
}

impl View for Stats {
    type V = StatsModel;

    open spec fn view(&self) -> StatsModel {
        StatsModel {
            winner_tally: view_row(self.winner_tally@),
            tie_broken_count: self.tie_broken_count as int,
            true_tie_count: self.true_tie_count as int,
            true_ties_by_yes_count: view_row(self.true_ties_by_yes_count@),
            win_paths: view_row(self.win_paths@),
            person_question_buckets: view_pair_table(self.person_question_buckets@),
            yes_buckets: view_table(self.yes_buckets@),
            true_tie_question_buckets: view_pair_row(self.true_tie_question_buckets@),
        }
    }
}

fn zero_counters(n: usize) -> (r: Vec<u64>)
    ensures
        view_row(r@) == zero_row(n as int),
{
    let mut r: Vec<u64> = Vec::new();
    proof {
        assert(view_row(r@) =~= zero_row(0));
    }
    let mut i: usize = 0;
    while i < n
        invariant
            0 <= i <= n,
            view_row(r@) == zero_row(i as int),
        decreases n - i,
    {
        let ghost r0 = r@;
        r.push(0);
        proof {
            lemma_view_row_push(r0, 0);
            lemma_zero_row_succ(i as int);
        }
        i = i + 1;
    }
    r
}

fn zero_pair_counters(n: usize) -> (r: Vec<(u64, u64)>)
    ensures
        view_pair_row(r@) == zero_pair_row(n as int),
{
    let mut r: Vec<(u64, u64)> = Vec::new();
    proof {
        assert(view_pair_row(r@) =~= zero_pair_row(0));
    }
    let mut i: usize = 0;
    while i < n
        invariant
            0 <= i <= n,
            view_pair_row(r@) == zero_pair_row(i as int),
        decreases n - i,
    {
        let ghost r0 = r@;
        r.push((0, 0));
        proof {
            lemma_view_pair_row_push(r0, (0, 0));
            lemma_zero_pair_row_succ(i as int);
        }
        i = i + 1;
    }
    r
}

impl Stats {
    /// The empty aggregate for the given dimensions.
    pub fn new(num_contestants: usize, num_questions: usize, num_maybes: usize) -> (s: Stats)
        requires
            num_maybes < usize::MAX,
        ensures
            s@ == empty_stats(num_contestants as int, num_questions as int, num_maybes as int),
    {
        let nc = num_contestants;
        let nq = num_questions;
        let nm = num_maybes;
        let mut person_question_buckets: Vec<Vec<(u64, u64)>> = Vec::new();
        proof {
            assert(view_pair_table(person_question_buckets@) =~= zero_pair_table(0, nq as int));
        }
        let mut c: usize = 0;
        while c < nc
            invariant
                0 <= c <= nc,
                view_pair_table(person_question_buckets@) == zero_pair_table(c as int, nq as int),
            decreases nc - c,
        {
            let ghost t0 = person_question_buckets@;
            let row = zero_pair_counters(nq);
            person_question_buckets.push(row);
            proof {
                lemma_view_pair_table_push(t0, row);
                lemma_zero_pair_table_succ(c as int, nq as int);
            }
            c = c + 1;
        }
        let mut yes_buckets: Vec<Vec<u64>> = Vec::new();
        proof {
            assert(view_table(yes_buckets@) =~= zero_table(0, nc as int));
        }
        let mut m: usize = 0;
        while m < nm + 1
            invariant
                0 <= m <= nm + 1,
                nm < usize::MAX,
                view_table(yes_buckets@) == zero_table(m as int, nc as int),
            decreases nm + 1 - m,
        {
            let ghost t0 = yes_buckets@;
            let row = zero_counters(nc);
            yes_buckets.push(row);
            proof {
                lemma_view_table_push(t0, row);
                lemma_zero_table_succ(m as int, nc as int);
            }
            m = m + 1;
        }
        let s = Stats {
            winner_tally: zero_counters(nc),
            tie_broken_count: 0,
            true_tie_count: 0,
            true_ties_by_yes_count: zero_counters(nm + 1),
            win_paths: zero_counters(nc),
            person_question_buckets,
            yes_buckets,
            true_tie_question_buckets: zero_pair_counters(nq),
        };
        proof {
            assert(s@ =~~= empty_stats(nc as int, nq as int, nm as int));
        }
        s
    }

    /// Combine two shares of the combination space by element-wise addition.
    pub fn merge(self, other: Stats) -> (r: Stats)
        requires
            compatible(self@, other@),
            merge_fits(self@, other@),
        ensures
            r@ == merge_stats(self@, other@),
    {
        let ghost av = self@;
        let ghost bv = other@;
        let Stats {
            winner_tally: a_wt,
            tie_broken_count: a_tb,
            true_tie_count: a_tt,
            true_ties_by_yes_count: a_tty,
            win_paths: a_wp,
            person_question_buckets: a_pqb,
            yes_buckets: a_yb,
            true_tie_question_buckets: a_ttq,
        } = self;
        let Stats {
            winner_tally: b_wt,
            tie_broken_count: b_tb,
            true_tie_count: b_tt,
            true_ties_by_yes_count: b_tty,
            win_paths: b_wp,
            person_question_buckets: b_pqb,
            yes_buckets: b_yb,
            true_tie_question_buckets: b_ttq,
        } = other;
        let ghost merged = merge_stats(av, bv);
        let mut person_question_buckets: Vec<Vec<(u64, u64)>> = Vec::new();
        proof {
            assert(merged.person_question_buckets.len() == a_pqb@.len());
            assert(view_pair_table(person_question_buckets@) =~= merged.person_question_buckets
                .take(0));
        }
        let mut c: usize = 0;
        while c < a_pqb.len()
            invariant
                0 <= c <= a_pqb@.len(),
                compatible(av, bv),
                merge_fits(av, bv),
                merged == merge_stats(av, bv),
                av.person_question_buckets == view_pair_table(a_pqb@),
                bv.person_question_buckets == view_pair_table(b_pqb@),
                merged.person_question_buckets.len() == a_pqb@.len(),
                view_pair_table(person_question_buckets@) == merged.person_question_buckets.take(
                    c as int,
                ),
            decreases a_pqb@.len() - c,
        {
            proof {
                assert(view_pair_row(a_pqb@[c as int]@) == av.person_question_buckets[c as int]);
                assert(view_pair_row(b_pqb@[c as int]@) == bv.person_question_buckets[c as int]);
                assert(av.person_question_buckets[c as int].len()
                    == bv.person_question_buckets[c as int].len());
                assert forall|i: int|
                    0 <= i < a_pqb@[c as int]@.len() implies (#[trigger] a_pqb@[c as int]@[i]).0
                    + b_pqb@[c as int]@[i].0 <= u64::MAX && a_pqb@[c as int]@[i].1 + b_pqb@[
                    c as int]@[i].1 <= u64::MAX by {
                    assert(av.person_question_buckets[c as int][i] == (
                        a_pqb@[c as int]@[i].0 as int,
                        a_pqb@[c as int]@[i].1 as int,
                    ));
                    assert(bv.person_question_buckets[c as int][i] == (
                        b_pqb@[c as int]@[i].0 as int,
                        b_pqb@[c as int]@[i].1 as int,
                    ));
                }
            }
            let ghost t0 = person_question_buckets@;
            let row = merge_pairs(&a_pqb[c], &b_pqb[c]);
            person_question_buckets.push(row);
            proof {
                lemma_view_pair_table_push(t0, row);
                lemma_take_succ(merged.person_question_buckets, c as int);
                assert(merged.person_question_buckets[c as int] == add_pair_rows(
                    av.person_question_buckets[c as int],
                    bv.person_question_buckets[c as int],
                ));
            }
            c = c + 1;
        }
        proof {
            assert(merged.person_question_buckets.take(a_pqb@.len() as int)
                =~= merged.person_question_buckets);
        }
        let mut yes_buckets: Vec<Vec<u64>> = Vec::new();
        proof {
            assert(merged.yes_buckets.len() == a_yb@.len());
            assert(view_table(yes_buckets@) =~= merged.yes_buckets.take(0));
        }
        let mut m2: usize = 0;
        while m2 < a_yb.len()
            invariant
                0 <= m2 <= a_yb@.len(),
                compatible(av, bv),
                merge_fits(av, bv),
                merged == merge_stats(av, bv),
                av.yes_buckets == view_table(a_yb@),
                bv.yes_buckets == view_table(b_yb@),
                merged.yes_buckets.len() == a_yb@.len(),
                view_table(yes_buckets@) == merged.yes_buckets.take(m2 as int),
            decreases a_yb@.len() - m2,
        {
            proof {
                assert(view_row(a_yb@[m2 as int]@) == av.yes_buckets[m2 as int]);
                assert(view_row(b_yb@[m2 as int]@) == bv.yes_buckets[m2 as int]);
                assert(av.yes_buckets[m2 as int].len() == bv.yes_buckets[m2 as int].len());
                assert forall|i: int|
                    0 <= i < a_yb@[m2 as int]@.len() implies a_yb@[m2 as int]@[i] + b_yb@[
                    m2 as int]@[i] <= u64::MAX by {
                    assert(av.yes_buckets[m2 as int][i] == a_yb@[m2 as int]@[i] as int);
                    assert(bv.yes_buckets[m2 as int][i] == b_yb@[m2 as int]@[i] as int);
                }
            }
            let ghost t0 = yes_buckets@;
            let row = merge_counter_rows(&a_yb[m2], &b_yb[m2]);
            yes_buckets.push(row);
            proof {
                lemma_view_table_push(t0, row);
                lemma_take_succ(merged.yes_buckets, m2 as int);
                assert(merged.yes_buckets[m2 as int] == add_rows(
                    av.yes_buckets[m2 as int],
                    bv.yes_buckets[m2 as int],
                ));
            }
            m2 = m2 + 1;
        }
        proof {
            assert(merged.yes_buckets.take(a_yb@.len() as int) =~= merged.yes_buckets);
            assert forall|i: int| 0 <= i < a_wt@.len() implies a_wt@[i] + b_wt@[i] <= u64::MAX by {
                assert(av.winner_tally[i] == a_wt@[i] as int);
                assert(bv.winner_tally[i] == b_wt@[i] as int);
            }
            assert forall|i: int| 0 <= i < a_tty@.len() implies a_tty@[i] + b_tty@[i]
                <= u64::MAX by {
                assert(av.true_ties_by_yes_count[i] == a_tty@[i] as int);
                assert(bv.true_ties_by_yes_count[i] == b_tty@[i] as int);
            }
            assert forall|i: int| 0 <= i < a_wp@.len() implies a_wp@[i] + b_wp@[i] <= u64::MAX by {
                assert(av.win_paths[i] == a_wp@[i] as int);
                assert(bv.win_paths[i] == b_wp@[i] as int);
            }
            assert forall|i: int|
                0 <= i < a_ttq@.len() implies (#[trigger] a_ttq@[i]).0 + b_ttq@[i].0 <= u64::MAX
                && a_ttq@[i].1 + b_ttq@[i].1 <= u64::MAX by {
                assert(av.true_tie_question_buckets[i] == (a_ttq@[i].0 as int, a_ttq@[i].1 as int));
                assert(bv.true_tie_question_buckets[i] == (b_ttq@[i].0 as int, b_ttq@[i].1 as int));
            }
        }
        let r = Stats {
            winner_tally: merge_counter_rows(&a_wt, &b_wt),
            tie_broken_count: a_tb + b_tb,
            true_tie_count: a_tt + b_tt,
            true_ties_by_yes_count: merge_counter_rows(&a_tty, &b_tty),
            win_paths: merge_counter_rows(&a_wp, &b_wp),
            person_question_buckets,
            yes_buckets,
            true_tie_question_buckets: merge_pairs(&a_ttq, &b_ttq),
        };
        proof {
            assert(r@ =~~= merge_stats(av, bv));
        }
        r
    }
}

/// Whether two counter rows have the same length and sum without overflow.
fn rows_fit(a: &Vec<u64>, b: &Vec<u64>) -> (ok: bool)
    ensures
        ok <==> (a@.len() == b@.len() && (forall|i: int|
            0 <= i < a@.len() ==> (#[trigger] a@[i]) + b@[i] <= u64::MAX)),
{
    if a.len() != b.len() {
        return false;
    }
    let mut i: usize = 0;
    while i < a.len()
        invariant
            0 <= i <= a@.len(),
            a@.len() == b@.len(),
            forall|t: int| 0 <= t < i ==> (#[trigger] a@[t]) + b@[t] <= u64::MAX,
        decreases a@.len() - i,
    {
        if a[i] > u64::MAX - b[i] {
            return false;
        }
        i = i + 1;
    }
    true
}

/// Whether two (yes, no) rows have the same length and sum without overflow.
fn pair_rows_fit(a: &Vec<(u64, u64)>, b: &Vec<(u64, u64)>) -> (ok: bool)
    ensures
        ok <==> (a@.len() == b@.len() && (forall|i: int|
            0 <= i < a@.len() ==> (#[trigger] a@[i]).0 + b@[i].0 <= u64::MAX && a@[i].1 + b@[i].1
                <= u64::MAX)),
{
    if a.len() != b.len() {
        return false;
    }
    let mut i: usize = 0;
    while i < a.len()
        invariant
            0 <= i <= a@.len(),
            a@.len() == b@.len(),
            forall|t: int|
                0 <= t < i ==> (#[trigger] a@[t]).0 + b@[t].0 <= u64::MAX && a@[t].1 + b@[t].1
                    <= u64::MAX,
        decreases a@.len() - i,
    {
        let pa = a[i];
        let pb = b[i];
        if pa.0 > u64::MAX - pb.0 || pa.1 > u64::MAX - pb.1 {
            return false;
        }
        i = i + 1;
    }
    true
}

/// Merge two shares after checking at run time that their dimensions match
/// and that no counter overflows; reports `None` when they do not.
///
/// An unverified caller that cannot establish `merge`'s precondition itself
/// calls this instead.
pub fn merge_checked(a: Stats, b: Stats) -> (r: Option<Stats>)
    ensures
        match r {
            Some(s) => compatible(a@, b@) && merge_fits(a@, b@) && s@ == merge_stats(a@, b@),
            None => !(compatible(a@, b@) && merge_fits(a@, b@)),
        },
{
    let ghost av = a@;
    let ghost bv = b@;
    if !rows_fit(&a.winner_tally, &b.winner_tally) {
        proof {
            assert(!(compatible(av, bv) && merge_fits(av, bv))) by {
                if compatible(av, bv) && merge_fits(av, bv) {
                    assert forall|i: int|
                        0 <= i < a.winner_tally@.len() implies (#[trigger] a.winner_tally@[i])
                        + b.winner_tally@[i] <= u64::MAX by {
                        assert(av.winner_tally[i] == a.winner_tally@[i] as int);
                        assert(bv.winner_tally[i] == b.winner_tally@[i] as int);
                    }
                }
            }
        }
        return None;
    }
    if a.tie_broken_count > u64::MAX - b.tie_broken_count {
        return None;
    }
    if a.true_tie_count > u64::MAX - b.true_tie_count {
        return None;
    }
    if !rows_fit(&a.true_ties_by_yes_count, &b.true_ties_by_yes_count) {
        proof {
            assert(!(compatible(av, bv) && merge_fits(av, bv))) by {
                if compatible(av, bv) && merge_fits(av, bv) {
                    assert forall|i: int|
                        0 <= i < a.true_ties_by_yes_count@.len() implies (
                    #[trigger] a.true_ties_by_yes_count@[i]) + b.true_ties_by_yes_count@[i]
                        <= u64::MAX by {
                        assert(av.true_ties_by_yes_count[i] == a.true_ties_by_yes_count@[i]
                            as int);
                        assert(bv.true_ties_by_yes_count[i] == b.true_ties_by_yes_count@[i]
                            as int);
                    }
                }
            }
        }
        return None;
    }
    if !rows_fit(&a.win_paths, &b.win_paths) {
        proof {
            assert(!(compatible(av, bv) && merge_fits(av, bv))) by {
                if compatible(av, bv) && merge_fits(av, bv) {
                    assert forall|i: int|
                        0 <= i < a.win_paths@.len() implies (#[trigger] a.win_paths@[i])
                        + b.win_paths@[i] <= u64::MAX by {
                        assert(av.win_paths[i] == a.win_paths@[i] as int);
                        assert(bv.win_paths[i] == b.win_paths@[i] as int);
                    }
                }
            }
        }
        return None;
    }
    if a.person_question_buckets.len() != b.person_question_buckets.len() {
        return None;
    }
    let mut c: usize = 0;
    while c < a.person_question_buckets.len()
        invariant
            0 <= c <= a.person_question_buckets@.len(),
            a.person_question_buckets@.len() == b.person_question_buckets@.len(),
            av == a@,
            bv == b@,
            forall|t: int|
                0 <= t < c ==> (#[trigger] a.person_question_buckets@[t])@.len()
                    == b.person_question_buckets@[t]@.len() && (forall|i: int|
                    0 <= i < a.person_question_buckets@[t]@.len() ==> (
                    #[trigger] a.person_question_buckets@[t]@[i]).0
                        + b.person_question_buckets@[t]@[i].0 <= u64::MAX
                        && a.person_question_buckets@[t]@[i].1
                        + b.person_question_buckets@[t]@[i].1 <= u64::MAX),
        decreases a.person_question_buckets@.len() - c,
    {
        if !pair_rows_fit(&a.person_question_buckets[c], &b.person_question_buckets[c]) {
            proof {
                assert(!(compatible(av, bv) && merge_fits(av, bv))) by {
                    if compatible(av, bv) && merge_fits(av, bv) {
                        assert(av.person_question_buckets[c as int] == view_pair_row(
                            a.person_question_buckets@[c as int]@,
                        ));
                        assert(bv.person_question_buckets[c as int] == view_pair_row(
                            b.person_question_buckets@[c as int]@,
                        ));
                        assert(a.person_question_buckets@[c as int]@.len()
                            == b.person_question_buckets@[c as int]@.len());
                        assert forall|i: int|
                            0 <= i < a.person_question_buckets@[c as int]@.len() implies (
                        #[trigger] a.person_question_buckets@[c as int]@[i]).0
                            + b.person_question_buckets@[c as int]@[i].0 <= u64::MAX
                            && a.person_question_buckets@[c as int]@[i].1
                            + b.person_question_buckets@[c as int]@[i].1 <= u64::MAX by {
                            assert(av.person_question_buckets[c as int][i] == (
                                a.person_question_buckets@[c as int]@[i].0 as int,
                                a.person_question_buckets@[c as int]@[i].1 as int,
                            ));
                            assert(bv.person_question_buckets[c as int][i] == (
                                b.person_question_buckets@[c as int]@[i].0 as int,
                                b.person_question_buckets@[c as int]@[i].1 as int,
                            ));
                        }
                    }
                }
            }
            return None;
        }
        c = c + 1;
    }
    if a.yes_buckets.len() != b.yes_buckets.len() {
        return None;
    }
    let mut m: usize = 0;
    while m < a.yes_buckets.len()
        invariant
            0 <= m <= a.yes_buckets@.len(),
            a.yes_buckets@.len() == b.yes_buckets@.len(),
            av == a@,
            bv == b@,
            forall|t: int|
                0 <= t < m ==> (#[trigger] a.yes_buckets@[t])@.len() == b.yes_buckets@[t]@.len()
                    && (forall|i: int|
                    0 <= i < a.yes_buckets@[t]@.len() ==> (#[trigger] a.yes_buckets@[t]@[i])
                        + b.yes_buckets@[t]@[i] <= u64::MAX),
        decreases a.yes_buckets@.len() - m,
    {
        if !rows_fit(&a.yes_buckets[m], &b.yes_buckets[m]) {
            proof {
                assert(!(compatible(av, bv) && merge_fits(av, bv))) by {
                    if compatible(av, bv) && merge_fits(av, bv) {
                        assert(av.yes_buckets[m as int] == view_row(a.yes_buckets@[m as int]@));
                        assert(bv.yes_buckets[m as int] == view_row(b.yes_buckets@[m as int]@));
                        assert(a.yes_buckets@[m as int]@.len() == b.yes_buckets@[m as int]@.len());
                        assert forall|i: int|
                            0 <= i < a.yes_buckets@[m as int]@.len() implies (
                        #[trigger] a.yes_buckets@[m as int]@[i]) + b.yes_buckets@[m as int]@[i]
                            <= u64::MAX by {
                            assert(av.yes_buckets[m as int][i] == a.yes_buckets@[m as int]@[i]
                                as int);
                            assert(bv.yes_buckets[m as int][i] == b.yes_buckets@[m as int]@[i]
                                as int);
                        }
                    }
                }
            }
            return None;
        }
        m = m + 1;
    }
    if !pair_rows_fit(&a.true_tie_question_buckets, &b.true_tie_question_buckets) {
        proof {
            assert(!(compatible(av, bv) && merge_fits(av, bv))) by {
                if compatible(av, bv) && merge_fits(av, bv) {
                    assert forall|i: int|
                        0 <= i < a.true_tie_question_buckets@.len() implies (
                    #[trigger] a.true_tie_question_buckets@[i]).0 + b.true_tie_question_buckets@[
                    i].0 <= u64::MAX && a.true_tie_question_buckets@[i].1
                        + b.true_tie_question_buckets@[i].1 <= u64::MAX by {
                        assert(av.true_tie_question_buckets[i] == (
                            a.true_tie_question_buckets@[i].0 as int,
                            a.true_tie_question_buckets@[i].1 as int,
                        ));
                        assert(bv.true_tie_question_buckets[i] == (
                            b.true_tie_question_buckets@[i].0 as int,
                            b.true_tie_question_buckets@[i].1 as int,
                        ));
                    }
                }
            }
        }
        return None;
    }
    proof {
        assert(compatible(av, bv)) by {
            assert forall|t: int|
                0 <= t < av.person_question_buckets.len() implies (
            #[trigger] av.person_question_buckets[t]).len() == bv.person_question_buckets[t].len()
                by {
                assert(av.person_question_buckets[t] == view_pair_row(
                    a.person_question_buckets@[t]@,
                ));
                assert(bv.person_question_buckets[t] == view_pair_row(
                    b.person_question_buckets@[t]@,
                ));
            }
            assert forall|t: int|
                0 <= t < av.yes_buckets.len() implies (#[trigger] av.yes_buckets[t]).len()
                == bv.yes_buckets[t].len() by {
                assert(av.yes_buckets[t] == view_row(a.yes_buckets@[t]@));
                assert(bv.yes_buckets[t] == view_row(b.yes_buckets@[t]@));
            }
        }
        assert(merge_fits(av, bv)) by {
            assert forall|i: int|
                0 <= i < av.winner_tally.len() implies (#[trigger] av.winner_tally[i])
                + bv.winner_tally[i] <= u64::MAX as int by {
                assert(av.winner_tally[i] == a.winner_tally@[i] as int);
                assert(bv.winner_tally[i] == b.winner_tally@[i] as int);
            }
            assert forall|i: int|
                0 <= i < av.true_ties_by_yes_count.len() implies (
            #[trigger] av.true_ties_by_yes_count[i]) + bv.true_ties_by_yes_count[i] <= u64::MAX
                as int by {
                assert(av.true_ties_by_yes_count[i] == a.true_ties_by_yes_count@[i] as int);
                assert(bv.true_ties_by_yes_count[i] == b.true_ties_by_yes_count@[i] as int);
            }
            assert forall|i: int|
                0 <= i < av.win_paths.len() implies (#[trigger] av.win_paths[i]) + bv.win_paths[i]
                <= u64::MAX as int by {
                assert(av.win_paths[i] == a.win_paths@[i] as int);
                assert(bv.win_paths[i] == b.win_paths@[i] as int);
            }
            assert forall|t: int, i: int|
                0 <= t < av.person_question_buckets.len() && 0 <= i
                    < av.person_question_buckets[t].len() implies (
            #[trigger] av.person_question_buckets[t][i]).0 + bv.person_question_buckets[t][i].0
                <= u64::MAX as int && av.person_question_buckets[t][i].1
                + bv.person_question_buckets[t][i].1 <= u64::MAX as int by {
                assert(av.person_question_buckets[t][i] == (
                    a.person_question_buckets@[t]@[i].0 as int,
                    a.person_question_buckets@[t]@[i].1 as int,
                ));
                assert(bv.person_question_buckets[t][i] == (
                    b.person_question_buckets@[t]@[i].0 as int,
                    b.person_question_buckets@[t]@[i].1 as int,
                ));
            }
            assert forall|t: int, i: int|
                0 <= t < av.yes_buckets.len() && 0 <= i < av.yes_buckets[t].len() implies (
            #[trigger] av.yes_buckets[t][i]) + bv.yes_buckets[t][i] <= u64::MAX as int by {
                assert(av.yes_buckets[t][i] == a.yes_buckets@[t]@[i] as int);
                assert(bv.yes_buckets[t][i] == b.yes_buckets@[t]@[i] as int);
            }
            assert forall|i: int|
                0 <= i < av.true_tie_question_buckets.len() implies (
            #[trigger] av.true_tie_question_buckets[i]).0 + bv.true_tie_question_buckets[i].0
                <= u64::MAX as int && av.true_tie_question_buckets[i].1
                + bv.true_tie_question_buckets[i].1 <= u64::MAX as int by {
                assert(av.true_tie_question_buckets[i] == (
                    a.true_tie_question_buckets@[i].0 as int,
                    a.true_tie_question_buckets@[i].1 as int,
                ));
                assert(bv.true_tie_question_buckets[i] == (
                    b.true_tie_question_buckets@[i].0 as int,
                    b.true_tie_question_buckets@[i].1 as int,
                ));
            }
        }
    }
    Some(a.merge(b))
}

/// Element-wise sum of two counter rows.
fn merge_counter_rows(a: &Vec<u64>, b: &Vec<u64>) -> (r: Vec<u64>)
    requires
        a@.len() == b@.len(),
        forall|i: int| 0 <= i < a@.len() ==> a@[i] + b@[i] <= u64::MAX,
    ensures
        view_row(r@) == add_rows(view_row(a@), view_row(b@)),
{
    let ghost s = add_rows(view_row(a@), view_row(b@));
    let mut r: Vec<u64> = Vec::new();
    proof {
        assert(s.len() == a@.len());
        assert(view_row(r@) =~= s.take(0));
    }
    let mut i: usize = 0;
    while i < a.len()
        invariant
            0 <= i <= a@.len(),
            a@.len() == b@.len(),
            s == add_rows(view_row(a@), view_row(b@)),
            s.len() == a@.len(),
            forall|t: int| 0 <= t < a@.len() ==> a@[t] + b@[t] <= u64::MAX,
            view_row(r@) == s.take(i as int),
        decreases a@.len() - i,
    {
        let ghost r0 = r@;
        r.push(a[i] + b[i]);
        proof {
            lemma_view_row_push(r0, (a@[i as int] + b@[i as int]) as u64);
            lemma_take_succ(s, i as int);
            assert(s[i as int] == a@[i as int] + b@[i as int]);
        }
        i = i + 1;
    }
    proof {
        assert(s.take(s.len() as int) =~= s);
    }
    r
}

/// Element-wise sum of two (yes, no) pair rows.
fn merge_pairs(a: &Vec<(u64, u64)>, b: &Vec<(u64, u64)>) -> (r: Vec<(u64, u64)>)
    requires
        a@.len() == b@.len(),
        forall|i: int|
            0 <= i < a@.len() ==> (#[trigger] a@[i]).0 + b@[i].0 <= u64::MAX && a@[i].1 + b@[i].1
                <= u64::MAX,
    ensures
        view_pair_row(r@) == add_pair_rows(view_pair_row(a@), view_pair_row(b@)),
{
    let ghost s = add_pair_rows(view_pair_row(a@), view_pair_row(b@));
    let mut r: Vec<(u64, u64)> = Vec::new();
    proof {
        assert(s.len() == a@.len());
        assert(view_pair_row(r@) =~= s.take(0));
    }
    let mut i: usize = 0;
    while i < a.len()
        invariant
            0 <= i <= a@.len(),
            a@.len() == b@.len(),
            s == add_pair_rows(view_pair_row(a@), view_pair_row(b@)),
            s.len() == a@.len(),
            forall|t: int|
                0 <= t < a@.len() ==> (#[trigger] a@[t]).0 + b@[t].0 <= u64::MAX && a@[t].1
                    + b@[t].1 <= u64::MAX,
            view_pair_row(r@) == s.take(i as int),
        decreases a@.len() - i,
    {
        let pa = a[i];
        let pb = b[i];
        let ghost r0 = r@;
        r.push((pa.0 + pb.0, pa.1 + pb.1));
        proof {
            lemma_view_pair_row_push(r0, ((pa.0 + pb.0) as u64, (pa.1 + pb.1) as u64));
            lemma_take_succ(s, i as int);
            assert(s[i as int] == (pa.0 + pb.0, pa.1 + pb.1));
        }
        i = i + 1;
    }
    proof {
        assert(s.take(s.len() as int) =~= s);
    }
    r
}

} // verus!
