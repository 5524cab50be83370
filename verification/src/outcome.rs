//! The outcome space: which questions are still open, and how a combination
//! index selects one full assignment.
//!
//! A base outcome vector holds `'y'`, `'n'`, or `'m'` (maybe) per question.
//! The open questions are the `'m'` positions, in index order. With `k` open
//! questions, the combination space is `0..2^k`: bit `b` of a combination
//! index resolves the `b`-th open question, Yes if set, No if clear.

use vstd::prelude::*;

verus! {

/// Number of questions a vector resolves Yes.
pub open spec fn yes_count(outcome: Seq<char>) -> int
    decreases outcome.len(),
{
    if outcome.len() == 0 {
        0
    } else {
        yes_count(outcome.drop_last()) + if outcome.last() == 'y' {
            1int
        } else {
            0int
        }
    }
}

/// The positions still unresolved, in ascending order.
pub open spec fn maybe_positions(outcome: Seq<char>) -> Seq<int>
    decreases outcome.len(),
{
    if outcome.len() == 0 {
        Seq::<int>::empty()
    } else {
        let rest = maybe_positions(outcome.drop_last());
        if outcome.last() == 'm' {
            rest.push(outcome.len() - 1)
        } else {
            rest
        }
    }
}

/// The full assignment selected by a combination index: each slot in turn is
/// overwritten from the next-lowest bit of the index.
pub open spec fn assignment(outcome: Seq<char>, slots: Seq<int>, bits: nat) -> Seq<char>
    decreases slots.len(),
{
    if slots.len() == 0 {
        outcome
    } else {
        let c = if bits % 2 == 1 {
            'y'
        } else {
            'n'
        };
        assignment(outcome.update(slots.first(), c), slots.drop_first(), bits / 2)
    }
}

/// A sequence of indices, as mathematical integers.
pub open spec fn usize_view(s: Seq<usize>) -> Seq<int> {
    s.map_values(|u: usize| u as int)
}

pub proof fn lemma_yes_count_step(outcome: Seq<char>, i: int)
    requires
        0 <= i < outcome.len(),
    ensures
        yes_count(outcome.take(i + 1)) == yes_count(outcome.take(i)) + if outcome[i] == 'y' {
            1int
        } else {
            0int
        },
{
    assert(outcome.take(i + 1).drop_last() =~= outcome.take(i));
}

pub proof fn lemma_yes_count_bounds(outcome: Seq<char>)
    ensures
        0 <= yes_count(outcome) <= outcome.len(),
    decreases outcome.len(),
{
    if outcome.len() > 0 {
        lemma_yes_count_bounds(outcome.drop_last());
    }
}

pub proof fn lemma_maybe_positions_step(outcome: Seq<char>, i: int)
    requires
        0 <= i < outcome.len(),
    ensures
        maybe_positions(outcome.take(i + 1)) == if outcome[i] == 'm' {
            maybe_positions(outcome.take(i)).push(i)
        } else {
            maybe_positions(outcome.take(i))
        },
{
    assert(outcome.take(i + 1).drop_last() =~= outcome.take(i));
}

/// The open positions are in range, strictly increasing, and all marked `'m'`.
pub proof fn lemma_maybe_positions_props(outcome: Seq<char>)
    ensures
        forall|j: int|
            0 <= j < maybe_positions(outcome).len() ==> 0 <= #[trigger] maybe_positions(outcome)[j]
                < outcome.len() && outcome[maybe_positions(outcome)[j]] == 'm',
        forall|j1: int, j2: int|
            0 <= j1 < j2 < maybe_positions(outcome).len() ==> maybe_positions(outcome)[j1]
                < maybe_positions(outcome)[j2],
        maybe_positions(outcome).len() <= outcome.len(),
    decreases outcome.len(),
{
    if outcome.len() > 0 {
        lemma_maybe_positions_props(outcome.drop_last());
        let pre = maybe_positions(outcome.drop_last());
        assert(forall|j: int|
            0 <= j < pre.len() ==> 0 <= #[trigger] pre[j] < outcome.len() - 1 && outcome.drop_last()[pre[j]]
                == 'm');
        assert(forall|j: int| 0 <= j < pre.len() ==> outcome[#[trigger] pre[j]] == outcome.drop_last()[pre[j]]);
    }
}

/// Yes-counts after a single-position overwrite.
pub proof fn lemma_yes_count_update(outcome: Seq<char>, p: int, c: char)
    requires
        0 <= p < outcome.len(),
    ensures
        yes_count(outcome.update(p, c)) == yes_count(outcome) - (if outcome[p] == 'y' {
            1int
        } else {
            0int
        }) + (if c == 'y' {
            1int
        } else {
            0int
        }),
    decreases outcome.len(),
{
    let u = outcome.update(p, c);
    if p == outcome.len() - 1 {
        assert(u.drop_last() =~= outcome.drop_last());
        assert(u.last() == c);
    } else {
        assert(u.drop_last() =~= outcome.drop_last().update(p, c));
        assert(u.last() == outcome.last());
        lemma_yes_count_update(outcome.drop_last(), p, c);
    }
}

/// Filling the open slots keeps every already-known Yes and adds at most one
/// Yes per slot; the assignment covers the same questions.
pub proof fn lemma_assignment_yes_count(outcome: Seq<char>, slots: Seq<int>, bits: nat)
    requires
        forall|j: int|
            0 <= j < slots.len() ==> 0 <= #[trigger] slots[j] < outcome.len() && outcome[slots[j]]
                == 'm',
        forall|j1: int, j2: int| 0 <= j1 < j2 < slots.len() ==> slots[j1] != slots[j2],
    ensures
        assignment(outcome, slots, bits).len() == outcome.len(),
        yes_count(outcome) <= yes_count(assignment(outcome, slots, bits)) <= yes_count(outcome)
            + slots.len(),
    decreases slots.len(),
{
    if slots.len() > 0 {
        let c = if bits % 2 == 1 {
            'y'
        } else {
            'n'
        };
        let updated = outcome.update(slots.first(), c);
        lemma_yes_count_update(outcome, slots.first(), c);
        assert(forall|j: int|
            0 <= j < slots.drop_first().len() ==> 0 <= #[trigger] slots.drop_first()[j]
                < updated.len() && updated[slots.drop_first()[j]] == 'm');
        lemma_assignment_yes_count(updated, slots.drop_first(), bits / 2);
    }
}

/// The indices of the still-unresolved questions, in ascending order.
pub fn unresolved_indices(outcomes: &Vec<char>) -> (r: Vec<usize>)
    ensures
        usize_view(r@) == maybe_positions(outcomes@),
{
    let mut r: Vec<usize> = Vec::new();
    let mut q: usize = 0;
    while q < outcomes.len()
        invariant
            0 <= q <= outcomes@.len(),
            usize_view(r@) == maybe_positions(outcomes@.take(q as int)),
        decreases outcomes@.len() - q,
    {
        proof {
            lemma_maybe_positions_step(outcomes@, q as int);
        }
        if outcomes[q] == 'm' {
            r.push(q);
            proof {
                assert(usize_view(r@) =~= maybe_positions(outcomes@.take(q as int)).push(q as int));
            }
        }
        q = q + 1;
    }
    proof {
        assert(outcomes@.take(outcomes@.len() as int) =~= outcomes@);
    }
    r
}

/// Number of questions a vector already resolves Yes.
pub fn count_yes(outcomes: &Vec<char>) -> (n: usize)
    ensures
        n as int == yes_count(outcomes@),
{
    let mut n: usize = 0;
    let mut q: usize = 0;
    while q < outcomes.len()
        invariant
            0 <= q <= outcomes@.len(),
            n as int == yes_count(outcomes@.take(q as int)),
            n <= q,
        decreases outcomes@.len() - q,
    {
        proof {
            lemma_yes_count_step(outcomes@, q as int);
        }
        if outcomes[q] == 'y' {
            n = n + 1;
        }
        q = q + 1;
    }
    proof {
        assert(outcomes@.take(outcomes@.len() as int) =~= outcomes@);
    }
    n
}

/// The full assignment for one combination index: the base vector with each
/// open slot resolved from the next bit of `index`.
pub fn build_assignment(outcomes: &Vec<char>, slots: &Vec<usize>, index: u64) -> (r: Vec<char>)
    requires
        forall|j: int| 0 <= j < slots@.len() ==> #[trigger] slots@[j] < outcomes@.len(),
    ensures
        r@ == assignment(outcomes@, usize_view(slots@), index as nat),
{
    let mut current: Vec<char> = Vec::new();
    let mut q: usize = 0;
    while q < outcomes.len()
        invariant
            0 <= q <= outcomes@.len(),
            current@ =~= outcomes@.take(q as int),
        decreases outcomes@.len() - q,
    {
        current.push(outcomes[q]);
        q = q + 1;
    }
    proof {
        assert(outcomes@.take(outcomes@.len() as int) =~= outcomes@);
        assert(usize_view(slots@).skip(0) =~= usize_view(slots@));
    }
    let ghost sv = usize_view(slots@);
    let mut rem: u64 = index;
    let mut b: usize = 0;
    while b < slots.len()
        invariant
            0 <= b <= slots@.len(),
            sv == usize_view(slots@),
            forall|j: int| 0 <= j < slots@.len() ==> #[trigger] slots@[j] < outcomes@.len(),
            current@.len() == outcomes@.len(),
            assignment(outcomes@, sv, index as nat) == assignment(
                current@,
                sv.skip(b as int),
                rem as nat,
            ),
        decreases slots@.len() - b,
    {
        proof {
            assert(sv.skip(b as int).first() == slots@[b as int] as int);
            assert(sv.skip(b as int).drop_first() =~= sv.skip(b as int + 1));
        }
        let c: char = if rem % 2 == 1 {
            'y'
        } else {
            'n'
        };
        current.set(slots[b], c);
        rem = rem / 2;
        b = b + 1;
    }
    proof {
        assert(sv.skip(slots@.len() as int) =~= Seq::<int>::empty());
    }
    current
}

} // verus!
