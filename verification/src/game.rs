//! The game data: questions, known outcomes, and contestants' rankings.

use vstd::prelude::*;
use vstd::multiset::Multiset;
use vstd::string::StrSliceExecFns;

verus! {

/// A binary question, identified by a string id.
#[derive(Clone, Debug)]
pub struct Question {
    pub id: String,
    pub text: String,
}

/// A known resolution for one question: the value's first character is
/// `'y'` for Yes, `'n'` for No; anything else (or an empty value) means the
/// question is still open.
#[derive(Clone, Debug)]
pub struct OutcomeEntry {
    pub id: String,
    pub value: String,
}

/// A contestant: a name and a ranking that assigns each question an
/// importance weight. A well-formed ranking is a permutation of `1..=N`
/// where `N` is the question count.
#[derive(Clone, Debug)]
pub struct Contestant {
    pub name: String,
    pub ranking: Vec<u32>,
}

/// A full data set.
#[derive(Clone, Debug)]
pub struct GameData {
    pub year: u32,
    pub questions: Vec<Question>,
    pub outcomes: Vec<OutcomeEntry>,
    pub predictions: Vec<Contestant>,
}

/// The rankings alone, as mathematical sequences.
pub open spec fn rankings_view(preds: Seq<Contestant>) -> Seq<Seq<u32>> {
    preds.map_values(|ct: Contestant| ct.ranking@)
}

/// A ranking is a permutation of `1..=N`: every weight is in range and no
/// weight repeats.
pub open spec fn valid_ranking(r: Seq<u32>) -> bool {
    &&& forall|i: int| 0 <= i < r.len() ==> 1 <= #[trigger] r[i] <= r.len()
    &&& forall|i: int, j: int| 0 <= i < j < r.len() ==> r[i] != r[j]
}

/// The first outcome entry for a question id, if any.
pub open spec fn lookup_outcome(outs: Seq<OutcomeEntry>, id: Seq<char>) -> Option<Seq<char>>
    decreases outs.len(),
{
    if outs.len() == 0 {
        None
    } else if outs.first().id@ == id {
        Some(outs.first().value@)
    } else {
        lookup_outcome(outs.drop_first(), id)
    }
}

/// The resolution character of a question: the first character of its
/// outcome entry, or `'m'` when there is no entry or it is empty.
pub open spec fn outcome_char_of(outs: Seq<OutcomeEntry>, id: Seq<char>) -> char {
    match lookup_outcome(outs, id) {
        Some(v) => if v.len() == 0 {
            'm'
        } else {
            v[0]
        },
        None => 'm',
    }
}

/// The outcome entry at `j` names an existing question.
pub open spec fn outcome_known(d: GameData, j: int) -> bool {
    exists|q: int|
        0 <= q < d.questions@.len() && (#[trigger] d.questions@[q].id)@ == d.outcomes@[j].id@
}

/// A data set the engine may run on: the questions come in the canonical
/// order (ascending lexicographic by id, so enumeration is reproducible),
/// every outcome entry names a question, and every contestant ranks all
/// questions with a permutation of `1..=N`.
pub open spec fn data_valid(d: GameData) -> bool {
    &&& forall|i: int, j: int|
        0 <= i < j < d.questions@.len() ==> lex_le(
            (#[trigger] d.questions@[i].id)@,
            (#[trigger] d.questions@[j].id)@,
        )
    &&& forall|j: int| 0 <= j < d.outcomes@.len() ==> outcome_known(d, j)
    &&& forall|c: int|
        0 <= c < d.predictions@.len() ==> (#[trigger] d.predictions@[c].ranking)@.len()
            == d.questions@.len() && valid_ranking(d.predictions@[c].ranking@)
}

/// One defect found by validation, located by index.
#[derive(Debug, Clone, Copy, PartialEq, Eq, Structural)]
pub enum DataIssue {
    /// The question's id precedes its predecessor's: the list is not in
    /// the canonical ascending order.
    MisorderedQuestion { question: usize },
    /// The outcome entry names no question.
    UnknownOutcome { outcome: usize },
    /// The contestant ranks a different number of questions than exist.
    WrongLength { contestant: usize, found: usize, expected: usize },
    /// The contestant's ranking is not a permutation of `1..=N`.
    InvalidRanking { contestant: usize },
}

/// The ordering defects among the first `upto` questions, in order: one
/// for every question whose id precedes its predecessor's.
pub open spec fn order_issues(d: GameData, upto: int) -> Seq<DataIssue>
    decreases upto,
{
    if upto <= 1 {
        Seq::<DataIssue>::empty()
    } else {
        let rest = order_issues(d, upto - 1);
        if lex_le(d.questions@[upto - 2].id@, d.questions@[upto - 1].id@) {
            rest
        } else {
            rest.push(DataIssue::MisorderedQuestion { question: (upto - 1) as usize })
        }
    }
}

/// The defects among the first `upto` outcome entries, in order.
pub open spec fn outcome_issues(d: GameData, upto: int) -> Seq<DataIssue>
    decreases upto,
{
    if upto <= 0 {
        Seq::<DataIssue>::empty()
    } else {
        let rest = outcome_issues(d, upto - 1);
        if outcome_known(d, upto - 1) {
            rest
        } else {
            rest.push(DataIssue::UnknownOutcome { outcome: (upto - 1) as usize })
        }
    }
}

/// The defects among the first `upto` contestants, in order.
pub open spec fn prediction_issues(d: GameData, upto: int) -> Seq<DataIssue>
    decreases upto,
{
    if upto <= 0 {
        Seq::<DataIssue>::empty()
    } else {
        let rest = prediction_issues(d, upto - 1);
        let c = upto - 1;
        if d.predictions@[c].ranking@.len() != d.questions@.len() {
            rest.push(
                DataIssue::WrongLength {
                    contestant: c as usize,
                    found: d.predictions@[c].ranking@.len() as usize,
                    expected: d.questions@.len() as usize,
                },
            )
        } else if !valid_ranking(d.predictions@[c].ranking@) {
            rest.push(DataIssue::InvalidRanking { contestant: c as usize })
        } else {
            rest
        }
    }
}

/// Every defect of the data set: question-order defects, then outcome
/// entries, then contestants.
pub open spec fn data_issues(d: GameData) -> Seq<DataIssue> {
    order_issues(d, d.questions@.len() as int) + outcome_issues(d, d.outcomes@.len() as int)
        + prediction_issues(d, d.predictions@.len() as int)
}

pub proof fn lemma_order_issues_empty(d: GameData, upto: int)
    ensures
        order_issues(d, upto).len() == 0 <==> (forall|i: int|
            1 <= i < upto ==> lex_le(d.questions@[i - 1].id@, (#[trigger] d.questions@[i].id)@)),
    decreases upto,
{
    if upto > 1 {
        lemma_order_issues_empty(d, upto - 1);
    }
}

/// Adjacent order extends along the list: any earlier id precedes any
/// later one.
pub proof fn lemma_lex_le_chain(qs: Seq<Question>, i: int, j: int)
    requires
        forall|t: int| 1 <= t < qs.len() ==> lex_le(qs[t - 1].id@, (#[trigger] qs[t].id)@),
        0 <= i < j < qs.len(),
    ensures
        lex_le(qs[i].id@, qs[j].id@),
    decreases j - i,
{
    if j > i + 1 {
        lemma_lex_le_chain(qs, i, j - 1);
        lemma_lex_le_trans(qs[i].id@, qs[j - 1].id@, qs[j].id@);
    }
}

pub proof fn lemma_outcome_issues_empty(d: GameData, upto: int)
    ensures
        outcome_issues(d, upto).len() == 0 <==> (forall|j: int|
            0 <= j < upto ==> outcome_known(d, j)),
    decreases upto,
{
    if upto > 0 {
        lemma_outcome_issues_empty(d, upto - 1);
    }
}

pub proof fn lemma_prediction_issues_empty(d: GameData, upto: int)
    ensures
        prediction_issues(d, upto).len() == 0 <==> (forall|c: int|
            0 <= c < upto ==> (#[trigger] d.predictions@[c].ranking)@.len() == d.questions@.len()
                && valid_ranking(d.predictions@[c].ranking@)),
    decreases upto,
{
    if upto > 0 {
        lemma_prediction_issues_empty(d, upto - 1);
    }
}

/// A data set is valid exactly when validation finds no defect.
pub proof fn lemma_no_issues_iff_valid(d: GameData)
    ensures
        data_issues(d).len() == 0 <==> data_valid(d),
{
    lemma_order_issues_empty(d, d.questions@.len() as int);
    lemma_outcome_issues_empty(d, d.outcomes@.len() as int);
    lemma_prediction_issues_empty(d, d.predictions@.len() as int);
    if order_issues(d, d.questions@.len() as int).len() == 0 {
        assert forall|i: int, j: int| 0 <= i < j < d.questions@.len() implies lex_le(
            (#[trigger] d.questions@[i].id)@,
            (#[trigger] d.questions@[j].id)@,
        ) by {
            lemma_lex_le_chain(d.questions@, i, j);
        }
    }
}

/// Whether a ranking is a permutation of `1..=N` for `N = r.len()`.
pub fn check_ranking(r: &Vec<u32>) -> (b: bool)
    ensures
        b == valid_ranking(r@),
{
    let n = r.len();
    let mut seen: Vec<bool> = Vec::new();
    let mut w: usize = 0;
    while w < n
        invariant
            0 <= w <= n,
            seen@.len() == w,
            forall|t: int| 0 <= t < w ==> !(#[trigger] seen@[t]),
        decreases n - w,
    {
        seen.push(false);
        w = w + 1;
    }
    let mut i: usize = 0;
    while i < n
        invariant
            0 <= i <= n,
            n == r@.len(),
            seen@.len() == n,
            forall|t: int|
                0 <= t < n ==> ((#[trigger] seen@[t]) <==> (exists|u: int|
                    0 <= u < i && r@[u] == t + 1)),
            forall|u: int| 0 <= u < i ==> 1 <= #[trigger] r@[u] <= n,
            forall|u1: int, u2: int| 0 <= u1 < u2 < i ==> r@[u1] != r@[u2],
        decreases n - i,
    {
        let v = r[i];
        if v < 1 || (v as usize) > n {
            proof {
                assert(!(1 <= r@[i as int] <= r@.len()));
            }
            return false;
        }
        let idx = (v - 1) as usize;
        if seen[idx] {
            proof {
                let u = choose|u: int| 0 <= u < i && r@[u] == idx + 1;
                assert(r@[u] == r@[i as int]);
            }
            return false;
        }
        let ghost seen0 = seen@;
        seen.set(idx, true);
        proof {
            assert forall|t: int|
                0 <= t < n implies ((#[trigger] seen@[t]) <==> (exists|u: int|
                0 <= u < i + 1 && r@[u] == t + 1)) by {
                if t == idx as int {
                    assert(r@[i as int] == t + 1);
                } else {
                    assert(seen@[t] == seen0[t]);
                    if exists|u: int| 0 <= u < i + 1 && r@[u] == t + 1 {
                        let u = choose|u: int| 0 <= u < i + 1 && r@[u] == t + 1;
                        assert(u < i);
                    }
                }
            }
        }
        i = i + 1;
    }
    true
}

impl GameData {
    /// Check the data set: the questions must come in ascending id order,
    /// every outcome entry must name a question, and every ranking must be
    /// a permutation of `1..=N`. Returns every defect found, in order.
    pub fn validate(&self) -> (r: Result<(), Vec<DataIssue>>)
        ensures
            match r {
                Ok(_) => data_valid(*self),
                Err(v) => v@ == data_issues(*self) && v@.len() > 0 && !data_valid(*self),
            },
    {
        let mut issues: Vec<DataIssue> = Vec::new();
        let mut qi: usize = 1;
        while qi < self.questions.len()
            invariant
                1 <= qi,
                qi <= self.questions@.len() || qi == 1,
                issues@ == order_issues(*self, qi as int),
            decreases self.questions@.len() - qi,
        {
            if !str_le(&self.questions[qi - 1].id, &self.questions[qi].id) {
                issues.push(DataIssue::MisorderedQuestion { question: qi });
            }
            qi = qi + 1;
        }
        let ghost all_order_issues = issues@;
        proof {
            if self.questions@.len() <= 1 {
                assert(all_order_issues == order_issues(*self, self.questions@.len() as int));
            }
            assert(issues@ =~= all_order_issues + outcome_issues(*self, 0));
        }
        let mut j: usize = 0;
        while j < self.outcomes.len()
            invariant
                0 <= j <= self.outcomes@.len(),
                all_order_issues == order_issues(*self, self.questions@.len() as int),
                issues@ == all_order_issues + outcome_issues(*self, j as int),
            decreases self.outcomes@.len() - j,
        {
            let mut found = false;
            let mut q: usize = 0;
            while q < self.questions.len()
                invariant
                    0 <= q <= self.questions@.len(),
                    j < self.outcomes@.len(),
                    found <==> (exists|t: int|
                        0 <= t < q && (#[trigger] self.questions@[t].id)@
                            == self.outcomes@[j as int].id@),
                decreases self.questions@.len() - q,
            {
                if self.questions[q].id == self.outcomes[j].id {
                    found = true;
                }
                q = q + 1;
            }
            if !found {
                issues.push(DataIssue::UnknownOutcome { outcome: j });
                proof {
                    assert(issues@ =~= all_order_issues + outcome_issues(*self, j as int + 1));
                }
            }
            j = j + 1;
        }
        let ghost head = issues@;
        proof {
            assert(head == all_order_issues + outcome_issues(
                *self,
                self.outcomes@.len() as int,
            ));
            assert(issues@ =~= head + prediction_issues(*self, 0));
        }
        let mut c: usize = 0;
        while c < self.predictions.len()
            invariant
                0 <= c <= self.predictions@.len(),
                head == order_issues(*self, self.questions@.len() as int) + outcome_issues(
                    *self,
                    self.outcomes@.len() as int,
                ),
                issues@ == head + prediction_issues(*self, c as int),
            decreases self.predictions@.len() - c,
        {
            let rl = self.predictions[c].ranking.len();
            if rl != self.questions.len() {
                issues.push(
                    DataIssue::WrongLength {
                        contestant: c,
                        found: rl,
                        expected: self.questions.len(),
                    },
                );
                proof {
                    assert(issues@ =~= head + prediction_issues(*self, c as int + 1));
                }
            } else if !check_ranking(&self.predictions[c].ranking) {
                issues.push(DataIssue::InvalidRanking { contestant: c });
                proof {
                    assert(issues@ =~= head + prediction_issues(*self, c as int + 1));
                }
            }
            c = c + 1;
        }
        proof {
            assert(issues@ =~= data_issues(*self));
            lemma_no_issues_iff_valid(*self);
        }
        if issues.len() == 0 {
            Ok(())
        } else {
            Err(issues)
        }
    }

    /// The question ids, in the canonical order (ascending by id for a
    /// data set that `validate` accepts).
    pub fn question_ids(&self) -> (r: Vec<String>)
        ensures
            r@.len() == self.questions@.len(),
            forall|q: int|
                0 <= q < r@.len() ==> (#[trigger] r@[q])@ == self.questions@[q].id@,
    {
        let mut r: Vec<String> = Vec::new();
        let mut q: usize = 0;
        while q < self.questions.len()
            invariant
                0 <= q <= self.questions@.len(),
                r@.len() == q,
                forall|t: int| 0 <= t < q ==> (#[trigger] r@[t])@ == self.questions@[t].id@,
            decreases self.questions@.len() - q,
        {
            r.push(self.questions[q].id.clone());
            q = q + 1;
        }
        r
    }

    /// The resolution character of every question, in question order:
    /// `'y'`, `'n'`, or `'m'` for a question with no (or an empty) outcome
    /// entry.
    pub fn outcomes_vec(&self) -> (r: Vec<char>)
        ensures
            r@.len() == self.questions@.len(),
            forall|q: int|
                0 <= q < r@.len() ==> (#[trigger] r@[q]) == outcome_char_of(
                    self.outcomes@,
                    self.questions@[q].id@,
                ),
    {
        let mut r: Vec<char> = Vec::new();
        let mut q: usize = 0;
        while q < self.questions.len()
            invariant
                0 <= q <= self.questions@.len(),
                r@.len() == q,
                forall|t: int|
                    0 <= t < q ==> (#[trigger] r@[t]) == outcome_char_of(
                        self.outcomes@,
                        self.questions@[t].id@,
                    ),
            decreases self.questions@.len() - q,
        {
            let ch = outcome_char(&self.outcomes, &self.questions[q].id);
            r.push(ch);
            q = q + 1;
        }
        r
    }

    /// The contestants, copied: names with their rankings.
    pub fn predictions_vec(&self) -> (r: Vec<Contestant>)
        ensures
            r@.len() == self.predictions@.len(),
            forall|c: int|
                0 <= c < r@.len() ==> (#[trigger] r@[c]).name@ == self.predictions@[c].name@
                    && r@[c].ranking@ == self.predictions@[c].ranking@,
    {
        let mut r: Vec<Contestant> = Vec::new();
        let mut c: usize = 0;
        while c < self.predictions.len()
            invariant
                0 <= c <= self.predictions@.len(),
                r@.len() == c,
                forall|t: int|
                    0 <= t < c ==> (#[trigger] r@[t]).name@ == self.predictions@[t].name@
                        && r@[t].ranking@ == self.predictions@[t].ranking@,
            decreases self.predictions@.len() - c,
        {
            let name = self.predictions[c].name.clone();
            let ranking = crate::tiebreak::copy_weights(&self.predictions[c].ranking);
            r.push(Contestant { name, ranking });
            c = c + 1;
        }
        r
    }
}

/// Lexicographic order on strings by code point, the order `sort` on
/// strings uses: the canonical question order is ascending in it.
pub open spec fn lex_le(a: Seq<char>, b: Seq<char>) -> bool
    decreases a.len(),
{
    if a.len() == 0 {
        true
    } else if b.len() == 0 {
        false
    } else if (a.first() as u32) < (b.first() as u32) {
        true
    } else if (a.first() as u32) > (b.first() as u32) {
        false
    } else {
        lex_le(a.drop_first(), b.drop_first())
    }
}

/// The order is reflexive.
pub proof fn lemma_lex_le_refl(a: Seq<char>)
    ensures
        lex_le(a, a),
    decreases a.len(),
{
    if a.len() > 0 {
        lemma_lex_le_refl(a.drop_first());
    }
}

/// Any two strings compare: the order is total.
pub proof fn lemma_lex_le_total(a: Seq<char>, b: Seq<char>)
    ensures
        lex_le(a, b) || lex_le(b, a),
    decreases a.len(),
{
    if a.len() > 0 && b.len() > 0 && (a.first() as u32) == (b.first() as u32) {
        lemma_lex_le_total(a.drop_first(), b.drop_first());
    }
}

/// Whether `a` comes no later than `b` in lexicographic order.
fn str_le(a: &String, b: &String) -> (r: bool)
    ensures
        r == lex_le(a@, b@),
{
    let an = a.as_str().unicode_len();
    let bn = b.as_str().unicode_len();
    let mut j: usize = 0;
    proof {
        assert(a@.skip(0) =~= a@);
        assert(b@.skip(0) =~= b@);
    }
    while j < an && j < bn
        invariant
            0 <= j <= an,
            0 <= j <= bn,
            an == a@.len(),
            bn == b@.len(),
            lex_le(a@, b@) == lex_le(a@.skip(j as int), b@.skip(j as int)),
        decreases an - j,
    {
        let ca = a.as_str().get_char(j);
        let cb = b.as_str().get_char(j);
        proof {
            assert(a@.skip(j as int).first() == a@[j as int]);
            assert(b@.skip(j as int).first() == b@[j as int]);
            assert(a@.skip(j as int).drop_first() =~= a@.skip(j as int + 1));
            assert(b@.skip(j as int).drop_first() =~= b@.skip(j as int + 1));
        }
        if (ca as u32) < (cb as u32) {
            return true;
        }
        if (ca as u32) > (cb as u32) {
            return false;
        }
        j = j + 1;
    }
    proof {
        if j >= an {
            assert(a@.skip(j as int).len() == 0);
        } else {
            assert(b@.skip(j as int).len() == 0);
            assert(a@.skip(j as int).len() > 0);
        }
    }
    an <= bn
}

/// Index of an earliest string (in lexicographic order) of a nonempty list.
fn min_str_index(v: &Vec<String>) -> (p: usize)
    requires
        v@.len() > 0,
    ensures
        p < v@.len(),
        forall|q: int| 0 <= q < v@.len() ==> lex_le(v@[p as int]@, (#[trigger] v@[q])@),
{
    let mut p: usize = 0;
    let mut q: usize = 1;
    proof {
        lemma_lex_le_refl(v@[0]@);
    }
    while q < v.len()
        invariant
            p < q <= v@.len(),
            forall|t: int| 0 <= t < q ==> lex_le(v@[p as int]@, (#[trigger] v@[t])@),
        decreases v@.len() - q,
    {
        if !str_le(&v[p], &v[q]) {
            proof {
                lemma_lex_le_total(v@[p as int]@, v@[q as int]@);
                assert forall|t: int| 0 <= t < q + 1 implies lex_le(
                    v@[q as int]@,
                    (#[trigger] v@[t])@,
                ) by {
                    if t < q {
                        lemma_lex_le_trans(v@[q as int]@, v@[p as int]@, v@[t]@);
                    } else {
                        lemma_lex_le_refl(v@[q as int]@);
                    }
                }
            }
            p = q;
        }
        q = q + 1;
    }
    p
}

/// The order is transitive.
pub proof fn lemma_lex_le_trans(a: Seq<char>, b: Seq<char>, c: Seq<char>)
    requires
        lex_le(a, b),
        lex_le(b, c),
    ensures
        lex_le(a, c),
    decreases a.len(),
{
    if a.len() > 0 && b.len() > 0 && c.len() > 0 && (a.first() as u32) == (b.first() as u32) && (
    b.first() as u32) == (c.first() as u32) {
        lemma_lex_le_trans(a.drop_first(), b.drop_first(), c.drop_first());
    }
}

/// Sort a list of strings ascending in lexicographic order (selection
/// sort), keeping exactly the same strings.
///
/// A loader that reads questions from an unordered map sorts the ids with
/// this before building a `GameData`, so that the canonical question order
/// is deterministic.
pub fn sort_strings(v: Vec<String>) -> (r: Vec<String>)
    ensures
        r@.len() == v@.len(),
        forall|i: int, j: int| 0 <= i < j < r@.len() ==> lex_le((#[trigger] r@[i])@, (#[trigger] r@[j])@),
        r@.to_multiset() == v@.to_multiset(),
{
    let ghost orig = v@.to_multiset();
    let mut rest = v;
    let mut out: Vec<String> = Vec::new();
    proof {
        broadcast use vstd::seq_lib::group_to_multiset_ensures;
        broadcast use vstd::multiset::group_multiset_axioms;

        assert forall|x: String| out@.to_multiset().count(x) == 0 by {
            assert(!out@.contains(x));
        }
        assert(out@.to_multiset().add(rest@.to_multiset()) =~= rest@.to_multiset());
    }
    while rest.len() > 0
        invariant
            forall|i: int, j: int|
                0 <= i < j < out@.len() ==> lex_le((#[trigger] out@[i])@, (#[trigger] out@[j])@),
            out@.to_multiset().add(rest@.to_multiset()) == orig,
            forall|p: int, q: int|
                0 <= p < out@.len() && 0 <= q < rest@.len() ==> lex_le(
                    (#[trigger] out@[p])@,
                    (#[trigger] rest@[q])@,
                ),
        decreases rest@.len(),
    {
        let p = min_str_index(&rest);
        proof {
            broadcast use vstd::seq_lib::group_to_multiset_ensures;
            broadcast use vstd::multiset::group_multiset_axioms;

            let old_out = out@;
            let old_rest = rest@;
            let x = old_rest[p as int];
            assert(old_rest.to_multiset().count(x) > 0) by {
                assert(old_rest.contains(x));
            }
            assert(old_out.push(x).to_multiset().add(old_rest.remove(p as int).to_multiset())
                =~= old_out.to_multiset().add(old_rest.to_multiset()));
            assert forall|q: int| 0 <= q < old_rest.remove(p as int).len() implies lex_le(
                x@,
                (#[trigger] old_rest.remove(p as int)[q])@,
            ) by {
                if q < p {
                    assert(old_rest.remove(p as int)[q] == old_rest[q]);
                } else {
                    assert(old_rest.remove(p as int)[q] == old_rest[q + 1]);
                }
            }
            assert forall|s: int, t: int| 0 <= s < t < old_out.push(x).len() implies lex_le(
                (#[trigger] old_out.push(x)[s])@,
                (#[trigger] old_out.push(x)[t])@,
            ) by {
                if t < old_out.len() {
                    assert(old_out.push(x)[s] == old_out[s]);
                    assert(old_out.push(x)[t] == old_out[t]);
                } else {
                    assert(old_out.push(x)[s] == old_out[s]);
                    assert(old_out.push(x)[t] == x);
                    assert(lex_le(old_out[s]@, old_rest[p as int]@));
                }
            }
            assert forall|s: int, q: int|
                0 <= s < old_out.push(x).len() && 0 <= q < old_rest.remove(p as int).len() implies
            lex_le((#[trigger] old_out.push(x)[s])@, (#[trigger] old_rest.remove(p as int)[q])@) by {
                let rq = if q < p {
                    old_rest[q]
                } else {
                    old_rest[q + 1]
                };
                assert(old_rest.remove(p as int)[q] == rq);
                if s < old_out.len() {
                    assert(old_out.push(x)[s] == old_out[s]);
                    assert(lex_le(old_out[s]@, rq@));
                } else {
                    assert(old_out.push(x)[s] == x);
                }
            }
        }
        let x = rest.remove(p);
        out.push(x);
    }
    proof {
        broadcast use vstd::seq_lib::group_to_multiset_ensures;
        broadcast use vstd::multiset::group_multiset_axioms;

        assert forall|x: String| rest@.to_multiset().count(x) == 0 by {
            assert(!rest@.contains(x));
        }
        assert(rest@.to_multiset() =~= Multiset::<String>::empty());
        assert(out@.to_multiset().add(Multiset::<String>::empty()) =~= out@.to_multiset());
        assert(out@.to_multiset().len() == out@.len());
        assert(v@.to_multiset().len() == v@.len());
    }
    out
}

/// The resolution character for one question id: the first character of the
/// first matching outcome entry, or `'m'`.
fn outcome_char(outcomes: &Vec<OutcomeEntry>, id: &String) -> (c: char)
    ensures
        c == outcome_char_of(outcomes@, id@),
{
    let mut j: usize = 0;
    proof {
        assert(outcomes@.skip(0) =~= outcomes@);
    }
    while j < outcomes.len()
        invariant
            0 <= j <= outcomes@.len(),
            lookup_outcome(outcomes@, id@) == lookup_outcome(outcomes@.skip(j as int), id@),
        decreases outcomes@.len() - j,
    {
        proof {
            assert(outcomes@.skip(j as int).first() == outcomes@[j as int]);
            assert(outcomes@.skip(j as int).drop_first() =~= outcomes@.skip(j as int + 1));
        }
        if outcomes[j].id == *id {
            let vs = outcomes[j].value.as_str();
            if vs.unicode_len() == 0 {
                return 'm';
            } else {
                return vs.get_char(0);
            }
        }
        j = j + 1;
    }
    proof {
        assert(outcomes@.skip(outcomes@.len() as int).len() == 0);
    }
    'm'
}

} // verus!
