//! Feedback codes and the table that caches them.

use vstd::prelude::*;

verus! {

/// Index of one candidate solution word in a fixed universe of size `n`.
pub type Answer = usize;

/// Index of a word that may be played; drawn from the same universe.
pub type Guess = usize;

/// A packed feedback code: one small field per letter position describing
/// how a guess compares with an answer.
pub type Judge = u32;

/// The predicate "produces feedback code `key` against `guess`".
pub open spec fn judge_pred(jt: JudgeTable, guess: Guess, key: Judge) -> spec_fn(Answer) -> bool {
    |a: Answer| jt.spec_judge(guess, a) == key
}

/// Total number of answers over all groups of a partition.
pub open spec fn sum_group_lens(gs: Seq<(Judge, Vec<Answer>)>) -> int
    decreases gs.len(),
{
    if gs.len() == 0 {
        0
    } else {
        sum_group_lens(gs.drop_last()) + gs.last().1@.len()
    }
}

proof fn lemma_sum_push(gs: Seq<(Judge, Vec<Answer>)>, p: (Judge, Vec<Answer>))
    ensures
        sum_group_lens(gs.push(p)) == sum_group_lens(gs) + p.1@.len(),
{
    assert(gs.push(p).drop_last() =~= gs);
    assert(gs.push(p).last() == p);
}

proof fn lemma_sum_update(gs: Seq<(Judge, Vec<Answer>)>, i: int, p: (Judge, Vec<Answer>))
    requires
        0 <= i < gs.len(),
    ensures
        sum_group_lens(gs.update(i, p)) == sum_group_lens(gs) - gs[i].1@.len() + p.1@.len(),
    decreases gs.len(),
{
    let upd = gs.update(i, p);
    if i == gs.len() - 1 {
        assert(upd.drop_last() =~= gs.drop_last());
        assert(upd.last() == p);
    } else {
        assert(upd.drop_last() =~= gs.drop_last().update(i, p));
        lemma_sum_update(gs.drop_last(), i, p);
        assert(upd.last() == gs.last());
    }
}

/// A cache of the feedback code for every (guess, answer) pair.
///
/// The scoring rule itself (standard duplicate-letter handling) is supplied
/// by an external collaborator; this table only stores its results, injected
/// at construction as an `n` by `n` matrix indexed `[guess][answer]`.
pub struct JudgeTable {
    table: Vec<Vec<Judge>>,
}

impl JudgeTable {
    /// Size of the word universe.
    pub closed spec fn spec_n(&self) -> nat {
        self.table@.len()
    }

    /// The table is a square matrix: one row per guess, one column per answer.
    pub closed spec fn wf(&self) -> bool {
        forall|g: int| 0 <= g < self.table@.len() ==> self.table@[g]@.len() == self.table@.len()
    }

    /// The cached feedback code for `guess` played against `answer`.
    pub closed spec fn spec_judge(&self, guess: Guess, answer: Answer) -> Judge {
        self.table@[guess as int]@[answer as int]
    }

    /// Wraps an injected matrix of feedback codes, accepting it exactly when
    /// it is square.
    pub fn new(table: Vec<Vec<Judge>>) -> (r: Option<JudgeTable>)
        ensures
            r is Some <==> (forall|g: int| 0 <= g < table@.len() ==> table@[g]@.len() == table@.len()),
            r is Some ==> {
                let jt = r->0;
                &&& jt.wf()
                &&& jt.spec_n() == table@.len()
                &&& forall|g: int, a: int| 0 <= g < table@.len() && 0 <= a < table@.len()
                        ==> jt.spec_judge(g as Guess, a as Answer) == table@[g]@[a]
            },
    {
        let n = table.len();
        let mut g: usize = 0;
        while g < n
            invariant
                n == table@.len(),
                0 <= g <= n,
                forall|i: int| 0 <= i < g ==> table@[i]@.len() == n,
            decreases n - g,
        {
            if table[g].len() != n {
                return None;
            }
            g = g + 1;
        }
        Some(JudgeTable { table })
    }

    /// Decides well-formedness: every row as long as the table itself.
    pub fn check(&self) -> (r: bool)
        ensures
            r == self.wf(),
    {
        let n = self.table.len();
        let mut g: usize = 0;
        while g < n
            invariant
                n == self.table@.len(),
                g <= n,
                forall|i: int| 0 <= i < g ==> self.table@[i]@.len() == n,
            decreases n - g,
        {
            if self.table[g].len() != n {
                return false;
            }
            g = g + 1;
        }
        true
    }

    /// Size of the word universe.
    pub fn n(&self) -> (r: usize)
        ensures
            r == self.spec_n(),
    {
        self.table.len()
    }

    /// Group `answers` by the feedback code each produces against `guess`.
    ///
    /// The groups come back keyed by code, one group per code that actually
    /// occurs, in order of first occurrence; within a group the answers keep
    /// their input order (stable partition). The groups are non-empty, their
    /// keys distinct, their union is the input, and their sizes add up to the
    /// input's size.
    pub fn partition(&self, answers: &Vec<Answer>, guess: Guess) -> (r: Vec<(Judge, Vec<Answer>)>)
        requires
            self.wf(),
            guess < self.spec_n(),
            forall|k: int| 0 <= k < answers@.len() ==> #[trigger] answers@[k] < self.spec_n(),
        ensures
            forall|i: int, j: int| 0 <= i < j < r@.len()
                ==> (#[trigger] r@[i]).0 != (#[trigger] r@[j]).0,
            forall|i: int| 0 <= i < r@.len() ==> {
                let pair = #[trigger] r@[i];
                &&& pair.1@ == answers@.filter(judge_pred(*self, guess, pair.0))
                &&& pair.1@.len() > 0
            },
            forall|k: int| 0 <= k < answers@.len()
                ==> exists|i: int| 0 <= i < r@.len()
                    && (#[trigger] r@[i]).0 == self.spec_judge(guess, #[trigger] answers@[k]),
            sum_group_lens(r@) == answers@.len(),
            forall|a: Answer| #[trigger] answers@.contains(a)
                <==> exists|i: int| 0 <= i < r@.len() && (#[trigger] r@[i]).1@.contains(a),
            forall|i: int, j: int, a: Answer|
                0 <= i < r@.len() && 0 <= j < r@.len() && i != j
                    && #[trigger] r@[i].1@.contains(a)
                    ==> !(#[trigger] r@[j].1@.contains(a)),
    {
        let mut groups: Vec<(Judge, Vec<Answer>)> = Vec::new();
        let mut k: usize = 0;
        while k < answers.len()
            invariant
                self.wf(),
                guess < self.spec_n(),
                forall|m: int| 0 <= m < answers@.len() ==> #[trigger] answers@[m] < self.spec_n(),
                k <= answers@.len(),
                forall|i: int, j: int| 0 <= i < j < groups@.len()
                    ==> (#[trigger] groups@[i]).0 != (#[trigger] groups@[j]).0,
                forall|i: int| 0 <= i < groups@.len() ==> {
                    let pair = #[trigger] groups@[i];
                    &&& pair.1@ == answers@.take(k as int).filter(judge_pred(*self, guess, pair.0))
                    &&& pair.1@.len() > 0
                },
                forall|m: int| 0 <= m < k
                    ==> exists|i: int| 0 <= i < groups@.len()
                        && (#[trigger] groups@[i]).0
                            == self.spec_judge(guess, #[trigger] answers@[m]),
                sum_group_lens(groups@) == k,
            decreases answers@.len() - k,
        {
            let a = answers[k];
            let j = self.judge(guess, a);
            let mut found: bool = false;
            let mut gi: usize = 0;
            let mut t: usize = 0;
            while t < groups.len()
                invariant
                    t <= groups@.len(),
                    found ==> gi < t <= groups@.len() && (groups@[gi as int]).0 == j,
                    !found ==> forall|u: int| 0 <= u < t ==> (#[trigger] groups@[u]).0 != j,
                decreases groups@.len() - t,
            {
                if groups[t].0 == j {
                    found = true;
                    gi = t;
                }
                t = t + 1;
            }
            let ghost groups0 = groups@;
            let ghost taken = answers@.take(k as int);
            proof {
                assert(answers@.take(k as int + 1) =~= taken.push(a));
            }
            if found {
                let pair = groups.remove(gi);
                let key = pair.0;
                let mut grp = pair.1;
                grp.push(a);
                groups.insert(gi, (key, grp));
                proof {
                    broadcast use vstd::seq::Seq::lemma_filter_push;
                    assert(groups@ =~= groups0.update(gi as int, (key, grp)));
                    lemma_sum_update(groups0, gi as int, (key, grp));
                    assert forall|m: int| 0 <= m < k + 1 implies
                        exists|i: int| 0 <= i < groups@.len()
                            && (#[trigger] groups@[i]).0
                                == self.spec_judge(guess, #[trigger] answers@[m]) by {
                        if m < k {
                            let wit = choose|i: int| 0 <= i < groups0.len()
                                && (#[trigger] groups0[i]).0
                                    == self.spec_judge(guess, answers@[m]);
                            assert(0 <= wit < groups@.len()
                                && groups@[wit].0 == self.spec_judge(guess, answers@[m]));
                        } else {
                            assert(groups@[gi as int].0 == self.spec_judge(guess, answers@[m]));
                        }
                    }
                    assert forall|i: int| 0 <= i < groups@.len() implies {
                        let pair2 = #[trigger] groups@[i];
                        &&& pair2.1@ == answers@.take(k as int + 1).filter(
                            judge_pred(*self, guess, pair2.0))
                        &&& pair2.1@.len() > 0
                    } by {
                        let pred = judge_pred(*self, guess, groups@[i].0);
                        assert(taken.push(a).filter(pred) == if pred(a) {
                            taken.filter(pred).push(a)
                        } else {
                            taken.filter(pred)
                        });
                        if i == gi as int {
                            assert(pred(a));
                        } else {
                            assert(groups@[i].0 != j);
                            assert(!pred(a));
                        }
                    }
                }
            } else {
                let mut grp: Vec<Answer> = Vec::new();
                grp.push(a);
                groups.push((j, grp));
                proof {
                    broadcast use vstd::seq::Seq::lemma_filter_push;
                    lemma_sum_push(groups0, (j, grp));
                    assert forall|m: int| 0 <= m < k + 1 implies
                        exists|i: int| 0 <= i < groups@.len()
                            && (#[trigger] groups@[i]).0
                                == self.spec_judge(guess, #[trigger] answers@[m]) by {
                        if m < k {
                            let wit = choose|i: int| 0 <= i < groups0.len()
                                && (#[trigger] groups0[i]).0
                                    == self.spec_judge(guess, answers@[m]);
                            assert(0 <= wit < groups@.len()
                                && groups@[wit].0 == self.spec_judge(guess, answers@[m]));
                        } else {
                            assert(groups@[groups0.len() as int].0 == self.spec_judge(guess, answers@[m]));
                        }
                    }
                    assert forall|m: int| 0 <= m < taken.len()
                        implies !(judge_pred(*self, guess, j)(#[trigger] taken[m])) by {
                        assert(taken[m] == answers@[m]);
                        if self.spec_judge(guess, answers@[m]) == j {
                            let wit = choose|i: int| 0 <= i < groups0.len()
                                && (#[trigger] groups0[i]).0
                                    == self.spec_judge(guess, answers@[m]);
                            assert((groups0[wit]).0 == j);
                        }
                    }
                    taken.lemma_all_neg_filter_empty(judge_pred(*self, guess, j));
                    assert(taken.filter(judge_pred(*self, guess, j)) =~= Seq::<Answer>::empty());
                    assert(grp@ =~= taken.filter(judge_pred(*self, guess, j)).push(a));
                    assert forall|i: int| 0 <= i < groups@.len() implies {
                        let pair2 = #[trigger] groups@[i];
                        &&& pair2.1@ == answers@.take(k as int + 1).filter(
                            judge_pred(*self, guess, pair2.0))
                        &&& pair2.1@.len() > 0
                    } by {
                        let pred = judge_pred(*self, guess, groups@[i].0);
                        assert(taken.push(a).filter(pred) == if pred(a) {
                            taken.filter(pred).push(a)
                        } else {
                            taken.filter(pred)
                        });
                        if i < groups0.len() {
                            assert(groups@[i] == groups0[i]);
                            assert(groups@[i].0 != j);
                            assert(!pred(a));
                        } else {
                            assert(groups@[i] == (j, grp));
                            assert(pred(a));
                        }
                    }
                }
            }
            k = k + 1;
        }
        proof {
            broadcast use vstd::seq_lib::group_filter_ensures;
            broadcast use vstd::seq::Seq::lemma_filter_contains_rev;
            assert(answers@.take(k as int) =~= answers@);
            assert forall|a: Answer| #[trigger] answers@.contains(a)
                implies exists|i: int| 0 <= i < groups@.len()
                    && (#[trigger] groups@[i]).1@.contains(a) by {
                let m = choose|m: int| 0 <= m < answers@.len() && answers@[m] == a;
                let wit = choose|i: int| 0 <= i < groups@.len()
                    && (#[trigger] groups@[i]).0 == self.spec_judge(guess, answers@[m]);
                let pred = judge_pred(*self, guess, groups@[wit].0);
                assert(pred(answers@[m]));
                answers@.lemma_filter_contains(pred, m);
                assert(groups@[wit].1@.contains(a));
            }
            assert forall|a: Answer|
                (exists|i: int| 0 <= i < groups@.len() && (#[trigger] groups@[i]).1@.contains(a))
                implies answers@.contains(a) by {
                let wit = choose|i: int| 0 <= i < groups@.len()
                    && (#[trigger] groups@[i]).1@.contains(a);
                let pred = judge_pred(*self, guess, groups@[wit].0);
                assert(groups@[wit].1@ == answers@.filter(pred));
                assert(answers@.filter(pred).contains(a));
            }
            assert forall|i: int, j: int, a: Answer|
                0 <= i < groups@.len() && 0 <= j < groups@.len() && i != j
                    && #[trigger] groups@[i].1@.contains(a)
                    implies !(#[trigger] groups@[j].1@.contains(a)) by {
                let predi = judge_pred(*self, guess, groups@[i].0);
                let predj = judge_pred(*self, guess, groups@[j].0);
                if groups@[j].1@.contains(a) {
                    assert(groups@[i].1@ == answers@.filter(predi));
                    assert(groups@[j].1@ == answers@.filter(predj));
                    let xi = choose|x: int| 0 <= x < answers@.filter(predi).len()
                        && answers@.filter(predi)[x] == a;
                    answers@.lemma_filter_pred(predi, xi);
                    let xj = choose|x: int| 0 <= x < answers@.filter(predj).len()
                        && answers@.filter(predj)[x] == a;
                    answers@.lemma_filter_pred(predj, xj);
                    assert(predi(a) && predj(a));
                }
            }
        }
        groups
    }

    /// Look the feedback code up.
    pub fn judge(&self, guess: Guess, answer: Answer) -> (r: Judge)
        requires
            self.wf(),
            guess < self.spec_n(),
            answer < self.spec_n(),
        ensures
            r == self.spec_judge(guess, answer),
    {
        self.table[guess][answer]
    }
}

} // verus!
