//! The shared decision tree: construction and navigation.

use vstd::prelude::*;
use crate::judges::Answer;
use crate::judges::Guess;
use crate::judges::Judge;
use crate::judges::JudgeTable;
use crate::judges::judge_pred;

verus! {

/// A tree vertex: the guess to play here, the answers still consistent with
/// the path that reached it, and one child per feedback code that the
/// remaining answers can produce against that guess. A vertex is a leaf
/// (no edges) exactly when one answer remains.
#[derive(Debug)]
pub struct Node {
    pub guess: Guess,
    pub rem_ans: Vec<Answer>,
    pub edges: Vec<(Judge, Node)>,
}

/// Every node invariant of a well-built tree, for a node reached at `depth`:
/// remaining answers are valid and agree on the guess prescribed at `depth`,
/// a leaf holds exactly the answer it announces, and the edges partition the
/// remaining answers by the feedback code each produces against the guess.
pub open spec fn node_wf(jt: JudgeTable, sm: Seq<Seq<Guess>>, node: Node, depth: int) -> bool
    decreases node,
{
    &&& node.rem_ans@.len() >= 1
    &&& forall|k: int| 0 <= k < node.rem_ans@.len() ==> {
            let a = #[trigger] node.rem_ans@[k];
            &&& a < sm.len()
            &&& depth < sm[a as int].len()
            &&& sm[a as int][depth] == node.guess
        }
    &&& (node.rem_ans@.len() == 1 <==> node.edges@.len() == 0)
    &&& (node.rem_ans@.len() == 1 ==> {
            let a = node.rem_ans@[0];
            &&& sm[a as int].len() == depth + 1
            &&& node.guess == a
        })
    &&& (node.rem_ans@.len() > 1 ==> {
            &&& forall|i: int, j: int| 0 <= i < j < node.edges@.len()
                    ==> (#[trigger] node.edges@[i]).0 != (#[trigger] node.edges@[j]).0
            &&& forall|i: int| 0 <= i < node.edges@.len() ==> {
                    let (key, child) = #[trigger] node.edges@[i];
                    &&& child.rem_ans@ == node.rem_ans@.filter(judge_pred(jt, node.guess, key))
                    &&& node_wf(jt, sm, child, depth + 1)
                }
            &&& forall|k: int| 0 <= k < node.rem_ans@.len()
                    ==> exists|i: int| 0 <= i < node.edges@.len()
                        && (#[trigger] node.edges@[i]).0
                            == jt.spec_judge(node.guess, #[trigger] node.rem_ans@[k])
        })
}

impl Node {
    /// A leaf announces the single answer that remains at it.
    pub fn is_leaf(&self) -> (r: bool)
        ensures
            r == (self.edges@.len() == 0),
    {
        self.edges.len() == 0
    }
}

/// The failures that construction and navigation can report. All of them
/// mean that the supplied guess sequences or the traversal history are
/// inconsistent with the tree's invariants.
#[derive(Debug, Clone, Copy, PartialEq, Eq, Structural)]
pub enum TreeError {
    /// A leaf's sole answer has a guess sequence whose length is not the
    /// leaf's depth plus one.
    SequenceLengthMismatch { answer: Answer },
    /// A leaf's guess sequence entry at the final depth is not the answer
    /// itself.
    SequenceGuessMismatch { answer: Answer },
    /// A remaining answer disagrees with the first remaining answer on the
    /// guess prescribed at the current depth, or its sequence is too short.
    SequenceInconsistency { answer: Answer },
    /// A navigation step's feedback code has no corresponding edge at the
    /// node reached after `depth` steps.
    UnknownTransition { judge: Judge, depth: usize },
    /// An operator-supplied feedback string has the wrong length or holds a
    /// non-digit character; detected at the boundary, before any navigation.
    MalformedFeedbackInput,
}

/// The length of the longest guess sequence.
pub open spec fn max_seq_len(sm: Seq<Seq<Guess>>) -> int
    decreases sm.len(),
{
    if sm.len() == 0 {
        0
    } else if sm.last().len() as int > max_seq_len(sm.drop_last()) {
        sm.last().len() as int
    } else {
        max_seq_len(sm.drop_last())
    }
}

proof fn lemma_max_seq_len(sm: Seq<Seq<Guess>>, i: int)
    requires
        0 <= i < sm.len(),
    ensures
        sm[i].len() <= max_seq_len(sm),
    decreases sm.len(),
{
    if i < sm.len() - 1 {
        lemma_max_seq_len(sm.drop_last(), i);
        assert(sm.drop_last()[i] == sm[i]);
    }
}

/// Every answer remaining at `depth` has a sequence that reaches past
/// `depth` and prescribes there the same guess as the first remaining
/// answer's sequence does.
pub open spec fn consistent_level(sm: Seq<Seq<Guess>>, rem: Seq<Answer>, depth: int) -> bool {
    forall|k: int| 0 <= k < rem.len() ==> {
        let a = #[trigger] rem[k];
        &&& depth < sm[a as int].len()
        &&& sm[a as int][depth] == sm[rem[0] as int][depth]
    }
}

/// The remaining answer at `k` breaks level consistency: its sequence is too
/// short, or prescribes a different guess than the first remaining answer's.
pub open spec fn level_bad_at(sm: Seq<Seq<Guess>>, rem: Seq<Answer>, depth: int, k: int) -> bool {
    let a = rem[k];
    ||| sm[a as int].len() <= depth
    ||| sm[a as int][depth] != sm[rem[0] as int][depth]
}

/// Construction from the remaining answers `rem` at `depth` succeeds: a sole
/// remaining answer's sequence ends at `depth` with the answer itself, and
/// several remaining answers agree on the guess prescribed at `depth` while
/// every group of their partition by feedback code can in turn be built at
/// `depth + 1`.
pub open spec fn buildable(jt: JudgeTable, sm: Seq<Seq<Guess>>, rem: Seq<Answer>, depth: int) -> bool
    decreases max_seq_len(sm) - depth,
{
    if rem.len() == 1 {
        let a = rem[0];
        &&& sm[a as int].len() == depth + 1
        &&& sm[a as int][depth] == a
    } else if depth < max_seq_len(sm) {
        let guess = sm[rem[0] as int][depth];
        &&& consistent_level(sm, rem, depth)
        &&& forall|k: int| 0 <= k < rem.len()
                ==> buildable(
                    jt,
                    sm,
                    rem.filter(judge_pred(jt, guess, jt.spec_judge(guess, #[trigger] rem[k]))),
                    depth + 1,
                )
    } else {
        false
    }
}

fn copy_answers(v: &Vec<Answer>) -> (r: Vec<Answer>)
    ensures
        r@ == v@,
{
    let mut r: Vec<Answer> = Vec::new();
    let mut i: usize = 0;
    while i < v.len()
        invariant
            i <= v@.len(),
            r@ == v@.take(i as int),
        decreases v@.len() - i,
    {
        r.push(v[i]);
        proof {
            assert(v@.take(i as int + 1) =~= v@.take(i as int).push(v@[i as int]));
        }
        i = i + 1;
    }
    proof {
        assert(v@.take(v@.len() as int) =~= v@);
    }
    r
}

/// Owns the per-answer guess sequences and the judge table, and constructs
/// the shared tree from them.
pub struct DecisionTree {
    /// Entry `a` is the predetermined ordered list of guesses that solves
    /// for answer `a`; its last entry is `a` itself.
    pub guess_seq: Vec<Vec<Guess>>,
    /// The cached feedback codes for the same universe.
    pub judge_table: JudgeTable,
}

impl DecisionTree {
    /// The guess sequences as a mathematical map.
    pub open spec fn sm(&self) -> Seq<Seq<Guess>> {
        self.guess_seq@.map(|i: int, v: Vec<Guess>| v@)
    }

    /// The sequences and the judge table describe the same universe, and no
    /// sequence prescribes a guess outside of it.
    pub open spec fn wf(&self) -> bool {
        &&& self.judge_table.wf()
        &&& self.judge_table.spec_n() == self.sm().len()
        &&& forall|i: int, t: int|
                0 <= i < self.sm().len() && 0 <= t < self.sm()[i].len()
                    ==> (#[trigger] self.sm()[i][t]) < self.sm().len()
    }

    /// Wraps the injected sequences and judge table, accepting them exactly
    /// when they are consistent with each other.
    pub fn new(guess_seq: Vec<Vec<Guess>>, judge_table: JudgeTable) -> (r: Option<DecisionTree>)
        ensures
            r is Some <==> (DecisionTree { guess_seq, judge_table }).wf(),
            r is Some ==> r->0 == (DecisionTree { guess_seq, judge_table }),
    {
        let ghost cand = DecisionTree { guess_seq, judge_table };
        if !judge_table.check() {
            return None;
        }
        if judge_table.n() != guess_seq.len() {
            return None;
        }
        let n = guess_seq.len();
        let mut i: usize = 0;
        while i < n
            invariant
                n == cand.sm().len(),
                i <= n,
                cand.guess_seq@ == guess_seq@,
                forall|x: int, t: int| 0 <= x < i && 0 <= t < cand.sm()[x].len()
                    ==> (#[trigger] cand.sm()[x][t]) < n,
            decreases n - i,
        {
            let row_len = guess_seq[i].len();
            let mut t: usize = 0;
            while t < row_len
                invariant
                    n == cand.sm().len(),
                    i < n,
                    cand.guess_seq@ == guess_seq@,
                    row_len == cand.sm()[i as int].len(),
                    t <= row_len,
                    forall|u: int| 0 <= u < t ==> (#[trigger] cand.sm()[i as int][u]) < n,
                decreases row_len - t,
            {
                if guess_seq[i][t] >= n {
                    proof {
                        assert(cand.sm()[i as int][t as int] >= n);
                        assert(!cand.wf());
                    }
                    return None;
                }
                t = t + 1;
            }
            i = i + 1;
        }
        Some(DecisionTree { guess_seq, judge_table })
    }

    /// Recursively constructs the subtree for the answers still remaining at
    /// `depth`.
    ///
    /// With one answer left it validates and returns a leaf; with several it
    /// reads the guess their sequences prescribe at `depth`, validates that
    /// they agree on it, partitions them by the feedback code each would
    /// produce against that guess, and builds one child per group at
    /// `depth + 1`. It succeeds exactly when the sequences are consistent
    /// all the way down (`buildable`), and then returns a well-formed tree
    /// over exactly the given answers; it aborts with the first violation
    /// otherwise, so that no partially valid tree is ever exposed.
    #[verifier::loop_isolation(false)]
    pub fn build(&self, rem_ans: &Vec<Answer>, depth: usize) -> (r: Result<Node, TreeError>)
        requires
            self.wf(),
            rem_ans@.len() >= 1,
            forall|k: int| 0 <= k < rem_ans@.len() ==> (#[trigger] rem_ans@[k]) < self.sm().len(),
        ensures
            r is Ok <==> buildable(self.judge_table, self.sm(), rem_ans@, depth as int),
            r matches Ok(node) ==> node_wf(self.judge_table, self.sm(), node, depth as int)
                && node.rem_ans@ == rem_ans@,
            rem_ans@.len() == 1 ==> {
                let a = rem_ans@[0];
                &&& (r == Err::<Node, TreeError>(TreeError::SequenceLengthMismatch { answer: a })
                        <==> self.sm()[a as int].len() != depth + 1)
                &&& (r == Err::<Node, TreeError>(TreeError::SequenceGuessMismatch { answer: a })
                        <==> self.sm()[a as int].len() == depth + 1
                            && self.sm()[a as int][depth as int] != a)
            },
            rem_ans@.len() > 1 && !consistent_level(self.sm(), rem_ans@, depth as int)
                ==> exists|k: int|
                    0 <= k < rem_ans@.len()
                    && #[trigger] level_bad_at(self.sm(), rem_ans@, depth as int, k)
                    && (forall|m: int| 0 <= m < k
                            ==> !level_bad_at(self.sm(), rem_ans@, depth as int, m))
                    && r == Err::<Node, TreeError>(TreeError::SequenceInconsistency {
                        answer: rem_ans@[k],
                    }),
            r matches Err(e) ==> !(e matches TreeError::UnknownTransition { .. })
                && !(e matches TreeError::MalformedFeedbackInput),
        decreases max_seq_len(self.sm()) - depth,
    {
        let ghost jt = self.judge_table;
        let ghost smv = self.sm();
        let ghost remv = rem_ans@;
        let ghost d = depth as int;
        if rem_ans.len() == 1 {
            let a = rem_ans[0];
            let alen = self.guess_seq[a].len();
            if !(alen > depth && alen - depth == 1) {
                return Err(TreeError::SequenceLengthMismatch { answer: a });
            }
            if self.guess_seq[a][depth] != a {
                return Err(TreeError::SequenceGuessMismatch { answer: a });
            }
            let rem_copy = copy_answers(rem_ans);
            let node = Node { guess: a, rem_ans: rem_copy, edges: Vec::new() };
            proof {
                assert(node_wf(jt, smv, node, d));
            }
            return Ok(node);
        }
        let a0 = rem_ans[0];
        let len0 = self.guess_seq[a0].len();
        if len0 <= depth {
            proof {
                assert(level_bad_at(smv, remv, d, 0));
                assert(!consistent_level(smv, remv, d));
            }
            return Err(TreeError::SequenceInconsistency { answer: a0 });
        }
        let guess = self.guess_seq[a0][depth];
        let mut i: usize = 1;
        while i < rem_ans.len()
            invariant
                1 <= i <= remv.len(),
                forall|m: int| 0 <= m < i ==> !(#[trigger] level_bad_at(smv, remv, d, m)),
            decreases remv.len() - i,
        {
            let ai = rem_ans[i];
            let li = self.guess_seq[ai].len();
            if li <= depth || self.guess_seq[ai][depth] != guess {
                proof {
                    assert(level_bad_at(smv, remv, d, i as int));
                    assert(!consistent_level(smv, remv, d));
                }
                return Err(TreeError::SequenceInconsistency { answer: ai });
            }
            i = i + 1;
        }
        proof {
            assert(consistent_level(smv, remv, d)) by {
                assert forall|k: int| 0 <= k < remv.len() implies {
                    let a = #[trigger] remv[k];
                    &&& d < smv[a as int].len()
                    &&& smv[a as int][d] == smv[remv[0] as int][d]
                } by {
                    assert(!level_bad_at(smv, remv, d, k));
                }
            }
            lemma_max_seq_len(smv, a0 as int);
        }
        let parts = self.judge_table.partition(rem_ans, guess);
        proof {
            assert(parts@.len() > 0) by {
                assert(0 <= 0 < remv.len());
            }
            assert forall|x: int| 0 <= x < parts@.len() implies {
                &&& (#[trigger] parts@[x]).1@.len() >= 1
                &&& forall|y: int| 0 <= y < parts@[x].1@.len()
                        ==> (#[trigger] parts@[x].1@[y]) < smv.len()
            } by {
                assert forall|y: int| 0 <= y < parts@[x].1@.len()
                    implies (#[trigger] parts@[x].1@[y]) < smv.len() by {
                    assert(parts@[x].1@.contains(parts@[x].1@[y]));
                    assert(remv.contains(parts@[x].1@[y]));
                }
            }
        }
        let mut edges: Vec<(Judge, Node)> = Vec::new();
        let mut gi: usize = 0;
        while gi < parts.len()
            invariant
                gi <= parts@.len(),
                edges@.len() == gi,
                forall|x: int| 0 <= x < gi ==> (#[trigger] edges@[x]).0 == parts@[x].0,
                forall|x: int| 0 <= x < gi ==> node_wf(jt, smv, (#[trigger] edges@[x]).1, d + 1)
                    && edges@[x].1.rem_ans@ == parts@[x].1@,
                forall|x: int| 0 <= x < gi
                    ==> buildable(jt, smv, (#[trigger] parts@[x]).1@, d + 1),
            decreases parts@.len() - gi,
        {
            let child = match self.build(&parts[gi].1, depth + 1) {
                Ok(c) => c,
                Err(e) => {
                    proof {
                        if buildable(jt, smv, remv, d) {
                            let grp = parts@[gi as int].1@;
                            let b = grp[0];
                            assert(grp.contains(b));
                            assert(remv.contains(b));
                            let m = choose|m: int| 0 <= m < remv.len() && remv[m] == b;
                            assert(grp == remv.filter(judge_pred(jt, guess, parts@[gi as int].0)));
                            grp.lemma_filter_pred(judge_pred(jt, guess, parts@[gi as int].0), 0);
                            assert(jt.spec_judge(guess, b) == parts@[gi as int].0);
                            assert(buildable(jt, smv,
                                remv.filter(judge_pred(jt, guess, jt.spec_judge(guess, remv[m]))),
                                d + 1));
                            assert(false);
                        }
                    }
                    return Err(e);
                },
            };
            edges.push((parts[gi].0, child));
            gi = gi + 1;
        }
        let rem_copy = copy_answers(rem_ans);
        let node = Node { guess, rem_ans: rem_copy, edges };
        proof {
            assert(node_wf(jt, smv, node, d)) by {
                assert forall|k: int| 0 <= k < node.rem_ans@.len()
                    implies exists|x: int| 0 <= x < node.edges@.len()
                        && (#[trigger] node.edges@[x]).0
                            == jt.spec_judge(node.guess, #[trigger] node.rem_ans@[k]) by {
                    let wit = choose|x: int| 0 <= x < parts@.len()
                        && (#[trigger] parts@[x]).0 == jt.spec_judge(guess, remv[k]);
                    assert(node.edges@[wit].0 == jt.spec_judge(node.guess, node.rem_ans@[k]));
                }
            }
            assert(buildable(jt, smv, remv, d)) by {
                assert forall|k: int| 0 <= k < remv.len()
                    implies buildable(jt, smv,
                        remv.filter(judge_pred(jt, guess, jt.spec_judge(guess, #[trigger] remv[k]))),
                        d + 1) by {
                    let wit = choose|x: int| 0 <= x < parts@.len()
                        && (#[trigger] parts@[x]).0 == jt.spec_judge(guess, remv[k]);
                    assert(parts@[wit].1@
                        == remv.filter(judge_pred(jt, guess, jt.spec_judge(guess, remv[k]))));
                }
            }
        }
        Ok(node)
    }

    /// The full answer universe, in index order: the remaining set at the
    /// root of the tree.
    pub fn all_answers(&self) -> (r: Vec<Answer>)
        ensures
            r@.len() == self.sm().len(),
            forall|k: int| 0 <= k < r@.len() ==> (#[trigger] r@[k]) == k,
    {
        let n = self.guess_seq.len();
        let mut r: Vec<Answer> = Vec::new();
        let mut i: usize = 0;
        while i < n
            invariant
                n == self.sm().len(),
                i <= n,
                r@.len() == i,
                forall|k: int| 0 <= k < i ==> (#[trigger] r@[k]) == k,
            decreases n - i,
        {
            r.push(i);
            i = i + 1;
        }
        r
    }
}

/// The first edge labelled `key`, if any. On a well-formed node the labels
/// are distinct, so "first" is the only one.
pub open spec fn edge_lookup(edges: Seq<(Judge, Node)>, key: Judge) -> Option<Node>
    decreases edges.len(),
{
    if edges.len() == 0 {
        None
    } else if edges[0].0 == key {
        Some(edges[0].1)
    } else {
        edge_lookup(edges.drop_first(), key)
    }
}

/// The node reached from `node` by following one edge per feedback code of
/// `history`, in order; or the first code without an edge, with the number
/// of steps taken before it.
pub open spec fn walk(node: Node, history: Seq<Judge>) -> Result<Node, (Judge, int)>
    decreases history.len(),
{
    if history.len() == 0 {
        Ok(node)
    } else {
        match edge_lookup(node.edges@, history[0]) {
            Some(child) => match walk(child, history.drop_first()) {
                Ok(n) => Ok(n),
                Err(p) => Err((p.0, p.1 + 1)),
            },
            None => Err((history[0], 0)),
        }
    }
}

/// The failure that an unsuccessful walk reports (arbitrary placeholders
/// otherwise).
pub open spec fn walk_err(node: Node, history: Seq<Judge>) -> (Judge, int) {
    match walk(node, history) {
        Ok(_) => (0, 0),
        Err(p) => p,
    }
}

/// The node that a successful walk reaches (the start node otherwise).
pub open spec fn walked(node: Node, history: Seq<Judge>) -> Node {
    match walk(node, history) {
        Ok(n) => n,
        Err(_) => node,
    }
}

proof fn lemma_edge_lookup_first(edges: Seq<(Judge, Node)>, key: Judge, i: int)
    requires
        0 <= i < edges.len(),
        edges[i].0 == key,
        forall|m: int| 0 <= m < i ==> (#[trigger] edges[m]).0 != key,
    ensures
        edge_lookup(edges, key) == Some(edges[i].1),
    decreases i,
{
    if i > 0 {
        lemma_edge_lookup_first(edges.drop_first(), key, i - 1);
        assert(edges.drop_first()[i - 1] == edges[i]);
        assert forall|m: int| 0 <= m < i - 1
            implies (#[trigger] edges.drop_first()[m]).0 != key by {
            assert(edges.drop_first()[m] == edges[m + 1]);
        }
    }
}

proof fn lemma_edge_lookup_none(edges: Seq<(Judge, Node)>, key: Judge)
    requires
        forall|m: int| 0 <= m < edges.len() ==> (#[trigger] edges[m]).0 != key,
    ensures
        edge_lookup(edges, key) is None,
    decreases edges.len(),
{
    if edges.len() > 0 {
        assert forall|m: int| 0 <= m < edges.len() - 1
            implies (#[trigger] edges.drop_first()[m]).0 != key by {
            assert(edges.drop_first()[m] == edges[m + 1]);
        }
        lemma_edge_lookup_none(edges.drop_first(), key);
    }
}

proof fn lemma_edge_lookup_index(edges: Seq<(Judge, Node)>, key: Judge)
    requires
        edge_lookup(edges, key) is Some,
    ensures
        exists|i: int| 0 <= i < edges.len() && (#[trigger] edges[i]).0 == key
            && edge_lookup(edges, key) == Some(edges[i].1),
    decreases edges.len(),
{
    if edges.len() > 0 && edges[0].0 != key {
        lemma_edge_lookup_index(edges.drop_first(), key);
        let i = choose|i: int| 0 <= i < edges.drop_first().len()
            && (#[trigger] edges.drop_first()[i]).0 == key
            && edge_lookup(edges.drop_first(), key) == Some(edges.drop_first()[i].1);
        assert(edges.drop_first()[i] == edges[i + 1]);
        assert(edges[i + 1].0 == key && edge_lookup(edges, key) == Some(edges[i + 1].1));
    }
}

/// `walk` with every reported failure depth shifted by `d` steps.
pub open spec fn shift_err(r: Result<Node, (Judge, int)>, d: int) -> Result<Node, (Judge, int)> {
    match r {
        Ok(n) => Ok(n),
        Err(p) => Err((p.0, p.1 + d)),
    }
}

impl DecisionTree {
    /// Resolves the node reached from `node` by the ordered feedback history:
    /// each step replaces the node with the child that the observed code
    /// labels. Fails with `UnknownTransition`, naming the code and the step,
    /// as soon as a code has no edge; it never falls back to a default node.
    #[verifier::loop_isolation(false)]
    pub fn next<'a>(node: &'a Node, history: &Vec<Judge>) -> (r: Result<&'a Node, TreeError>)
        ensures
            match r {
                Ok(n) => walk(*node, history@) == Ok::<Node, (Judge, int)>(*n),
                Err(e) => {
                    &&& walk(*node, history@) is Err
                    &&& e == (TreeError::UnknownTransition {
                        judge: walk_err(*node, history@).0,
                        depth: walk_err(*node, history@).1 as usize,
                    })
                },
            },
    {
        let mut cur: &'a Node = node;
        let mut step: usize = 0;
        proof {
            assert(history@.skip(0) =~= history@);
        }
        while step < history.len()
            invariant
                step <= history@.len(),
                walk(*node, history@) == shift_err(
                    walk(*cur, history@.skip(step as int)),
                    step as int,
                ),
            decreases history@.len() - step,
        {
            let ghost suffix = history@.skip(step as int);
            let hj = history[step];
            let elen = cur.edges.len();
            let mut idx: usize = elen;
            let mut t: usize = 0;
            while t < elen
                invariant
                    t <= elen,
                    elen == cur.edges@.len(),
                    idx == elen || idx < t,
                    idx == elen ==> forall|m: int| 0 <= m < t
                        ==> (#[trigger] cur.edges@[m]).0 != hj,
                    idx < elen ==> cur.edges@[idx as int].0 == hj
                        && (forall|m: int| 0 <= m < idx
                            ==> (#[trigger] cur.edges@[m]).0 != hj),
                decreases elen - t,
            {
                if idx == elen && cur.edges[t].0 == hj {
                    idx = t;
                }
                t = t + 1;
            }
            proof {
                assert(suffix[0] == hj);
                assert(suffix.drop_first() =~= history@.skip(step as int + 1));
            }
            if idx == elen {
                proof {
                    lemma_edge_lookup_none(cur.edges@, hj);
                }
                return Err(TreeError::UnknownTransition { judge: hj, depth: step });
            }
            proof {
                lemma_edge_lookup_first(cur.edges@, hj, idx as int);
            }
            cur = &cur.edges[idx].1;
            step = step + 1;
        }
        proof {
            assert(history@.skip(step as int) =~= Seq::<Judge>::empty());
        }
        Ok(cur)
    }
}

/// Two trees are structurally identical: same guess and same remaining
/// answers, edges labelled by the same set of feedback codes, and
/// identically-labelled children structurally identical in turn.
pub open spec fn similar(n1: Node, n2: Node) -> bool
    decreases n1,
{
    &&& n1.guess == n2.guess
    &&& n1.rem_ans@ == n2.rem_ans@
    &&& forall|i: int| 0 <= i < n1.edges@.len()
            ==> exists|j: int| 0 <= j < n2.edges@.len()
                && (#[trigger] n2.edges@[j]).0 == (#[trigger] n1.edges@[i]).0
    &&& forall|j: int| 0 <= j < n2.edges@.len()
            ==> exists|i: int| 0 <= i < n1.edges@.len()
                && (#[trigger] n1.edges@[i]).0 == (#[trigger] n2.edges@[j]).0
    &&& forall|i: int, j: int|
            0 <= i < n1.edges@.len() && 0 <= j < n2.edges@.len()
                && (#[trigger] n1.edges@[i]).0 == (#[trigger] n2.edges@[j]).0
            ==> similar(n1.edges@[i].1, n2.edges@[j].1)
}

/// Determinism of construction: any two well-formed trees over the same
/// remaining answers at the same depth are structurally identical, so
/// building twice from the same sequences and judge table yields the same
/// guess at every reachable node and the same edge label sets.
#[verifier::rlimit(100)]
pub proof fn lemma_build_deterministic(
    jt: JudgeTable,
    sm: Seq<Seq<Guess>>,
    n1: Node,
    n2: Node,
    depth: int,
)
    requires
        node_wf(jt, sm, n1, depth),
        node_wf(jt, sm, n2, depth),
        n1.rem_ans@ == n2.rem_ans@,
    ensures
        similar(n1, n2),
    decreases n1,
{
    broadcast use vstd::seq_lib::group_filter_ensures;
    broadcast use vstd::seq::Seq::lemma_filter_contains_rev;

    let rem = n1.rem_ans@;
    assert(0 <= 0 < rem.len());
    if rem.len() == 1 {
        assert(similar(n1, n2));
    } else {
        assert(n1.guess == sm[rem[0] as int][depth]);
        assert(n2.guess == sm[rem[0] as int][depth]);
        let guess = n1.guess;
        assert forall|i: int| 0 <= i < n1.edges@.len()
            implies exists|j: int| 0 <= j < n2.edges@.len()
                && (#[trigger] n2.edges@[j]).0 == (#[trigger] n1.edges@[i]).0 by {
            let key = n1.edges@[i].0;
            let grp = n1.edges@[i].1.rem_ans@;
            assert(node_wf(jt, sm, n1.edges@[i].1, depth + 1));
            assert(grp.len() >= 1);
            let b = grp[0];
            assert(grp.contains(b));
            assert(grp == rem.filter(judge_pred(jt, guess, key)));
            rem.lemma_filter_pred(judge_pred(jt, guess, key), 0);
            assert(judge_pred(jt, guess, key)(b));
            assert(rem.contains(b));
            let m = choose|m: int| 0 <= m < rem.len() && rem[m] == b;
            assert(jt.spec_judge(n2.guess, rem[m]) == key);
        }
        assert forall|j: int| 0 <= j < n2.edges@.len()
            implies exists|i: int| 0 <= i < n1.edges@.len()
                && (#[trigger] n1.edges@[i]).0 == (#[trigger] n2.edges@[j]).0 by {
            let key = n2.edges@[j].0;
            let grp = n2.edges@[j].1.rem_ans@;
            assert(node_wf(jt, sm, n2.edges@[j].1, depth + 1));
            assert(grp.len() >= 1);
            let b = grp[0];
            assert(grp.contains(b));
            assert(grp == rem.filter(judge_pred(jt, guess, key)));
            rem.lemma_filter_pred(judge_pred(jt, guess, key), 0);
            assert(judge_pred(jt, guess, key)(b));
            assert(rem.contains(b));
            let m = choose|m: int| 0 <= m < rem.len() && rem[m] == b;
            assert(jt.spec_judge(n1.guess, rem[m]) == key);
        }
        assert forall|i: int, j: int|
            0 <= i < n1.edges@.len() && 0 <= j < n2.edges@.len()
                && (#[trigger] n1.edges@[i]).0 == (#[trigger] n2.edges@[j]).0
            implies similar(n1.edges@[i].1, n2.edges@[j].1) by {
            let c1 = n1.edges@[i].1;
            let c2 = n2.edges@[j].1;
            assert(node_wf(jt, sm, c1, depth + 1));
            assert(node_wf(jt, sm, c2, depth + 1));
            assert(c1.rem_ans@ == rem.filter(judge_pred(jt, guess, n1.edges@[i].0)));
            assert(c2.rem_ans@ == rem.filter(judge_pred(jt, guess, n2.edges@[j].0)));
            lemma_build_deterministic(jt, sm, c1, c2, depth + 1);
        }
        assert(similar(n1, n2));
    }
}

/// Well-formedness is preserved along every successful walk: the node
/// reached after `history.len()` steps satisfies the node invariant at the
/// correspondingly deeper level.
pub proof fn lemma_walk_preserves_wf(
    jt: JudgeTable,
    sm: Seq<Seq<Guess>>,
    node: Node,
    depth: int,
    history: Seq<Judge>,
)
    requires
        node_wf(jt, sm, node, depth),
        walk(node, history) is Ok,
    ensures
        node_wf(jt, sm, walked(node, history), depth + history.len()),
    decreases history.len(),
{
    if history.len() > 0 {
        assert(edge_lookup(node.edges@, history[0]) is Some);
        lemma_edge_lookup_index(node.edges@, history[0]);
        let i = choose|i: int| 0 <= i < node.edges@.len()
            && (#[trigger] node.edges@[i]).0 == history[0]
            && edge_lookup(node.edges@, history[0]) == Some(node.edges@[i].1);
        let child = node.edges@[i].1;
        assert(node.edges@.len() > 0);
        assert(node.rem_ans@.len() > 1);
        assert(node_wf(jt, sm, child, depth + 1));
        lemma_walk_preserves_wf(jt, sm, child, depth + 1, history.drop_first());
        assert(walked(node, history) == walked(child, history.drop_first()));
    }
}

/// Leaf correctness: every leaf reached at depth `d` with sole remaining
/// answer `a` has a guess sequence of length exactly `d + 1` whose final
/// entry is `a` itself, and announces `a` as its guess.
pub proof fn lemma_leaf_correct(
    jt: JudgeTable,
    sm: Seq<Seq<Guess>>,
    root: Node,
    depth: int,
    history: Seq<Judge>,
)
    requires
        node_wf(jt, sm, root, depth),
        walk(root, history) is Ok,
        walked(root, history).rem_ans@.len() == 1,
    ensures
        ({
            let a = walked(root, history).rem_ans@[0];
            &&& sm[a as int].len() == depth + history.len() + 1
            &&& sm[a as int][depth + history.len()] == a
            &&& walked(root, history).guess == a
        }),
{
    lemma_walk_preserves_wf(jt, sm, root, depth, history);
    assert(0 <= 0 < walked(root, history).rem_ans@.len());
}

/// Path-consistency: at every node reached at depth `d`, every remaining
/// answer's sequence reaches past `d` and prescribes that node's guess
/// there.
pub proof fn lemma_path_consistent(
    jt: JudgeTable,
    sm: Seq<Seq<Guess>>,
    root: Node,
    depth: int,
    history: Seq<Judge>,
)
    requires
        node_wf(jt, sm, root, depth),
        walk(root, history) is Ok,
    ensures
        forall|k: int| 0 <= k < walked(root, history).rem_ans@.len() ==> {
            let a = #[trigger] walked(root, history).rem_ans@[k];
            &&& depth + history.len() < sm[a as int].len()
            &&& sm[a as int][depth + history.len()] == walked(root, history).guess
        },
{
    lemma_walk_preserves_wf(jt, sm, root, depth, history);
}

/// The feedback codes that answer `a` produces against its own prescribed
/// guesses from `depth` on: the history an operator holding `a` feeds back.
pub open spec fn true_history(jt: JudgeTable, sm: Seq<Seq<Guess>>, a: Answer, depth: int) -> Seq<Judge> {
    Seq::new(
        (sm[a as int].len() - 1 - depth) as nat,
        |i: int| jt.spec_judge(sm[a as int][depth + i], a),
    )
}

/// Round trip: from any well-formed node still holding answer `a`, walking
/// by the code `a` produces against each prescribed guess follows exactly
/// the guesses `sm[a][depth..]` and ends at the leaf holding `a` alone.
pub proof fn lemma_round_trip(
    jt: JudgeTable,
    sm: Seq<Seq<Guess>>,
    node: Node,
    depth: int,
    a: Answer,
)
    requires
        node_wf(jt, sm, node, depth),
        node.rem_ans@.contains(a),
    ensures
        walk(node, true_history(jt, sm, a, depth)) is Ok,
        walked(node, true_history(jt, sm, a, depth)).rem_ans@ == seq![a],
        walked(node, true_history(jt, sm, a, depth)).guess == a,
        forall|t: int| 0 <= t <= true_history(jt, sm, a, depth).len() ==> {
            let prefix = #[trigger] true_history(jt, sm, a, depth).take(t);
            &&& walk(node, prefix) is Ok
            &&& walked(node, prefix).guess == sm[a as int][depth + t]
        },
    decreases node,
{
    broadcast use vstd::seq_lib::group_filter_ensures;

    let th = true_history(jt, sm, a, depth);
    let m = choose|m: int| 0 <= m < node.rem_ans@.len() && node.rem_ans@[m] == a;
    assert(sm[a as int][depth] == node.guess);
    if node.rem_ans@.len() == 1 {
        assert(th.len() == 0);
        assert(node.rem_ans@ =~= seq![a]);
        assert forall|t: int| 0 <= t <= th.len() implies {
            let prefix = #[trigger] th.take(t);
            &&& walk(node, prefix) is Ok
            &&& walked(node, prefix).guess == sm[a as int][depth + t]
        } by {
            assert(th.take(t) =~= Seq::<Judge>::empty());
        }
    } else {
        let j0 = jt.spec_judge(node.guess, a);
        let i = choose|i: int| 0 <= i < node.edges@.len()
            && (#[trigger] node.edges@[i]).0 == jt.spec_judge(node.guess, node.rem_ans@[m]);
        assert(node.edges@[i].0 == j0);
        assert forall|mm: int| 0 <= mm < i
            implies (#[trigger] node.edges@[mm]).0 != j0 by {
            assert(node.edges@[mm].0 != node.edges@[i].0);
        }
        lemma_edge_lookup_first(node.edges@, j0, i);
        let child = node.edges@[i].1;
        assert(child.rem_ans@ == node.rem_ans@.filter(judge_pred(jt, node.guess, j0)));
        assert(judge_pred(jt, node.guess, j0)(a));
        node.rem_ans@.lemma_filter_contains(judge_pred(jt, node.guess, j0), m);
        assert(child.rem_ans@.contains(a));
        assert(node_wf(jt, sm, child, depth + 1));
        lemma_round_trip(jt, sm, child, depth + 1, a);
        let th1 = true_history(jt, sm, a, depth + 1);
        assert(sm[a as int].len() > depth + 1);
        assert(th.len() >= 1);
        assert(th[0] == j0);
        assert(th.drop_first() =~= th1);
        assert(walk(node, th) is Ok);
        assert(walked(node, th) == walked(child, th1));
        assert forall|t: int| 0 <= t <= th.len() implies {
            let prefix = #[trigger] th.take(t);
            &&& walk(node, prefix) is Ok
            &&& walked(node, prefix).guess == sm[a as int][depth + t]
        } by {
            if t == 0 {
                assert(th.take(0) =~= Seq::<Judge>::empty());
            } else {
                assert(th.take(t)[0] == j0);
                assert(th.take(t).drop_first() =~= th1.take(t - 1));
                assert(walk(child, th1.take(t - 1)) is Ok);
                assert(walked(child, th1.take(t - 1)).guess == sm[a as int][depth + t]);
                assert(walk(node, th.take(t)) is Ok);
                assert(walked(node, th.take(t)) == walked(child, th1.take(t - 1)));
            }
        }
    }
}

} // verus!
