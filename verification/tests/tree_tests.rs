use wordle_tree::DecisionTree;
use wordle_tree::JudgeTable;
use wordle_tree::Node;
use wordle_tree::TreeError;

/// A 4-word toy universe: words 0, 1, 2 are the candidate answers, word 3 is
/// the shared opening guess. Judging word 3 against answers 0, 1, 2 yields
/// the distinct codes 1, 2, 3; every other pair yields 0.
fn toy_table() -> JudgeTable {
    let mut table: Vec<Vec<u32>> = Vec::new();
    for g in 0..4usize {
        let mut row: Vec<u32> = Vec::new();
        for a in 0..4usize {
            if g == 3 && a < 3 {
                row.push((a + 1) as u32);
            } else {
                row.push(0);
            }
        }
        table.push(row);
    }
    JudgeTable::new(table).unwrap()
}

fn toy_tree() -> DecisionTree {
    let guess_seq: Vec<Vec<usize>> = vec![vec![3, 0], vec![3, 1], vec![3, 2], vec![3]];
    DecisionTree::new(guess_seq, toy_table()).unwrap()
}

fn edge_keys(node: &Node) -> Vec<u32> {
    let mut keys: Vec<u32> = node.edges.iter().map(|e| e.0).collect();
    keys.sort();
    keys
}

fn child<'a>(node: &'a Node, key: u32) -> &'a Node {
    &node.edges.iter().find(|e| e.0 == key).unwrap().1
}

#[test]
fn toy_scenario_builds_expected_tree() {
    let dt = toy_tree();
    let root = dt.build(&vec![0, 1, 2], 0).unwrap();
    assert_eq!(root.guess, 3);
    assert_eq!(root.rem_ans, vec![0, 1, 2]);
    assert_eq!(edge_keys(&root), vec![1, 2, 3]);
    for a in 0..3usize {
        let leaf = child(&root, (a + 1) as u32);
        assert_eq!(leaf.guess, a);
        assert_eq!(leaf.rem_ans, vec![a]);
        assert!(leaf.is_leaf());
    }
    assert!(!root.is_leaf());
}

#[test]
fn toy_scenario_next_follows_one_edge() {
    let dt = toy_tree();
    let root = dt.build(&vec![0, 1, 2], 0).unwrap();
    let node = DecisionTree::next(&root, &vec![2]).unwrap();
    assert_eq!(node.guess, 1);
    assert_eq!(node.rem_ans, vec![1]);
}

#[test]
fn next_with_empty_history_returns_start() {
    let dt = toy_tree();
    let root = dt.build(&vec![0, 1, 2], 0).unwrap();
    let node = DecisionTree::next(&root, &vec![]).unwrap();
    assert_eq!(node.guess, 3);
    assert_eq!(node.rem_ans, vec![0, 1, 2]);
}

#[test]
fn unknown_judge_raises_unknown_transition() {
    let dt = toy_tree();
    let root = dt.build(&vec![0, 1, 2], 0).unwrap();
    let err = DecisionTree::next(&root, &vec![9]).unwrap_err();
    assert_eq!(err, TreeError::UnknownTransition { judge: 9, depth: 0 });
}

#[test]
fn unknown_judge_depth_counts_steps_taken() {
    let dt = toy_tree();
    let root = dt.build(&vec![0, 1, 2], 0).unwrap();
    let err = DecisionTree::next(&root, &vec![2, 7]).unwrap_err();
    assert_eq!(err, TreeError::UnknownTransition { judge: 7, depth: 1 });
}

#[test]
fn empty_sequence_causes_length_mismatch() {
    let table = JudgeTable::new(vec![vec![0]]).unwrap();
    let dt = DecisionTree::new(vec![vec![]], table).unwrap();
    let err = dt.build(&vec![0], 0).unwrap_err();
    assert_eq!(err, TreeError::SequenceLengthMismatch { answer: 0 });
}

#[test]
fn long_sequence_on_leaf_causes_length_mismatch() {
    let table = JudgeTable::new(vec![vec![0, 0], vec![0, 0]]).unwrap();
    let dt = DecisionTree::new(vec![vec![0, 0], vec![1]], table).unwrap();
    let err = dt.build(&vec![0], 0).unwrap_err();
    assert_eq!(err, TreeError::SequenceLengthMismatch { answer: 0 });
}

#[test]
fn wrong_final_guess_causes_guess_mismatch() {
    let table = JudgeTable::new(vec![vec![0, 0], vec![0, 0]]).unwrap();
    let dt = DecisionTree::new(vec![vec![1], vec![1]], table).unwrap();
    let err = dt.build(&vec![0], 0).unwrap_err();
    assert_eq!(err, TreeError::SequenceGuessMismatch { answer: 0 });
}

#[test]
fn disagreeing_answers_cause_inconsistency() {
    let table = JudgeTable::new(vec![vec![0, 0], vec![0, 0]]).unwrap();
    let dt = DecisionTree::new(vec![vec![0], vec![1]], table).unwrap();
    let err = dt.build(&vec![0, 1], 0).unwrap_err();
    assert_eq!(err, TreeError::SequenceInconsistency { answer: 1 });
}

#[test]
fn short_sequence_causes_inconsistency() {
    let table = JudgeTable::new(vec![vec![0, 0], vec![0, 0]]).unwrap();
    let dt = DecisionTree::new(vec![vec![0], vec![]], table).unwrap();
    let err = dt.build(&vec![0, 1], 0).unwrap_err();
    assert_eq!(err, TreeError::SequenceInconsistency { answer: 1 });
}

#[test]
fn building_twice_is_deterministic() {
    let dt = toy_tree();
    let r1 = dt.build(&vec![0, 1, 2], 0).unwrap();
    let r2 = dt.build(&vec![0, 1, 2], 0).unwrap();
    assert_eq!(r1.guess, r2.guess);
    assert_eq!(r1.rem_ans, r2.rem_ans);
    assert_eq!(edge_keys(&r1), edge_keys(&r2));
    for key in edge_keys(&r1) {
        let c1 = child(&r1, key);
        let c2 = child(&r2, key);
        assert_eq!(c1.guess, c2.guess);
        assert_eq!(c1.rem_ans, c2.rem_ans);
        assert_eq!(edge_keys(c1), edge_keys(c2));
    }
}

#[test]
fn partition_groups_by_code_stably() {
    // Codes against guess 0: answers 0 and 2 give 5, answer 1 gives 7.
    let table = JudgeTable::new(vec![
        vec![5, 7, 5],
        vec![0, 0, 0],
        vec![0, 0, 0],
    ])
    .unwrap();
    let groups = table.partition(&vec![0, 1, 2], 0);
    assert_eq!(groups.len(), 2);
    assert_eq!(groups[0].0, 5);
    assert_eq!(groups[0].1, vec![0, 2]);
    assert_eq!(groups[1].0, 7);
    assert_eq!(groups[1].1, vec![1]);
}

#[test]
fn partition_sizes_add_up_and_groups_are_disjoint() {
    let table = JudgeTable::new(vec![
        vec![1, 2, 1, 2, 1],
        vec![0, 0, 0, 0, 0],
        vec![0, 0, 0, 0, 0],
        vec![0, 0, 0, 0, 0],
        vec![0, 0, 0, 0, 0],
    ])
    .unwrap();
    let answers = vec![4, 3, 2, 1, 0];
    let groups = table.partition(&answers, 0);
    let total: usize = groups.iter().map(|g| g.1.len()).sum();
    assert_eq!(total, answers.len());
    let mut seen: Vec<usize> = Vec::new();
    for (_, grp) in &groups {
        assert!(!grp.is_empty());
        for a in grp {
            assert!(!seen.contains(a));
            seen.push(*a);
        }
    }
    seen.sort();
    assert_eq!(seen, vec![0, 1, 2, 3, 4]);
}

#[test]
fn partition_of_empty_set_is_empty() {
    let table = JudgeTable::new(vec![vec![0]]).unwrap();
    let groups = table.partition(&vec![], 0);
    assert!(groups.is_empty());
}

#[test]
fn round_trip_reaches_every_answers_leaf() {
    let dt = toy_tree();
    let root = dt.build(&vec![0, 1, 2], 0).unwrap();
    for a in 0..3usize {
        // The history that answer `a` produces against the prescribed guesses.
        let history = vec![(a + 1) as u32];
        let leaf = DecisionTree::next(&root, &history).unwrap();
        assert_eq!(leaf.rem_ans, vec![a]);
        assert_eq!(leaf.guess, a);
    }
}

#[test]
fn judge_table_rejects_ragged_matrix() {
    assert!(JudgeTable::new(vec![vec![0, 0], vec![0]]).is_none());
    assert!(JudgeTable::new(vec![vec![0, 0, 0]]).is_none());
}

#[test]
fn judge_table_accepts_square_matrix_and_serves_lookups() {
    let table = JudgeTable::new(vec![vec![4, 5], vec![6, 7]]).unwrap();
    assert_eq!(table.n(), 2);
    assert_eq!(table.judge(0, 1), 5);
    assert_eq!(table.judge(1, 0), 6);
}

#[test]
fn decision_tree_new_rejects_inconsistent_inputs() {
    // Sizes disagree.
    assert!(DecisionTree::new(vec![vec![0]], JudgeTable::new(vec![vec![0, 0], vec![0, 0]]).unwrap()).is_none());
    // A sequence names a guess outside the universe.
    assert!(DecisionTree::new(vec![vec![1]], JudgeTable::new(vec![vec![0]]).unwrap()).is_none());
}

#[test]
fn all_answers_lists_the_whole_universe() {
    let dt = toy_tree();
    assert_eq!(dt.all_answers(), vec![0, 1, 2, 3]);
}

#[test]
fn feedback_digits_pack_into_two_bit_fields() {
    // 0 + 1*4 + 2*16 + 0*64 + 1*256 = 292
    let judge = wordle_tree::parse_feedback(&b"01201".to_vec(), 5).unwrap();
    assert_eq!(judge, 292);
    // Every position correct: 2 in each field.
    let judge = wordle_tree::parse_feedback(&b"22222".to_vec(), 5).unwrap();
    assert_eq!(judge, 0b10_10_10_10_10);
    assert_eq!(wordle_tree::parse_feedback(&b"00000".to_vec(), 5).unwrap(), 0);
}

#[test]
fn feedback_of_wrong_length_is_malformed() {
    let err = wordle_tree::parse_feedback(&b"0120".to_vec(), 5).unwrap_err();
    assert_eq!(err, TreeError::MalformedFeedbackInput);
    let err = wordle_tree::parse_feedback(&b"012011".to_vec(), 5).unwrap_err();
    assert_eq!(err, TreeError::MalformedFeedbackInput);
}

#[test]
fn feedback_with_non_digit_is_malformed() {
    let err = wordle_tree::parse_feedback(&b"01a01".to_vec(), 5).unwrap_err();
    assert_eq!(err, TreeError::MalformedFeedbackInput);
}

/// A deeper universe: answers 0 and 1 share the code of the opening guess 3
/// and are separated one level later by guessing 0; answer 2 splits off at
/// once.
fn two_level_tree() -> DecisionTree {
    let mut table: Vec<Vec<u32>> = vec![vec![0; 4], vec![0; 4], vec![0; 4], vec![0; 4]];
    table[3][0] = 1;
    table[3][1] = 1;
    table[3][2] = 2;
    table[0][0] = 5;
    table[0][1] = 6;
    let guess_seq: Vec<Vec<usize>> =
        vec![vec![3, 0, 0], vec![3, 0, 1], vec![3, 2], vec![3]];
    DecisionTree::new(guess_seq, JudgeTable::new(table).unwrap()).unwrap()
}

#[test]
fn two_level_tree_builds_and_navigates() {
    let dt = two_level_tree();
    let root = dt.build(&vec![0, 1, 2], 0).unwrap();
    assert_eq!(root.guess, 3);
    assert_eq!(edge_keys(&root), vec![1, 2]);

    let mid = child(&root, 1);
    assert_eq!(mid.guess, 0);
    assert_eq!(mid.rem_ans, vec![0, 1]);
    assert_eq!(edge_keys(mid), vec![5, 6]);

    let leaf2 = child(&root, 2);
    assert!(leaf2.is_leaf());
    assert_eq!(leaf2.rem_ans, vec![2]);

    let node = DecisionTree::next(&root, &vec![1, 6]).unwrap();
    assert!(node.is_leaf());
    assert_eq!(node.rem_ans, vec![1]);
    assert_eq!(node.guess, 1);
}

#[test]
fn two_level_round_trip_follows_true_feedback() {
    let dt = two_level_tree();
    let root = dt.build(&vec![0, 1, 2], 0).unwrap();
    // Answer 0 produces code 1 against guess 3, then code 5 against guess 0.
    let leaf = DecisionTree::next(&root, &vec![1, 5]).unwrap();
    assert_eq!(leaf.rem_ans, vec![0]);
    assert_eq!(leaf.guess, 0);
}

#[test]
fn deep_disagreement_is_reported_from_the_failing_group() {
    let dt = {
        let mut table: Vec<Vec<u32>> = vec![vec![0; 4], vec![0; 4], vec![0; 4], vec![0; 4]];
        table[3][0] = 1;
        table[3][1] = 1;
        table[3][2] = 2;
        // Answers 0 and 1 stay together at depth 1 but disagree on the guess there.
        let guess_seq: Vec<Vec<usize>> =
            vec![vec![3, 0, 0], vec![3, 1, 1], vec![3, 2], vec![3]];
        DecisionTree::new(guess_seq, JudgeTable::new(table).unwrap()).unwrap()
    };
    let err = dt.build(&vec![0, 1, 2], 0).unwrap_err();
    assert_eq!(err, TreeError::SequenceInconsistency { answer: 1 });
}
