use mastermind::attempt::{compute_score, matches_all, Attempt, Score};
use mastermind::code::Code;
use mastermind::solver::node::{Node, SelectionResult};

fn attempt(guess: &str, secret: &str) -> Attempt {
    let guess = Code::from_str(guess);
    let secret = Code::from_str(secret);
    Attempt::new(guess.clone(), compute_score(&guess, &secret))
}

#[test]
fn new_node_counts_itself() {
    let node = Node::new(Code::with_length(3));
    assert_eq!(node.code_count(), 1);
}

#[test]
fn complete_code_is_selected_as_it_is() {
    let mut node = Node::new(Code::from_str("ab"));
    let result = node.select_code(&Vec::new(), &vec![b'a', b'b'], 0);
    match result {
        SelectionResult::Selection(code) => assert_eq!(code.code, vec![b'a', b'b']),
        _ => panic!("a complete code that nothing rules out is the candidate"),
    }
    assert_eq!(node.code_count(), 1);
}

#[test]
fn rejected_node_is_dead_and_untouched() {
    let history = vec![attempt("ab", "ba")];
    let mut node = Node::new(Code::from_str("a."));
    let result = node.select_code(&history, &vec![b'a', b'b'], 2);
    assert!(matches!(result, SelectionResult::DeadBranch));
    assert_eq!(node.code_count(), 1);
}

#[test]
fn selection_completes_the_node_over_the_palette() {
    let palette = vec![b'a', b'b', b'c'];
    for _ in 0..50 {
        let mut node = Node::new(Code::from_str("a.."));
        match node.select_code(&Vec::new(), &palette, 0) {
            SelectionResult::Selection(code) => {
                assert_eq!(code.len(), 3);
                assert_eq!(code.code[0], b'a');
                assert!(code.code.iter().all(|peg| palette.contains(peg)));
            },
            _ => panic!("with nothing recorded the first walk ends at a candidate"),
        }
        // the node itself, its three children, and the three children of one of them
        assert_eq!(node.code_count(), 7);
    }
}

#[test]
fn selection_is_admitted_by_every_attempt() {
    let palette = vec![b'a', b'b', b'c'];
    let history = vec![attempt("aab", "cab"), attempt("bbc", "cab")];
    for _ in 0..50 {
        let mut node = Node::new(Code::with_length(3));
        let mut found = None;
        for _ in 0..1000 {
            if let SelectionResult::Selection(code) = node.select_code(&history, &palette, 0) {
                found = Some(code);
                break;
            }
        }
        let code = found.unwrap();
        assert!(matches_all(&history, &code));
    }
}

#[test]
fn without_surrender_the_walk_tries_every_child() {
    // the only code over the palette is ruled out
    let history = vec![Attempt::new(Code::from_str("a"), Score { num_dots: 0, black: 0, white: 0 })];
    let mut node = Node::new(Code::with_length(1));
    let result = node.select_code(&history, &vec![b'a'], 0);
    assert!(matches!(result, SelectionResult::DeadBranch));
    assert_eq!(node.code_count(), 1);
}

#[test]
fn with_surrender_the_walk_gives_up_after_a_dead_child() {
    let history = vec![Attempt::new(Code::from_str("a"), Score { num_dots: 0, black: 0, white: 0 })];
    let mut node = Node::new(Code::with_length(1));
    let result = node.select_code(&history, &vec![b'a'], 2);
    assert!(matches!(result, SelectionResult::Surrender(1)));
    assert_eq!(node.code_count(), 1);
    let again = node.select_code(&history, &vec![b'a'], 2);
    assert!(matches!(again, SelectionResult::DeadBranch));
    assert_eq!(node.code_count(), 1);
}

#[test]
fn surrender_climbs_one_level_less_each_time() {
    // the only code of two pegs is ruled out, what leads to it is not
    let history = vec![Attempt::new(Code::from_str("aa"), Score { num_dots: 0, black: 1, white: 1 })];
    let mut node = Node::new(Code::with_length(2));
    // the grandchild dies, its parent surrenders with depth 1, the root hands on depth 0
    let result = node.select_code(&history, &vec![b'a'], 2);
    assert!(matches!(result, SelectionResult::Surrender(0)));
    // root and child are left
    assert_eq!(node.code_count(), 2);
    // the child has lost its only child: it is dead, and the root surrenders
    let result = node.select_code(&history, &vec![b'a'], 2);
    assert!(matches!(result, SelectionResult::Surrender(1)));
    assert_eq!(node.code_count(), 1);
    let result = node.select_code(&history, &vec![b'a'], 2);
    assert!(matches!(result, SelectionResult::DeadBranch));
}

#[test]
fn surrender_of_depth_zero_is_absorbed() {
    let history = vec![Attempt::new(Code::from_str("aa"), Score { num_dots: 0, black: 1, white: 1 })];
    let mut node = Node::new(Code::with_length(2));
    // the grandchild dies and its parent surrenders with depth 0; the root goes on with the
    // parent, finds it dead, removes it and surrenders itself
    let result = node.select_code(&history, &vec![b'a'], 1);
    assert!(matches!(result, SelectionResult::Surrender(0)));
    assert_eq!(node.code_count(), 1);
}

#[test]
fn count_follows_growth_and_pruning() {
    let palette = vec![b'a', b'b'];
    // rules out every code that starts or ends with `a`
    let history = vec![attempt("aa", "bb")];
    let mut node = Node::new(Code::with_length(2));
    let mut found = None;
    for _ in 0..100 {
        if let SelectionResult::Selection(code) = node.select_code(&history, &palette, 0) {
            found = Some(code);
            break;
        }
    }
    assert_eq!(found.unwrap().code, vec![b'b', b'b']);
    // what is left of the tree holds the root, one or two children and one or two leaves
    assert!(node.code_count() >= 3 && node.code_count() <= 5);
}

#[test]
fn only_consistent_code_is_found_in_every_run() {
    let palette = vec![b'a', b'b'];
    let history = vec![attempt("ab", "aa"), attempt("bb", "aa"), attempt("ba", "aa")];
    for _ in 0..100 {
        let mut node = Node::new(Code::with_length(2));
        let mut found = None;
        for _ in 0..100 {
            if let SelectionResult::Selection(code) = node.select_code(&history, &palette, 2) {
                found = Some(code);
                break;
            }
        }
        assert_eq!(found.unwrap().code, vec![b'a', b'a']);
    }
}

#[test]
fn dead_child_under_a_surrender_depth_gives_that_depth_less_one() {
    let history = vec![Attempt::new(Code::from_str("aa"), Score { num_dots: 0, black: 0, white: 0 })];
    let mut node = Node::new(Code::with_length(2));
    let result = node.select_code(&history, &vec![b'a'], 2);
    assert!(matches!(result, SelectionResult::Surrender(1)));
    // the root alone is left
    assert_eq!(node.code_count(), 1);
}

#[test]
fn walk_that_meets_no_dead_node_selects_under_every_depth() {
    for depth in 0..4 {
        let mut node = Node::new(Code::with_length(2));
        match node.select_code(&Vec::new(), &vec![b'a'], depth) {
            SelectionResult::Selection(code) => assert_eq!(code.code, vec![b'a', b'a']),
            _ => panic!("nothing is recorded, so no node is dead"),
        }
        assert_eq!(node.code_count(), 3);
    }
}

#[test]
fn one_walk_over_two_colors_counts_three_nodes() {
    let mut node = Node::new(Code::with_length(1));
    let result = node.select_code(&Vec::new(), &vec![b'a', b'b'], 2);
    assert!(matches!(result, SelectionResult::Selection(_)));
    assert_eq!(node.code_count(), 3);
}

#[test]
fn settle_reports_a_candidate_and_counts_the_child_again() {
    let mut children = vec![Node::new(Code::from_str("a")), Node::new(Code::from_str("b"))];
    let mut count = 2;
    let found = SelectionResult::Selection(Code::from_str("b"));
    match Node::settle(&mut count, &mut children, 1, found, 2) {
        Some(SelectionResult::Selection(code)) => assert_eq!(code.code, vec![b'b']),
        _ => panic!("a candidate is reported as it is"),
    }
    assert_eq!(count, 3);
    assert_eq!(children.len(), 2);
}

#[test]
fn settle_removes_a_dead_child() {
    let mut children = vec![Node::new(Code::from_str("a")), Node::new(Code::from_str("b"))];
    let mut count = 2;
    let report = Node::settle(&mut count, &mut children, 0, SelectionResult::DeadBranch, 2);
    assert!(matches!(report, Some(SelectionResult::Surrender(1))));
    assert_eq!(count, 2);
    assert_eq!(children.len(), 1);
    let report = Node::settle(&mut count, &mut children, 0, SelectionResult::DeadBranch, 0);
    assert!(report.is_none());
    assert!(children.is_empty());
}

#[test]
fn settle_hands_a_surrender_on_with_one_level_less() {
    let mut children = vec![Node::new(Code::from_str("a"))];
    let mut count = 1;
    let report = Node::settle(&mut count, &mut children, 0, SelectionResult::Surrender(2), 5);
    assert!(matches!(report, Some(SelectionResult::Surrender(1))));
    assert_eq!(count, 2);
    let report = Node::settle(&mut count, &mut children, 0, SelectionResult::Surrender(0), 5);
    assert!(report.is_none());
    assert_eq!(count, 3);
    assert_eq!(children.len(), 1);
}

#[test]
fn branch_makes_one_child_for_each_color() {
    let palette = vec![b'a', b'b', b'c'];
    let mut node = Node::new(Code::from_str("x.."));
    node.branch(&palette, 2);
    assert_eq!(node.code_count(), 4);
    // a walk goes on from the children that were made
    match node.select_code(&Vec::new(), &palette, 0) {
        SelectionResult::Selection(code) => {
            assert_eq!(code.code[0], b'x');
            assert!(palette.contains(&code.code[1]) && palette.contains(&code.code[2]));
        },
        _ => panic!("nothing is recorded, so no node is dead"),
    }
    assert_eq!(node.code_count(), 7);
}
