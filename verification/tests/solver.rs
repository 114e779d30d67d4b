use mastermind::attempt::{compute_score, matches_all, Attempt, Score};
use mastermind::code::Code;
use mastermind::solver::probing::try_select_code;
use mastermind::solver::random::Random;
use mastermind::solver::tree_with_surrender::{
    TreeWithSurrender, MAX_ATTEMPT_GENERATIONS, SURRENDER_DEPTH,
};
use mastermind::solver::{solver_constructors, AnySolver, Solver, SolverConstructor};

fn feedback(guess: &Code, secret: &str) -> Score {
    compute_score(guess, &Code::from_str(secret))
}

#[test]
fn budgets_of_the_tree_solver() {
    assert_eq!(MAX_ATTEMPT_GENERATIONS, 10000);
    assert_eq!(SURRENDER_DEPTH, 2);
}

#[test]
fn random_always_proposes() {
    let palette = vec![b'a', b'b', b'c'];
    let mut solver = Random::new(&palette, 4);
    for _ in 0..200 {
        let candidate = solver.generate_candidate().unwrap();
        assert_eq!(candidate.len(), 4);
        assert!(candidate.code.iter().all(|peg| palette.contains(peg)));
    }
}

#[test]
fn random_ignores_what_it_is_told() {
    let palette = vec![b'a'];
    let mut solver = Random::new(&palette, 2);
    let guess = Code::from_str("aa");
    // feedback that rules out the only code there is
    solver.record_attempt(&guess, Score { num_dots: 0, black: 0, white: 0 });
    for _ in 0..20 {
        assert_eq!(solver.generate_candidate().unwrap().code, vec![b'a', b'a']);
    }
    assert_eq!(solver.name(), "random");
}

#[test]
fn random_of_no_pegs_needs_no_colors() {
    let mut solver = Random::new(&Vec::new(), 0);
    assert_eq!(solver.generate_candidate().unwrap().len(), 0);
}

#[test]
fn tree_solver_is_named() {
    let solver = TreeWithSurrender::new(&vec![b'a'], 1);
    assert_eq!(solver.name(), "tree_with_surrender");
    assert_eq!(solver.tree_size(), 1);
}

#[test]
fn tree_solver_proposes_what_the_attempts_admit() {
    let palette = vec![b'a', b'b', b'c'];
    let secret = "cab";
    let mut solver = TreeWithSurrender::new(&palette, 3);
    let mut history = Vec::new();
    for _ in 0..5 {
        let candidate = solver.generate_candidate().unwrap();
        assert_eq!(candidate.len(), 3);
        assert!(candidate.code.iter().all(|peg| palette.contains(peg)));
        assert!(matches_all(&history, &candidate));
        let score = feedback(&candidate, secret);
        if score.black == 3 {
            assert_eq!(candidate.code, vec![b'c', b'a', b'b']);
            break;
        }
        solver.record_attempt(&candidate, score);
        history.push(Attempt::new(candidate, score));
    }
}

#[test]
fn tree_solver_finds_the_only_code_that_is_left() {
    let palette = vec![b'a', b'b'];
    for _ in 0..100 {
        let mut solver = TreeWithSurrender::new(&palette, 2);
        for guess in ["ab", "bb", "ba"] {
            let guess = Code::from_str(guess);
            solver.record_attempt(&guess, feedback(&guess, "aa"));
        }
        assert_eq!(solver.generate_candidate().unwrap().code, vec![b'a', b'a']);
    }
}

#[test]
fn tree_solver_finds_the_only_code_of_three_pegs() {
    let palette = vec![b'a', b'b', b'c'];
    for _ in 0..20 {
        let mut solver = TreeWithSurrender::new(&palette, 3);
        for guess in ["aab", "bbc", "cca", "abc"] {
            let guess = Code::from_str(guess);
            solver.record_attempt(&guess, feedback(&guess, "cab"));
        }
        let candidate = solver.generate_candidate().unwrap();
        // the four attempts leave the codes that score like the secret
        for guess in ["aab", "bbc", "cca", "abc"] {
            let guess = Code::from_str(guess);
            assert_eq!(compute_score(&guess, &candidate), feedback(&guess, "cab"));
        }
    }
}

#[test]
fn tree_solver_gives_up_on_contradictory_attempts() {
    let palette = vec![b'a', b'b'];
    let mut solver = TreeWithSurrender::new(&palette, 2);
    // no code agrees with "aa" at two positions and with "bb" at two positions
    solver.record_attempt(&Code::from_str("aa"), Score { num_dots: 0, black: 2, white: 2 });
    solver.record_attempt(&Code::from_str("bb"), Score { num_dots: 0, black: 2, white: 2 });
    assert!(solver.generate_candidate().is_none());
    // everything below the root is pruned
    assert_eq!(solver.tree_size(), 1);
    assert!(solver.generate_candidate().is_none());
}

#[test]
fn tree_solver_with_nothing_recorded_proposes_at_once() {
    let mut solver = TreeWithSurrender::new(&vec![b'a', b'b', b'c', b'd'], 5);
    let candidate = solver.generate_candidate().unwrap();
    assert_eq!(candidate.len(), 5);
    // one node for the root and four for each of the five levels
    assert_eq!(solver.tree_size(), 21);
}

#[test]
fn tree_solver_of_no_pegs_proposes_the_empty_code() {
    let mut solver = TreeWithSurrender::new(&vec![b'a'], 0);
    assert_eq!(solver.generate_candidate().unwrap().len(), 0);
}

#[test]
fn registry_names_both_solvers_in_order() {
    let registry = solver_constructors();
    assert_eq!(registry, vec![SolverConstructor::Random, SolverConstructor::TreeWithSurrender]);
    let names: Vec<&str> = registry.iter().map(|constructor| constructor.name()).collect();
    assert_eq!(names, vec!["random", "tree_with_surrender"]);
}

#[test]
fn constructors_make_their_solvers() {
    let palette = vec![b'a', b'b'];
    let random = SolverConstructor::Random.construct(&palette, 3);
    assert!(matches!(random, AnySolver::Random(_)));
    assert_eq!(random.name(), "random");
    let tree = SolverConstructor::TreeWithSurrender.construct(&palette, 3);
    assert!(matches!(tree, AnySolver::TreeWithSurrender(_)));
    assert_eq!(tree.name(), "tree_with_surrender");
}

#[test]
fn any_solver_hands_on_to_its_solver() {
    let palette = vec![b'a', b'b'];
    let mut solver = SolverConstructor::TreeWithSurrender.construct(&palette, 2);
    for guess in ["ab", "bb", "ba"] {
        let guess = Code::from_str(guess);
        solver.record_attempt(&guess, feedback(&guess, "aa"));
    }
    assert_eq!(solver.generate_candidate().unwrap().code, vec![b'a', b'a']);
    let mut solver = SolverConstructor::Random.construct(&vec![b'z'], 3);
    solver.record_attempt(&Code::from_str("zzz"), Score { num_dots: 0, black: 0, white: 0 });
    assert_eq!(solver.generate_candidate().unwrap().code, vec![b'z', b'z', b'z']);
}

#[test]
fn probing_decides_every_position() {
    let palette = vec![b'a', b'b', b'c'];
    for length in 0..8 {
        let candidate = try_select_code(length, &Vec::new(), &palette).unwrap();
        assert_eq!(candidate.len(), length);
        assert!(candidate.code.iter().all(|peg| palette.contains(peg)));
    }
}

#[test]
fn probing_finds_only_what_the_attempts_admit() {
    let palette = vec![b'a', b'b'];
    let mut history = Vec::new();
    for guess in ["ab", "bb", "ba"] {
        let guess = Code::from_str(guess);
        let score = feedback(&guess, "aa");
        history.push(Attempt::new(guess, score));
    }
    let mut found = 0;
    for _ in 0..400 {
        if let Some(candidate) = try_select_code(2, &history, &palette) {
            assert_eq!(candidate.code, vec![b'a', b'a']);
            found += 1;
        }
    }
    assert!(found > 0);
}

#[test]
fn tree_solver_proposes_with_nothing_recorded_whatever_the_size() {
    let palette: Vec<u8> = (b'a'..=b'j').collect();
    for length in [0, 1, 4, 9] {
        let mut solver = TreeWithSurrender::new(&palette, length);
        let candidate = solver.generate_candidate().unwrap();
        assert_eq!(candidate.len(), length);
        assert!(candidate.code.iter().all(|peg| palette.contains(peg)));
        assert_eq!(solver.tree_size(), 1 + 10 * length);
    }
}

#[test]
fn recording_leaves_the_tree_as_it_is() {
    let palette = vec![b'a', b'b', b'c'];
    let mut solver = TreeWithSurrender::new(&palette, 3);
    solver.generate_candidate().unwrap();
    let size = solver.tree_size();
    let guess = Code::from_str("abc");
    solver.record_attempt(&guess, feedback(&guess, "cab"));
    assert_eq!(solver.tree_size(), size);
    assert_eq!(guess.code, vec![b'a', b'b', b'c']);
}

#[test]
fn probing_makes_the_empty_code_without_a_test() {
    let history = vec![Attempt::new(Code::from_str(""), Score { num_dots: 0, black: 5, white: 5 })];
    assert_eq!(try_select_code(0, &history, &vec![b'a']).unwrap().len(), 0);
}
