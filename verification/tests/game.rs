use mastermind::attempt::compute_score;
use mastermind::code::Code;
use mastermind::game::{
    colors_outside, holds_color, parse_args, parse_charset, parse_length, parse_solution,
    parse_solver_name, same_text, solve, ConfigurationError, ARGUMENT_COUNT, MAX_ATTEMPT_COUNT,
    MAX_GENERATED_LENGTH,
};
use mastermind::solver::random::Random;
use mastermind::solver::tree_with_surrender::TreeWithSurrender;
use mastermind::solver::{solver_constructors, AnySolver, Solver, SolverConstructor};

fn arguments(words: &[&str]) -> Vec<String> {
    words.iter().map(|word| word.to_string()).collect()
}

#[test]
fn limits_of_a_game() {
    assert_eq!(ARGUMENT_COUNT, 5);
    assert_eq!(MAX_GENERATED_LENGTH, 10);
    assert_eq!(MAX_ATTEMPT_COUNT, 10);
}

#[test]
fn charset_is_sorted() {
    assert_eq!(parse_charset("rygbov"), Ok(vec![b'b', b'g', b'o', b'r', b'v', b'y']));
    assert_eq!(parse_charset("abc"), Ok(vec![b'a', b'b', b'c']));
    assert_eq!(parse_charset(""), Ok(Vec::new()));
}

#[test]
fn charset_with_the_open_marker_is_refused() {
    assert_eq!(parse_charset("ab.c"), Err(ConfigurationError::CharsetHoldsOpenMarker));
    // the open marker is looked for before duplicates are
    assert_eq!(parse_charset("aa."), Err(ConfigurationError::CharsetHoldsOpenMarker));
}

#[test]
fn charset_with_duplicates_is_refused() {
    assert_eq!(parse_charset("abca"), Err(ConfigurationError::CharsetHoldsDuplicates));
    assert_eq!(parse_charset("zz"), Err(ConfigurationError::CharsetHoldsDuplicates));
}

#[test]
fn lengths_are_read_in_decimal() {
    assert_eq!(parse_length("0"), Some(0));
    assert_eq!(parse_length("7"), Some(7));
    assert_eq!(parse_length("10"), Some(10));
    assert_eq!(parse_length("+12"), Some(12));
    assert_eq!(parse_length("007"), Some(7));
    assert_eq!(parse_length("18446744073709551615"), "18446744073709551615".parse::<usize>().ok());
}

#[test]
fn lengths_that_are_no_numbers() {
    for text in ["", "+", "-1", "1 ", " 1", "1a", "a", "1_0", "++1", "1.0", "٣"] {
        assert_eq!(parse_length(text), None);
        assert!(text.parse::<usize>().is_err());
    }
}

#[test]
fn lengths_beyond_the_machine_word() {
    assert_eq!(parse_length("340282366920938463463374607431768211456"), None);
    assert_eq!(parse_length("99999999999999999999999999"), None);
    assert_eq!(parse_length("99999999999999999999999999x"), None);
}

#[test]
fn texts_are_compared_whole() {
    assert!(same_text("input", "input"));
    assert!(same_text("", ""));
    assert!(!same_text("input", "inputs"));
    assert!(!same_text("input", "Input"));
    assert!(!same_text("é", "e"));
}

#[test]
fn colors_of_a_palette() {
    let palette = vec![b'a', b'c'];
    assert!(holds_color(&palette, b'a'));
    assert!(holds_color(&palette, b'c'));
    assert!(!holds_color(&palette, b'b'));
    assert!(!holds_color(&Vec::new(), b'a'));
}

#[test]
fn colors_outside_the_palette_keep_their_order() {
    let palette = vec![b'a', b'b', b'c'];
    assert_eq!(colors_outside("axbyax", &palette), vec![b'x', b'y', b'x']);
    assert_eq!(colors_outside("abca", &palette), Vec::<u8>::new());
    assert_eq!(colors_outside("", &palette), Vec::<u8>::new());
}

#[test]
fn generated_solution_has_the_length_asked_for() {
    let palette = vec![b'a', b'b', b'c'];
    for length in 0..=10 {
        let solution = parse_solution("generate", &format!("{}", length), &palette).unwrap();
        assert_eq!(solution.len(), length);
        assert!(solution.code.iter().all(|peg| palette.contains(peg)));
    }
    assert_eq!(parse_solution("generate", "0", &Vec::new()).unwrap().len(), 0);
}

#[test]
fn generated_solution_is_bounded() {
    let palette = vec![b'a'];
    assert_eq!(
        parse_solution("generate", "11", &palette).err(),
        Some(ConfigurationError::LengthTooLarge)
    );
    assert_eq!(
        parse_solution("generate", "ten", &palette).err(),
        Some(ConfigurationError::LengthUnparsable)
    );
    assert_eq!(
        parse_solution("generate", "99999999999999999999999999", &palette).err(),
        Some(ConfigurationError::LengthUnparsable)
    );
    assert_eq!(
        parse_solution("generate", "", &palette).err(),
        Some(ConfigurationError::LengthUnparsable)
    );
}

#[test]
fn given_solution_is_taken_as_it_is() {
    let palette = vec![b'a', b'b', b'c'];
    assert_eq!(parse_solution("input", "abca", &palette).unwrap().code, vec![b'a', b'b', b'c', b'a']);
    assert_eq!(parse_solution("input", "", &palette).unwrap().len(), 0);
    // as long as a given solution, whatever its length
    assert_eq!(parse_solution("input", "abcabcabcabcabc", &palette).unwrap().len(), 15);
}

#[test]
fn given_solution_is_made_of_the_palette() {
    let palette = vec![b'a', b'b', b'c'];
    assert_eq!(
        parse_solution("input", "abxa", &palette).err(),
        Some(ConfigurationError::ColorsOutsideCharset)
    );
    assert_eq!(
        parse_solution("input", "a.", &palette).err(),
        Some(ConfigurationError::ColorsOutsideCharset)
    );
}

#[test]
fn other_solution_types_are_refused() {
    let palette = vec![b'a'];
    for solution_type in ["", "Generate", "inputs", "random"] {
        assert_eq!(
            parse_solution(solution_type, "3", &palette).err(),
            Some(ConfigurationError::UnknownSolutionType)
        );
    }
}

#[test]
fn solver_is_taken_out_of_the_registry() {
    let mut registry = solver_constructors();
    assert_eq!(
        parse_solver_name("tree_with_surrender", &mut registry),
        Ok(SolverConstructor::TreeWithSurrender)
    );
    assert_eq!(registry, vec![SolverConstructor::Random]);
    assert_eq!(
        parse_solver_name("tree_with_surrender", &mut registry),
        Err(ConfigurationError::UnknownSolver)
    );
    assert_eq!(parse_solver_name("random", &mut registry), Ok(SolverConstructor::Random));
    assert!(registry.is_empty());
}

#[test]
fn unknown_solver_leaves_the_registry() {
    let mut registry = solver_constructors();
    assert_eq!(parse_solver_name("awful", &mut registry), Err(ConfigurationError::UnknownSolver));
    assert_eq!(parse_solver_name("", &mut registry), Err(ConfigurationError::UnknownSolver));
    assert_eq!(registry, solver_constructors());
}

#[test]
fn arguments_make_a_game() {
    let mut registry = solver_constructors();
    let args = arguments(&["mastermind", "cba", "input", "abca", "tree_with_surrender"]);
    let (palette, solution, solver) = parse_args(&args, &mut registry).ok().unwrap();
    assert_eq!(palette, vec![b'a', b'b', b'c']);
    assert_eq!(solution.code, vec![b'a', b'b', b'c', b'a']);
    assert!(matches!(solver, AnySolver::TreeWithSurrender(_)));
    assert_eq!(solver.name(), "tree_with_surrender");
    assert_eq!(registry, vec![SolverConstructor::Random]);
}

#[test]
fn arguments_make_a_game_with_a_generated_secret() {
    let mut registry = solver_constructors();
    let args = arguments(&["mastermind", "abc", "generate", "6", "random"]);
    let (palette, solution, solver) = parse_args(&args, &mut registry).ok().unwrap();
    assert_eq!(solution.len(), 6);
    assert!(solution.code.iter().all(|peg| palette.contains(peg)));
    assert!(matches!(solver, AnySolver::Random(_)));
    assert_eq!(registry, vec![SolverConstructor::TreeWithSurrender]);
}

#[test]
fn arguments_are_counted_first() {
    let mut registry = solver_constructors();
    for count in [0, 1, 4, 6] {
        let args = vec![String::from("a.a"); count];
        assert_eq!(
            parse_args(&args, &mut registry).err(),
            Some(ConfigurationError::ArgumentCount(count))
        );
    }
    assert_eq!(registry, solver_constructors());
}

#[test]
fn first_fault_of_the_arguments_is_reported() {
    let cases = [
        (["m", "a.b", "nothing", "x", "nobody"], ConfigurationError::CharsetHoldsOpenMarker),
        (["m", "aab", "nothing", "x", "nobody"], ConfigurationError::CharsetHoldsDuplicates),
        (["m", "abc", "nothing", "x", "nobody"], ConfigurationError::UnknownSolutionType),
        (["m", "abc", "generate", "x", "nobody"], ConfigurationError::LengthUnparsable),
        (["m", "abc", "generate", "11", "nobody"], ConfigurationError::LengthTooLarge),
        (["m", "abc", "input", "abd", "nobody"], ConfigurationError::ColorsOutsideCharset),
        (["m", "abc", "input", "abc", "nobody"], ConfigurationError::UnknownSolver),
    ];
    for (words, fault) in cases {
        let mut registry = solver_constructors();
        assert_eq!(parse_args(&arguments(&words), &mut registry).err(), Some(fault));
        assert_eq!(registry, solver_constructors());
    }
}

#[test]
fn tree_solver_wins_a_small_game() {
    let palette = vec![b'a', b'b', b'c'];
    for secret in ["aa", "ab", "cb", "cc"] {
        let solution = Code::from_str(secret);
        let mut solver = TreeWithSurrender::new(&palette, 2);
        // every wrong guess rules itself out, and there are nine codes
        let game = solve(&mut solver, 9, &solution);
        assert_eq!(game.submission.unwrap().code, solution.code);
        assert!(game.guesses.len() <= 9);
        let last = game.guesses.len() - 1;
        for (number, attempt) in game.guesses.iter().enumerate() {
            assert_eq!(attempt.score(), compute_score(&attempt.code(), &solution));
            assert_eq!(attempt.code().code == solution.code, number == last);
        }
    }
}

#[test]
fn game_ends_when_the_attempts_are_used_up() {
    let palette = vec![b'a', b'b'];
    let solution = Code::from_str("ab");
    let mut solver = Random::new(&palette, 2);
    let game = solve(&mut solver, 0, &solution);
    assert!(game.submission.is_none());
    assert!(game.guesses.is_empty());
    let game = solve(&mut solver, 3, &solution);
    assert!(game.guesses.len() <= 3);
    match game.submission {
        Some(code) => assert_eq!(code.code, solution.code),
        None => assert_eq!(game.guesses.len(), 3),
    }
}

#[test]
fn game_ends_when_the_solver_has_nothing_to_offer() {
    // the secret is not made of the solver's palette
    let solution = Code::from_str("bb");
    let mut solver = TreeWithSurrender::new(&vec![b'a'], 2);
    let game = solve(&mut solver, 10, &solution);
    assert!(game.submission.is_none());
    // "aa" is guessed once and rules itself out
    assert_eq!(game.guesses.len(), 1);
    assert_eq!(game.guesses[0].code().code, vec![b'a', b'a']);
}

#[test]
fn game_of_the_registered_tree_solver() {
    let mut registry = solver_constructors();
    let args = arguments(&["mastermind", "abc", "input", "cab", "tree_with_surrender"]);
    let (_, solution, mut solver) = parse_args(&args, &mut registry).ok().unwrap();
    // every wrong guess rules itself out, and there are twenty-seven codes
    let game = solve(&mut solver, 27, &solution);
    assert_eq!(game.submission.unwrap().code, vec![b'c', b'a', b'b']);
}

#[test]
fn tree_solver_never_repeats_a_guess() {
    let palette = vec![b'a', b'b', b'c'];
    let solution = Code::from_str("cab");
    for _ in 0..20 {
        let mut solver = TreeWithSurrender::new(&palette, 3);
        let game = solve(&mut solver, 27, &solution);
        for (later, attempt) in game.guesses.iter().enumerate() {
            for earlier in &game.guesses[..later] {
                assert_ne!(earlier.code().code, attempt.code().code);
            }
        }
        assert_eq!(game.submission.unwrap().code, solution.code);
    }
}

#[test]
fn small_game_is_not_lost_for_want_of_a_candidate() {
    let palette = vec![b'a', b'b', b'c', b'd', b'e', b'f'];
    let solution = Code::from_str("fade");
    for _ in 0..5 {
        let mut solver = TreeWithSurrender::new(&palette, 4);
        let game = solve(&mut solver, 3, &solution);
        match game.submission {
            Some(code) => assert_eq!(code.code, solution.code),
            None => assert_eq!(game.guesses.len(), 3),
        }
    }
}
