use mastermind::attempt::{compute_score, matches_all, Attempt, Score};
use mastermind::code::Code;

fn score(black: usize, white: usize, num_dots: usize) -> Score {
    Score { num_dots, black, white }
}

#[test]
fn guess_against_secret_counts_every_shared_color() {
    let secret = Code::from_str("abca");
    let guess = Code::from_str("aabb");
    let result = compute_score(&guess, &secret);
    assert_eq!(result.black, 1);
    assert_eq!(result.num_dots, 0);
    // two `a` and one `b` are shared; the agreeing position is among them
    assert_eq!(result.white, 3);
    assert_eq!(result.white - result.black, 2);
}

#[test]
fn open_position_is_counted_apart() {
    let partial = Code::from_str(".bca");
    let secret = Code::from_str("abca");
    assert_eq!(compute_score(&partial, &secret), score(3, 3, 1));
}

#[test]
fn two_open_positions_agree_and_count_twice() {
    let a = Code::from_str("a..");
    let b = Code::from_str("b..");
    assert_eq!(compute_score(&a, &b), score(2, 0, 4));
}

#[test]
fn code_against_itself() {
    let code = Code::from_str("abca");
    assert_eq!(compute_score(&code, &code), score(4, 4, 0));
    let partial = Code::from_str("a.c.");
    assert_eq!(compute_score(&partial, &partial), score(4, 2, 4));
}

#[test]
fn empty_codes_score_nothing() {
    let empty = Code::from_str("");
    assert_eq!(compute_score(&empty, &empty), score(0, 0, 0));
}

#[test]
fn score_is_symmetric() {
    let pairs = [("abca", "aabb"), (".bca", "abca"), ("abcd", "dcba"), ("aaaa", "bbbb")];
    for (left, right) in pairs {
        let a = Code::from_str(left);
        let b = Code::from_str(right);
        assert_eq!(compute_score(&a, &b), compute_score(&b, &a));
    }
}

#[test]
fn score_stays_within_the_length() {
    let pairs = [("abca", "aabb"), ("abcd", "dcba"), ("aaaa", "aaaa"), ("abab", "baba")];
    for (left, right) in pairs {
        let a = Code::from_str(left);
        let b = Code::from_str(right);
        let result = compute_score(&a, &b);
        assert!(result.black <= a.len());
        assert!(result.white <= a.len());
        assert!(result.black <= result.white);
    }
}

#[test]
fn permutation_shares_every_color() {
    let a = Code::from_str("abcd");
    let b = Code::from_str("dcba");
    assert_eq!(compute_score(&a, &b), score(0, 4, 0));
}

#[test]
fn every_byte_value_is_a_color() {
    let a = Code::new(vec![0, 255, 7, 255]);
    let b = Code::new(vec![255, 0, 7, 255]);
    assert_eq!(compute_score(&a, &b), score(2, 4, 0));
}

#[test]
fn attempt_keeps_its_guess_and_feedback() {
    let attempt = Attempt::new(Code::from_str("abc"), score(1, 2, 0));
    assert_eq!(attempt.code().code, vec![b'a', b'b', b'c']);
    assert_eq!(attempt.score(), score(1, 2, 0));
}

#[test]
fn attempt_admits_the_secret() {
    let secret = Code::from_str("abca");
    for guess in ["aabb", "cccc", "bcab", "abca"] {
        let guess = Code::from_str(guess);
        let attempt = Attempt::new(guess.clone(), compute_score(&guess, &secret));
        assert!(attempt.matches(&secret));
    }
}

#[test]
fn attempt_rejects_its_own_guess_unless_it_was_the_secret() {
    let secret = Code::from_str("abca");
    let wrong = Code::from_str("aabb");
    let attempt = Attempt::new(wrong.clone(), compute_score(&wrong, &secret));
    assert!(!attempt.matches(&wrong));
    let right = Code::from_str("abca");
    let attempt = Attempt::new(right.clone(), compute_score(&right, &secret));
    assert!(attempt.matches(&right));
}

#[test]
fn each_bound_of_the_consistency_test_rejects() {
    let guess = Code::from_str("ab");
    // too few black pegs even with every open position counted
    assert!(!Attempt::new(guess.clone(), score(2, 2, 0)).matches(&Code::from_str("b.")));
    // too few white pegs even with every open position counted
    assert!(!Attempt::new(guess.clone(), score(0, 2, 0)).matches(&Code::from_str("c.")));
    // more black pegs than the feedback granted
    assert!(!Attempt::new(guess.clone(), score(0, 2, 0)).matches(&Code::from_str("a.")));
    // more white pegs than the feedback granted
    assert!(!Attempt::new(guess.clone(), score(0, 0, 0)).matches(&Code::from_str(".a")));
    // within every bound
    assert!(Attempt::new(guess.clone(), score(1, 1, 0)).matches(&Code::from_str("a.")));
}

#[test]
fn partial_code_of_the_secret_is_admitted() {
    // the guess "ab" against the secret "aa"
    let guess = Code::from_str("ab");
    let secret = Code::from_str("aa");
    let attempt = Attempt::new(guess.clone(), compute_score(&guess, &secret));
    for partial in ["..", "a.", ".a", "aa"] {
        assert!(attempt.matches(&Code::from_str(partial)));
    }
}

#[test]
fn rejection_survives_every_completion() {
    let guess = Code::from_str("ab");
    let secret = Code::from_str("ba");
    let attempt = Attempt::new(guess.clone(), compute_score(&guess, &secret));
    assert!(!attempt.matches(&Code::from_str("a.")));
    for full in ["aa", "ab", "ac"] {
        assert!(!attempt.matches(&Code::from_str(full)));
    }
}

#[test]
fn huge_feedback_does_not_overflow() {
    let attempt = Attempt::new(Code::from_str("ab"), score(usize::MAX, usize::MAX, usize::MAX));
    assert!(!attempt.matches(&Code::from_str("ab")));
    let attempt = Attempt::new(Code::from_str("ab"), score(usize::MAX, usize::MAX, 0));
    assert!(!attempt.matches(&Code::from_str("..")));
}

#[test]
fn matches_all_asks_every_attempt() {
    let secret = Code::from_str("abc");
    let first = Code::from_str("aaa");
    let second = Code::from_str("bca");
    let history = vec![
        Attempt::new(first.clone(), compute_score(&first, &secret)),
        Attempt::new(second.clone(), compute_score(&second, &secret)),
    ];
    assert!(matches_all(&history, &secret));
    assert!(!matches_all(&history, &first));
    assert!(!matches_all(&history, &second));
    assert!(matches_all(&Vec::new(), &first));
}
