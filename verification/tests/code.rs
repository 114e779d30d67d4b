use mastermind::code::{Code, OPEN};

#[test]
fn open_marker_is_the_period() {
    assert_eq!(OPEN, b'.');
}

#[test]
fn with_length_is_all_open() {
    let code = Code::with_length(4);
    assert_eq!(code.code, vec![b'.', b'.', b'.', b'.']);
    assert_eq!(code.len(), 4);
    assert_eq!(Code::with_length(0).len(), 0);
}

#[test]
fn from_str_takes_the_bytes() {
    let code = Code::from_str("ab.c");
    assert_eq!(code.code, vec![b'a', b'b', b'.', b'c']);
    assert_eq!(Code::from_str("").code, Vec::<u8>::new());
    // two bytes for one character outside ASCII
    assert_eq!(Code::from_str("é").code, vec![0xc3, 0xa9]);
}

#[test]
fn new_keeps_the_pegs() {
    let code = Code::new(vec![1, 2, 3]);
    assert_eq!(code.code, vec![1, 2, 3]);
    assert_eq!(code.len(), 3);
}

#[test]
fn clone_is_equal() {
    let code = Code::from_str("abca");
    assert_eq!(code.clone().code, code.code);
}

#[test]
fn generate_draws_from_the_palette() {
    let palette = vec![b'x', b'y', b'z'];
    for length in 0..12 {
        let code = Code::generate(length, &palette);
        assert_eq!(code.len(), length);
        assert!(code.code.iter().all(|peg| palette.contains(peg)));
    }
}

#[test]
fn generate_nothing_from_nothing() {
    assert_eq!(Code::generate(0, &Vec::new()).len(), 0);
}

#[test]
fn generate_reaches_every_color() {
    let palette = vec![b'a', b'b'];
    let mut seen_a = false;
    let mut seen_b = false;
    for _ in 0..200 {
        let code = Code::generate(1, &palette);
        seen_a = seen_a || code.code[0] == b'a';
        seen_b = seen_b || code.code[0] == b'b';
    }
    assert!(seen_a && seen_b);
}
