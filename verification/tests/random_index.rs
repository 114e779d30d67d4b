use mastermind::random_index::{select_random_index, select_random_matching_index};

#[test]
fn no_index_into_nothing() {
    assert_eq!(select_random_index(&Vec::<u8>::new()), None);
}

#[test]
fn index_is_within_bounds() {
    let items = vec!['a', 'b', 'c'];
    for _ in 0..100 {
        let index = select_random_index(&items).unwrap();
        assert!(index < items.len());
    }
    assert_eq!(select_random_index(&vec![7]), Some(0));
}

#[test]
fn every_index_is_reached() {
    let items = vec![0u8; 4];
    let mut reached = [false; 4];
    for _ in 0..400 {
        reached[select_random_index(&items).unwrap()] = true;
    }
    assert!(reached.iter().all(|hit| *hit));
}

#[test]
fn matching_index_holds_the_target() {
    let items = vec![b'a', b'.', b'b', b'.', b'.'];
    let mut reached = [false; 5];
    for _ in 0..400 {
        let index = select_random_matching_index(&items, b'.').unwrap();
        assert_eq!(items[index], b'.');
        reached[index] = true;
    }
    assert_eq!(reached, [false, true, false, true, true]);
}

#[test]
fn no_matching_index_without_the_target() {
    assert_eq!(select_random_matching_index(&vec![b'a', b'b'], b'.'), None);
    assert_eq!(select_random_matching_index(&Vec::<u8>::new(), b'.'), None);
}

#[test]
fn matching_index_of_other_types() {
    let words = vec!["one", "two", "one"];
    let index = select_random_matching_index(&words, "two").unwrap();
    assert_eq!(index, 1);
}
