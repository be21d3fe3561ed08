use fri::positions::fold_positions;

#[test]
fn fold_positions_sorts_and_removes_repetitions() {
    assert_eq!(fold_positions(&[5, 1, 9, 13, 2], 4), vec![1, 2]);
    assert_eq!(fold_positions(&[7, 6, 5, 4, 3, 2, 1, 0], 4), vec![0, 1, 2, 3]);
    assert_eq!(fold_positions(&[3, 3, 3], 8), vec![3]);
    assert_eq!(fold_positions(&[0, 5, 17, 64, 77, 100, 126, 127], 64), vec![0, 5, 13, 17, 36, 62, 63]);
}

#[test]
fn fold_positions_of_nothing_is_nothing() {
    assert_eq!(fold_positions(&[], 4), Vec::<usize>::new());
}

#[test]
fn fold_positions_modulo_one_is_zero() {
    assert_eq!(fold_positions(&[9, 4, 0, usize::MAX], 1), vec![0]);
}

#[test]
fn fold_positions_keeps_small_positions() {
    assert_eq!(fold_positions(&[2, 0, 1], usize::MAX), vec![0, 1, 2]);
}

#[test]
fn fold_positions_is_ascending_in_range_and_complete() {
    let mut state: u64 = 99;
    for m in [1usize, 2, 3, 7, 16, 100] {
        let mut positions = Vec::new();
        for _ in 0..50 {
            state = state.wrapping_mul(6364136223846793005).wrapping_add(1442695040888963407);
            positions.push((state >> 33) as usize);
        }
        let folded = fold_positions(&positions, m);
        for pair in folded.windows(2) {
            assert!(pair[0] < pair[1]);
        }
        for r in &folded {
            assert!(*r < m);
            assert!(positions.iter().any(|p| p % m == *r));
        }
        for p in &positions {
            assert!(folded.contains(&(p % m)));
        }
    }
}

#[test]
fn folding_twice_is_folding_by_the_smaller_modulus() {
    let positions = [0usize, 5, 17, 64, 77, 100, 126, 127];
    let once = fold_positions(&positions, 32);
    let twice = fold_positions(&fold_positions(&positions, 64), 32);
    assert_eq!(once, twice);
}
