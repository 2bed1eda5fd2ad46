use alpha_zero::score::{compute_ucb_1, first_max, integer_sqrt, ONE};

#[test]
fn integer_sqrt_rounds_down() {
    assert_eq!(integer_sqrt(0), 0);
    assert_eq!(integer_sqrt(1), 1);
    assert_eq!(integer_sqrt(15), 3);
    assert_eq!(integer_sqrt(16), 4);
    assert_eq!(integer_sqrt(17), 4);
    assert_eq!(integer_sqrt((1u128 << 112) - 1), (1u128 << 56) - 1);
    assert_eq!(integer_sqrt(u128::MAX), u64::MAX as u128);
}

#[test]
fn an_unvisited_child_scores_its_bonus() {
    // No visits of the parent: no bonus.
    assert_eq!(compute_ucb_1(0, 0, 0, ONE / 2, ONE), 0);
    // Four visits of the parent: 1.0 * 0.5 * 2 / 1 = 1.0.
    assert_eq!(compute_ucb_1(4, 0, 0, ONE / 2, ONE), ONE as i128);
    // One visit of the child halves the bonus.
    assert_eq!(compute_ucb_1(4, 1, 0, ONE / 2, ONE), ONE as i128 / 2);
    // Twice the exploration constant doubles it.
    assert_eq!(compute_ucb_1(4, 0, 0, ONE / 2, 2 * ONE), 2 * ONE as i128);
}

#[test]
fn the_mean_outcome_is_rounded_towards_zero() {
    let one = ONE as i128;
    // Two visits worth 1.0 in sum: 1.0 / (2 + 1 / ONE), just under one half.
    assert_eq!(compute_ucb_1(0, 2, one, 0, ONE), one * one / (2 * one + 1));
    assert_eq!(compute_ucb_1(0, 2, one, 0, ONE), one / 2 - 1);
    assert_eq!(compute_ucb_1(0, 2, -one, 0, ONE), -(one / 2 - 1));
    // Mean and bonus add up.
    assert_eq!(compute_ucb_1(9, 2, one, ONE, ONE), one / 2 - 1 + one);
}

#[test]
fn first_max_takes_the_first_of_equals() {
    assert_eq!(first_max(&vec![3, 9, 9, 1]), 1);
    assert_eq!(first_max(&vec![-5]), 0);
    assert_eq!(first_max(&vec![2, 2, 2]), 0);
    assert_eq!(first_max(&vec![-3, -2, -1]), 2);
}
