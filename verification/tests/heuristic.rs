use pathlab::solver::heuristic::COST_SCALE;
use pathlab::solver::Heuristic;

/// The estimate in moves.
fn moves(h: u128) -> f32 {
    h as f32 / COST_SCALE as f32
}

#[test]
fn manhattan_is_symmetric_in_axes() {
    let h = moves(Heuristic::Manhattan.estimate((0, 0), (3, 4)));
    assert_eq!(h as i32, 7);
}

#[test]
fn zero_heuristic_is_zero() {
    assert_eq!(moves(Heuristic::Zero.estimate((1, 2), (9, 9))), 0.0);
}

#[test]
fn euclidean_345() {
    let h = moves(Heuristic::Euclidean.estimate((0, 0), (3, 4)));
    assert!((h - 5.0).abs() < 1e-6);
}

#[test]
fn estimates_are_exact_in_fixed_point() {
    assert_eq!(Heuristic::Manhattan.estimate((0, 0), (3, 4)), 7 * 1024);
    assert_eq!(Heuristic::Manhattan.estimate((3, 4), (0, 0)), 7 * 1024);
    assert_eq!(Heuristic::Chebyshev.estimate((0, 0), (3, 4)), 4 * 1024);
    assert_eq!(Heuristic::Euclidean.estimate((0, 0), (3, 4)), 5 * 1024);
    // sqrt(2) * 1024 = 1448.15..., rounded down.
    assert_eq!(Heuristic::Euclidean.estimate((0, 0), (1, 1)), 1448);
    assert_eq!(Heuristic::Euclidean.estimate((5, 5), (5, 5)), 0);
}

#[test]
fn estimates_stay_within_their_bound() {
    let far = usize::MAX;
    let bound = 2 * 1024 * 0x100_0000_0000u128;
    for h in Heuristic::all() {
        assert!(h.estimate((0, 0), (far, far)) <= bound);
    }
    assert_eq!(Heuristic::Manhattan.estimate((0, 0), (far, 0)), 1024 * 0x100_0000_0000u128);
}
