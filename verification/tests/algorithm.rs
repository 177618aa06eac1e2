use pathlab::solver::{Algorithm, Heuristic};

#[test]
fn all_lists_every_variant_with_unique_labels() {
    let variants = Algorithm::all();
    assert_eq!(variants.len(), 4);
    let labels: Vec<&str> = variants.iter().map(|a| a.label()).collect();
    for (i, a) in labels.iter().enumerate() {
        for b in labels.iter().skip(i + 1) {
            assert_ne!(a, b, "duplicate label: {a}");
        }
    }
}

#[test]
fn capability_predicates_agree_with_intent() {
    for &a in Algorithm::all() {
        let expected = matches!(a, Algorithm::AStar);
        assert_eq!(a.uses_heuristic(), expected, "{:?}", a);
    }
    for &a in Algorithm::all() {
        let expected = matches!(a, Algorithm::KShortest);
        assert_eq!(a.is_multi_path(), expected, "{:?}", a);
    }
    for &a in Algorithm::all() {
        let expected = !matches!(a, Algorithm::KShortest);
        assert_eq!(a.supports_stepping(), expected, "{:?}", a);
    }
}

#[test]
fn default_is_astar() {
    assert_eq!(Algorithm::default(), Algorithm::AStar);
}

#[test]
fn labels_and_order_are_exact() {
    assert_eq!(
        Algorithm::all(),
        &[Algorithm::AStar, Algorithm::BFS, Algorithm::DFS, Algorithm::KShortest]
    );
    assert_eq!(Algorithm::KShortest.label(), "K-Shortest paths");
    assert_eq!(
        Heuristic::all(),
        &[Heuristic::Manhattan, Heuristic::Euclidean, Heuristic::Chebyshev, Heuristic::Zero]
    );
    assert_eq!(Heuristic::Zero.label(), "Zero (Dijkstra)");
    assert_eq!(Heuristic::default(), Heuristic::Manhattan);
}
