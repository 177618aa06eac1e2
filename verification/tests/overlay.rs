use pathlab::app::overlay::{draw_order, palette_slot};
use pathlab::solver::Coord;

fn path(n: usize) -> Vec<Coord> {
    (0..n).map(|i| (i, 0)).collect()
}

#[test]
fn paths_are_drawn_longest_first_with_ties_in_order() {
    let paths = vec![path(3), path(5), path(3), path(7), path(5)];
    assert_eq!(draw_order(&paths), vec![3, 1, 4, 0, 2]);
    assert_eq!(draw_order(&[]), Vec::<usize>::new());
    assert_eq!(draw_order(&[path(2)]), vec![0]);
}

#[test]
fn single_paths_take_the_plain_colour() {
    assert_eq!(palette_slot(0, 1), None);
    assert_eq!(palette_slot(0, 0), None);
    assert_eq!(palette_slot(0, 5), Some(0));
    assert_eq!(palette_slot(9, 12), Some(1));
}
