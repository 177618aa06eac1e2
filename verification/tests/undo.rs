use pathlab::app::undo::MAX_DEPTH;
use pathlab::app::UndoStack;
use pathlab::mazes::{maze_open, Cell};

#[test]
fn pop_returns_pushed_snapshot() {
    let mut stack = UndoStack::new();
    let mut a = maze_open(2, 2);
    stack.push(&a);
    a[0][0] = Cell::Wall;
    let restored = stack.pop().expect("stack should not be empty");
    assert_eq!(restored[0][0], Cell::Empty);
}

#[test]
fn duplicate_pushes_are_deduped() {
    let mut stack = UndoStack::new();
    let m = maze_open(3, 3);
    stack.push(&m);
    stack.push(&m);
    stack.push(&m);
    assert_eq!(stack.len(), 1);
}

#[test]
fn pop_on_empty_returns_none() {
    let mut stack = UndoStack::new();
    assert!(stack.pop().is_none());
}

#[test]
fn cap_drops_oldest() {
    let mut stack = UndoStack::new();
    for i in 0..MAX_DEPTH + 5 {
        let m = maze_open(2, 2 + i);
        stack.push(&m);
    }
    assert_eq!(stack.len(), MAX_DEPTH);
}

#[test]
fn cap_keeps_the_newest_snapshots_in_order() {
    let mut stack = UndoStack::new();
    for i in 0..MAX_DEPTH + 5 {
        stack.push(&maze_open(1, 1 + i));
    }
    // The newest comes back first, and the oldest five are gone.
    let top = stack.pop().unwrap();
    assert_eq!(top[0].len(), MAX_DEPTH + 5);
    let mut last = top;
    while let Some(m) = stack.pop() {
        last = m;
    }
    assert_eq!(last[0].len(), 6);
}

#[test]
fn push_after_pop_of_same_maze_is_kept() {
    let mut stack = UndoStack::new();
    let a = maze_open(2, 2);
    let b = maze_open(3, 3);
    stack.push(&a);
    stack.push(&b);
    stack.push(&a);
    assert_eq!(stack.len(), 3);
    stack.clear();
    assert!(stack.is_empty());
    assert_eq!(UndoStack::default().len(), 0);
}
