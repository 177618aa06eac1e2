use pathlab::mazes::maze_open;
use pathlab::platform::FileInbox;

#[test]
fn take_returns_the_last_pick_once() {
    let mut inbox = FileInbox::new();
    assert!(inbox.take().is_none());
    inbox.put(Err("first".to_string()));
    inbox.put(Ok(maze_open(2, 2)));
    assert_eq!(inbox.take(), Some(Ok(maze_open(2, 2))));
    assert!(inbox.take().is_none());
    let mut d = FileInbox::default();
    d.put(Err("x".to_string()));
    assert_eq!(d.take(), Some(Err("x".to_string())));
}
