use pathlab::mazes::{maze_from_pbm_str, maze_open, maze_starting, maze_to_pbm_str, Cell};

#[test]
fn roundtrip() {
    let maze = maze_starting();
    let serialized = maze_to_pbm_str(&maze);
    let parsed = maze_from_pbm_str(&serialized).unwrap();
    assert_eq!(maze, parsed);
}

#[test]
fn rejects_bad_header() {
    assert!(maze_from_pbm_str("P4\n2 2\n0 0 0 0").is_err());
}

#[test]
fn accepts_comments() {
    let m = maze_from_pbm_str("P1\n# created by pathlab\n2 2\n1 0\n0 1\n").unwrap();
    assert_eq!(m.len(), 2);
    assert_eq!(m[0][0], Cell::Wall);
    assert_eq!(m[0][1], Cell::Empty);
}

#[test]
fn error_messages_name_the_problem() {
    assert_eq!(maze_from_pbm_str(""), Err("Empty PBM".to_string()));
    assert_eq!(maze_from_pbm_str("  # only a comment\n"), Err("Empty PBM".to_string()));
    assert_eq!(
        maze_from_pbm_str("P4\n2 2\n0 0 0 0"),
        Err("Unsupported PBM magic: P4 (expected P1)".to_string())
    );
    assert_eq!(maze_from_pbm_str("P1"), Err("Missing width".to_string()));
    assert_eq!(maze_from_pbm_str("P1 3"), Err("Missing height".to_string()));
    assert_eq!(
        maze_from_pbm_str("P1 x 2"),
        Err("Bad width: invalid digit found in string".to_string())
    );
    assert_eq!(
        maze_from_pbm_str("P1 2 -1"),
        Err("Bad height: invalid digit found in string".to_string())
    );
    assert_eq!(
        maze_from_pbm_str("P1 99999999999999999999999 1"),
        Err("Bad width: number too large to fit in target type".to_string())
    );
    assert_eq!(maze_from_pbm_str("P1 0 2"), Err("Zero-sized maze".to_string()));
    assert_eq!(
        maze_from_pbm_str("P1 2 2 1 0 1"),
        Err("Pixel count mismatch: expected 4, got 3".to_string())
    );
}

#[test]
fn bits_may_be_packed() {
    let m = maze_from_pbm_str("P1 3 2\n101\n01 0").unwrap();
    assert_eq!(
        m,
        vec![
            vec![Cell::Wall, Cell::Empty, Cell::Wall],
            vec![Cell::Empty, Cell::Wall, Cell::Empty]
        ]
    );
    // A comment runs to the end of its line only.
    let m = maze_from_pbm_str("P1 1 1 # size\n1").unwrap();
    assert_eq!(m, vec![vec![Cell::Wall]]);
}

#[test]
fn writer_output_is_exact() {
    let mut m = maze_open(2, 3);
    m[0][1] = Cell::Wall;
    assert_eq!(maze_to_pbm_str(&m), "P1\n3 2\n0 1 0\n0 0 0\n");
    assert_eq!(maze_to_pbm_str(&Vec::new()), "P1\n0 0\n");
}

#[test]
fn documented_example_parses() {
    let m = maze_from_pbm_str("P1\n4 3\n1 1 0 1\n0 0 0 0\n1 1 1 0\n").unwrap();
    assert_eq!(m.len(), 3);
    assert_eq!(m[0], vec![Cell::Wall, Cell::Wall, Cell::Empty, Cell::Wall]);
    assert_eq!(m[1], vec![Cell::Empty; 4]);
    assert_eq!(m[2], vec![Cell::Wall, Cell::Wall, Cell::Wall, Cell::Empty]);
    // Trailing extra data is a size mismatch.
    assert_eq!(
        maze_from_pbm_str("P1\n1 1\n0 1\n"),
        Err("Pixel count mismatch: expected 1, got 2".to_string())
    );
}

#[test]
fn trailing_data_is_a_size_mismatch() {
    assert_eq!(
        maze_from_pbm_str("P1\n2 1\n0 1\nxyz"),
        Err("Pixel count mismatch: expected 2, got 5".to_string())
    );
}

#[test]
fn characters_other_than_bits_are_rejected() {
    assert_eq!(
        maze_from_pbm_str("P1 3 1\n0x1"),
        Err("Bad pixel: x (expected 0 or 1)".to_string())
    );
    assert_eq!(
        maze_from_pbm_str("P1 2 1\n1 2"),
        Err("Bad pixel: 2 (expected 0 or 1)".to_string())
    );
}
