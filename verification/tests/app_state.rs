use pathlab::app::state::{InteractionMode, Point};
use pathlab::app::MazeApp;
use pathlab::mazes::{maze_boxed, maze_open, maze_starting, BuiltinMaze, Cell};
use pathlab::solver::{Algorithm, Heuristic, SolverStatus};

fn closed_count(app: &MazeApp) -> usize {
    app.solver().as_ref().map(|s| s.closed_cells().len()).unwrap_or(0)
}

fn status(app: &MazeApp) -> Option<SolverStatus> {
    app.solver().as_ref().map(|s| s.status())
}

#[test]
fn default_app_matches_first_launch() {
    let app = MazeApp::default();
    assert_eq!(app.maze(), &maze_starting());
    assert_eq!((app.rows(), app.cols()), (10, 10));
    assert_eq!(app.selected_maze(), BuiltinMaze::Starting);
    let s = app.settings();
    assert_eq!(s.start, Point { x: 1, y: 1 });
    assert_eq!(s.end, Point { x: 8, y: 7 });
    assert_eq!(s.algorithm, Algorithm::AStar);
    assert_eq!(s.heuristic, Heuristic::Manhattan);
    assert_eq!((s.speed_ms, s.loop_dwell_ms, s.k_paths), (100, 1000, 5));
    assert!(!s.loop_mode);
    assert_eq!(app.interaction(), InteractionMode::Idle);
    assert!(app.solver().is_none());
    assert!(app.undo().is_empty());
    assert!(app.last_file_error().is_none());
    assert_eq!(app.solver_status_label(), "idle");
}

#[test]
fn auto_run_steps_once_per_interval() {
    let mut app = MazeApp::default();
    app.start_solve(0);
    assert_eq!(app.solver_status_label(), "running");
    assert!(app.tick_solver(50));
    assert_eq!(closed_count(&app), 0);
    assert!(app.tick_solver(100));
    assert_eq!(closed_count(&app), 1);
    assert!(app.tick_solver(150));
    assert_eq!(closed_count(&app), 1);
    assert!(app.tick_solver(200));
    assert_eq!(closed_count(&app), 2);
}

#[test]
fn a_finished_solve_stops_and_stays() {
    let mut app = MazeApp::default();
    app.start_solve(0);
    let mut now = 0;
    while status(&app) == Some(SolverStatus::Running) {
        now += 100;
        app.tick_solver(now);
        assert!(now < 100_000);
    }
    assert_eq!(app.solver_status_label(), "path found");
    assert_eq!(app.solver().as_ref().unwrap().path().len(), 14);
    // Not in loop mode: nothing more to draw.
    assert!(!app.tick_solver(now + 5000));
    assert_eq!(status(&app), Some(SolverStatus::Found));
}

#[test]
fn loop_mode_restarts_after_the_dwell() {
    let mut app = MazeApp::default();
    let mut s = app.settings();
    s.loop_mode = true;
    s.speed_ms = 0;
    s.loop_dwell_ms = 1000;
    app.set_settings(s);
    // No solver yet: loop mode starts one at once.
    assert!(app.tick_solver(7));
    assert_eq!(status(&app), Some(SolverStatus::Running));
    let mut now = 7;
    while status(&app) == Some(SolverStatus::Running) {
        now += 1;
        app.tick_solver(now);
        assert!(now < 10_000);
    }
    let finished_at = now;
    // The finished path stays up for the dwell time.
    assert!(app.tick_solver(finished_at + 999));
    assert_eq!(status(&app), Some(SolverStatus::Found));
    // Then a fresh run starts.
    assert!(app.tick_solver(finished_at + 1000));
    assert_eq!(status(&app), Some(SolverStatus::Running));
    assert_eq!(closed_count(&app), 0);
}

#[test]
fn a_requested_step_runs_once() {
    let mut app = MazeApp::default();
    app.request_step();
    assert_eq!(closed_count(&app), 0);
    assert!(app.tick_solver(0));
    assert_eq!(closed_count(&app), 1);
    assert!(!app.tick_solver(10_000));
    assert_eq!(closed_count(&app), 1);
    app.request_step();
    app.tick_solver(10_001);
    assert_eq!(closed_count(&app), 2);
    app.clear_solver();
    assert!(app.solver().is_none());
    assert_eq!(app.solver_status_label(), "idle");
}

#[test]
fn a_picked_file_replaces_the_maze() {
    let mut app = MazeApp::default();
    app.start_solve(0);
    app.deliver_file(Ok(maze_open(3, 4)));
    app.tick_solver(1);
    assert_eq!(app.maze(), &maze_open(3, 4));
    assert_eq!((app.rows(), app.cols()), (3, 4));
    // The end marker is pulled inside the smaller maze.
    assert_eq!(app.settings().start, Point { x: 1, y: 1 });
    assert_eq!(app.settings().end, Point { x: 3, y: 2 });
    assert!(app.solver().is_none());
    assert_eq!(app.undo().len(), 1);
    assert!(app.last_file_error().is_none());
    app.deliver_file(Err("Missing width".to_string()));
    app.tick_solver(2);
    assert_eq!(app.last_file_error(), &Some("Missing width".to_string()));
    assert_eq!(app.maze(), &maze_open(3, 4));
}

#[test]
fn undo_gives_back_the_maze_before_an_edit() {
    let mut app = MazeApp::default();
    assert!(!app.undo_last());
    app.fill_with(Cell::Wall);
    assert!(app.maze().iter().all(|r| r.iter().all(|&c| c == Cell::Wall)));
    assert!(app.undo_last());
    assert_eq!(app.maze(), &maze_starting());
    assert!(app.undo().is_empty());
}

#[test]
fn invert_twice_is_identity_and_undoable() {
    let mut app = MazeApp::default();
    app.invert_maze();
    assert_eq!(app.maze()[1][1], Cell::Wall);
    assert_eq!(app.maze()[0][0], Cell::Empty);
    app.invert_maze();
    assert_eq!(app.maze(), &maze_starting());
    assert_eq!(app.undo().len(), 2);
}

#[test]
fn resizing_keeps_the_grid_rectangular() {
    let mut app = MazeApp::default();
    app.add_row(Cell::Empty);
    app.add_col(Cell::Wall);
    assert_eq!((app.rows(), app.cols()), (11, 11));
    assert!(app.maze().iter().all(|r| r.len() == 11));
    assert_eq!(app.maze()[10][0], Cell::Empty);
    assert_eq!(app.maze()[0][10], Cell::Wall);
    for _ in 0..20 {
        app.remove_row();
        app.remove_col();
    }
    assert_eq!((app.rows(), app.cols()), (1, 1));
    assert_eq!(app.settings().start, Point { x: 0, y: 0 });
    assert_eq!(app.settings().end, Point { x: 0, y: 0 });
    assert!(app.undo_last());
    assert_eq!((app.rows(), app.cols()), (1, 2));
}

#[test]
fn wall_strokes_take_one_snapshot() {
    let mut app = MazeApp::default();
    app.toggle_interaction(InteractionMode::DrawWall);
    assert_eq!(app.interaction(), InteractionMode::DrawWall);
    app.handle_pointer(Some((2, 1)), true, false);
    app.handle_pointer(Some((3, 1)), false, false);
    app.handle_pointer(Some((30, 1)), false, false);
    assert_eq!(app.maze()[1][2], Cell::Wall);
    assert_eq!(app.maze()[1][3], Cell::Wall);
    assert_eq!(app.undo().len(), 1);
    app.toggle_interaction(InteractionMode::DrawWall);
    assert_eq!(app.interaction(), InteractionMode::Idle);
    app.undo_last();
    assert_eq!(app.maze(), &maze_starting());
}

#[test]
fn picking_an_endpoint_takes_a_click() {
    let mut app = MazeApp::default();
    app.toggle_interaction(InteractionMode::PickStart);
    app.handle_pointer(Some((3, 3)), true, false);
    assert_eq!(app.settings().start, Point { x: 1, y: 1 });
    app.handle_pointer(Some((3, 3)), false, true);
    assert_eq!(app.settings().start, Point { x: 3, y: 3 });
    assert_eq!(app.interaction(), InteractionMode::Idle);
    app.toggle_interaction(InteractionMode::PickEnd);
    app.handle_pointer(None, false, true);
    assert_eq!(app.interaction(), InteractionMode::PickEnd);
    app.handle_pointer(Some((5, 7)), false, true);
    assert_eq!(app.settings().end, Point { x: 5, y: 7 });
    assert!(app.undo().is_empty());
}

#[test]
fn selecting_a_preset_generates_it_at_the_current_size() {
    let mut app = MazeApp::default();
    app.select_maze(BuiltinMaze::Starting);
    assert!(app.undo().is_empty());
    app.select_maze(BuiltinMaze::Boxed);
    assert_eq!(app.selected_maze(), BuiltinMaze::Boxed);
    assert_eq!(app.maze(), &maze_boxed(10, 10));
    assert_eq!(app.undo().len(), 1);
}

#[test]
fn k_shortest_solves_in_one_step_from_the_app() {
    let mut app = MazeApp::default();
    let mut s = app.settings();
    s.algorithm = Algorithm::KShortest;
    s.k_paths = 3;
    app.set_settings(s);
    app.start_solve(0);
    app.tick_solver(100);
    assert_eq!(status(&app), Some(SolverStatus::Found));
    let solver = app.solver().as_ref().unwrap();
    assert!(solver.paths().len() <= 3);
    assert_eq!(solver.path().len(), 14);
}

#[test]
fn undo_restores_the_maze_after_each_kind_of_edit() {
    let edits: Vec<fn(&mut MazeApp)> = vec![
        |a| a.invert_maze(),
        |a| a.fill_with(Cell::Wall),
        |a| a.add_row(Cell::Wall),
        |a| a.add_col(Cell::Empty),
        |a| a.remove_row(),
        |a| a.remove_col(),
        |a| a.set_maze(maze_open(3, 4)),
    ];
    for edit in edits {
        let mut app = MazeApp::default();
        let before = app.maze().clone();
        let (rows, cols) = (app.rows(), app.cols());
        edit(&mut app);
        assert!(app.undo_last());
        assert_eq!(app.maze(), &before);
        assert_eq!((app.rows(), app.cols()), (rows, cols));
        assert!(app.solver().is_none());
    }
}
