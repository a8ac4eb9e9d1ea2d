use akari::answer_methods::Methods;
use akari::answer_model::Model;
use akari::board::{clue_neighbors, is_consistent, is_solution, lamp_beam, Board};
use akari::techniques::Status;

#[test]
fn new_builds_neighbours_beams_and_reach_of_open_grid() {
    let data = [0u8, 0, 0, 0];
    let b = Board::new(2, 2, &data);
    assert_eq!(b.neighbors, vec![vec![1, 2], vec![0, 3], vec![3, 0], vec![2, 1]]);
    assert_eq!(b.lamp_reach, vec![vec![1, 2], vec![0, 3], vec![3, 0], vec![2, 1]]);
    assert_eq!(b.reach, vec![vec![1, 2, 0], vec![0, 3, 1], vec![3, 0, 2], vec![2, 1, 3]]);
    assert!(b.walls.is_empty());
}

#[test]
fn new_stops_beams_at_walls() {
    let data = [0u8, 1, 0];
    let b = Board::new(3, 1, &data);
    assert_eq!(b.lamp_reach, vec![vec![], vec![], vec![]]);
    assert_eq!(b.reach, vec![vec![0], vec![], vec![2]]);
    assert_eq!(b.neighbors[1], vec![0, 2]);
    assert!(b.walls.is_empty());
}

#[test]
fn new_beam_runs_right_left_down_up() {
    // 3 by 3, all white: the centre lights its row, then its column.
    let data = [0u8; 9];
    let b = Board::new(3, 3, &data);
    assert_eq!(b.lamp_reach[4], vec![5, 3, 7, 1]);
    assert_eq!(b.reach[4], vec![5, 3, 7, 1, 4]);
    assert_eq!(b.neighbors[4], vec![3, 5, 1, 7]);
    assert_eq!(b.lamp_reach[0], vec![1, 2, 3, 6]);
}

#[test]
fn digit_walls_lists_numbered_walls_in_cell_order() {
    let data = [0u8, 3, 1, 6];
    let b = Board::new(4, 1, &data);
    assert_eq!(b.digit_walls(), vec![(1, 1), (3, 4)]);
}

#[test]
fn lit_marks_lamp_and_its_beam() {
    let data = [0u8, 0, 0, 0];
    let b = Board::new(2, 2, &data);
    assert_eq!(b.lit(&[1, 2, 2, 2]), vec![1, 1, 1, 0]);
    assert_eq!(b.lit(&[2, 2, 2, 2]), vec![0, 0, 0, 0]);
}

#[test]
fn is_solution_single_cell() {
    let data = [0u8];
    let b = Board::new(1, 1, &data);
    assert!(is_solution(&b, &[1]));
    assert!(!is_solution(&b, &[2]));
    assert!(!is_solution(&b, &[0]));
}

#[test]
fn is_solution_checks_clue_count() {
    let data = [0u8, 3, 0, 0];
    let b = Board::new(4, 1, &data);
    // clue 1 at cell 1; cells 2 and 3 see each other.
    assert!(is_solution(&b, &[1, 2, 2, 1]));
    assert!(!is_solution(&b, &[1, 2, 1, 2]));
    assert!(!is_solution(&b, &[2, 2, 1, 1]));
}

#[test]
fn is_consistent_rejects_lamps_in_sight() {
    let data = [0u8, 0, 0];
    let b = Board::new(3, 1, &data);
    assert!(!is_consistent(&b, &[1, 0, 1]));
    assert!(is_consistent(&b, &[1, 0, 0]));
    assert!(is_consistent(&b, &[0, 0, 0]));
}

#[test]
fn is_consistent_rejects_unlit_cell_without_source() {
    let data = [0u8, 1, 0];
    let b = Board::new(3, 1, &data);
    assert!(!is_consistent(&b, &[2, 2, 0]));
    assert!(is_consistent(&b, &[1, 2, 0]));
}

#[test]
fn is_consistent_rejects_overfull_and_short_clues() {
    let data = [0u8, 3, 0];
    let b = Board::new(3, 1, &data);
    assert!(!is_consistent(&b, &[1, 2, 1]));
    assert!(is_consistent(&b, &[1, 2, 0]));
    let data0 = [0u8, 2, 0];
    let b0 = Board::new(3, 1, &data0);
    assert!(!is_consistent(&b0, &[1, 2, 2]));
}

#[test]
fn clue_neighbors_places_just_enough_lamps() {
    let data = [0u8, 4, 0];
    let b = Board::new(3, 1, &data);
    let mut m = Model { board: &b, state: vec![0, 2, 0], methods: Methods::new() };
    assert_eq!(clue_neighbors(&mut m), Status::Completed);
    assert_eq!(m.state, vec![1, 2, 1]);
    assert_eq!(m.methods.tech(), 4);
    assert_eq!(clue_neighbors(&mut m), Status::Stopped);
    assert_eq!(m.state, vec![1, 2, 1]);
}

#[test]
fn clue_neighbors_forbids_around_full_clue() {
    let data = [0u8, 2, 0];
    let b = Board::new(3, 1, &data);
    let mut m = Model { board: &b, state: vec![0, 2, 0], methods: Methods::new() };
    assert_eq!(clue_neighbors(&mut m), Status::Completed);
    assert_eq!(m.state, vec![2, 2, 2]);
    assert_eq!(m.methods.tech(), 16);
}

#[test]
fn clue_neighbors_reports_unreachable_clue() {
    let data = [0u8, 5, 0];
    let b = Board::new(3, 1, &data);
    let mut m = Model { board: &b, state: vec![0, 2, 0], methods: Methods::new() };
    assert_eq!(clue_neighbors(&mut m), Status::Broken);
}

#[test]
fn lamp_beam_forbids_cells_in_sight() {
    let data = [0u8, 0, 0];
    let b = Board::new(3, 1, &data);
    let mut m = Model { board: &b, state: vec![1, 0, 0], methods: Methods::new() };
    assert_eq!(lamp_beam(&mut m), Status::Completed);
    assert_eq!(m.state, vec![1, 2, 2]);
    assert_eq!(m.methods.tech(), 0);
    let mut idle = Model { board: &b, state: vec![2, 0, 0], methods: Methods::new() };
    assert_eq!(lamp_beam(&mut idle), Status::Stopped);
    assert_eq!(idle.state, vec![2, 0, 0]);
}

#[test]
fn lamp_beam_reports_lamps_in_sight() {
    let data = [0u8, 0, 0];
    let b = Board::new(3, 1, &data);
    let mut m = Model { board: &b, state: vec![1, 0, 1], methods: Methods::new() };
    assert_eq!(lamp_beam(&mut m), Status::Broken);
}

#[test]
fn lamp_beam_settles_in_one_pass() {
    let data = [0u8, 0, 0, 1, 0, 0, 0, 0, 0];
    let b = Board::new(3, 3, &data);
    let mut m = Model { board: &b, state: vec![1, 0, 0, 2, 0, 0, 0, 0, 0], methods: Methods::new() };
    assert_eq!(lamp_beam(&mut m), Status::Completed);
    assert_eq!(m.state, vec![1, 2, 2, 2, 0, 0, 0, 0, 0]);
    let settled = m.state.clone();
    assert_eq!(lamp_beam(&mut m), Status::Stopped);
    assert_eq!(m.state, settled);
}

#[test]
fn solution_is_consistent() {
    let data = [0u8, 3, 0, 0];
    let b = Board::new(4, 1, &data);
    let solved = [1u8, 2, 2, 1];
    assert!(is_solution(&b, &solved));
    assert!(is_consistent(&b, &solved));
}

#[test]
fn new_beams_are_exact_sight_lines() {
    // 3 by 3 with a wall in the centre: beams run along rows and columns and
    // stop at the wall; each cell appears once; sight is mutual.
    let data = [0u8, 0, 0, 0, 1, 0, 0, 0, 0];
    let b = Board::new(3, 3, &data);
    assert_eq!(b.lamp_reach[3], vec![6, 0]);
    assert_eq!(b.lamp_reach[0], vec![1, 2, 3, 6]);
    assert_eq!(b.lamp_reach[4], Vec::<usize>::new());
    for i in 0..9usize {
        let beam = &b.lamp_reach[i];
        for (a, x) in beam.iter().enumerate() {
            assert!(!beam[a + 1..].contains(x));
            assert!(b.lamp_reach[*x].contains(&i));
        }
    }
}

#[test]
fn inconsistent_board_stays_inconsistent_when_more_is_decided() {
    let data = [0u8, 0, 0, 0];
    let b = Board::new(4, 1, &data);
    assert!(!is_consistent(&b, &[1, 0, 1, 0]));
    assert!(!is_consistent(&b, &[1, 2, 1, 0]));
    assert!(!is_consistent(&b, &[1, 2, 1, 2]));
    assert!(!is_solution(&b, &[1, 2, 1, 2]));
}

#[test]
fn clue_neighbors_breaks_on_any_infeasible_wall() {
    // First wall (clue 1) is fine, second (clue 0) already has a lamp.
    let data = [0u8, 3, 0, 2, 0];
    let b = Board::new(5, 1, &data);
    let mut m = Model { board: &b, state: vec![0, 2, 1, 2, 0], methods: Methods::new() };
    assert_eq!(clue_neighbors(&mut m), Status::Broken);
}

#[test]
fn clue_neighbors_changes_only_undecided_wall_neighbours() {
    let data = [0u8, 0, 2, 0, 0];
    let b = Board::new(5, 1, &data);
    let mut m = Model { board: &b, state: vec![0, 0, 2, 0, 0], methods: Methods::new() };
    assert_eq!(clue_neighbors(&mut m), Status::Completed);
    assert_eq!(m.state, vec![0, 2, 2, 2, 0]);
}
