use akari::solution::SolutionCount;
use akari::techniques::Status;
use akari::{rating_from_dp, solve_by_logicpuzzle};

#[test]
fn solve_single_white_cell_needs_unique_source() {
    let r = solve_by_logicpuzzle(1, 1, &[0]);
    assert_eq!(r.status, Status::Completed);
    assert_eq!(r.solutions, SolutionCount::Unique);
    assert_eq!(r.level, 2);
    assert_eq!(r.unknown, 0);
    assert_eq!(r.dp, 1000064);
    assert_eq!(r.rating_hundredths, Some(150));
    assert_eq!(r.difficulty_version, 1);
}

#[test]
fn solve_single_wall_is_complete_at_level_one() {
    let r = solve_by_logicpuzzle(1, 1, &[1]);
    assert_eq!(r.status, Status::Completed);
    assert_eq!(r.solutions, SolutionCount::Unique);
    assert_eq!(r.level, 1);
    assert_eq!(r.dp, 0);
    assert_eq!(r.rating_hundredths, Some(50));
}

#[test]
fn solve_clue_without_neighbours_is_broken() {
    let r = solve_by_logicpuzzle(1, 1, &[3]);
    assert_eq!(r.status, Status::Broken);
    assert_eq!(r.solutions, SolutionCount::Empty);
    assert_eq!(r.level, 1);
    assert_eq!(r.unknown, 0);
    assert_eq!(r.dp, 0);
    assert_eq!(r.rating_hundredths, None);
}

#[test]
fn solve_clue_between_isolated_cells_is_broken() {
    let r = solve_by_logicpuzzle(3, 1, &[0, 3, 0]);
    assert_eq!(r.status, Status::Broken);
    assert_eq!(r.solutions, SolutionCount::Empty);
    assert_eq!(r.level, 2);
    assert_eq!(r.unknown, 0);
    assert_eq!(r.dp, 0);
    assert_eq!(r.rating_hundredths, None);
}

#[test]
fn solve_clue_with_one_open_neighbour() {
    let r = solve_by_logicpuzzle(3, 2, &[0, 0, 0, 1, 3, 1]);
    assert_eq!(r.status, Status::Completed);
    assert_eq!(r.solutions, SolutionCount::Unique);
    assert_eq!(r.level, 1);
    assert_eq!(r.unknown, 0);
    assert_eq!(r.dp, 2);
    assert_eq!(r.rating_hundredths, Some(50));
}

#[test]
fn solve_open_square_stops_with_two_solutions() {
    let r = solve_by_logicpuzzle(2, 2, &[0, 0, 0, 0]);
    assert_eq!(r.status, Status::Stopped);
    assert_eq!(r.solutions, SolutionCount::Multiple);
    assert_eq!(r.level, 8);
    assert_eq!(r.unknown, 4);
    assert_eq!(r.dp, 7000568);
    assert_eq!(r.rating_hundredths, None);
    assert_eq!(r.difficulty_version, 1);
}

#[test]
fn solve_empty_grid_is_complete() {
    let r = solve_by_logicpuzzle(0, 0, &[]);
    assert_eq!(r.status, Status::Completed);
    assert_eq!(r.solutions, SolutionCount::Unique);
    assert_eq!(r.level, 1);
    assert_eq!(r.dp, 0);
}

#[test]
fn rating_at_anchors() {
    assert_eq!(rating_from_dp(0), 50);
    assert_eq!(rating_from_dp(1000726), 150);
    assert_eq!(rating_from_dp(3001150), 250);
    assert_eq!(rating_from_dp(4004408), 350);
    assert_eq!(rating_from_dp(6000000), 450);
    assert_eq!(rating_from_dp(7064703), 549);
    assert_eq!(rating_from_dp(7064704), 549);
}

#[test]
fn rating_interpolates_and_rounds() {
    assert_eq!(rating_from_dp(2), 50);
    assert_eq!(rating_from_dp(500363), 100);
    assert_eq!(rating_from_dp(1000064), 150);
    assert_eq!(rating_from_dp(2000000), 200);
    assert_eq!(rating_from_dp(7000568), 543);
}

#[test]
fn rating_of_score_beyond_i64_reads_as_negative() {
    assert_eq!(rating_from_dp(1u64 << 63), 50);
    assert_eq!(rating_from_dp(u64::MAX), 50);
}

#[test]
fn rating_never_falls_on_sampled_scores() {
    let mut last = rating_from_dp(0);
    let mut d: u64 = 0;
    while d <= 7_100_000 {
        let r = rating_from_dp(d);
        assert!(r >= last);
        assert!((50..=549).contains(&r));
        last = r;
        d += 997;
    }
}

#[test]
fn solve_open_three_by_three_stops_with_many_solutions() {
    let r = solve_by_logicpuzzle(3, 3, &[0; 9]);
    assert_eq!(r.status, Status::Stopped);
    assert_eq!(r.solutions, SolutionCount::Multiple);
    assert_eq!(r.level, 8);
    assert_eq!(r.unknown, 9);
    assert_eq!(r.dp, 7001278);
    assert_eq!(r.rating_hundredths, None);
}
