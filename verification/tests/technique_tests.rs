use akari::answer_methods::{Methods, Technique};
use akari::answer_model::{common_determined, next_candidate, trial_placement, Model, TrialTally};
use akari::board::Board;
use akari::solution::{count, SolutionCount};
use akari::techniques::{
    clue_case_analysis, place_breaks, source_case_analysis, unique_source, Status,
};

#[test]
fn technique_scores() {
    assert_eq!(Technique::LampBeam.score(), 0);
    assert_eq!(Technique::JustEnough.score(), 2);
    assert_eq!(Technique::WouldCreateUnlit.score(), 2);
    assert_eq!(Technique::ClueCaseAnalysis.score(), 2);
    assert_eq!(Technique::ClueFull.score(), 8);
    assert_eq!(Technique::WouldMakeShort.score(), 12);
    assert_eq!(Technique::SourceCaseAnalysis.score(), 24);
    assert_eq!(Technique::OnlySource.score(), 64);
}

#[test]
fn methods_tech_sums_score_times_weight() {
    let mut m = Methods::new();
    assert_eq!(m.tech(), 0);
    m.record(Technique::OnlySource);
    m.record(Technique::OnlySource);
    m.record(Technique::ClueFull);
    m.record(Technique::LampBeam);
    assert_eq!(m.tech(), 136);
    assert_eq!(Methods::default().tech(), 0);
}

#[test]
fn record_order_does_not_change_the_score() {
    let mut a = Methods::new();
    a.record(Technique::ClueFull);
    a.record(Technique::OnlySource);
    let mut b = Methods::new();
    b.record(Technique::OnlySource);
    b.record(Technique::ClueFull);
    assert_eq!(a.tech(), 72);
    assert_eq!(b.tech(), 72);
    let before = a.tech();
    a.record(Technique::SourceCaseAnalysis);
    assert_eq!(a.tech(), before + Technique::SourceCaseAnalysis.score());
}

#[test]
fn apply_sets_undecided_and_records() {
    let data = [0u8, 0];
    let b = Board::new(2, 1, &data);
    let mut m = Model { board: &b, state: vec![0, 0], methods: Methods::new() };
    assert_eq!(m.apply(0, 1, Technique::OnlySource), Status::Completed);
    assert_eq!(m.state, vec![1, 0]);
    assert_eq!(m.methods.tech(), 64);
    assert_eq!(m.apply(0, 1, Technique::OnlySource), Status::Stopped);
    assert_eq!(m.apply(0, 2, Technique::OnlySource), Status::Broken);
    assert_eq!(m.state, vec![1, 0]);
    assert_eq!(m.methods.tech(), 64);
    assert_eq!(m.undecided(), 1);
}

#[test]
fn apply_raw_sets_without_recording() {
    let data = [0u8, 0];
    let b = Board::new(2, 1, &data);
    let mut m = Model { board: &b, state: vec![0, 0], methods: Methods::new() };
    assert_eq!(m.apply_raw(1, 2), Status::Completed);
    assert_eq!(m.state, vec![0, 2]);
    assert_eq!(m.methods.tech(), 0);
    assert_eq!(m.apply_raw(1, 2), Status::Stopped);
    assert_eq!(m.apply_raw(1, 1), Status::Broken);
    assert_eq!(m.undecided(), 1);
}

#[test]
fn next_candidate_finds_cells_next_to_walls_or_decided() {
    let data = [0u8, 0, 0, 1, 3, 1];
    let b = Board::new(3, 2, &data);
    let state = [0u8, 0, 0, 2, 2, 2];
    assert_eq!(next_candidate(&b, &state, 0), Some(0));
    assert_eq!(next_candidate(&b, &state, 1), Some(1));
    assert_eq!(next_candidate(&b, &state, 3), None);
    let open = [0u8, 0, 0, 0];
    let b2 = Board::new(2, 2, &open);
    assert_eq!(next_candidate(&b2, &open, 0), None);
    assert_eq!(next_candidate(&b2, &[0, 2, 0, 0], 0), Some(0));
}

#[test]
fn common_determined_finds_first_agreement() {
    let base = [0u8, 0, 0, 1];
    let c1 = [1u8, 2, 0, 1];
    let c2 = [1u8, 1, 0, 1];
    assert_eq!(common_determined(&base, &c1, &c2, 0), (0, 1));
    assert_eq!(common_determined(&base, &c1, &c2, 1), (4, 3));
}

#[test]
fn unique_source_lights_isolated_cells() {
    let data = [0u8, 1, 0];
    let b = Board::new(3, 1, &data);
    let mut m = Model { board: &b, state: vec![0, 2, 0], methods: Methods::new() };
    assert_eq!(unique_source(&mut m), Status::Completed);
    assert_eq!(m.state, vec![1, 2, 1]);
    assert_eq!(m.methods.tech(), 128);
    assert_eq!(unique_source(&mut m), Status::Stopped);
}

#[test]
fn unique_source_reports_dark_cell() {
    let data = [0u8];
    let b = Board::new(1, 1, &data);
    let mut m = Model { board: &b, state: vec![2], methods: Methods::new() };
    assert_eq!(unique_source(&mut m), Status::Broken);
    assert_eq!(m.state, vec![2]);
}

#[test]
fn place_breaks_forbids_lamp_that_darkens_a_cell() {
    // 2 by 2: cell 2 is a wall; cell 0 holds no lamp and only cell 1 can light it.
    let data = [0u8, 0, 1, 0];
    let b = Board::new(2, 2, &data);
    let mut m = Model { board: &b, state: vec![2, 0, 2, 0], methods: Methods::new() };
    assert_eq!(place_breaks(&mut m), Status::Completed);
    assert_eq!(m.state, vec![2, 0, 2, 2]);
    assert_eq!(m.methods.tech(), 2);
}

#[test]
fn place_breaks_forbids_lamp_that_starves_a_clue() {
    // 4 by 1: clue 1 at cell 0; a lamp at cell 3 would light cell 1, its only neighbour.
    let data = [3u8, 0, 0, 0];
    let b = Board::new(4, 1, &data);
    let mut m = Model { board: &b, state: vec![2, 0, 0, 0], methods: Methods::new() };
    assert_eq!(place_breaks(&mut m), Status::Completed);
    assert_eq!(m.state, vec![2, 0, 2, 2]);
    assert_eq!(m.methods.tech(), 24);
}

#[test]
fn place_breaks_leaves_open_grid() {
    let data = [0u8, 0, 0, 0];
    let b = Board::new(2, 2, &data);
    let mut m = Model { board: &b, state: vec![0, 0, 0, 0], methods: Methods::new() };
    assert_eq!(place_breaks(&mut m), Status::Stopped);
    assert_eq!(m.state, vec![0, 0, 0, 0]);
}

#[test]
fn clue_case_analysis_settles_clue_with_one_valid_case() {
    let data = [0u8, 3, 0, 0];
    let b = Board::new(4, 1, &data);
    let mut m = Model { board: &b, state: vec![0, 2, 0, 0], methods: Methods::new() };
    assert_eq!(clue_case_analysis(&mut m), Status::Completed);
    assert_eq!(m.state, vec![1, 2, 2, 0]);
    assert_eq!(m.methods.tech(), 4);
}

#[test]
fn clue_case_analysis_skips_clue_without_valid_case() {
    let data = [0u8, 3, 0];
    let b = Board::new(3, 1, &data);
    let mut m = Model { board: &b, state: vec![0, 2, 0], methods: Methods::new() };
    assert_eq!(clue_case_analysis(&mut m), Status::Stopped);
    assert_eq!(m.state, vec![0, 2, 0]);
}

#[test]
fn source_case_analysis_settles_common_cells() {
    let data = [0u8, 0, 0, 1, 3, 1];
    let b = Board::new(3, 2, &data);
    let mut m = Model { board: &b, state: vec![0, 0, 0, 2, 2, 2], methods: Methods::new() };
    assert_eq!(source_case_analysis(&mut m), Status::Completed);
    assert_eq!(m.state, vec![2, 1, 2, 2, 2, 2]);
    assert_eq!(m.methods.tech(), 72);
}

#[test]
fn source_case_analysis_stops_on_symmetric_grid() {
    let data = [0u8, 0, 0, 0];
    let b = Board::new(2, 2, &data);
    let mut m = Model { board: &b, state: vec![0, 0, 0, 0], methods: Methods::new() };
    assert_eq!(source_case_analysis(&mut m), Status::Stopped);
    assert_eq!(m.state, vec![0, 0, 0, 0]);
}

#[test]
fn trial_placement_settles_cell_with_one_broken_branch() {
    let data = [0u8, 0, 0, 1, 3, 1];
    let b = Board::new(3, 2, &data);
    let mut m = Model { board: &b, state: vec![0, 0, 0, 2, 2, 2], methods: Methods::new() };
    let mut tally = TrialTally::default();
    assert_eq!(trial_placement(&mut m, &mut tally, 0), Status::Completed);
    assert_eq!(m.state, vec![2, 0, 0, 2, 2, 2]);
    assert_eq!(tally.conclusions, 1);
    assert_eq!(tally.nested, 0);
    assert_eq!(m.methods.tech(), 0);
}

#[test]
fn trial_placement_without_candidates_stops() {
    let data = [0u8, 0, 0, 0];
    let b = Board::new(2, 2, &data);
    let mut m = Model { board: &b, state: vec![0, 0, 0, 0], methods: Methods::new() };
    let mut tally = TrialTally::default();
    assert_eq!(trial_placement(&mut m, &mut tally, 1), Status::Stopped);
    assert_eq!(m.state, vec![0, 0, 0, 0]);
    assert_eq!(tally.conclusions, 0);
}

#[test]
fn count_two_solutions_of_open_square() {
    let data = [0u8, 0, 0, 0];
    let b = Board::new(2, 2, &data);
    assert_eq!(count(&b, &[0, 0, 0, 0]), SolutionCount::Multiple);
}

#[test]
fn count_single_cell() {
    let data = [0u8];
    let b = Board::new(1, 1, &data);
    assert_eq!(count(&b, &[0]), SolutionCount::Unique);
    assert_eq!(count(&b, &[2]), SolutionCount::Empty);
}

#[test]
fn count_unsatisfiable_clue() {
    let data = [3u8];
    let b = Board::new(1, 1, &data);
    assert_eq!(count(&b, &[2]), SolutionCount::Empty);
}

#[test]
fn source_case_analysis_passes_over_target_without_valid_trial() {
    // 2 by 2: clue 0 below each white cell, so every trial lamp breaks a clue.
    let data = [0u8, 0, 2, 2];
    let b = Board::new(2, 2, &data);
    let mut m = Model { board: &b, state: vec![0, 0, 2, 2], methods: Methods::default() };
    assert_eq!(source_case_analysis(&mut m), Status::Stopped);
    assert_eq!(m.state, vec![0, 0, 2, 2]);
    assert_eq!(m.methods.tech(), 0);
}
