pub mod answer_methods;
pub mod answer_model;
pub mod board;
pub mod grid;
pub mod rules;
pub mod solution;
pub mod techniques;

use vstd::prelude::*;

use answer_methods::{
    add_weight, lemma_records_two_weights, lemma_records_weights, total_of,
    weights_of, Methods, Technique,
};
use answer_model::{
    apply_all, concluded, placement_spec, sat_add, trial_placement, valid_state, Model, TrialTally,
};
use board::{
    beam_result, beam_stop_state, clue_neighbors, clue_upto, grid_is_solution, is_solution,
    lamp_beam, lemma_grid_solution, Board,
};
use rules::{
    changed_to, extends, keeps_solutions, lemma_extends_decided, lemma_keeps_refl,
    lemma_keeps_solves, lemma_keeps_trans, lemma_refines_refl, lemma_refines_trans,
    lemma_refines_zeros, lemma_unsolvable_back, lemma_zeros_none,
    progress_outcome, refines, solves, sound_outcome, unsolvable, zeros,
};
use solution::{count_spec, walls_decided, SolutionCount};
use techniques::clue_cases::clue_decisions;
use techniques::lamp_conflict::{breaks_result, dark_count, short_count};
use techniques::only_source::{has_dark_cell, unique_result};
use techniques::source_cases::{first_decisions, target_order};
use techniques::{
    clue_case_analysis, place_breaks, source_case_analysis, unique_source, Status,
};

verus! {

/// Passes of the technique chain allowed per run (0: no limit).
const MAX_RETRIES: u32 = 0;

/// Whether a trial that stalls at level 6 is retried with one level of nesting.
const ALLOW_LEVEL7: u32 = 1;

/// The level from which a stalled chain goes on to trial placement.
const TRIAL_THRESHOLD: u32 = 5;

/// Whether the search ends before its first trial placement (0: it does not).
const STOP_BEFORE_TRIAL: u32 = 0;

/// The outcome of a solve: how it ended, how many solutions the puzzle has,
/// the search score `dp` and the level reached, the cells left undecided,
/// the difficulty rating in hundredths, and the rating scheme's version.
#[derive(Debug, Clone, Copy, PartialEq, Eq)]
pub struct LpResult {
    pub status: Status,
    pub solutions: SolutionCount,
    pub dp: u64,
    pub level: u32,
    pub unknown: usize,
    pub rating_hundredths: Option<u32>,
    pub difficulty_version: usize,
}

/// Rounded linear interpolation on one segment of the difficulty curve:
/// `y1 + round((dp - x1) * (y2 - y1) / (x2 - x1))`, rounding halves up.
pub open spec fn interpolate(dp: int, x1: int, y1: int, x2: int, y2: int) -> int {
    y1 + (2 * (dp - x1) * (y2 - y1) + (x2 - x1)) / (2 * (x2 - x1))
}

/// The difficulty rating (in hundredths) of a search score `dp`: a piecewise
/// linear curve through (0,50), (1000726,150), (3001150,250), (4004408,350),
/// (6000000,450), (7064704,549), clamped to 50 below and 549 above. A score
/// beyond the range of `i64` reads as negative and is rated 50.
pub open spec fn rating_spec(dp: int) -> int {
    if dp <= 0 || dp > i64::MAX {
        50
    } else if dp > 7064703 {
        549
    } else if dp < 1000726 {
        interpolate(dp, 0, 50, 1000726, 150)
    } else if dp < 3001150 {
        interpolate(dp, 1000726, 150, 3001150, 250)
    } else if dp < 4004408 {
        interpolate(dp, 3001150, 250, 4004408, 350)
    } else if dp < 6000000 {
        interpolate(dp, 4004408, 350, 6000000, 450)
    } else {
        interpolate(dp, 6000000, 450, 7064704, 549)
    }
}

/// Within one segment the interpolation never falls and stays between the
/// segment's end values.
proof fn lemma_interpolate_monotone(d1: int, d2: int, x1: int, y1: int, x2: int, y2: int)
    requires
        x1 <= d1 <= d2 < x2,
        y1 <= y2,
    ensures
        y1 <= interpolate(d1, x1, y1, x2, y2) <= interpolate(d2, x1, y1, x2, y2) <= y2,
{
    let den: int = 2 * (x2 - x1);
    let n1: int = 2 * (d1 - x1) * (y2 - y1) + (x2 - x1);
    let n2: int = 2 * (d2 - x1) * (y2 - y1) + (x2 - x1);
    assert(0 <= n1 <= n2) by (nonlinear_arith)
        requires
            x1 <= d1 <= d2 < x2,
            y1 <= y2,
            n1 == 2 * (d1 - x1) * (y2 - y1) + (x2 - x1),
            n2 == 2 * (d2 - x1) * (y2 - y1) + (x2 - x1),
    ;
    assert(n2 < den * (y2 - y1 + 1)) by (nonlinear_arith)
        requires
            x1 <= d2 < x2,
            y1 <= y2,
            den == 2 * (x2 - x1),
            n2 == 2 * (d2 - x1) * (y2 - y1) + (x2 - x1),
    ;
    vstd::arithmetic::div_mod::lemma_div_is_ordered(n1, n2, den);
    vstd::arithmetic::div_mod::lemma_div_is_ordered(0, n1, den);
    assert(n2 / den <= y2 - y1) by (nonlinear_arith)
        requires
            0 <= n2 < den * (y2 - y1 + 1),
            den > 0,
    ;
}

/// The rating bands: each segment of the curve stays between its end values.
proof fn lemma_rating_band(d: int)
    requires
        0 < d <= 7064703,
    ensures
        d < 1000726 ==> 50 <= rating_spec(d) <= 150,
        1000726 <= d < 3001150 ==> 150 <= rating_spec(d) <= 250,
        3001150 <= d < 4004408 ==> 250 <= rating_spec(d) <= 350,
        4004408 <= d < 6000000 ==> 350 <= rating_spec(d) <= 450,
        6000000 <= d ==> 450 <= rating_spec(d) <= 549,
{
    if d < 1000726 {
        lemma_interpolate_monotone(d, d, 0, 50, 1000726, 150);
    } else if d < 3001150 {
        lemma_interpolate_monotone(d, d, 1000726, 150, 3001150, 250);
    } else if d < 4004408 {
        lemma_interpolate_monotone(d, d, 3001150, 250, 4004408, 350);
    } else if d < 6000000 {
        lemma_interpolate_monotone(d, d, 4004408, 350, 6000000, 450);
    } else {
        lemma_interpolate_monotone(d, d, 6000000, 450, 7064704, 549);
    }
}

/// The rating never falls as the search score grows (over the scores that
/// read as non-negative 64-bit integers), and it stays between 50 and 549.
pub proof fn lemma_rating_monotone(d1: int, d2: int)
    requires
        0 <= d1 <= d2 <= i64::MAX,
    ensures
        50 <= rating_spec(d1) <= rating_spec(d2) <= 549,
{
    if 0 < d1 && d2 <= 7064703 {
        lemma_rating_band(d1);
        lemma_rating_band(d2);
        if d2 < 1000726 {
            lemma_interpolate_monotone(d1, d2, 0, 50, 1000726, 150);
        } else if 1000726 <= d1 && d2 < 3001150 {
            lemma_interpolate_monotone(d1, d2, 1000726, 150, 3001150, 250);
        } else if 3001150 <= d1 && d2 < 4004408 {
            lemma_interpolate_monotone(d1, d2, 3001150, 250, 4004408, 350);
        } else if 4004408 <= d1 && d2 < 6000000 {
            lemma_interpolate_monotone(d1, d2, 4004408, 350, 6000000, 450);
        } else if 6000000 <= d1 {
            lemma_interpolate_monotone(d1, d2, 6000000, 450, 7064704, 549);
        }
    } else {
        if 0 < d1 && d1 <= 7064703 {
            lemma_rating_band(d1);
        }
        if 0 < d2 && d2 <= 7064703 {
            lemma_rating_band(d2);
        }
    }
}

/// The rounded interpolation of `dp` on the segment from (x1, y1) to (x2, y2).
fn rating_segment(dp: i64, x1: i64, y1: i64, x2: i64, y2: i64) -> (r: u32)
    requires
        0 <= x1 <= dp < x2 <= 8000000,
        0 <= y1 <= y2 <= 1000,
        x1 < x2,
    ensures
        r == interpolate(dp as int, x1 as int, y1 as int, x2 as int, y2 as int),
{
    assert(0 <= 2 * (dp - x1) * (y2 - y1) <= 2 * 8000000 * 1000) by (nonlinear_arith)
        requires 0 <= dp - x1 <= 8000000, 0 <= y2 - y1 <= 1000;
    let num: i64 = 2 * (dp - x1) * (y2 - y1) + (x2 - x1);
    let den: i64 = 2 * (x2 - x1);
    assert(num <= den * ((y2 - y1) + 1)) by (nonlinear_arith)
        requires
            num == 2 * (dp - x1) * (y2 - y1) + (x2 - x1),
            den == 2 * (x2 - x1),
            dp < x2,
            x1 <= dp,
            y1 <= y2;
    assert(0 <= num / den <= (y2 - y1) + 1) by (nonlinear_arith)
        requires num >= 0, den >= 1, num <= den * ((y2 - y1) + 1);
    (y1 + num / den) as u32
}

/// The difficulty rating in hundredths of a search score: the curve of
/// `rating_spec`, computed segment by segment.
pub fn rating_from_dp(dp: u64) -> (r: u32)
    ensures
        r == rating_spec(dp as int),
{
    if dp == 0 || dp > 9223372036854775807 {
        return 50;
    }
    if dp > 7064703 {
        return 549;
    }
    let d: i64 = dp as i64;
    if d < 1000726 {
        rating_segment(d, 0, 50, 1000726, 150)
    } else if d < 3001150 {
        rating_segment(d, 1000726, 150, 3001150, 250)
    } else if d < 4004408 {
        rating_segment(d, 3001150, 250, 4004408, 350)
    } else if d < 6000000 {
        rating_segment(d, 4004408, 350, 6000000, 450)
    } else {
        rating_segment(d, 6000000, 450, 7064704, 549)
    }
}


/// The state a grid starts from: walls decided as "no lamp" (2), white
/// cells undecided (0).
pub open spec fn initial_state(data: Seq<u8>) -> Seq<u8> {
    Seq::new(data.len(), |i: int| if data[i] != 0 { 2u8 } else { 0u8 })
}

/// `t` solves the akari puzzle given by the `w` by `h` grid `data`: walls
/// hold 2, each white cell holds a lamp (1) or none (2), and the rules hold.
pub open spec fn grid_solves(w: int, h: int, data: Seq<u8>, t: Seq<u8>) -> bool {
    extends(t, initial_state(data)) && grid_is_solution(w, h, data, t)
}

/// No technique recorded yet.
pub open spec fn no_weights() -> spec_fn(Technique) -> int {
    |t: Technique| 0int
}

/// `Stopped` when `t` is `s`, else `Completed`.
pub open spec fn moved(s: Seq<u8>, t: Seq<u8>) -> Status {
    if t == s {
        Status::Stopped
    } else {
        Status::Completed
    }
}

/// Technique `k` of the chain (clue neighbours, lamp beams, unique source,
/// placements that break, clue case analysis, source case analysis) on the
/// state `s` with technique weights `w`: its outcome, the state it leaves
/// and the weights after it.
pub open spec fn technique_spec(b: &Board, k: int, s: Seq<u8>, w: spec_fn(Technique) -> int) -> (Status, Seq<u8>, spec_fn(Technique) -> int) {
    if k == 0 {
        let c = clue_upto(b, s, b.walls@.len());
        (
            if !c.0 { Status::Broken } else { moved(s, c.1) },
            c.1,
            add_weight(
                add_weight(w, Technique::ClueFull, changed_to(s, c.1, 2) as int),
                Technique::JustEnough,
                changed_to(s, c.1, 1) as int,
            ),
        )
    } else if k == 1 {
        let t = if b.no_lamp_conflict(s) { beam_result(b, s) } else { beam_stop_state(b, s) };
        (
            if !b.no_lamp_conflict(s) { Status::Broken } else { moved(s, t) },
            t,
            add_weight(w, Technique::LampBeam, changed_to(s, t, 2) as int),
        )
    } else if k == 2 {
        let t = if has_dark_cell(b, s) { s } else { unique_result(b, s) };
        (
            if has_dark_cell(b, s) { Status::Broken } else { moved(s, t) },
            t,
            add_weight(w, Technique::OnlySource, changed_to(s, t, 1) as int),
        )
    } else if k == 3 {
        let t = breaks_result(b, s);
        (
            moved(s, t),
            t,
            add_weight(
                add_weight(w, Technique::WouldMakeShort, short_count(b, s, s.len() as int) as int),
                Technique::WouldCreateUnlit,
                dark_count(b, s, s.len() as int) as int,
            ),
        )
    } else if k == 4 {
        let a = apply_all(s, clue_decisions(b, s, b.walls@.len() as int));
        (a.0, a.1, add_weight(w, Technique::ClueCaseAnalysis, zeros(s) - zeros(a.1)))
    } else {
        let a = apply_all(s, first_decisions(b, s, target_order(b, s), 0));
        (a.0, a.1, add_weight(w, Technique::SourceCaseAnalysis, zeros(s) - zeros(a.1)))
    }
}

/// A pass of the chain over techniques `k..=lm` on `s` with weights `w`,
/// `changed` telling whether an earlier technique of the pass changed the
/// state: `Broken` at the first contradiction, else `Completed` when some
/// technique changed the state, else `Stopped`.
pub open spec fn pass_spec(b: &Board, lm: int, k: int, s: Seq<u8>, w: spec_fn(Technique) -> int, changed: bool) -> (Status, Seq<u8>, spec_fn(Technique) -> int)
    decreases lm + 1 - k,
{
    if k > lm {
        (if changed { Status::Completed } else { Status::Stopped }, s, w)
    } else {
        let t = technique_spec(b, k, s, w);
        if t.0 == Status::Broken {
            t
        } else {
            pass_spec(b, lm, k + 1, t.1, t.2, changed || t.0 == Status::Completed)
        }
    }
}

/// The chain at level `lm`: passes repeat while they change the state (the
/// undecided cells never grow). `Broken` at a contradiction, else `Stopped`
/// at the first pass that changes nothing.
pub open spec fn chain_spec(b: &Board, lm: int, s: Seq<u8>, w: spec_fn(Technique) -> int) -> (Status, Seq<u8>, spec_fn(Technique) -> int)
    decreases zeros(s),
{
    let p = pass_spec(b, lm, 0, s, w, false);
    if p.0 == Status::Completed && zeros(p.1) < zeros(s) {
        chain_spec(b, lm, p.1, p.2)
    } else if p.0 == Status::Broken {
        p
    } else {
        (Status::Stopped, p.1, p.2)
    }
}

/// Where the search ends: how, on which state, at which level, with which
/// technique weights and trial counts, and the undecided counts noted at
/// the first trials of level 6 and 7.
pub struct SearchEnd {
    pub status: Status,
    pub state: Seq<u8>,
    pub level: int,
    pub weights: spec_fn(Technique) -> int,
    pub conclusions: int,
    pub nested: int,
    pub level6_undecided: int,
    pub level7_undecided: int,
}

/// The search from state `s` at level `level`: the chain of the level's
/// techniques; a contradiction ends it (`Broken`); a fully decided state
/// ends it (`Completed` when it is a solution, else `Broken`); below level 5
/// the level rises; from level 5 on, a trial placement (level 6) whose
/// conclusion resumes the search, whose contradiction ends it as
/// `Completed`, and whose stall leads to a nested trial placement (level 7)
/// that resumes the search when it concludes and otherwise ends it with its
/// outcome. The undecided count at the first level 6 trial and at the first
/// level 7 trial are noted (as `u32`). (The undecided cells never grow and a
/// concluding trial decides a cell; the guards on these only bound the
/// recursion.)
pub open spec fn search_spec(
    b: &Board,
    s: Seq<u8>,
    w: spec_fn(Technique) -> int,
    level: int,
    l7done: bool,
    gate: bool,
    conc: int,
    nest: int,
    l6: int,
    l7: int,
) -> SearchEnd
    decreases zeros(s), 8 - level,
{
    let c = chain_spec(b, if level < 5 { level } else { 5 }, s, w);
    let s1 = c.1;
    let z = zeros(s1);
    if c.0 == Status::Broken {
        SearchEnd { status: Status::Broken, state: s1, level, weights: c.2, conclusions: conc, nested: nest, level6_undecided: l6, level7_undecided: l7 }
    } else if z == 0 {
        SearchEnd {
            status: if b.is_solution_spec(s1) { Status::Completed } else { Status::Broken },
            state: s1,
            level,
            weights: c.2,
            conclusions: conc,
            nested: nest,
            level6_undecided: l6,
            level7_undecided: l7,
        }
    } else if level >= 5 {
        let l6b = if !gate { (z as u32) as int } else { l6 };
        let lv6 = if level < 6 { 6 } else { level };
        let tp = placement_spec(b, s1, 0, nest);
        let conc6 = sat_add(conc, concluded(tp.0));
        if tp.0 == Status::Completed && zeros(tp.1) < zeros(s) {
            search_spec(b, tp.1, c.2, lv6, l7done, true, conc6, tp.2, l6b, l7)
        } else if tp.0 == Status::Broken {
            SearchEnd { status: Status::Completed, state: tp.1, level: lv6, weights: c.2, conclusions: conc6, nested: tp.2, level6_undecided: l6b, level7_undecided: l7 }
        } else {
            let l7b = if !l7done { (zeros(tp.1) as u32) as int } else { l7 };
            let tp7 = placement_spec(b, tp.1, 1, tp.2);
            let conc7 = sat_add(conc6, concluded(tp7.0));
            if tp7.0 == Status::Completed && zeros(tp7.1) < zeros(s) {
                search_spec(b, tp7.1, c.2, 7, true, true, conc7, tp7.2, l6b, l7b)
            } else {
                SearchEnd { status: tp7.0, state: tp7.1, level: 7, weights: c.2, conclusions: conc7, nested: tp7.2, level6_undecided: l6b, level7_undecided: l7b }
            }
        }
    } else if z <= zeros(s) {
        search_spec(b, s1, c.2, level + 1, l7done, gate, conc, nest, l6, l7)
    } else {
        SearchEnd { status: Status::Stopped, state: s1, level, weights: c.2, conclusions: conc, nested: nest, level6_undecided: l6, level7_undecided: l7 }
    }
}

/// The search score of a search end: the band of the level reached (8 when
/// stopped) plus the difficulty score capped at 999999, where the score adds
/// the technique score (capped at `u32::MAX`), 4 per nested conclusion, 12
/// per cell undecided at the first level 6 trial, 40 per cell undecided at
/// the first level 7 trial and per trial conclusion, and 90 per cell left
/// undecided when stopped; 0 when broken.
pub open spec fn score_spec(e: SearchEnd) -> int {
    let level = if e.status == Status::Stopped { 8 } else { e.level };
    let unknown = if e.status == Status::Completed { 0 } else { zeros(e.state) as int };
    let tech = if total_of(e.weights) <= u32::MAX { total_of(e.weights) } else { u32::MAX as int };
    let score = tech + e.nested * 4 + e.level6_undecided * 12 + (e.level7_undecided + e.conclusions) * 40
        + if e.status == Status::Stopped { ((unknown as u32) as int) * 90 } else { 0 };
    if e.status == Status::Broken {
        0
    } else {
        (level - 1) * 1000000 + if score < 999999 { score } else { 999999 }
    }
}

/// The result of solving on board `b` from its start state `s0`: status,
/// level (8 when stopped), undecided cells left (0 when completed) and
/// search score are those of the search end; the solutions are one when
/// completed, none when broken, and the search's count when stopped.
pub open spec fn solve_matches(b: &Board, s0: Seq<u8>, r: LpResult) -> bool {
    let e = search_spec(b, s0, no_weights(), 1, false, false, 0, 0, 0, 0);
    &&& r.status == e.status
    &&& r.solutions == (if e.status == Status::Completed {
        SolutionCount::Unique
    } else if e.status == Status::Broken {
        SolutionCount::Empty
    } else {
        count_spec(b, e.state)
    })
    &&& r.level == (if e.status == Status::Stopped { 8 } else { e.level })
    &&& r.unknown == (if e.status == Status::Completed { 0 } else { zeros(e.state) as int })
    &&& r.dp == score_spec(e)
}

/// The start state of a grid: walls forbidden, white cells undecided.
fn initial_state_of(cells: &[u8]) -> (s: Vec<u8>)
    ensures
        s@ == initial_state(cells@),
{
    let mut s: Vec<u8> = Vec::new();
    let mut i: usize = 0;
    while i < cells.len()
        invariant
            i <= cells@.len(),
            s@.len() == i,
            forall|j: int| 0 <= j < i ==> #[trigger] s@[j] == (if cells@[j] != 0 { 2u8 } else { 0u8 }),
        decreases cells@.len() - i,
    {
        if cells[i] != 0 {
            s.push(2);
        } else {
            s.push(0);
        }
        i += 1;
    }
    assert(s@ =~= initial_state(cells@));
    s
}

/// A step that does not break reports a change exactly when it changed the state.
proof fn lemma_moved(old: Seq<u8>, new: Seq<u8>, r: Status)
    requires
        refines(new, old),
        progress_outcome(old, new, r),
        r != Status::Broken,
    ensures
        r == moved(old, new),
{
}

/// Technique `k` of the chain, from the easiest: clue neighbours, lamp
/// beams, unique source, placements that break, clue case analysis, source
/// case analysis.
fn run_technique(k: usize, model: &mut Model) -> (r: Status)
    requires
        old(model).wf(),
        k < 6,
    ensures
        final(model).board == old(model).board,
        final(model).wf(),
        refines(final(model).state@, old(model).state@),
        sound_outcome(old(model).board, old(model).state@, final(model).state@, r),
        progress_outcome(old(model).state@, final(model).state@, r),
        (r, final(model).state@, weights_of(final(model).methods)) == technique_spec(
            old(model).board,
            k as int,
            old(model).state@,
            weights_of(old(model).methods),
        ),
{
    let ghost s0 = model.state@;
    let ghost m0 = model.methods;
    let r = if k == 0 {
        clue_neighbors(model)
    } else if k == 1 {
        lamp_beam(model)
    } else if k == 2 {
        unique_source(model)
    } else if k == 3 {
        place_breaks(model)
    } else if k == 4 {
        clue_case_analysis(model)
    } else {
        source_case_analysis(model)
    };
    proof {
        if r != Status::Broken {
            lemma_moved(s0, model.state@, r);
        }
        if k == 0 {
            lemma_records_two_weights(model.methods, m0, Technique::ClueFull, changed_to(s0, model.state@, 2) as int,
                Technique::JustEnough, changed_to(s0, model.state@, 1) as int);
        } else if k == 1 {
            lemma_records_weights(model.methods, m0, Technique::LampBeam, changed_to(s0, model.state@, 2) as int);
        } else if k == 2 {
            lemma_records_weights(model.methods, m0, Technique::OnlySource, changed_to(s0, model.state@, 1) as int);
        } else if k == 3 {
            lemma_records_two_weights(model.methods, m0, Technique::WouldMakeShort, short_count(model.board, s0, s0.len() as int) as int,
                Technique::WouldCreateUnlit, dark_count(model.board, s0, s0.len() as int) as int);
        } else if k == 4 {
            lemma_records_weights(model.methods, m0, Technique::ClueCaseAnalysis, zeros(s0) - zeros(model.state@));
        } else {
            lemma_records_weights(model.methods, m0, Technique::SourceCaseAnalysis, zeros(s0) - zeros(model.state@));
        }
    }
    r
}

/// Runs the technique chain at one level: passes over the first
/// `level_min + 1` techniques in order, repeated while a pass decides some
/// cell (at most `MAX_RETRIES` passes in all when that is not 0). `Broken`
/// as soon as a technique finds a contradiction, `Stopped` after a pass that
/// changed nothing, `Completed` when the pass budget ran out.
fn run_chain(model: &mut Model, level_min: usize, chain_pass: &mut u32) -> (r: Status)
    requires
        old(model).wf(),
        level_min < 6,
    ensures
        final(model).board == old(model).board,
        final(model).wf(),
        refines(final(model).state@, old(model).state@),
        sound_outcome(old(model).board, old(model).state@, final(model).state@, r),
        r != Status::Completed,
        (r, final(model).state@, weights_of(final(model).methods)) == chain_spec(
            old(model).board,
            level_min as int,
            old(model).state@,
            weights_of(old(model).methods),
        ),
{
    let ghost b = model.board;
    let ghost s0 = model.state@;
    let ghost spec0 = chain_spec(b, level_min as int, s0, weights_of(model.methods));
    proof {
        lemma_keeps_refl(b, s0);
        lemma_refines_refl(s0);
    }
    loop
        invariant
            b == old(model).board,
            s0 == old(model).state@,
            model.board == b,
            model.wf(),
            level_min < 6,
            refines(model.state@, s0),
            keeps_solutions(b, s0, model.state@),
            spec0 == chain_spec(b, level_min as int, old(model).state@, weights_of(old(model).methods)),
            spec0 == chain_spec(b, level_min as int, model.state@, weights_of(model.methods)),
        decreases zeros(model.state@),
    {
        *chain_pass = chain_pass.saturating_add(1);
        let ghost pass_start = model.state@;
        let ghost pass_w = weights_of(model.methods);
        proof {
            lemma_refines_refl(pass_start);
        }
        let mut all_no_change = true;
        let mut k: usize = 0;
        while k <= level_min
            invariant
                b == old(model).board,
                s0 == old(model).state@,
                model.board == b,
                model.wf(),
                level_min < 6,
                k <= level_min + 1,
                refines(pass_start, s0),
                refines(model.state@, pass_start),
                keeps_solutions(b, s0, model.state@),
                all_no_change ==> model.state@ == pass_start,
                !all_no_change ==> zeros(model.state@) < zeros(pass_start),
                spec0 == chain_spec(b, level_min as int, old(model).state@, weights_of(old(model).methods)),
                spec0 == chain_spec(b, level_min as int, pass_start, pass_w),
                pass_spec(b, level_min as int, 0, pass_start, pass_w, false)
                    == pass_spec(b, level_min as int, k as int, model.state@, weights_of(model.methods), !all_no_change),
            decreases level_min + 1 - k,
        {
            let ghost before = model.state@;
            let ret = run_technique(k, model);
            proof {
                lemma_refines_trans(model.state@, before, pass_start);
                lemma_refines_zeros(model.state@, before);
            }
            if ret == Status::Broken {
                proof {
                    lemma_unsolvable_back(b, s0, before);
                    lemma_refines_trans(model.state@, pass_start, s0);
                }
                return Status::Broken;
            }
            proof {
                lemma_keeps_trans(b, s0, before, model.state@);
            }
            if ret == Status::Completed {
                all_no_change = false;
            }
            k += 1;
        }
        proof {
            lemma_refines_trans(model.state@, pass_start, s0);
        }
        if all_no_change {
            return Status::Stopped;
        }
        if !(MAX_RETRIES == 0 || *chain_pass < MAX_RETRIES) {
            return Status::Completed;
        }
    }
}

/// Solves the akari puzzle on the `width` by `height` grid `data` (cells in
/// row order: 0 white, 1 wall, 2 to 6 numbered wall with clue 0 to 4) by
/// logic, raising the level while the technique chain stalls: levels 1 to 5
/// add techniques, level 6 tries each candidate cell both ways, level 7
/// nests one more trial. It then counts the solutions when cells remain
/// undecided, and rates the solve.
///
/// Status, level, undecided cells and score are those of `search_spec` on
/// the board of the grid (`solve_matches`). `Broken` only for a puzzle
/// without solution (score 0, no solution); `Completed` only when the
/// puzzle has at most one solution; `Stopped` (level 8) when cells stay
/// undecided, with the solutions counted by search. The score lies in the
/// band of the level reached, and the rating is given exactly when the
/// count is one or unknown.
pub fn solve_by_logicpuzzle(width: usize, height: usize, data: &[u8]) -> (r: LpResult)
    requires
        width * height <= usize::MAX,
        data@.len() == width * height,
    ensures
        r.difficulty_version == 1,
        1 <= r.level <= 8,
        (r.status == Status::Stopped) == (r.level == 8),
        r.unknown <= zeros(initial_state(data@)),
        r.status == Status::Broken ==> r.dp == 0 && r.solutions == SolutionCount::Empty,
        r.status == Status::Broken ==> forall|t: Seq<u8>|
            !#[trigger] grid_solves(width as int, height as int, data@, t),
        r.status == Status::Completed ==> r.unknown == 0 && r.solutions == SolutionCount::Unique,
        r.status == Status::Completed ==> forall|t1: Seq<u8>, t2: Seq<u8>|
            #[trigger] grid_solves(width as int, height as int, data@, t1)
                && #[trigger] grid_solves(width as int, height as int, data@, t2) ==> t1 == t2,
        r.status == Status::Stopped ==> r.unknown > 0,
        r.status == Status::Stopped && r.unknown <= 9 ==> r.solutions != SolutionCount::Unknown,
        r.status == Status::Stopped && r.solutions == SolutionCount::Empty ==> forall|t: Seq<u8>|
            !#[trigger] grid_solves(width as int, height as int, data@, t),
        r.status == Status::Stopped && r.solutions == SolutionCount::Unique ==> exists|t: Seq<u8>|
            #[trigger] grid_solves(width as int, height as int, data@, t) && forall|t2: Seq<u8>|
                #[trigger] grid_solves(width as int, height as int, data@, t2) ==> t2 == t,
        r.status == Status::Stopped && r.solutions == SolutionCount::Multiple ==> exists|
            t1: Seq<u8>,
            t2: Seq<u8>,
        |
            t1 != t2 && #[trigger] grid_solves(width as int, height as int, data@, t1)
                && #[trigger] grid_solves(width as int, height as int, data@, t2),
        r.status != Status::Broken ==> (r.level - 1) * 1000000 <= r.dp < r.level * 1000000,
        r.rating_hundredths == (if r.solutions == SolutionCount::Empty || r.solutions
            == SolutionCount::Multiple {
            None
        } else {
            Some(rating_spec(r.dp as int) as u32)
        }),
        exists|bb: Board| #[trigger] bb.built_from(width as int, height as int, data@)
            && solve_matches(&bb, initial_state(data@), r),
{
    let board = Board::new(width, height, data);
    let ghost w = width as int;
    let ghost h = height as int;
    let ghost s0 = initial_state(data@);
    let state = initial_state_of(data);
    let mut model = Model { board: &board, state, methods: Methods::new() };
    let ghost b = model.board;
    proof {
        lemma_keeps_refl(b, s0);
        lemma_refines_refl(s0);
        assert(valid_state(s0));
    }
    let mut level: u32 = 1;
    let mut chain_pass: u32 = 0;
    let mut level7_done: u32 = 0;
    let mut snapshot_gate: u32 = 0;
    let mut trial_tally = TrialTally::default();
    let mut level6_undecided: u32 = 0;
    let mut level7_undecided: u32 = 0;
    let mut status = Status::Completed;
    let ghost end0 = search_spec(b, s0, no_weights(), 1, false, false, 0, 0, 0, 0);
    proof {
        assert(weights_of(model.methods) =~= no_weights());
    }
    loop
        invariant_except_break
            end0 == search_spec(b, model.state@, weights_of(model.methods), level as int, level7_done != 0,
                snapshot_gate != 0, trial_tally.conclusions as int, trial_tally.nested as int,
                level6_undecided as int, level7_undecided as int),
        invariant
            model.board == b,
            b.built_from(w, h, data@),
            b.cells@ == data@,
            model.wf(),
            s0.len() == b.n(),
            refines(model.state@, s0),
            keeps_solutions(b, s0, model.state@),
            1 <= level <= 7,
            level7_done <= 1,
            snapshot_gate <= 1,
            end0 == search_spec(b, s0, no_weights(), 1, false, false, 0, 0, 0, 0),
        ensures
            model.board == b,
            model.wf(),
            refines(model.state@, s0),
            keeps_solutions(b, s0, model.state@),
            1 <= level <= 7,
            end0 == (SearchEnd {
                status,
                state: model.state@,
                level: level as int,
                weights: weights_of(model.methods),
                conclusions: trial_tally.conclusions as int,
                nested: trial_tally.nested as int,
                level6_undecided: level6_undecided as int,
                level7_undecided: level7_undecided as int,
            }),
            status == Status::Broken ==> unsolvable(b, s0),
            status == Status::Completed ==> forall|t1: Seq<u8>, t2: Seq<u8>|
                #[trigger] solves(b, t1, s0) && #[trigger] solves(b, t2, s0) ==> t1 == t2,
            status == Status::Stopped ==> zeros(model.state@) > 0,
        decreases zeros(model.state@), 8 - level,
    {
        let ghost start = model.state@;
        let iteration_level: u32 = level;
        let level_min: usize = if level < 5 { level as usize } else { 5 };
        let chain = run_chain(&mut model, level_min, &mut chain_pass);
        proof {
            lemma_refines_trans(model.state@, start, s0);
            lemma_refines_zeros(model.state@, start);
        }
        if chain == Status::Broken {
            proof {
                lemma_unsolvable_back(b, s0, start);
            }
            status = Status::Broken;
            break;
        }
        proof {
            lemma_keeps_trans(b, s0, start, model.state@);
        }
        if chain == Status::Completed {
            status = Status::Completed;
            break;
        }
        let undecided: usize = model.undecided();
        if undecided == 0 {
            let solved = is_solution(model.board, model.state.as_slice());
            proof {
                lemma_zeros_none(model.state@);
                assert forall|t: Seq<u8>| #[trigger] solves(b, t, s0) implies t == model.state@ by {
                    lemma_keeps_solves(b, s0, model.state@, t);
                    lemma_extends_decided(t, model.state@);
                }
            }
            if solved {
                status = Status::Completed;
            } else {
                status = Status::Broken;
            }
            break;
        }
        if iteration_level >= TRIAL_THRESHOLD {
            assert((snapshot_gate & 1 == 0) == (snapshot_gate == 0)) by (bit_vector)
                requires
                    snapshot_gate <= 1,
            ;
            if snapshot_gate & 1 == 0 {
                level6_undecided = #[verifier::truncate] (undecided as u32);
            }
            if STOP_BEFORE_TRIAL != 0 {
                status = Status::Completed;
                break;
            }
            if level < 6 {
                level = 6;
            }
            snapshot_gate = 1;
            let ghost before = model.state@;
            let ret = trial_placement(&mut model, &mut trial_tally, 0);
            proof {
                lemma_refines_trans(model.state@, before, s0);
                lemma_refines_zeros(model.state@, before);
            }
            if ret == Status::Completed {
                proof {
                    lemma_keeps_trans(b, s0, before, model.state@);
                }
                continue;
            }
            if ret == Status::Broken {
                proof {
                    lemma_unsolvable_back(b, s0, before);
                }
                status = Status::Completed;
                break;
            }
            if level7_done == 0 {
                level7_undecided = #[verifier::truncate] (model.undecided() as u32);
            }
            if ALLOW_LEVEL7 == 0 {
                status = Status::Completed;
                break;
            }
            level7_done = 1;
            level = 7;
            let ghost before7 = model.state@;
            let ret7 = trial_placement(&mut model, &mut trial_tally, ALLOW_LEVEL7);
            proof {
                lemma_refines_trans(model.state@, before7, s0);
                lemma_refines_zeros(model.state@, before7);
            }
            if ret7 == Status::Broken {
                proof {
                    lemma_unsolvable_back(b, s0, before7);
                }
                status = Status::Broken;
                break;
            }
            proof {
                lemma_keeps_trans(b, s0, before7, model.state@);
            }
            if ret7 == Status::Completed {
                continue;
            }
            status = ret7;
            break;
        } else {
            level += 1;
        }
    }
    let undecided: usize = model.undecided();
    let (final_level, unknown): (u32, usize) = match status {
        Status::Completed => (level, 0),
        Status::Stopped => (8, undecided),
        Status::Broken => (level, undecided),
    };
    proof {
        lemma_refines_zeros(model.state@, s0);
    }
    let dp: u64 = if status == Status::Broken {
        0
    } else {
        let tech: u32 = model.methods.tech();
        let mut difficulty_score: u64 = tech as u64 + trial_tally.nested as u64 * 4
            + level6_undecided as u64 * 12 + (level7_undecided as u64
            + trial_tally.conclusions as u64) * 40;
        if status == Status::Stopped {
            difficulty_score = difficulty_score + (#[verifier::truncate] (unknown as u32)) as u64 * 90;
        }
        let capped: u64 = if difficulty_score < 999999 { difficulty_score } else { 999999 };
        (final_level - 1) as u64 * 1000000 + capped
    };
    let solutions = match status {
        Status::Completed => SolutionCount::Unique,
        Status::Stopped => solution::count(model.board, model.state.as_slice()),
        Status::Broken => SolutionCount::Empty,
    };
    proof {
        assert(walls_decided(b, model.state@)) by {
            assert forall|i: int| 0 <= i < model.state@.len() && b.cells@[i] != 0 implies #[trigger] model.state@[i] != 0 by {
                assert(s0[i] == 2);
            }
        }
        assert forall|t: Seq<u8>| #[trigger] grid_solves(w, h, data@, t) == solves(b, t, s0) by {
            lemma_grid_solution(b, w, h, t);
            lemma_keeps_solves(b, s0, model.state@, t);
        }
        assert forall|t: Seq<u8>| #[trigger] solves(b, t, model.state@) == solves(b, t, s0) by {
            lemma_keeps_solves(b, s0, model.state@, t);
        }
        if solutions == SolutionCount::Multiple {
            let (t1, t2) = choose|t1: Seq<u8>, t2: Seq<u8>|
                t1 != t2 && solves(b, t1, model.state@) && solves(b, t2, model.state@);
            assert(grid_solves(w, h, data@, t1));
            assert(grid_solves(w, h, data@, t2));
        }
        if status == Status::Stopped && solutions == SolutionCount::Unique {
            let t = choose|t: Seq<u8>| #[trigger] solves(b, t, model.state@) && (walls_decided(b, model.state@)
                ==> forall|t2: Seq<u8>| #[trigger] solves(b, t2, model.state@) ==> t2 == t);
            assert(grid_solves(w, h, data@, t));
            assert forall|t2: Seq<u8>| #[trigger] grid_solves(w, h, data@, t2) implies t2 == t by {
                assert(solves(b, t2, model.state@));
            }
        }
        if status == Status::Stopped && solutions == SolutionCount::Empty {
            assert forall|t: Seq<u8>| !#[trigger] grid_solves(w, h, data@, t) by {
                assert(!solves(b, t, model.state@));
            }
        }
    }
    let rating_hundredths = match solutions {
        SolutionCount::Empty | SolutionCount::Multiple => None,
        SolutionCount::Unique | SolutionCount::Unknown => Some(rating_from_dp(dp)),
    };
    LpResult {
        status,
        solutions,
        dp,
        level: final_level,
        unknown,
        rating_hundredths,
        difficulty_version: 1,
    }
}

} // verus!
