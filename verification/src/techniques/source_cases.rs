use vstd::prelude::*;

use crate::answer_methods::{Methods, Technique};
use crate::answer_model::{
    apply_all, decisions_on_undecided, lemma_apply_all_broken, lemma_apply_all_entries, valid_state, Model,
};
use crate::board::{beam_result, clue_neighbors, clue_upto, is_consistent, lamp_beam, Board};
use crate::rules::{
    ext_cell, extends, forced, keeps_solutions, lemma_keeps_refl, lemma_keeps_trans,
    lemma_lights_own_reach, lemma_refines_refl, lemma_refines_trans, lemma_refines_zeros,
    lemma_set_forced, lemma_solvable_is_consistent, lemma_zeros_le_len, lemma_unsolvable_back, lemma_zeros_update,
    progress_outcome, refines, solves, sound_outcome, unsolvable, zeros,
};
use crate::techniques::clue_cases::{lemma_zeros_of_elems, zeros_of};
use crate::techniques::only_source::{has_dark_cell, unique_result, unlit_white};
use crate::techniques::{unique_source, Status};

verus! {

/// The outcome of a trial on `start`: `bad` only if no solution agrees with
/// `start`; otherwise `res` keeps every such solution and refines `start`.
pub open spec fn trial_outcome(b: &Board, start: Seq<u8>, bad: bool, res: Seq<u8>) -> bool {
    &&& bad ==> unsolvable(b, start)
    &&& !bad ==> keeps_solutions(b, start, res) && refines(res, start) && valid_state(res) && res.len() == start.len()
}

/// One round of trial propagation on `s`: the numbered wall constraint,
/// then lamp beams, then only sources. `true` when one of them meets a
/// contradiction; otherwise the board after the round.
pub open spec fn trial_round(b: &Board, s: Seq<u8>) -> (bool, Seq<u8>) {
    let c1 = clue_upto(b, s, b.walls@.len());
    if !c1.0 || !b.no_lamp_conflict(c1.1) {
        (true, c1.1)
    } else {
        let c2 = beam_result(b, c1.1);
        if has_dark_cell(b, c2) {
            (true, c2)
        } else {
            (false, unique_result(b, c2))
        }
    }
}

/// Trial propagation from `s`, `prev` being the number of undecided cells
/// after the previous round: rounds repeat until a round meets a
/// contradiction or leaves that number as it was (it never grows).
pub open spec fn trial_rounds(b: &Board, s: Seq<u8>, prev: int) -> (bool, Seq<u8>)
    decreases prev,
{
    let r = trial_round(b, s);
    let z = zeros(r.1) as int;
    if r.0 {
        r
    } else if z >= prev {
        (false, r.1)
    } else {
        trial_rounds(b, r.1, z)
    }
}

/// The trial propagation of `start`: contradiction, or the board it settles on.
pub open spec fn trial_spec(b: &Board, start: Seq<u8>) -> (bool, Seq<u8>) {
    trial_rounds(b, start, usize::MAX as int)
}

/// Propagates a trial board with the numbered wall constraint, lamp beams and
/// only sources until the number of undecided cells stops changing.
pub fn propagate_trial(board: &Board, start: Vec<u8>) -> (r: (bool, Vec<u8>))
    requires
        board.wf(),
        start@.len() == board.n(),
        valid_state(start@),
    ensures
        trial_outcome(board, start@, r.0, r.1@),
        r.0 == trial_spec(board, start@).0,
        !r.0 ==> r.1@ == trial_spec(board, start@).1,
{
    let ghost s0 = start@;
    let mut copy = start;
    let mut prev = usize::MAX;
    proof {
        lemma_keeps_refl(board, s0);
        lemma_refines_refl(s0);
        lemma_zeros_le_len(s0);
    }
    loop
        invariant
            s0 == start@,
            board.wf(),
            copy@.len() == board.n() == s0.len(),
            valid_state(copy@),
            keeps_solutions(board, s0, copy@),
            refines(copy@, s0),
            zeros(copy@) <= prev,
            trial_spec(board, s0) == trial_rounds(board, copy@, prev as int),
        decreases prev,
    {
        let ghost c0 = copy@;
        let mut prop_model = Model { board: board, state: copy, methods: Methods::new() };
        let neighbor_ret = clue_neighbors(&mut prop_model);
        let ghost c1 = prop_model.state@;
        let beam_ret = lamp_beam(&mut prop_model);
        let ghost c2 = prop_model.state@;
        let source_ret = unique_source(&mut prop_model);
        let ghost c3 = prop_model.state@;
        let undecided = prop_model.undecided();
        copy = prop_model.state;
        proof {
            lemma_refines_trans(c2, c1, c0);
            lemma_refines_trans(c3, c2, c0);
            lemma_refines_trans(c3, c0, s0);
            lemma_refines_zeros(c3, c0);
        }
        proof {
            if neighbor_ret != Status::Broken && beam_ret != Status::Broken && source_ret != Status::Broken {
                assert(trial_round(board, c0) == (false, c3));
            } else {
                assert(trial_round(board, c0).0);
            }
        }
        if neighbor_ret == Status::Broken || beam_ret == Status::Broken || source_ret == Status::Broken {
            proof {
                if neighbor_ret == Status::Broken {
                    lemma_unsolvable_back(board, s0, c0);
                } else if beam_ret == Status::Broken {
                    lemma_unsolvable_back(board, c0, c1);
                    lemma_unsolvable_back(board, s0, c0);
                } else {
                    lemma_keeps_trans(board, c0, c1, c2);
                    lemma_unsolvable_back(board, c0, c2);
                    lemma_unsolvable_back(board, s0, c0);
                }
            }
            return (true, copy);
        }
        proof {
            lemma_keeps_trans(board, c0, c1, c2);
            lemma_keeps_trans(board, c0, c2, c3);
            lemma_keeps_trans(board, s0, c0, c3);
        }
        if undecided == prev {
            return (false, copy);
        }
        prev = undecided;
    }
}

/// Lists the undecided cells in the reach of cell `i`.
fn reach_candidates(board: &Board, state: &Vec<u8>, i: usize) -> (r: Vec<usize>)
    requires
        board.wf(),
        state@.len() == board.n(),
        i < board.n(),
    ensures
        r@ == zeros_of(state@, board.rch(i as int)),
{
    let rr = &board.reach[i];
    assert(rr@ == board.rch(i as int));
    let mut cands: Vec<usize> = Vec::new();
    let mut k: usize = 0;
    while k < rr.len()
        invariant
            board.wf(),
            state@.len() == board.n(),
            i < board.n(),
            rr@ == board.rch(i as int),
            k <= rr@.len(),
            cands@ == zeros_of(state@, rr@.take(k as int)),
        decreases rr@.len() - k,
    {
        let c = rr[k];
        assert(board.rch(i as int)[k as int] == c);
        assert(board.rch(i as int) == board.beam(i as int).push(i as usize)) by {
            if board.cells@[i as int] != 0 {
                assert(board.rch(i as int).len() == 0);
            }
        }
        assert(c < board.n()) by {
            if (k as int) < board.beam(i as int).len() {
                assert(board.beam(i as int)[k as int] == c);
            }
        }
        assert(rr@.take(k + 1).drop_last() =~= rr@.take(k as int));
        if state[c] == 0 {
            cands.push(c);
        }
        k += 1;
    }
    assert(rr@.take(k as int) =~= rr@);
    cands
}

/// A listed undecided cell appears in `zeros_of`.
pub proof fn lemma_zeros_of_has(s: Seq<u8>, nb: Seq<usize>, k: int)
    requires
        0 <= k < nb.len(),
        s[nb[k] as int] == 0,
    ensures
        zeros_of(s, nb).contains(nb[k]),
    decreases nb.len(),
{
    let p = nb.drop_last();
    if k == nb.len() - 1 {
        assert(zeros_of(s, nb).last() == nb[k]);
    } else {
        assert(p[k] == nb[k]);
        lemma_zeros_of_has(s, p, k);
        let zp = zeros_of(s, p);
        let q = choose|q: int| 0 <= q < zp.len() && zp[q] == nb[k];
        assert(zeros_of(s, nb)[q] == nb[k]);
    }
}

/// A solution puts a lamp on one of the undecided cells in the reach of an
/// unlit white cell.
proof fn lemma_some_source(b: &Board, s: Seq<u8>, i: int, t: Seq<u8>)
    requires
        b.wf(),
        s.len() == b.n(),
        0 <= i < s.len(),
        unlit_white(b, s, i),
        solves(b, t, s),
    ensures
        exists|p: int| 0 <= p < zeros_of(s, b.rch(i)).len() && t[#[trigger] zeros_of(s, b.rch(i))[p] as int] == 1,
{
    assert(b.lights(t, i));
    lemma_lights_own_reach(b, t, i);
    lemma_lights_own_reach(b, s, i);
    let k = choose|k: int| 0 <= k < b.rch(i).len() && t[#[trigger] b.rch(i)[k] as int] == 1;
    let j = b.rch(i)[k] as int;
    assert(b.rch(i) == b.beam(i).push(i as usize));
    assert(0 <= j < s.len()) by {
        if k < b.beam(i).len() {
            assert(b.beam(i)[k] == j);
        }
    }
    assert(ext_cell(t[j], s[j]));
    assert(s[b.rch(i)[k] as int] != 1);
    assert(s[j] == 0);
    lemma_zeros_of_has(s, b.rch(i), k);
    let z = zeros_of(s, b.rch(i));
    let p = choose|p: int| 0 <= p < z.len() && z[p] == b.rch(i)[k];
    assert(t[z[p] as int] == 1);
}

/// A target of the analysis: an unlit white cell and the undecided cells of its reach.
pub open spec fn is_target(b: &Board, s: Seq<u8>, tg: (usize, Vec<usize>)) -> bool {
    &&& tg.0 < s.len()
    &&& unlit_white(b, s, tg.0 as int)
    &&& tg.1@ == zeros_of(s, b.rch(tg.0 as int))
    &&& 2 <= tg.1@.len() <= 12
}

/// Cell `i` is a target of the analysis on `s`: an unlit white cell with 2
/// to 12 undecided cells in its reach.
pub open spec fn target_ok(b: &Board, s: Seq<u8>, i: int) -> bool {
    unlit_white(b, s, i) && 2 <= zeros_of(s, b.rch(i)).len() <= 12
}

/// The targets among cells `0..i`, in cell order.
pub open spec fn target_cells(b: &Board, s: Seq<u8>, i: int) -> Seq<usize>
    decreases i,
{
    if i <= 0 {
        Seq::empty()
    } else {
        let prev = target_cells(b, s, i - 1);
        if target_ok(b, s, i - 1) {
            prev.push((i - 1) as usize)
        } else {
            prev
        }
    }
}

/// The entries of `v` whose reach holds `l` undecided cells, in order.
pub open spec fn with_len(b: &Board, s: Seq<u8>, v: Seq<usize>, l: int) -> Seq<usize>
    decreases v.len(),
{
    if v.len() == 0 {
        Seq::empty()
    } else {
        let prev = with_len(b, s, v.drop_last(), l);
        if zeros_of(s, b.rch(v.last() as int)).len() == l {
            prev.push(v.last())
        } else {
            prev
        }
    }
}

/// The targets ordered by their number of undecided reach cells (from 2 up
/// to `l - 1`), then by cell.
pub open spec fn targets_upto(b: &Board, s: Seq<u8>, l: int) -> Seq<usize>
    decreases l,
{
    if l <= 2 {
        Seq::empty()
    } else {
        targets_upto(b, s, l - 1) + with_len(b, s, target_cells(b, s, s.len() as int), l - 1)
    }
}

/// The targets analysed, in order: at most the first 64.
pub open spec fn target_order(b: &Board, s: Seq<u8>) -> Seq<usize> {
    let all = targets_upto(b, s, 13);
    if all.len() <= 64 {
        all
    } else {
        all.take(64)
    }
}

/// The trial of a lamp on cell `c` of `s` is valid: its propagation meets no
/// contradiction and the board it settles on passes the consistency test.
pub open spec fn trial_valid(b: &Board, s: Seq<u8>, c: int) -> bool {
    let p = trial_spec(b, s.update(c, 1));
    !p.0 && b.is_consistent_spec(p.1)
}

/// Some candidate of target `i` has a valid trial.
pub open spec fn target_viable(b: &Board, s: Seq<u8>, i: int) -> bool {
    let cands = zeros_of(s, b.rch(i));
    exists|m: int| 0 <= m < cands.len() && #[trigger] trial_valid(b, s, cands[m] as int)
}

/// What target `i` decides about cell `x` of `s`: for an undecided cell, the
/// value that all valid trials give it, if they agree (a lamp is checked
/// first).
pub open spec fn source_verdict(b: &Board, s: Seq<u8>, i: int, x: int) -> Option<u8> {
    let cands = zeros_of(s, b.rch(i));
    if s[x] != 0 {
        None
    } else if forall|m: int| 0 <= m < cands.len() && #[trigger] trial_valid(b, s, cands[m] as int)
        ==> trial_spec(b, s.update(cands[m] as int, 1)).1[x] == 1 {
        Some(1u8)
    } else if forall|m: int| 0 <= m < cands.len() && #[trigger] trial_valid(b, s, cands[m] as int)
        ==> trial_spec(b, s.update(cands[m] as int, 1)).1[x] == 2 {
        Some(2u8)
    } else {
        None
    }
}

/// The decisions of target `i` about cells `0..x`, in cell order.
pub open spec fn source_decisions(b: &Board, s: Seq<u8>, i: int, x: int) -> Seq<(usize, u8)>
    decreases x,
{
    if x <= 0 {
        Seq::empty()
    } else {
        let prev = source_decisions(b, s, i, x - 1);
        match source_verdict(b, s, i, x - 1) {
            Some(v) => prev.push(((x - 1) as usize, v)),
            None => prev,
        }
    }
}

/// Scanning the targets `tl` from position `t`: the decisions of the first
/// target that has a valid trial and decides something (none when no target
/// does); a target without a valid trial is passed over.
pub open spec fn first_decisions(b: &Board, s: Seq<u8>, tl: Seq<usize>, t: int) -> Seq<(usize, u8)>
    decreases tl.len() - t,
{
    if t < 0 || t >= tl.len() {
        Seq::empty()
    } else if !target_viable(b, s, tl[t] as int) {
        first_decisions(b, s, tl, t + 1)
    } else {
        let d = source_decisions(b, s, tl[t] as int, s.len() as int);
        if d.len() > 0 {
            d
        } else {
            first_decisions(b, s, tl, t + 1)
        }
    }
}

/// Target `i` has a valid trial and decides some cell.
pub open spec fn target_decides(b: &Board, s: Seq<u8>, i: int) -> bool {
    &&& target_viable(b, s, i)
    &&& exists|x: int| 0 <= x < s.len() && (#[trigger] source_verdict(b, s, i, x)) is Some
}

/// The decisions of target `i` about cells `0..x` are its verdicts there,
/// in increasing cell order.
proof fn lemma_source_decisions_entries(b: &Board, s: Seq<u8>, i: int, x: int)
    requires
        0 <= x <= s.len(),
        s.len() <= usize::MAX,
    ensures
        forall|q: int| 0 <= q < source_decisions(b, s, i, x).len() ==> {
            &&& 0 <= (#[trigger] source_decisions(b, s, i, x)[q]).0 < x
            &&& source_verdict(b, s, i, source_decisions(b, s, i, x)[q].0 as int) == Some(source_decisions(b, s, i, x)[q].1)
        },
        forall|y: int| 0 <= y < x && (#[trigger] source_verdict(b, s, i, y)) is Some ==> exists|q: int|
            0 <= q < source_decisions(b, s, i, x).len() && (#[trigger] source_decisions(b, s, i, x)[q]).0 == y,
        forall|p: int, q: int| 0 <= p < q < source_decisions(b, s, i, x).len()
            ==> (#[trigger] source_decisions(b, s, i, x)[p]).0 < (#[trigger] source_decisions(b, s, i, x)[q]).0,
    decreases x,
{
    if x > 0 {
        lemma_source_decisions_entries(b, s, i, x - 1);
        let prev = source_decisions(b, s, i, x - 1);
        let cur = source_decisions(b, s, i, x);
        match source_verdict(b, s, i, x - 1) {
            Some(v) => {
                assert(cur == prev.push(((x - 1) as usize, v)));
                assert(cur[prev.len() as int].0 == x - 1);
            },
            None => {
                assert(cur == prev);
            },
        }
        assert forall|q: int| 0 <= q < cur.len() implies {
            &&& 0 <= (#[trigger] cur[q]).0 < x
            &&& source_verdict(b, s, i, cur[q].0 as int) == Some(cur[q].1)
        } by {
            if q < prev.len() {
                assert(cur[q] == prev[q]);
            }
        }
        assert forall|y: int| 0 <= y < x && (#[trigger] source_verdict(b, s, i, y)) is Some implies exists|q: int|
            0 <= q < cur.len() && (#[trigger] cur[q]).0 == y by {
            if y < x - 1 {
                let q = choose|q: int| 0 <= q < prev.len() && (#[trigger] prev[q]).0 == y;
                assert(cur[q] == prev[q]);
            } else {
                assert(cur[prev.len() as int].0 == y);
            }
        }
        assert forall|p: int, q: int| 0 <= p < q < cur.len() implies (#[trigger] cur[p]).0 < (#[trigger] cur[q]).0 by {
            assert(cur[p] == prev[p]);
            if q < prev.len() {
                assert(cur[q] == prev[q]);
            }
        }
    }
}

/// Applying the decisions of one target: nothing breaks, each cell it
/// decides gets its verdict and every other cell keeps its value; it
/// completes exactly when the target decides some cell.
proof fn lemma_apply_target(b: &Board, s: Seq<u8>, i: int)
    requires
        s.len() <= usize::MAX,
    ensures
        ({
            let res = apply_all(s, source_decisions(b, s, i, s.len() as int));
            &&& res.0 != Status::Broken
            &&& res.1.len() == s.len()
            &&& forall|x: int| 0 <= x < s.len() ==> #[trigger] res.1[x] == (match source_verdict(b, s, i, x) {
                Some(v) => v,
                None => s[x],
            })
            &&& (res.0 == Status::Completed) == exists|x: int| 0 <= x < s.len() && (#[trigger] source_verdict(b, s, i, x)) is Some
            &&& (source_decisions(b, s, i, s.len() as int).len() > 0) == exists|x: int| 0 <= x < s.len() && (#[trigger] source_verdict(b, s, i, x)) is Some
        }),
{
    let list = source_decisions(b, s, i, s.len() as int);
    lemma_source_decisions_entries(b, s, i, s.len() as int);
    assert forall|q: int| 0 <= q < list.len() implies {
        &&& (#[trigger] list[q]).0 < s.len()
        &&& s[list[q].0 as int] == 0
        &&& list[q].1 != 0
    } by {
        assert(source_verdict(b, s, i, list[q].0 as int) == Some(list[q].1));
    }
    assert(decisions_on_undecided(s, list));
    lemma_apply_all_entries(s, list);
    let res = apply_all(s, list);
    assert(res.0 != Status::Broken) by {
        if res.0 == Status::Broken {
            let (p, q) = choose|p: int, q: int| 0 <= p < q < list.len() && #[trigger] list[p].0 == #[trigger] list[q].0 && list[p].1 != list[q].1;
        }
    }
    assert forall|x: int| 0 <= x < s.len() implies #[trigger] res.1[x] == (match source_verdict(b, s, i, x) {
        Some(v) => v,
        None => s[x],
    }) by {
        if source_verdict(b, s, i, x) is Some {
            let q = choose|q: int| 0 <= q < list.len() && (#[trigger] list[q]).0 == x;
            assert(res.1[list[q].0 as int] == list[q].1);
        } else if res.1[x] != s[x] {
            let q = choose|q: int| 0 <= q < list.len() && (#[trigger] list[q]).0 == x && list[q].1 == res.1[x];
            assert(source_verdict(b, s, i, list[q].0 as int) == Some(list[q].1));
        }
    }
    if list.len() > 0 {
        assert(source_verdict(b, s, i, list[0].0 as int) == Some(list[0].1));
        assert((source_verdict(b, s, i, list[0].0 as int)) is Some);
    }
    if exists|x: int| 0 <= x < s.len() && (#[trigger] source_verdict(b, s, i, x)) is Some {
        let x = choose|x: int| 0 <= x < s.len() && (#[trigger] source_verdict(b, s, i, x)) is Some;
        let q = choose|q: int| 0 <= q < list.len() && (#[trigger] list[q]).0 == x;
    }
}

/// The scan of the targets from `t0` gives the decisions of the first
/// target from `t0` on that decides something, and none when no target does.
proof fn lemma_first_decisions(b: &Board, s: Seq<u8>, tl: Seq<usize>, t0: int)
    requires
        0 <= t0,
        s.len() <= usize::MAX,
    ensures
        (forall|t: int| t0 <= t < tl.len() ==> !#[trigger] target_decides(b, s, tl[t] as int))
            ==> first_decisions(b, s, tl, t0).len() == 0,
        forall|t1: int| t0 <= t1 < tl.len() && #[trigger] target_decides(b, s, tl[t1] as int)
            && (forall|t: int| t0 <= t < t1 ==> !#[trigger] target_decides(b, s, tl[t] as int))
            ==> first_decisions(b, s, tl, t0) == source_decisions(b, s, tl[t1] as int, s.len() as int),
    decreases tl.len() - t0,
{
    if t0 < tl.len() {
        lemma_first_decisions(b, s, tl, t0 + 1);
        lemma_apply_target(b, s, tl[t0] as int);
        assert forall|t1: int| t0 <= t1 < tl.len() && #[trigger] target_decides(b, s, tl[t1] as int)
            && (forall|t: int| t0 <= t < t1 ==> !#[trigger] target_decides(b, s, tl[t] as int))
            implies first_decisions(b, s, tl, t0) == source_decisions(b, s, tl[t1] as int, s.len() as int) by {
            if t1 > t0 {
                assert(!target_decides(b, s, tl[t0] as int));
                assert forall|t: int| t0 + 1 <= t < t1 implies !#[trigger] target_decides(b, s, tl[t] as int) by {}
            }
        }
        if forall|t: int| t0 <= t < tl.len() ==> !#[trigger] target_decides(b, s, tl[t] as int) {
            assert(!target_decides(b, s, tl[t0] as int));
        }
    }
}

/// Source case analysis takes the targets in order and applies the
/// decisions of the first one that has a valid trial and decides some cell:
/// that target's verdicts are set, every other cell keeps its value, and
/// the analysis completes. When no target decides anything, nothing
/// changes and it stops.
pub proof fn lemma_source_case_first(b: &Board, s: Seq<u8>)
    requires
        b.wf(),
        s.len() == b.n(),
    ensures
        ({
            let tl = target_order(b, s);
            let res = apply_all(s, first_decisions(b, s, tl, 0));
            &&& (forall|t: int| 0 <= t < tl.len() ==> !#[trigger] target_decides(b, s, tl[t] as int))
                ==> res == (Status::Stopped, s)
            &&& forall|t1: int| 0 <= t1 < tl.len() && #[trigger] target_decides(b, s, tl[t1] as int)
                && (forall|t: int| 0 <= t < t1 ==> !#[trigger] target_decides(b, s, tl[t] as int)) ==> {
                    &&& res.0 == Status::Completed
                    &&& res.1.len() == s.len()
                    &&& forall|x: int| 0 <= x < s.len() ==> #[trigger] res.1[x] == (match source_verdict(b, s, tl[t1] as int, x) {
                        Some(v) => v,
                        None => s[x],
                    })
                }
        }),
{
    let tl = target_order(b, s);
    lemma_first_decisions(b, s, tl, 0);
    assert forall|t1: int| 0 <= t1 < tl.len() && #[trigger] target_decides(b, s, tl[t1] as int)
        && (forall|t: int| 0 <= t < t1 ==> !#[trigger] target_decides(b, s, tl[t] as int)) implies {
            let res = apply_all(s, first_decisions(b, s, tl, 0));
            &&& res.0 == Status::Completed
            &&& res.1.len() == s.len()
            &&& forall|x: int| 0 <= x < s.len() ==> #[trigger] res.1[x] == (match source_verdict(b, s, tl[t1] as int, x) {
                Some(v) => v,
                None => s[x],
            })
        } by {
        lemma_apply_target(b, s, tl[t1] as int);
    }
    if forall|t: int| 0 <= t < tl.len() ==> !#[trigger] target_decides(b, s, tl[t] as int) {
        assert(first_decisions(b, s, tl, 0) =~= Seq::<(usize, u8)>::empty());
    }
}

/// The cells of a list of targets.
pub open spec fn idxs(v: Seq<(usize, Vec<usize>)>) -> Seq<usize> {
    v.map_values(|f: (usize, Vec<usize>)| f.0)
}

/// Without targets there is no order.
proof fn lemma_targets_upto_empty(b: &Board, s: Seq<u8>, l: int)
    requires
        target_cells(b, s, s.len() as int).len() == 0,
    ensures
        targets_upto(b, s, l).len() == 0,
    decreases l,
{
    if l > 2 {
        lemma_targets_upto_empty(b, s, l - 1);
        assert(target_cells(b, s, s.len() as int) =~= Seq::<usize>::empty());
    }
}

/// The verdict of target `i` in the terms of the outcomes of its trials.
proof fn lemma_source_verdict(b: &Board, s: Seq<u8>, i: int, x: int, outcomes: Seq<(bool, Seq<u8>)>)
    requires
        outcomes.len() == zeros_of(s, b.rch(i)).len(),
        forall|mm: int| 0 <= mm < outcomes.len() ==> (#[trigger] outcomes[mm]).0 == trial_valid(b, s, zeros_of(s, b.rch(i))[mm] as int),
        forall|mm: int| 0 <= mm < outcomes.len() && (#[trigger] outcomes[mm]).0 ==> outcomes[mm].1 == trial_spec(
            b,
            s.update(zeros_of(s, b.rch(i))[mm] as int, 1),
        ).1,
        s[x] == 0,
    ensures
        source_verdict(b, s, i, x) == (if forall|mm: int| 0 <= mm < outcomes.len() && (#[trigger] outcomes[mm]).0 ==> outcomes[mm].1[x] == 1 {
            Some(1u8)
        } else if forall|mm: int| 0 <= mm < outcomes.len() && (#[trigger] outcomes[mm]).0 ==> outcomes[mm].1[x] == 2 {
            Some(2u8)
        } else {
            None
        }),
{
    let cands = zeros_of(s, b.rch(i));
    let p1 = forall|mm: int| 0 <= mm < outcomes.len() && (#[trigger] outcomes[mm]).0 ==> outcomes[mm].1[x] == 1;
    let q1 = forall|m: int| 0 <= m < cands.len() && #[trigger] trial_valid(b, s, cands[m] as int)
        ==> trial_spec(b, s.update(cands[m] as int, 1)).1[x] == 1;
    let p2 = forall|mm: int| 0 <= mm < outcomes.len() && (#[trigger] outcomes[mm]).0 ==> outcomes[mm].1[x] == 2;
    let q2 = forall|m: int| 0 <= m < cands.len() && #[trigger] trial_valid(b, s, cands[m] as int)
        ==> trial_spec(b, s.update(cands[m] as int, 1)).1[x] == 2;
    assert(p1 == q1) by {
        if p1 {
            assert forall|m: int| 0 <= m < cands.len() && #[trigger] trial_valid(b, s, cands[m] as int)
                implies trial_spec(b, s.update(cands[m] as int, 1)).1[x] == 1 by {
                assert(outcomes[m].0);
            }
        }
        if q1 {
            assert forall|mm: int| 0 <= mm < outcomes.len() && (#[trigger] outcomes[mm]).0 implies outcomes[mm].1[x] == 1 by {
                assert(trial_valid(b, s, cands[mm] as int));
            }
        }
    }
    assert(p2 == q2) by {
        if p2 {
            assert forall|m: int| 0 <= m < cands.len() && #[trigger] trial_valid(b, s, cands[m] as int)
                implies trial_spec(b, s.update(cands[m] as int, 1)).1[x] == 2 by {
                assert(outcomes[m].0);
            }
        }
        if q2 {
            assert forall|mm: int| 0 <= mm < outcomes.len() && (#[trigger] outcomes[mm]).0 implies outcomes[mm].1[x] == 2 by {
                assert(trial_valid(b, s, cands[mm] as int));
            }
        }
    }
}

/// Source case analysis: the unlit white cells with 2 to 12 possible light
/// sources are taken by number of sources, then by cell (at most 64 of
/// them). For each, a lamp is tried on every source and propagated (numbered
/// walls, beams, only sources) and checked for consistency; the undecided
/// cells on which all valid trials agree are decided, and the analysis stops
/// at the first target that decides something. A target none of whose
/// trials is valid is passed over for the next target.
pub fn source_case_analysis(model: &mut Model) -> (r: Status)
    requires
        old(model).wf(),
    ensures
        (r, final(model).state@) == apply_all(
            old(model).state@,
            first_decisions(old(model).board, old(model).state@, target_order(old(model).board, old(model).state@), 0),
        ),
        final(model).board == old(model).board,
        final(model).wf(),
        refines(final(model).state@, old(model).state@),
        sound_outcome(old(model).board, old(model).state@, final(model).state@, r),
        progress_outcome(old(model).state@, final(model).state@, r),
        final(model).methods.records(
            old(model).methods,
            Technique::SourceCaseAnalysis,
            zeros(old(model).state@) - zeros(final(model).state@),
        ),
        (forall|t: int| 0 <= t < target_order(old(model).board, old(model).state@).len()
            ==> !#[trigger] target_decides(old(model).board, old(model).state@, target_order(old(model).board, old(model).state@)[t] as int))
            ==> r == Status::Stopped && final(model).state@ == old(model).state@,
        forall|t1: int| 0 <= t1 < target_order(old(model).board, old(model).state@).len()
            && #[trigger] target_decides(old(model).board, old(model).state@, target_order(old(model).board, old(model).state@)[t1] as int)
            && (forall|t: int| 0 <= t < t1
                ==> !#[trigger] target_decides(old(model).board, old(model).state@, target_order(old(model).board, old(model).state@)[t] as int))
            ==> r == Status::Completed && forall|x: int| 0 <= x < old(model).state@.len() ==> #[trigger] final(model).state@[x]
                == (match source_verdict(old(model).board, old(model).state@, target_order(old(model).board, old(model).state@)[t1] as int, x) {
                    Some(v) => v,
                    None => old(model).state@[x],
                }),
{
    let ghost b = model.board;
    let ghost s0 = model.state@;
    let ghost m0 = model.methods;
    proof {
        lemma_source_case_first(b, s0);
    }
    let n = model.state.len();
    let lit = model.board.lit(model.state.as_slice());
    let mut found: Vec<(usize, Vec<usize>)> = Vec::new();
    let mut i: usize = 0;
    while i < n
        invariant
            model.board == b,
            model.state@ == s0,
            model.wf(),
            n == s0.len() == b.n(),
            i <= n,
            lit@.len() == n,
            forall|c: int| 0 <= c < n ==> (#[trigger] lit@[c] == 1 <==> b.lights(s0, c)) && (lit@[c] == 0 || lit@[c] == 1),
            forall|q: int| 0 <= q < found@.len() ==> is_target(b, s0, #[trigger] found@[q]),
            idxs(found@) == target_cells(b, s0, i as int),
        decreases n - i,
    {
        if model.board.cells[i] != 0 || lit[i] != 0 {
            proof {
                assert(!target_ok(b, s0, i as int));
                assert(idxs(found@) =~= target_cells(b, s0, i + 1));
            }
            i += 1;
            continue;
        }
        let cands = reach_candidates(model.board, &model.state, i);
        let ghost f0 = found@;
        if cands.len() >= 2 && cands.len() <= 12 {
            found.push((i, cands));
            proof {
                assert(target_ok(b, s0, i as int));
                assert(idxs(found@) =~= idxs(f0).push(i));
            }
        } else {
            proof {
                assert(!target_ok(b, s0, i as int));
            }
        }
        proof {
            assert(idxs(found@) =~= target_cells(b, s0, i + 1));
        }
        i += 1;
    }
    if found.len() == 0 {
        proof {
            assert(idxs(found@) =~= Seq::<usize>::empty());
            lemma_targets_upto_empty(b, s0, 13);
            assert(target_order(b, s0) =~= Seq::<usize>::empty());
            lemma_refines_refl(s0);
            lemma_keeps_refl(b, s0);
            Methods::lemma_records_zero(m0, Technique::SourceCaseAnalysis);
        }
        return Status::Stopped;
    }
    // Order by number of sources, then by cell (a stable bucket order), keep 64.
    let mut targets: Vec<(usize, Vec<usize>)> = Vec::new();
    let mut len: usize = 2;
    proof {
        assert(idxs(targets@) =~= targets_upto(b, s0, 2));
    }
    while len <= 12
        invariant
            2 <= len <= 13,
            n == s0.len(),
            forall|q: int| 0 <= q < found@.len() ==> is_target(b, s0, #[trigger] found@[q]),
            forall|q: int| 0 <= q < targets@.len() ==> is_target(b, s0, #[trigger] targets@[q]),
            idxs(found@) == target_cells(b, s0, n as int),
            idxs(targets@) == targets_upto(b, s0, len as int),
        decreases 13 - len,
    {
        let mut q: usize = 0;
        proof {
            assert(idxs(found@).take(0) =~= Seq::<usize>::empty());
            assert(idxs(targets@) =~= targets_upto(b, s0, len as int) + with_len(b, s0, idxs(found@).take(0), len as int));
        }
        while q < found.len()
            invariant
                2 <= len <= 12,
                q <= found@.len(),
                forall|qq: int| 0 <= qq < found@.len() ==> is_target(b, s0, #[trigger] found@[qq]),
                forall|qq: int| 0 <= qq < targets@.len() ==> is_target(b, s0, #[trigger] targets@[qq]),
                idxs(targets@) == targets_upto(b, s0, len as int) + with_len(b, s0, idxs(found@).take(q as int), len as int),
            decreases found@.len() - q,
        {
            let ghost t0 = targets@;
            proof {
                assert(idxs(found@).take(q + 1).drop_last() =~= idxs(found@).take(q as int));
                assert(is_target(b, s0, found@[q as int]));
            }
            if found[q].1.len() == len {
                let idx = found[q].0;
                let cands = found[q].1.clone();
                assert(cands@ =~= found@[q as int].1@);
                targets.push((idx, cands));
                proof {
                    assert(idxs(targets@) =~= idxs(t0).push(idx));
                }
            }
            proof {
                assert(idxs(targets@) =~= targets_upto(b, s0, len as int) + with_len(b, s0, idxs(found@).take(q + 1), len as int));
            }
            q += 1;
        }
        proof {
            assert(idxs(found@).take(q as int) =~= idxs(found@));
            assert(idxs(targets@) =~= targets_upto(b, s0, len + 1));
        }
        len += 1;
    }
    let ghost before_cut = targets@;
    targets.truncate(64);
    proof {
        assert(idxs(targets@) =~= target_order(b, s0)) by {
            if before_cut.len() > 64 {
                assert(targets@ =~= before_cut.subrange(0, 64));
            }
        }
    }
    let mut determined: Vec<(usize, u8)> = Vec::new();
    let mut t: usize = 0;
    while t < targets.len()
        invariant_except_break
            determined@.len() == 0,
        invariant
            model.board == b,
            model.state@ == s0,
            model.methods == m0,
            model.wf(),
            n == s0.len() == b.n(),
            forall|q: int| 0 <= q < targets@.len() ==> is_target(b, s0, #[trigger] targets@[q]),
            idxs(targets@) == target_order(b, s0),
            t <= targets@.len(),
            first_decisions(b, s0, target_order(b, s0), 0) == first_decisions(b, s0, idxs(targets@), t as int),
            forall|q: int| 0 <= q < determined@.len() ==> {
                &&& (#[trigger] determined@[q]).0 < n
                &&& s0[determined@[q].0 as int] == 0
                &&& (determined@[q].1 == 1 || determined@[q].1 == 2)
                &&& forced(b, s0, determined@[q].0 as int, determined@[q].1)
            },
        ensures
            first_decisions(b, s0, target_order(b, s0), 0) == determined@,
        decreases targets@.len() - t,
    {
        let cands = &targets[t].1;
        let ghost target = targets@[t as int];
        assert(idxs(targets@)[t as int] == target.0);
        assert(is_target(b, s0, target));
        assert(cands@ == zeros_of(s0, b.rch(target.0 as int)));
        proof {
            assert forall|kk: int| 0 <= kk < b.rch(target.0 as int).len() implies #[trigger] b.rch(target.0 as int)[kk] < s0.len() by {
                assert(b.rch(target.0 as int) == b.beam(target.0 as int).push(target.0));
                if kk < b.beam(target.0 as int).len() {
                    assert(b.beam(target.0 as int)[kk] == b.rch(target.0 as int)[kk]);
                }
            }
            lemma_zeros_of_elems(s0, b.rch(target.0 as int));
        }
        let mut always_forbidden: Vec<u8> = vec![1u8; n];
        let mut always_placed: Vec<u8> = vec![1u8; n];
        let mut valid_count: usize = 0;
        let ghost mut outcomes: Seq<(bool, Seq<u8>)> = Seq::empty();
        let mut m: usize = 0;
        while m < cands.len()
            invariant
                model.board == b,
                model.state@ == s0,
                model.wf(),
                n == s0.len() == b.n(),
                forall|q: int| 0 <= q < cands@.len() ==> #[trigger] cands@[q] < n && s0[cands@[q] as int] == 0,
                m <= cands@.len(),
                outcomes.len() == m,
                valid_count <= m,
                valid_count == 0 ==> forall|mm: int| 0 <= mm < m ==> !(#[trigger] outcomes[mm]).0,
                valid_count > 0 ==> exists|mm: int| 0 <= mm < m && (#[trigger] outcomes[mm]).0,
                cands@ == zeros_of(s0, b.rch(target.0 as int)),
                forall|mm: int| 0 <= mm < m ==> (#[trigger] outcomes[mm]).0 == trial_valid(b, s0, cands@[mm] as int),
                forall|mm: int| 0 <= mm < m && (#[trigger] outcomes[mm]).0 ==> outcomes[mm].1 == trial_spec(b, s0.update(cands@[mm] as int, 1)).1,
                forall|mm: int| 0 <= mm < m ==> {
                    let st = s0.update(cands@[mm] as int, 1);
                    &&& (#[trigger] outcomes[mm]).0 ==> keeps_solutions(b, st, outcomes[mm].1) && outcomes[mm].1.len() == n
                    &&& !outcomes[mm].0 ==> unsolvable(b, st)
                },
                always_forbidden@.len() == n,
                always_placed@.len() == n,
                forall|x: int| 0 <= x < n ==> (#[trigger] always_placed@[x] == 1 <==> forall|mm: int| 0 <= mm < m && (#[trigger] outcomes[mm]).0 ==> outcomes[mm].1[x] == 1),
                forall|x: int| 0 <= x < n ==> (#[trigger] always_forbidden@[x] == 1 <==> forall|mm: int| 0 <= mm < m && (#[trigger] outcomes[mm]).0 ==> outcomes[mm].1[x] == 2),
            decreases cands@.len() - m,
        {
            let cand = cands[m];
            let mut copy = model.state.clone();
            assert(copy@ =~= s0);
            copy.set(cand, 1);
            let ghost st = copy@;
            assert(st =~= s0.update(cand as int, 1));
            proof {
                assert forall|x: int| 0 <= x < n implies #[trigger] st[x] <= 2 by {
                    assert(s0[x] <= 2);
                }
            }
            let (bad, copy) = propagate_trial(model.board, copy);
            let ok = if bad { false } else { is_consistent(model.board, copy.as_slice()) };
            let ghost old_f = always_forbidden@;
            let ghost old_p = always_placed@;
            proof {
                if !bad && !ok {
                    assert forall|tt: Seq<u8>| !#[trigger] solves(b, tt, st) by {
                        if solves(b, tt, st) {
                            assert(solves(b, tt, copy@));
                            lemma_solvable_is_consistent(b, copy@, tt);
                        }
                    }
                }
            }
            if ok {
                valid_count += 1;
                let mut x: usize = 0;
                while x < n
                    invariant
                        n == copy@.len(),
                        old_f.len() == n,
                        old_p.len() == n,
                        always_forbidden@.len() == n,
                        always_placed@.len() == n,
                        x <= n,
                        valid_state(copy@),
                        forall|j: int| 0 <= j < x ==> (#[trigger] always_placed@[j] == 1 <==> (old_p[j] == 1 && copy@[j] == 1)),
                        forall|j: int| 0 <= j < x ==> (#[trigger] always_forbidden@[j] == 1 <==> (old_f[j] == 1 && copy@[j] == 2)),
                        forall|j: int| x <= j < n ==> always_placed@[j] == old_p[j] && always_forbidden@[j] == old_f[j],
                    decreases n - x,
                {
                    if copy[x] == 0 {
                        always_forbidden.set(x, 0);
                        always_placed.set(x, 0);
                    } else if copy[x] == 1 {
                        always_forbidden.set(x, 0);
                    } else {
                        always_placed.set(x, 0);
                    }
                    x += 1;
                }
            }
            proof {
                let old_o = outcomes;
                outcomes = outcomes.push((ok, copy@));
                assert(forall|mm: int| 0 <= mm < m ==> outcomes[mm] == old_o[mm]);
                assert(outcomes[m as int] == (ok, copy@));
                assert(ok == trial_valid(b, s0, cands@[m as int] as int));
                if ok {
                    assert(outcomes[m as int].0);
                }
                assert forall|x: int| 0 <= x < n implies (#[trigger] always_placed@[x] == 1 <==> forall|mm: int| 0 <= mm < m + 1 && (#[trigger] outcomes[mm]).0 ==> outcomes[mm].1[x] == 1) by {
                    if always_placed@[x] == 1 {
                        assert forall|mm: int| 0 <= mm < m + 1 && (#[trigger] outcomes[mm]).0 implies outcomes[mm].1[x] == 1 by {
                            if mm < m {
                                assert(old_p[x] == 1);
                                assert(old_o[mm] == outcomes[mm]);
                            }
                        }
                    } else {
                        if ok && old_p[x] == 1 {
                            assert(outcomes[m as int].0);
                        }
                        if !ok {
                            assert(old_p[x] != 1);
                            assert(!(forall|mm: int| 0 <= mm < m && (#[trigger] old_o[mm]).0 ==> old_o[mm].1[x] == 1));
                            let mm = choose|mm: int| !(0 <= mm < m && (#[trigger] old_o[mm]).0 ==> old_o[mm].1[x] == 1);
                            assert(outcomes[mm] == old_o[mm]);
                        }
                    }
                }
                assert forall|x: int| 0 <= x < n implies (#[trigger] always_forbidden@[x] == 1 <==> forall|mm: int| 0 <= mm < m + 1 && (#[trigger] outcomes[mm]).0 ==> outcomes[mm].1[x] == 2) by {
                    if always_forbidden@[x] == 1 {
                        assert forall|mm: int| 0 <= mm < m + 1 && (#[trigger] outcomes[mm]).0 implies outcomes[mm].1[x] == 2 by {
                            if mm < m {
                                assert(old_f[x] == 1);
                                assert(old_o[mm] == outcomes[mm]);
                            }
                        }
                    } else {
                        if ok && old_f[x] == 1 {
                            assert(outcomes[m as int].0);
                        }
                        if !ok {
                            assert(old_f[x] != 1);
                            let mm = choose|mm: int| !(0 <= mm < m && (#[trigger] old_o[mm]).0 ==> old_o[mm].1[x] == 2);
                            assert(outcomes[mm] == old_o[mm]);
                        }
                    }
                }
            }
            m += 1;
        }
        if valid_count == 0 {
            proof {
                assert(!target_viable(b, s0, target.0 as int)) by {
                    if target_viable(b, s0, target.0 as int) {
                        let mm = choose|mm: int| 0 <= mm < cands@.len() && #[trigger] trial_valid(b, s0, cands@[mm] as int);
                        assert(!outcomes[mm].0);
                    }
                }
            }
            t += 1;
            continue;
        }
        let mut x: usize = 0;
        while x < n
            invariant
                model.board == b,
                model.state@ == s0,
                model.wf(),
                n == s0.len() == b.n(),
                target.0 < n,
                unlit_white(b, s0, target.0 as int),
                cands@ == zeros_of(s0, b.rch(target.0 as int)),
                forall|q: int| 0 <= q < cands@.len() ==> #[trigger] cands@[q] < n && s0[cands@[q] as int] == 0,
                outcomes.len() == cands@.len(),
                forall|mm: int| 0 <= mm < cands@.len() ==> {
                    let st = s0.update(cands@[mm] as int, 1);
                    &&& (#[trigger] outcomes[mm]).0 ==> keeps_solutions(b, st, outcomes[mm].1) && outcomes[mm].1.len() == n
                    &&& !outcomes[mm].0 ==> unsolvable(b, st)
                },
                always_forbidden@.len() == n,
                always_placed@.len() == n,
                forall|xx: int| 0 <= xx < n ==> (#[trigger] always_placed@[xx] == 1 <==> forall|mm: int| 0 <= mm < cands@.len() && (#[trigger] outcomes[mm]).0 ==> outcomes[mm].1[xx] == 1),
                forall|xx: int| 0 <= xx < n ==> (#[trigger] always_forbidden@[xx] == 1 <==> forall|mm: int| 0 <= mm < cands@.len() && (#[trigger] outcomes[mm]).0 ==> outcomes[mm].1[xx] == 2),
                x <= n,
                forall|mm: int| 0 <= mm < cands@.len() ==> (#[trigger] outcomes[mm]).0 == trial_valid(b, s0, cands@[mm] as int),
                forall|mm: int| 0 <= mm < cands@.len() && (#[trigger] outcomes[mm]).0 ==> outcomes[mm].1 == trial_spec(b, s0.update(cands@[mm] as int, 1)).1,
                exists|mm: int| 0 <= mm < cands@.len() && (#[trigger] outcomes[mm]).0,
                determined@ == source_decisions(b, s0, target.0 as int, x as int),
                forall|q: int| 0 <= q < determined@.len() ==> {
                    &&& (#[trigger] determined@[q]).0 < n
                    &&& s0[determined@[q].0 as int] == 0
                    &&& (determined@[q].1 == 1 || determined@[q].1 == 2)
                    &&& forced(b, s0, determined@[q].0 as int, determined@[q].1)
                },
            decreases n - x,
        {
            let ghost d0 = determined@;
            if model.state[x] != 0 {
                proof {
                    assert(determined@ =~= source_decisions(b, s0, target.0 as int, x + 1));
                }
                x += 1;
                continue;
            }
            proof {
                lemma_source_verdict(b, s0, target.0 as int, x as int, outcomes);
            }
            if always_placed[x] == 1 || always_forbidden[x] == 1 {
                let value: u8 = if always_placed[x] == 1 { 1 } else { 2 };
                proof {
                    assert forall|tt: Seq<u8>| #[trigger] solves(b, tt, s0) implies tt[x as int] == value by {
                        lemma_some_source(b, s0, target.0 as int, tt);
                        let p = choose|p: int| 0 <= p < cands@.len() && tt[#[trigger] cands@[p] as int] == 1;
                        let st = s0.update(cands@[p] as int, 1);
                        assert(extends(tt, st)) by {
                            assert forall|xx: int| 0 <= xx < st.len() implies ext_cell(tt[xx], st[xx]) by {
                                assert(ext_cell(tt[xx], s0[xx]));
                            }
                        }
                        assert(solves(b, tt, st));
                        assert(outcomes[p].0);
                        assert(extends(tt, outcomes[p].1));
                        assert(ext_cell(tt[x as int], outcomes[p].1[x as int]));
                    }
                }
                determined.push((x, value));
            }
            proof {
                assert(determined@ =~= source_decisions(b, s0, target.0 as int, x + 1));
            }
            x += 1;
        }
        proof {
            assert(target_viable(b, s0, target.0 as int)) by {
                let mm = choose|mm: int| 0 <= mm < cands@.len() && (#[trigger] outcomes[mm]).0;
                assert(trial_valid(b, s0, cands@[mm] as int));
            }
        }
        if determined.len() > 0 {
            break;
        }
        t += 1;
    }
    proof {
        lemma_refines_refl(s0);
        lemma_keeps_refl(b, s0);
        Methods::lemma_records_zero(m0, Technique::SourceCaseAnalysis);
    }
    let mut applied = false;
    let mut q: usize = 0;
    while q < determined.len()
        invariant
            model.board == b,
            b == old(model).board,
            s0 == old(model).state@,
            m0 == old(model).methods,
            model.wf(),
            n == s0.len() == b.n(),
            q <= determined@.len(),
            forall|qq: int| 0 <= qq < determined@.len() ==> {
                &&& (#[trigger] determined@[qq]).0 < n
                &&& s0[determined@[qq].0 as int] == 0
                &&& (determined@[qq].1 == 1 || determined@[qq].1 == 2)
                &&& forced(b, s0, determined@[qq].0 as int, determined@[qq].1)
            },
            forall|x: int| 0 <= x < n && #[trigger] model.state@[x] != s0[x] ==> forced(b, s0, x, model.state@[x]),
            keeps_solutions(b, s0, model.state@),
            refines(model.state@, s0),
            model.methods.records(m0, Technique::SourceCaseAnalysis, zeros(s0) - zeros(model.state@)),
            zeros(model.state@) <= zeros(s0),
            applied <==> model.state@ != s0,
            first_decisions(b, s0, target_order(b, s0), 0) == determined@,
            apply_all(s0, determined@.take(q as int)) == (if applied { Status::Completed } else { Status::Stopped }, model.state@),
        decreases determined@.len() - q,
    {
        let (cell, value) = determined[q];
        proof {
            assert(determined@.take(q + 1).drop_last() =~= determined@.take(q as int));
        }
        let ghost st = model.state@;
        let ghost mc = model.methods;
        proof {
            if st[cell as int] == 0 || st[cell as int] == value {
                lemma_set_forced(b, s0, st, cell as int, value);
            }
        }
        let ret = model.apply(cell, value, Technique::SourceCaseAnalysis);
        match ret {
            Status::Completed => {
                proof {
                    lemma_zeros_update(st, cell as int, value);
                    Methods::lemma_records_trans(m0, mc, model.methods, Technique::SourceCaseAnalysis, zeros(s0) - zeros(st), 1);
                    assert(model.state@[cell as int] != s0[cell as int]);
                    assert forall|x: int| 0 <= x < n && #[trigger] model.state@[x] != s0[x] implies forced(b, s0, x, model.state@[x]) by {
                        if x != cell {
                            assert(model.state@[x] == st[x]);
                        }
                    }
                }
                applied = true;
            },
            Status::Stopped => {},
            Status::Broken => {
                proof {
                    assert(st[cell as int] != s0[cell as int]);
                    assert(forced(b, s0, cell as int, st[cell as int]));
                    assert forall|tt: Seq<u8>| !#[trigger] solves(b, tt, s0) by {
                        if solves(b, tt, s0) {
                            assert(tt[cell as int] == value);
                            assert(tt[cell as int] == st[cell as int]);
                        }
                    }
                    lemma_apply_all_broken(s0, determined@, q + 1);
                    lemma_source_case_first(b, s0);
                }
                return Status::Broken;
            },
        }
        q += 1;
    }
    proof {
        lemma_refines_zeros(model.state@, s0);
        assert(determined@.take(q as int) =~= determined@);
    }
    if applied {
        Status::Completed
    } else {
        Status::Stopped
    }
}

} // verus!
